//! The decisions of a live capture: what each frame, disconnect and reconnect
//! becomes in the record stream, and when the capture stops. The caller does
//! the socket, clock and file work and hands the outcomes to a `CaptureSession`.
use vstd::prelude::*;
use crate::capture::{self, CaptureFlags, CaptureId, CaptureManifest, CaptureRecord, GapMarker};
use crate::feed;
use crate::instrument::{Channel, Instrument, MarketType, Venue};
use crate::reconstructor::UpdateSpan;
use crate::text;
use crate::time::Timestamp;

verus! {

/// The stem of a capture's manifest file, which is JSON: the file is this
/// stem with the `.json` extension.
pub const MANIFEST_STEM: &'static str = "manifest";

/// The directory, inside a capture, that holds its chunks and their index.
pub const FRAMES_DIR: &'static str = "frames";

/// How many records a live capture writes per chunk.
pub const RECORDS_PER_CHUNK: usize = 2000;

/// How long, in milliseconds, one socket read waits before the stop
/// conditions are looked at again.
pub const READ_POLL_MILLIS: u64 = 250;

/// The wait, in milliseconds, before the first reconnect attempt.
pub const RECONNECT_INITIAL_BACKOFF_MILLIS: u64 = 250;

/// The longest wait, in milliseconds, between reconnect attempts.
pub const RECONNECT_MAX_BACKOFF_MILLIS: u64 = 30000;

pub const STOP_IN_PROGRESS: &'static str = "in_progress";

pub const STOP_INTERRUPTED: &'static str = "interrupted";

pub const STOP_MAX_FRAMES: &'static str = "max_frames_reached";

pub const STOP_DURATION: &'static str = "duration_elapsed";

pub const STOP_VENUE_CLOSED: &'static str = "connection_closed_by_venue";

pub const STOP_RECONNECT_EXHAUSTED: &'static str = "reconnect_exhausted";

pub const GAP_VENUE_CLOSE: &'static str = "venue_close";

pub const GAP_READ_ERROR: &'static str = "read_error";

/// What a capture is asked to do. `output` is the capture directory and
/// `duration` a limit in milliseconds.
#[derive(Clone, Debug)]
pub struct CaptureOptions {
    pub output: String,
    pub instrument: Instrument,
    pub channel: Channel,
    pub url: String,
    pub max_frames: Option<u64>,
    pub duration: Option<u64>,
    pub max_reconnects: u32,
}

/// What a capture did.
#[derive(Clone, Debug)]
pub struct CaptureOutcome {
    pub capture_id: String,
    pub frames_written: u64,
    pub checked_frames: u64,
    pub connection_gaps: u64,
    pub sequence_gaps: u64,
    pub stop_reason: String,
}

/// The reason written for a venue update-id gap.
pub open spec fn update_gap_reason(expected: nat, saw: nat) -> Seq<char> {
    "update_id_gap: expected "@ + text::decimal(expected) + ", saw "@ + text::decimal(saw)
}

/// Follows the update ids of the frames of one connection.
#[derive(Debug, Default)]
pub struct SequenceTracker {
    pub previous_last: Option<u64>,
    pub checked: u64,
    pub gaps: u64,
}

/// What checking a frame's span does to a tracker, and the gap reason it
/// reports: a frame without a span changes nothing; a frame with one is
/// counted and becomes the previous frame; it reveals a gap when there was a
/// previous frame and its first id is not the one after that frame's last.
pub open spec fn tracker_check(t: SequenceTracker, span: Option<UpdateSpan>) -> (SequenceTracker, Option<Seq<char>>) {
    match span {
        None => (t, None),
        Some(s) => {
            let t1 = SequenceTracker { previous_last: Some(s.last), checked: (t.checked + 1) as u64, ..t };
            match t.previous_last {
                None => (t1, None),
                Some(p) => if s.first == p + 1 {
                    (t1, None)
                } else {
                    (
                        SequenceTracker { gaps: (t.gaps + 1) as u64, ..t1 },
                        Some(update_gap_reason((p + 1) as nat, s.first as nat)),
                    )
                },
            }
        },
    }
}

impl SequenceTracker {
    pub fn new() -> (r: SequenceTracker)
        ensures
            r.previous_last is None,
            r.checked == 0,
            r.gaps == 0,
    {
        SequenceTracker { previous_last: None, checked: 0, gaps: 0 }
    }

    /// Forgets the previous frame, as after a reconnect; the counts stay.
    pub fn reset(&mut self)
        ensures
            *final(self) == (SequenceTracker { previous_last: None, ..*old(self) }),
    {
        self.previous_last = None;
    }

    /// Checks a frame's span (see `tracker_check`).
    pub fn check(&mut self, span: Option<UpdateSpan>) -> (r: Option<String>)
        requires
            old(self).checked < u64::MAX,
            old(self).gaps < u64::MAX,
        ensures
            *final(self) == tracker_check(*old(self), span).0,
            match tracker_check(*old(self), span).1 {
                Some(reason) => r is Some && r->0@ == reason,
                None => r is None,
            },
    {
        let s = match span {
            Some(s) => s,
            None => {
                return None;
            },
        };
        self.checked = self.checked + 1;
        let previous = self.previous_last;
        self.previous_last = Some(s.last);
        let p = match previous {
            Some(p) => p,
            None => {
                return None;
            },
        };
        let expected: u128 = p as u128 + 1;
        if s.first as u128 == expected {
            return None;
        }
        self.gaps = self.gaps + 1;
        let mut out: Vec<char> = Vec::new();
        text::push_str(&mut out, "update_id_gap: expected ");
        text::push_decimal(&mut out, expected);
        text::push_str(&mut out, ", saw ");
        text::push_decimal(&mut out, s.first as u128);
        assert(out@ =~= update_gap_reason((p + 1) as nat, s.first as nat));
        Some(text::string_from_chars(&out))
    }
}

/// Why a connection ended.
#[derive(Clone, PartialEq, Eq, Debug)]
pub enum Disconnect {
    VenueClose,
    ReadError(String),
}

/// The reason a gap record gives for a disconnect.
pub open spec fn gap_reason_text(d: Disconnect) -> Seq<char> {
    match d {
        Disconnect::VenueClose => "venue_close"@,
        Disconnect::ReadError(e) => "read_error: "@ + e@,
    }
}

/// The stop reason of a capture that ends at a disconnect.
pub open spec fn stop_reason_text(d: Disconnect) -> Seq<char> {
    match d {
        Disconnect::VenueClose => "connection_closed_by_venue"@,
        Disconnect::ReadError(e) => "read_error: "@ + e@,
    }
}

impl Disconnect {
    pub fn gap_reason(&self) -> (r: String)
        ensures
            r@ == gap_reason_text(*self),
    {
        let mut out: Vec<char> = Vec::new();
        match self {
            Disconnect::VenueClose => text::push_str(&mut out, GAP_VENUE_CLOSE),
            Disconnect::ReadError(e) => {
                text::push_str(&mut out, GAP_READ_ERROR);
                text::push_str(&mut out, ": ");
                text::push_str(&mut out, e.as_str());
            },
        }
        proof {
            reveal_strlit("venue_close");
            reveal_strlit("read_error");
            reveal_strlit(": ");
            reveal_strlit("read_error: ");
        }
        assert(out@ =~= gap_reason_text(*self));
        text::string_from_chars(&out)
    }

    pub fn stop_reason(&self) -> (r: String)
        ensures
            r@ == stop_reason_text(*self),
    {
        let mut out: Vec<char> = Vec::new();
        match self {
            Disconnect::VenueClose => text::push_str(&mut out, STOP_VENUE_CLOSED),
            Disconnect::ReadError(e) => {
                text::push_str(&mut out, GAP_READ_ERROR);
                text::push_str(&mut out, ": ");
                text::push_str(&mut out, e.as_str());
            },
        }
        proof {
            reveal_strlit("connection_closed_by_venue");
            reveal_strlit("read_error");
            reveal_strlit(": ");
            reveal_strlit("read_error: ");
        }
        assert(out@ =~= stop_reason_text(*self));
        text::string_from_chars(&out)
    }
}


/// The reason a capture stops with when a reconnect attempt fails.
pub open spec fn reconnect_failed_text(error: Seq<char>) -> Seq<char> {
    "reconnect_failed: "@ + error
}

pub fn reconnect_failed_reason(error: &str) -> (r: String)
    ensures
        r@ == reconnect_failed_text(error@),
{
    let mut out: Vec<char> = Vec::new();
    text::push_str(&mut out, "reconnect_failed: ");
    text::push_str(&mut out, error);
    text::string_from_chars(&out)
}

/// A lowercase hexadecimal digit.
pub open spec fn is_lower_hex(c: char) -> bool {
    ('0' <= c && c <= '9') || ('a' <= c && c <= 'f')
}

/// The text of a random (version 4) UUID: 36 characters, hyphens at
/// positions 8, 13, 18 and 23, lowercase hexadecimal digits elsewhere, and
/// the version digit `4` at position 14.
pub open spec fn uuid_shaped(s: Seq<char>) -> bool {
    &&& s.len() == 36
    &&& forall|i: int|
        0 <= i < 36 ==> if i == 8 || i == 13 || i == 18 || i == 23 {
            #[trigger] s[i] == '-'
        } else {
            is_lower_hex(s[i])
        }
    &&& s[14] == '4'
}

/// Draws a random UUID and writes it out (`uuid::Uuid::new_v4`, then its
/// `Display`, which writes the hyphenated lowercase form with the version
/// nibble set to 4). Which digits come out rests on chance: only the shape
/// is stated.
#[verifier::external_body]
fn random_uuid_text() -> (r: String)
    ensures
        uuid_shaped(r@),
{
    uuid::Uuid::new_v4().to_string()
}

/// A fresh identifier for a capture: a random UUID's text.
pub fn new_capture_id() -> (r: String)
    ensures
        uuid_shaped(r@),
{
    random_uuid_text()
}

/// The manifest of a capture just begun: no frame written yet, its stop
/// reason "in progress".
pub fn init_manifest(capture_id: String, created_at: Timestamp, instrument: &Instrument, channel: Channel) -> (r:
    CaptureManifest)
    ensures
        r.schema_version == capture::SCHEMA_VERSION,
        r.capture_id@ == capture_id@,
        r.created_at == created_at,
        r.instrument@ == instrument@,
        r.channel == channel,
        r.frames_written == 0,
        r.stop_reason matches Some(reason) && reason@ == "in_progress"@,
{
    proof {
        reveal_strlit("in_progress");
    }
    CaptureManifest {
        schema_version: capture::SCHEMA_VERSION,
        capture_id: CaptureId::new(capture_id),
        created_at,
        instrument: instrument.clone(),
        channel,
        frames_written: 0,
        stop_reason: Some(text::string_from_chars(&text::chars_of(STOP_IN_PROGRESS))),
    }
}

/// What a live capture has done so far, in mathematical terms.
pub ghost struct SessionView {
    pub seq: u64,
    pub frames: u64,
    pub connection_gaps: u64,
    pub last_frame_at: Option<Timestamp>,
    pub tracker: SequenceTracker,
    pub session_started: Timestamp,
    pub reconnects_used: u32,
    pub backoff: u64,
    pub instrument: (Venue, MarketType, Seq<char>),
    pub channel: Channel,
    pub max_frames: Option<u64>,
    pub duration: Option<u64>,
    pub max_reconnects: u32,
}

/// The state of a live capture.
pub struct CaptureSession {
    seq: u64,
    frames: u64,
    connection_gaps: u64,
    last_frame_at: Option<Timestamp>,
    tracker: SequenceTracker,
    session_started: Timestamp,
    reconnects_used: u32,
    backoff: u64,
    instrument: Instrument,
    channel: Channel,
    max_frames: Option<u64>,
    duration: Option<u64>,
    max_reconnects: u32,
}

impl View for CaptureSession {
    type V = SessionView;

    closed spec fn view(&self) -> SessionView {
        SessionView {
            seq: self.seq,
            frames: self.frames,
            connection_gaps: self.connection_gaps,
            last_frame_at: self.last_frame_at,
            tracker: self.tracker,
            session_started: self.session_started,
            reconnects_used: self.reconnects_used,
            backoff: self.backoff,
            instrument: self.instrument@,
            channel: self.channel,
            max_frames: self.max_frames,
            duration: self.duration,
            max_reconnects: self.max_reconnects,
        }
    }
}

/// Counts never exceed what they count, reconnects never exceed the limit,
/// and the backoff stays between its first value and its cap.
pub open spec fn session_ok(s: SessionView) -> bool {
    &&& s.frames <= s.seq
    &&& s.connection_gaps <= s.seq
    &&& s.tracker.checked <= s.frames
    &&& s.tracker.gaps <= s.tracker.checked
    &&& s.reconnects_used <= s.max_reconnects
    &&& RECONNECT_INITIAL_BACKOFF_MILLIS <= s.backoff <= RECONNECT_MAX_BACKOFF_MILLIS
}

/// Why a capture stops before its next read, if it does: an interruption,
/// then the frame limit, then the duration limit.
pub open spec fn stop_before_read(s: SessionView, interrupted: bool, elapsed_millis: u64) -> Option<Seq<char>> {
    if interrupted {
        Some("interrupted"@)
    } else if s.max_frames matches Some(limit) && s.frames >= limit {
        Some("max_frames_reached"@)
    } else if s.duration matches Some(limit) && elapsed_millis >= limit {
        Some("duration_elapsed"@)
    } else {
        None
    }
}

/// The update span `feed::update_span` reads from a payload of the session's
/// instrument and channel.
pub open spec fn frame_span(s: SessionView, payload: Seq<u8>) -> Option<UpdateSpan> {
    if feed::is_binance_depth(s.instrument.0, s.channel) {
        match crate::json::json_document(payload) {
            Some(doc) => feed::depth_span(doc),
            None => None,
        }
    } else {
        None
    }
}

/// The records a frame becomes: a gap record first where the frame reveals an
/// update-id gap, then the frame itself.
pub struct FramePlan {
    pub gap: Option<(u64, GapMarker)>,
    pub record: CaptureRecord,
}

/// What a disconnect leads to: the end of the capture, or a reconnect after
/// a wait, the gap then starting at `gap_started` and closing after `attempts`
/// attempts in all.
pub enum DisconnectPlan {
    Stop(String),
    Reconnect { wait_millis: u64, gap_started: Timestamp, attempts: u32 },
}

impl CaptureSession {
    #[verifier::type_invariant]
    closed spec fn well_formed(self) -> bool {
        session_ok(self@)
    }

    /// A session for the given options whose first connection opened at `started`.
    pub fn new(options: &CaptureOptions, started: Timestamp) -> (r: CaptureSession)
        ensures
            r@ == (SessionView {
                seq: 0,
                frames: 0,
                connection_gaps: 0,
                last_frame_at: None,
                tracker: SequenceTracker { previous_last: None, checked: 0, gaps: 0 },
                session_started: started,
                reconnects_used: 0,
                backoff: RECONNECT_INITIAL_BACKOFF_MILLIS,
                instrument: options.instrument@,
                channel: options.channel,
                max_frames: options.max_frames,
                duration: options.duration,
                max_reconnects: options.max_reconnects,
            }),
            session_ok(r@),
    {
        CaptureSession {
            seq: 0,
            frames: 0,
            connection_gaps: 0,
            last_frame_at: None,
            tracker: SequenceTracker::new(),
            session_started: started,
            reconnects_used: 0,
            backoff: RECONNECT_INITIAL_BACKOFF_MILLIS,
            instrument: options.instrument.clone(),
            channel: options.channel,
            max_frames: options.max_frames,
            duration: options.duration,
            max_reconnects: options.max_reconnects,
        }
    }

    /// The stop reason before the next read (see `stop_before_read`).
    pub fn stop_reason(&self, interrupted: bool, elapsed_millis: u64) -> (r: Option<String>)
        ensures
            match stop_before_read(self@, interrupted, elapsed_millis) {
                Some(reason) => r is Some && r->0@ == reason,
                None => r is None,
            },
    {
        let reason: &str = if interrupted {
            STOP_INTERRUPTED
        } else if match self.max_frames {
            Some(limit) => self.frames >= limit,
            None => false,
        } {
            STOP_MAX_FRAMES
        } else if match self.duration {
            Some(limit) => elapsed_millis >= limit,
            None => false,
        } {
            STOP_DURATION
        } else {
            return None;
        };
        proof {
            reveal_strlit("interrupted");
            reveal_strlit("max_frames_reached");
            reveal_strlit("duration_elapsed");
        }
        Some(text::string_from_chars(&text::chars_of(reason)))
    }

    /// The records a received frame becomes (see `FramePlan`): a gap record,
    /// stamped `gap_time`, where the frame's update ids do not follow the
    /// previous frame's, then the frame, stamped `frame_time`, with its
    /// payload byte for byte. Each takes the next sequence number.
    pub fn on_frame(&mut self, payload: &[u8], gap_time: Timestamp, frame_time: Timestamp) -> (r: FramePlan)
        requires
            old(self)@.seq < u64::MAX - 1,
        ensures
            ({
                let s = old(self)@;
                let (t, reason) = tracker_check(s.tracker, frame_span(s, payload@));
                let frame_seq: u64 = if reason is Some {
                    (s.seq + 1) as u64
                } else {
                    s.seq
                };
                &&& match reason {
                    Some(text) => r.gap matches Some((seq, marker)) && seq == s.seq
                        && marker.started_at == (match s.last_frame_at {
                        Some(at) => at,
                        None => gap_time,
                    }) && marker.ended_at == gap_time && marker.attempts == 0 && marker.reason@
                        == text,
                    None => r.gap is None,
                }
                &&& r.record.seq == frame_seq
                &&& r.record.instrument@ == s.instrument
                &&& r.record.channel == s.channel
                &&& r.record.ts_socket == frame_time
                &&& r.record.ts_exchange is None
                &&& r.record.payload@ == payload@
                &&& r.record.flags.0 == 0
                &&& final(self)@ == SessionView {
                    seq: (frame_seq + 1) as u64,
                    frames: (s.frames + 1) as u64,
                    last_frame_at: Some(frame_time),
                    tracker: t,
                    ..s
                }
            }),
            session_ok(final(self)@),
    {
        proof {
            use_type_invariant(&*self);
        }
        let span = feed::update_span(self.instrument.venue(), self.channel, payload);
        let mut tracker = SequenceTracker {
            previous_last: self.tracker.previous_last,
            checked: self.tracker.checked,
            gaps: self.tracker.gaps,
        };
        let reason = tracker.check(span);
        let gap = match reason {
            Some(text) => {
                let started_at = match self.last_frame_at {
                    Some(at) => at,
                    None => gap_time,
                };
                let seq = self.seq;
                Some((seq, GapMarker { started_at, ended_at: gap_time, attempts: 0, reason: text }))
            },
            None => None,
        };
        let frame_seq = if gap.is_some() {
            self.seq + 1
        } else {
            self.seq
        };
        let record = CaptureRecord {
            seq: frame_seq,
            instrument: self.instrument.clone(),
            channel: self.channel,
            ts_socket: frame_time,
            ts_exchange: None,
            payload: crate::store::vec_copy(payload),
            flags: CaptureFlags::none(),
        };
        self.seq = frame_seq + 1;
        self.frames = self.frames + 1;
        self.tracker = tracker;
        self.last_frame_at = Some(frame_time);
        FramePlan { gap, record }
    }

    /// A gap record of this session's instrument and channel: synthetic, a
    /// sequence gap, unreliable, stamped with the gap's end.
    pub fn gap_record(&self, seq: u64, ended_at: Timestamp, payload: Vec<u8>) -> (r: CaptureRecord)
        ensures
            r.seq == seq,
            r.instrument@ == self@.instrument,
            r.channel == self@.channel,
            r.ts_socket == ended_at,
            r.ts_exchange is None,
            r.payload@ == payload@,
            r.flags.0 == capture::gap_flag_bits(),
    {
        let flags = CaptureFlags::synthetic().union(CaptureFlags::sequence_gap()).union(
            CaptureFlags::unreliable(),
        );
        CaptureRecord {
            seq,
            instrument: self.instrument.clone(),
            channel: self.channel,
            ts_socket: ended_at,
            ts_exchange: None,
            payload,
            flags,
        }
    }

    /// What a disconnect leads to. With reconnects left, the next attempt is
    /// counted and waits the current backoff, which then doubles up to its
    /// cap; the gap starts at the last frame, or at the start of the
    /// connection if it brought none. Without, the capture stops: at the
    /// disconnect's own reason if no reconnect was allowed, else because the
    /// reconnects ran out.
    pub fn on_disconnect(&mut self, disconnect: &Disconnect) -> (r: DisconnectPlan)
        ensures
            ({
                let s = old(self)@;
                if s.reconnects_used >= s.max_reconnects {
                    &&& r matches DisconnectPlan::Stop(reason) && reason@ == (if s.max_reconnects == 0 {
                        stop_reason_text(*disconnect)
                    } else {
                        "reconnect_exhausted"@
                    })
                    &&& final(self)@ == s
                } else {
                    let backoff = if 2 * s.backoff < RECONNECT_MAX_BACKOFF_MILLIS {
                        (2 * s.backoff) as u64
                    } else {
                        RECONNECT_MAX_BACKOFF_MILLIS
                    };
                    &&& r matches DisconnectPlan::Reconnect { wait_millis, gap_started, attempts }
                        && wait_millis == s.backoff && gap_started == (match s.last_frame_at {
                        Some(at) => at,
                        None => s.session_started,
                    }) && attempts == s.reconnects_used + 1
                    &&& final(self)@ == SessionView {
                        reconnects_used: (s.reconnects_used + 1) as u32,
                        backoff,
                        ..s
                    }
                }
            }),
            session_ok(final(self)@),
    {
        proof {
            use_type_invariant(&*self);
        }
        if self.reconnects_used >= self.max_reconnects {
            let reason = if self.max_reconnects == 0 {
                disconnect.stop_reason()
            } else {
                proof {
                    reveal_strlit("reconnect_exhausted");
                }
                text::string_from_chars(&text::chars_of(STOP_RECONNECT_EXHAUSTED))
            };
            return DisconnectPlan::Stop(reason);
        }
        self.reconnects_used = self.reconnects_used + 1;
        let gap_started = match self.last_frame_at {
            Some(at) => at,
            None => self.session_started,
        };
        let wait_millis = self.backoff;
        self.backoff = if 2 * self.backoff < RECONNECT_MAX_BACKOFF_MILLIS {
            2 * self.backoff
        } else {
            RECONNECT_MAX_BACKOFF_MILLIS
        };
        DisconnectPlan::Reconnect { wait_millis, gap_started, attempts: self.reconnects_used }
    }

    /// A new connection opened at `now` after a disconnect: the gap record it
    /// closes takes the next sequence number and runs from `gap_started` to
    /// `now`; the connection is counted and the update-id check starts afresh.
    pub fn on_reconnected(&mut self, now: Timestamp, gap_started: Timestamp, attempts: u32, disconnect: &Disconnect) -> (r: (
        u64,
        GapMarker,
    ))
        requires
            old(self)@.seq < u64::MAX,
        ensures
            r.0 == old(self)@.seq,
            r.1.started_at == gap_started,
            r.1.ended_at == now,
            r.1.attempts == attempts,
            r.1.reason@ == gap_reason_text(*disconnect),
            final(self)@ == (SessionView {
                seq: (old(self)@.seq + 1) as u64,
                connection_gaps: (old(self)@.connection_gaps + 1) as u64,
                session_started: now,
                tracker: SequenceTracker { previous_last: None, ..old(self)@.tracker },
                ..old(self)@
            }),
            session_ok(final(self)@),
    {
        proof {
            use_type_invariant(&*self);
        }
        let seq = self.seq;
        let reason = disconnect.gap_reason();
        self.session_started = now;
        self.seq = self.seq + 1;
        self.connection_gaps = self.connection_gaps + 1;
        self.tracker.previous_last = None;
        (seq, GapMarker { started_at: gap_started, ended_at: now, attempts, reason })
    }

    /// What the capture did, under the given identifier and stop reason.
    pub fn outcome(&self, capture_id: String, stop_reason: String) -> (r: CaptureOutcome)
        ensures
            r.capture_id@ == capture_id@,
            r.frames_written == self@.frames,
            r.checked_frames == self@.tracker.checked,
            r.connection_gaps == self@.connection_gaps,
            r.sequence_gaps == self@.tracker.gaps,
            r.stop_reason@ == stop_reason@,
    {
        CaptureOutcome {
            capture_id,
            frames_written: self.frames,
            checked_frames: self.tracker.checked,
            connection_gaps: self.connection_gaps,
            sequence_gaps: self.tracker.gaps,
            stop_reason,
        }
    }

    /// The number the next record will carry.
    pub fn next_seq(&self) -> (r: u64)
        ensures
            r == self@.seq,
    {
        self.seq
    }
}


/// The frame limit counts venue frames only. Whether a capture stops before
/// its next read depends on the interruption, the frames written and the time
/// elapsed, never on the gap records written or the connections made: two
/// sessions with the same limits and the same frame count stop alike. With
/// no interruption, the frame limit stops the capture exactly when as many
/// frames as the limit have been written.
pub proof fn lemma_frame_limit_counts_frames(
    s: SessionView,
    other: SessionView,
    interrupted: bool,
    elapsed_millis: u64,
)
    requires
        other.frames == s.frames,
        other.max_frames == s.max_frames,
        other.duration == s.duration,
    ensures
        stop_before_read(other, interrupted, elapsed_millis) == stop_before_read(
            s,
            interrupted,
            elapsed_millis,
        ),
        !interrupted && s.max_frames is Some ==> (stop_before_read(s, interrupted, elapsed_millis)
            == Some("max_frames_reached"@) <==> s.frames >= s.max_frames->0),
        !interrupted && s.max_frames is None ==> stop_before_read(s, interrupted, elapsed_millis)
            != Some("max_frames_reached"@),
{
    reveal_strlit("max_frames_reached");
    reveal_strlit("duration_elapsed");
    assert("max_frames_reached"@ != "duration_elapsed"@) by {
        assert("max_frames_reached"@[0] != "duration_elapsed"@[0]);
    }
}

/// The gap records a capture writes are classified by an audit as they were
/// meant: an update-id gap reason reads as an update-id gap, and a
/// disconnect's reason as a connection gap.
pub proof fn lemma_gap_reasons_classify(expected: nat, saw: nat, d: Disconnect)
    ensures
        crate::audit::is_update_id_reason(update_gap_reason(expected, saw)),
        !crate::audit::is_update_id_reason(gap_reason_text(d)),
{
    reveal_strlit("update_id_gap");
    reveal_strlit("update_id_gap: expected ");
    reveal_strlit("venue_close");
    reveal_strlit("read_error: ");
    let reason = update_gap_reason(expected, saw);
    assert("update_id_gap"@ =~= reason.subrange(0, 13));
    match d {
        Disconnect::VenueClose => {
            assert("update_id_gap"@.len() > "venue_close"@.len());
        },
        Disconnect::ReadError(e) => {
            assert(gap_reason_text(d)[0] == 'r');
            assert("update_id_gap"@[0] == 'u');
        },
    }
}


/// Gap records carry the synthetic bit, so a reader that skips synthetic
/// records never takes one for venue data, while captured frames, which carry
/// no flag, are never skipped.
pub proof fn lemma_gap_records_are_synthetic()
    ensures
        capture::gap_flag_bits() & capture::SYNTHETIC_BIT == capture::SYNTHETIC_BIT,
        capture::gap_flag_bits() & capture::SEQUENCE_GAP_BIT == capture::SEQUENCE_GAP_BIT,
        capture::gap_flag_bits() & capture::UNRELIABLE_BIT == capture::UNRELIABLE_BIT,
        0u32 & capture::SYNTHETIC_BIT != capture::SYNTHETIC_BIT,
{
    assert((64u32 | 1u32 | 16u32) & 64u32 == 64u32) by (bit_vector);
    assert((64u32 | 1u32 | 16u32) & 1u32 == 1u32) by (bit_vector);
    assert((64u32 | 1u32 | 16u32) & 16u32 == 16u32) by (bit_vector);
    assert(0u32 & 64u32 != 64u32) by (bit_vector);
}

} // verus!
