//! Auditing a capture: record sequence, venue update-id continuity and gap records.
use vstd::prelude::*;
use crate::capture::{self, CaptureRecord};
use crate::feed;
use crate::json::{self, JsonNumber, JsonValue};
use crate::reconstructor::UpdateSpan;
use crate::text;
use crate::time::Timestamp;

verus! {

/// The record sequence skipped: `found` came where `expected` was due.
#[derive(Clone, PartialEq, Eq, Debug, Default)]
pub struct SeqBreak {
    pub expected: u64,
    pub found: u64,
}

/// The venue's update ids skipped: `found` came where `expected` was due.
/// For a gap record written at capture time both are zero.
#[derive(Clone, PartialEq, Eq, Debug, Default)]
pub struct UpdateIdGap {
    pub expected: u64,
    pub found: u64,
}

/// A gap record: where it stands, how many reconnect attempts it took and why.
#[derive(Clone, PartialEq, Eq, Debug, Default)]
pub struct GapDetail {
    pub seq: u64,
    pub attempts: u32,
    pub reason: String,
}

/// The findings of an audit.
#[derive(Debug, Default)]
pub struct CheckReport {
    pub chunks: u64,
    pub records: u64,
    pub venue_frames: u64,
    pub synthetic_records: u64,
    pub checked_frames: u64,
    pub unchecked_frames: u64,
    pub connection_gaps: u64,
    pub update_id_gaps: Vec<UpdateIdGap>,
    pub seq_breaks: Vec<SeqBreak>,
    pub gap_details: Vec<GapDetail>,
    pub undecodable_gaps: u64,
    pub first_ts: Option<Timestamp>,
    pub last_ts: Option<Timestamp>,
    pub manifest_frames: Option<u64>,
}

/// A gap marker read from a record's payload.
pub ghost struct MarkerView {
    pub started_at: int,
    pub ended_at: int,
    pub attempts: u32,
    pub reason: Seq<char>,
}

pub open spec fn as_i64(v: JsonValue) -> Option<i64> {
    match v {
        JsonValue::Number(JsonNumber::UInt(u)) => if u <= i64::MAX {
            Some(u as i64)
        } else {
            None
        },
        JsonValue::Number(JsonNumber::NegInt(i)) => Some(i),
        _ => None,
    }
}

pub open spec fn as_u32(v: JsonValue) -> Option<u32> {
    match v {
        JsonValue::Number(JsonNumber::UInt(u)) => if u <= u32::MAX {
            Some(u as u32)
        } else {
            None
        },
        _ => None,
    }
}

pub open spec fn as_text(v: JsonValue) -> Option<Seq<char>> {
    match v {
        JsonValue::Str(s) => Some(s@),
        _ => None,
    }
}

/// The four fields of a gap marker, as serde reads the struct: from an object
/// by name, or from an array of exactly four items.
pub open spec fn marker_fields(doc: JsonValue) -> Option<(JsonValue, JsonValue, JsonValue, JsonValue)> {
    match doc {
        JsonValue::Object(names, values) => match (
            json::member(names@, values@, "started_at"@),
            json::member(names@, values@, "ended_at"@),
            json::member(names@, values@, "attempts"@),
            json::member(names@, values@, "reason"@),
        ) {
            (Some(a), Some(b), Some(c), Some(d)) => Some((a, b, c, d)),
            _ => None,
        },
        JsonValue::Array(items) => if items@.len() == 4 {
            Some((items@[0], items@[1], items@[2], items@[3]))
        } else {
            None
        },
        _ => None,
    }
}

/// The gap marker a payload holds, if it is one.
pub open spec fn gap_marker(payload: Seq<u8>) -> Option<MarkerView> {
    match json::json_document(payload) {
        None => None,
        Some(doc) => match marker_fields(doc) {
            None => None,
            Some((a, b, c, d)) => match (as_i64(a), as_i64(b), as_u32(c), as_text(d)) {
                (Some(s), Some(e), Some(n), Some(r)) => Some(
                    MarkerView { started_at: s as int, ended_at: e as int, attempts: n, reason: r },
                ),
                _ => None,
            },
        },
    }
}

fn read_i64(v: &JsonValue) -> (r: Option<i64>)
    ensures
        r == as_i64(*v),
{
    match v {
        JsonValue::Number(JsonNumber::UInt(u)) => {
            if *u <= 0x7fff_ffff_ffff_ffff {
                Some(*u as i64)
            } else {
                None
            }
        },
        JsonValue::Number(JsonNumber::NegInt(i)) => Some(*i),
        _ => None,
    }
}

fn read_u32(v: &JsonValue) -> (r: Option<u32>)
    ensures
        r == as_u32(*v),
{
    match v {
        JsonValue::Number(JsonNumber::UInt(u)) => {
            if *u <= 0xffff_ffff {
                Some(*u as u32)
            } else {
                None
            }
        },
        _ => None,
    }
}

/// Reads the gap marker in a payload (see `gap_marker`).
pub fn read_gap_marker(payload: &[u8]) -> (r: Option<(i64, i64, u32, String)>)
    ensures
        match gap_marker(payload@) {
            Some(m) => (r matches Some((s, e, n, reason)) && s == m.started_at && e == m.ended_at
                && n == m.attempts && reason@ == m.reason),
            None => r is None,
        },
{
    let doc = match json::parse_json(payload) {
        Some(d) => d,
        None => {
            return None;
        },
    };
    let (a, b, c, d) = match &doc {
        JsonValue::Object(names, values) => {
            match (
                json::find_member(names, values, "started_at"),
                json::find_member(names, values, "ended_at"),
                json::find_member(names, values, "attempts"),
                json::find_member(names, values, "reason"),
            ) {
                (Some(a), Some(b), Some(c), Some(d)) => (a, b, c, d),
                _ => {
                    return None;
                },
            }
        },
        JsonValue::Array(items) => {
            if items.len() == 4 {
                (&items[0], &items[1], &items[2], &items[3])
            } else {
                return None;
            }
        },
        _ => {
            return None;
        },
    };
    match (read_i64(a), read_i64(b), read_u32(c), d) {
        (Some(s), Some(e), Some(n), JsonValue::Str(reason)) => Some(
            (s, e, n, text::string_from_chars(&text::chars_of(reason.as_str()))),
        ),
        _ => None,
    }
}

/// The audit's running state in mathematical terms.
pub ghost struct AuditState {
    pub records: nat,
    pub venue_frames: nat,
    pub synthetic_records: nat,
    pub checked_frames: nat,
    pub unchecked_frames: nat,
    pub connection_gaps: nat,
    pub update_id_gaps: Seq<(u64, u64)>,
    pub seq_breaks: Seq<(u64, u64)>,
    pub gap_details: Seq<(u64, u32, Seq<char>)>,
    pub undecodable_gaps: nat,
    pub first_ts: Option<Timestamp>,
    pub last_ts: Option<Timestamp>,
    pub expected_seq: u64,
    pub previous_last: Option<u64>,
}

pub open spec fn audit_start() -> AuditState {
    AuditState {
        records: 0,
        venue_frames: 0,
        synthetic_records: 0,
        checked_frames: 0,
        unchecked_frames: 0,
        connection_gaps: 0,
        update_id_gaps: Seq::empty(),
        seq_breaks: Seq::empty(),
        gap_details: Seq::empty(),
        undecodable_gaps: 0,
        first_ts: None,
        last_ts: None,
        expected_seq: 0,
        previous_last: None,
    }
}

/// The sequence number due after `seq`, wrapping at the top of `u64`.
pub open spec fn next_seq(seq: u64) -> u64 {
    if seq == u64::MAX {
        0
    } else {
        (seq + 1) as u64
    }
}

/// Whether a reason marks a venue update-id gap.
pub open spec fn is_update_id_reason(reason: Seq<char>) -> bool {
    "update_id_gap"@.is_prefix_of(reason)
}

/// What one record adds to an audit. Every record is counted and its socket
/// time observed, and the record sequence is checked. A synthetic record is
/// a gap record: its marker is classified as an update-id gap or a connection
/// gap, or counted as undecodable. A venue frame whose update span can be
/// read is checked for continuity with the previous checked frame.
pub open spec fn audit_step(s: AuditState, r: CaptureRecord) -> AuditState {
    let s1 = AuditState {
        records: s.records + 1,
        first_ts: if s.first_ts is None {
            Some(r.ts_socket)
        } else {
            s.first_ts
        },
        last_ts: Some(r.ts_socket),
        seq_breaks: if r.seq != s.expected_seq {
            s.seq_breaks.push((s.expected_seq, r.seq))
        } else {
            s.seq_breaks
        },
        expected_seq: next_seq(r.seq),
        ..s
    };
    if r.flags.0 & capture::SYNTHETIC_BIT == capture::SYNTHETIC_BIT {
        let s2 = AuditState { synthetic_records: s1.synthetic_records + 1, ..s1 };
        match gap_marker(r.payload@) {
            Some(m) => {
                let s3 = AuditState {
                    gap_details: s2.gap_details.push((r.seq, m.attempts, m.reason)),
                    ..s2
                };
                if is_update_id_reason(m.reason) {
                    AuditState { update_id_gaps: s3.update_id_gaps.push((0u64, 0u64)), ..s3 }
                } else {
                    AuditState { connection_gaps: s3.connection_gaps + 1, ..s3 }
                }
            },
            None => AuditState { undecodable_gaps: s2.undecodable_gaps + 1, ..s2 },
        }
    } else {
        let s2 = AuditState { venue_frames: s1.venue_frames + 1, ..s1 };
        match feed_span(r) {
            Some(span) => AuditState {
                checked_frames: s2.checked_frames + 1,
                update_id_gaps: match s2.previous_last {
                    Some(p) => if span.first > p + 1 {
                        s2.update_id_gaps.push(((p + 1) as u64, span.first))
                    } else {
                        s2.update_id_gaps
                    },
                    None => s2.update_id_gaps,
                },
                previous_last: Some(span.last),
                ..s2
            },
            None => AuditState { unchecked_frames: s2.unchecked_frames + 1, ..s2 },
        }
    }
}

/// The update span `feed::update_span` reads from a record.
pub open spec fn feed_span(r: CaptureRecord) -> Option<UpdateSpan> {
    if feed::is_binance_depth(r.instrument@.0, r.channel) {
        match json::json_document(r.payload@) {
            Some(doc) => feed::depth_span(doc),
            None => None,
        }
    } else {
        None
    }
}

/// The audit of records in order.
pub open spec fn audit(records: Seq<CaptureRecord>) -> AuditState
    decreases records.len(),
{
    if records.len() == 0 {
        audit_start()
    } else {
        audit_step(audit(records.drop_last()), records.last())
    }
}

/// Every record of an audit is counted once: as a venue frame or as a gap
/// record; every venue frame as checked or unchecked; and every gap record as
/// listed among the gap details or as undecodable.
pub proof fn lemma_audit_counts(records: Seq<CaptureRecord>)
    ensures
        audit(records).records == records.len(),
        audit(records).venue_frames + audit(records).synthetic_records == records.len(),
        audit(records).checked_frames + audit(records).unchecked_frames == audit(
            records,
        ).venue_frames,
        audit(records).gap_details.len() + audit(records).undecodable_gaps == audit(
            records,
        ).synthetic_records,
        audit(records).seq_breaks.len() <= records.len(),
    decreases records.len(),
{
    if records.len() > 0 {
        lemma_audit_counts(records.drop_last());
    }
}

/// Records numbered 0, 1, 2, ... in order show no sequence break, and the
/// next number due is their count.
pub proof fn lemma_sequential_records_have_no_breaks(records: Seq<CaptureRecord>)
    requires
        records.len() <= u64::MAX,
        forall|i: int| 0 <= i < records.len() ==> (#[trigger] records[i]).seq == i,
    ensures
        audit(records).seq_breaks.len() == 0,
        audit(records).expected_seq == records.len(),
    decreases records.len(),
{
    if records.len() > 0 {
        let prefix = records.drop_last();
        assert forall|i: int| 0 <= i < prefix.len() implies (#[trigger] prefix[i]).seq == i by {
            assert(prefix[i] == records[i]);
        }
        lemma_sequential_records_have_no_breaks(prefix);
        assert(records[records.len() - 1].seq == records.len() - 1);
    }
}

/// A record whose number is not the one due is reported as a break, with the
/// number that was due and the number found, and nothing already reported is
/// lost.
pub proof fn lemma_break_is_reported(records: Seq<CaptureRecord>, r: CaptureRecord)
    requires
        r.seq != audit(records).expected_seq,
    ensures
        audit(records.push(r)).seq_breaks == audit(records).seq_breaks.push(
            (audit(records).expected_seq, r.seq),
        ),
{
    assert(records.push(r).drop_last() =~= records);
}

/// The sequence number due at position `i` of a capture: zero first, then
/// the one after the number before it.
pub open spec fn expected_at(records: Seq<CaptureRecord>, i: int) -> u64 {
    if i <= 0 {
        0
    } else {
        next_seq(records[i - 1].seq)
    }
}

/// Every position whose number is not the one due, in order, with the number
/// due and the number found.
pub open spec fn seq_breaks_of(records: Seq<CaptureRecord>) -> Seq<(u64, u64)>
    decreases records.len(),
{
    if records.len() == 0 {
        Seq::empty()
    } else {
        let i = records.len() - 1;
        let before = seq_breaks_of(records.drop_last());
        if records[i].seq != expected_at(records, i) {
            before.push((expected_at(records, i), records[i].seq))
        } else {
            before
        }
    }
}

/// An audit reports exactly the sequence breaks of its records: each position
/// whose number is not the one after the number before it (zero at the start),
/// in order.
pub proof fn lemma_seq_breaks_listed(records: Seq<CaptureRecord>)
    ensures
        audit(records).seq_breaks == seq_breaks_of(records),
        audit(records).expected_seq == expected_at(records, records.len() as int),
    decreases records.len(),
{
    if records.len() > 0 {
        let prefix = records.drop_last();
        lemma_seq_breaks_listed(prefix);
        let i = records.len() - 1;
        if i > 0 {
            assert(prefix[i - 1] == records[i - 1]);
        }
        assert(expected_at(prefix, prefix.len() as int) == expected_at(records, i));
        assert forall|j: int| 0 <= j <= prefix.len() implies expected_at(prefix, j) == expected_at(
            records,
            j,
        ) by {
            if j > 0 {
                assert(prefix[j - 1] == records[j - 1]);
            }
        }
    }
}

/// A checked venue frame whose first update id is past the one after the
/// previous checked frame's last is reported as an update-id gap, with the id
/// that was due and the id found; the frame then becomes the previous one.
pub proof fn lemma_update_gap_is_reported(records: Seq<CaptureRecord>, r: CaptureRecord, p: u64, span: UpdateSpan)
    requires
        r.flags.0 & capture::SYNTHETIC_BIT != capture::SYNTHETIC_BIT,
        feed_span(r) == Some(span),
        audit(records).previous_last == Some(p),
        span.first > p + 1,
    ensures
        audit(records.push(r)).update_id_gaps == audit(records).update_id_gaps.push(
            ((p + 1) as u64, span.first),
        ),
        audit(records.push(r)).previous_last == Some(span.last),
{
    assert(records.push(r).drop_last() =~= records);
}

/// The last update id of the last venue frame among `records` whose update
/// span can be read.
pub open spec fn previous_last_of(records: Seq<CaptureRecord>) -> Option<u64>
    decreases records.len(),
{
    if records.len() == 0 {
        None
    } else {
        let r = records.last();
        if r.flags.0 & capture::SYNTHETIC_BIT != capture::SYNTHETIC_BIT && feed_span(r) is Some {
            Some(feed_span(r)->0.last)
        } else {
            previous_last_of(records.drop_last())
        }
    }
}

/// The update-id gap record `r` shows after `before`: a gap record whose
/// reason marks an update-id gap gives `(0, 0)`; a checked venue frame whose
/// first update id is past the one after the previous checked frame's last
/// gives the id due and the id found.
pub open spec fn update_id_gap_at(before: Seq<CaptureRecord>, r: CaptureRecord) -> Option<(u64, u64)> {
    if r.flags.0 & capture::SYNTHETIC_BIT == capture::SYNTHETIC_BIT {
        match gap_marker(r.payload@) {
            Some(m) => if is_update_id_reason(m.reason) {
                Some((0u64, 0u64))
            } else {
                None
            },
            None => None,
        }
    } else {
        match (feed_span(r), previous_last_of(before)) {
            (Some(span), Some(p)) => if span.first > p + 1 {
                Some(((p + 1) as u64, span.first))
            } else {
                None
            },
            _ => None,
        }
    }
}

/// Every update-id gap of a capture, in record order.
pub open spec fn update_id_gaps_of(records: Seq<CaptureRecord>) -> Seq<(u64, u64)>
    decreases records.len(),
{
    if records.len() == 0 {
        Seq::empty()
    } else {
        let before = update_id_gaps_of(records.drop_last());
        match update_id_gap_at(records.drop_last(), records.last()) {
            Some(g) => before.push(g),
            None => before,
        }
    }
}

/// An audit reports exactly the update-id gaps of its records, in record
/// order: each gap record marked as an update-id gap, and each checked venue
/// frame that skips update ids after the previous checked frame.
pub proof fn lemma_update_id_gaps_listed(records: Seq<CaptureRecord>)
    ensures
        audit(records).update_id_gaps == update_id_gaps_of(records),
        audit(records).previous_last == previous_last_of(records),
    decreases records.len(),
{
    if records.len() > 0 {
        lemma_update_id_gaps_listed(records.drop_last());
    }
}

/// How many gap details carry a reason that is not an update-id reason.
pub open spec fn connection_details(details: Seq<(u64, u32, Seq<char>)>) -> nat
    decreases details.len(),
{
    if details.len() == 0 {
        0
    } else {
        connection_details(details.drop_last()) + if is_update_id_reason(details.last().2) {
            0nat
        } else {
            1nat
        }
    }
}

/// How many update-id gaps are the `(0, 0)` entries of gap records.
pub open spec fn marker_gaps(gaps: Seq<(u64, u64)>) -> nat
    decreases gaps.len(),
{
    if gaps.len() == 0 {
        0
    } else {
        marker_gaps(gaps.drop_last()) + if gaps.last() == (0u64, 0u64) {
            1nat
        } else {
            0nat
        }
    }
}

/// Every decodable gap record is classified exactly once: as a connection gap
/// when its reason is not an update-id reason, whatever the disconnect was (a
/// venue close, a read error, ...), and otherwise as an update-id gap. So the
/// connection gaps are exactly the gap details whose reason is not an
/// update-id reason, and together with the update-id gaps the gap records
/// gave they are every gap detail.
pub proof fn lemma_gap_records_classified(records: Seq<CaptureRecord>)
    ensures
        audit(records).connection_gaps == connection_details(audit(records).gap_details),
        audit(records).connection_gaps + marker_gaps(audit(records).update_id_gaps) == audit(
            records,
        ).gap_details.len(),
    decreases records.len(),
{
    if records.len() > 0 {
        let before = audit(records.drop_last());
        lemma_gap_records_classified(records.drop_last());
        let after = audit(records);
        if after.gap_details.len() > before.gap_details.len() {
            assert(after.gap_details.drop_last() =~= before.gap_details);
        } else {
            assert(after.gap_details =~= before.gap_details);
        }
        if after.update_id_gaps.len() > before.update_id_gaps.len() {
            assert(after.update_id_gaps.drop_last() =~= before.update_id_gaps);
        } else {
            assert(after.update_id_gaps =~= before.update_id_gaps);
        }
    }
}

impl CheckReport {
    /// No record sequence break, no update-id gap and no undecodable gap record.
    pub fn is_healthy(&self) -> (r: bool)
        ensures
            r == (self.seq_breaks@.len() == 0 && self.update_id_gaps@.len() == 0
                && self.undecodable_gaps == 0),
    {
        self.seq_breaks.len() == 0 && self.update_id_gaps.len() == 0 && self.undecodable_gaps == 0
    }

    /// Whether this report holds the audit state `s` and the given counts.
    pub open spec fn shows(&self, s: AuditState, chunks: u64, manifest_frames: u64) -> bool {
        &&& self.chunks == chunks
        &&& self.manifest_frames == Some(manifest_frames)
        &&& self.records == s.records
        &&& self.venue_frames == s.venue_frames
        &&& self.synthetic_records == s.synthetic_records
        &&& self.checked_frames == s.checked_frames
        &&& self.unchecked_frames == s.unchecked_frames
        &&& self.connection_gaps == s.connection_gaps
        &&& self.update_id_gaps@.map_values(|g: UpdateIdGap| (g.expected, g.found))
            == s.update_id_gaps
        &&& self.seq_breaks@.map_values(|b: SeqBreak| (b.expected, b.found)) == s.seq_breaks
        &&& self.gap_details@.map_values(|d: GapDetail| (d.seq, d.attempts, d.reason@))
            == s.gap_details
        &&& self.undecodable_gaps == s.undecodable_gaps
        &&& self.first_ts == s.first_ts
        &&& self.last_ts == s.last_ts
    }
}

fn starts_with_text(s: &String, prefix: &str) -> (r: bool)
    ensures
        r == prefix@.is_prefix_of(s@),
{
    let v = text::chars_of(s.as_str());
    let p = text::chars_of(prefix);
    if p.len() > v.len() {
        return false;
    }
    let mut i: usize = 0;
    while i < p.len()
        invariant
            0 <= i <= p@.len() <= v@.len(),
            p@ == prefix@,
            v@ == s@,
            forall|j: int| 0 <= j < i ==> p@[j] == v@[j],
        decreases p.len() - i,
    {
        if p[i] != v[i] {
            return false;
        }
        i += 1;
    }
    assert(p@ =~= v@.subrange(0, p@.len() as int));
    true
}

/// Audits the records of a capture read from `chunks` chunks, against the
/// number of frames its manifest declares (see `audit`).
pub fn check(records: &[CaptureRecord], chunks: u64, manifest_frames: u64) -> (r: CheckReport)
    ensures
        r.shows(audit(records@), chunks, manifest_frames),
{
    let mut report = CheckReport {
        chunks,
        records: 0,
        venue_frames: 0,
        synthetic_records: 0,
        checked_frames: 0,
        unchecked_frames: 0,
        connection_gaps: 0,
        update_id_gaps: Vec::new(),
        seq_breaks: Vec::new(),
        gap_details: Vec::new(),
        undecodable_gaps: 0,
        first_ts: None,
        last_ts: None,
        manifest_frames: Some(manifest_frames),
    };
    let mut expected_seq: u64 = 0;
    let mut previous_last: Option<u64> = None;
    let mut i: usize = 0;
    proof {
        assert(records@.take(0) =~= Seq::<CaptureRecord>::empty());
        assert(report.update_id_gaps@.map_values(|g: UpdateIdGap| (g.expected, g.found))
            =~= Seq::<(u64, u64)>::empty());
        assert(report.seq_breaks@.map_values(|b: SeqBreak| (b.expected, b.found))
            =~= Seq::<(u64, u64)>::empty());
        assert(report.gap_details@.map_values(|d: GapDetail| (d.seq, d.attempts, d.reason@))
            =~= Seq::<(u64, u32, Seq<char>)>::empty());
    }
    while i < records.len()
        invariant
            0 <= i <= records@.len(),
            report.shows(audit(records@.take(i as int)), chunks, manifest_frames),
            expected_seq == audit(records@.take(i as int)).expected_seq,
            previous_last == audit(records@.take(i as int)).previous_last,
            audit(records@.take(i as int)).records == i,
            audit(records@.take(i as int)).venue_frames + audit(records@.take(i as int)).synthetic_records == i,
            audit(records@.take(i as int)).checked_frames + audit(records@.take(i as int)).unchecked_frames
                == audit(records@.take(i as int)).venue_frames,
            audit(records@.take(i as int)).connection_gaps + audit(records@.take(i as int)).undecodable_gaps
                <= audit(records@.take(i as int)).synthetic_records,
        decreases records.len() - i,
    {
        let record = &records[i];
        let ghost before = audit(records@.take(i as int));
        proof {
            assert(records@.take(i + 1).drop_last() =~= records@.take(i as int));
            assert(records@.take(i + 1).last() == *record);
        }
        report.records = report.records + 1;
        if report.first_ts.is_none() {
            report.first_ts = Some(record.ts_socket);
        }
        report.last_ts = Some(record.ts_socket);
        if record.seq != expected_seq {
            let ghost old_breaks = report.seq_breaks@;
            report.seq_breaks.push(SeqBreak { expected: expected_seq, found: record.seq });
            assert(report.seq_breaks@.map_values(|b: SeqBreak| (b.expected, b.found))
                =~= old_breaks.map_values(|b: SeqBreak| (b.expected, b.found)).push(
                (expected_seq, record.seq),
            ));
        }
        expected_seq = record.seq.wrapping_add(1);
        if record.flags.contains(capture::CaptureFlags::synthetic()) {
            report.synthetic_records = report.synthetic_records + 1;
            match read_gap_marker(record.payload.as_slice()) {
                Some((_, _, attempts, reason)) => {
                    let update_gap = starts_with_text(&reason, "update_id_gap");
                    if update_gap {
                        let ghost old_gaps = report.update_id_gaps@;
                        report.update_id_gaps.push(UpdateIdGap { expected: 0, found: 0 });
                        assert(report.update_id_gaps@.map_values(
                            |g: UpdateIdGap| (g.expected, g.found),
                        ) =~= old_gaps.map_values(|g: UpdateIdGap| (g.expected, g.found)).push(
                            (0u64, 0u64),
                        ));
                    } else {
                        report.connection_gaps = report.connection_gaps + 1;
                    }
                    let ghost old_details = report.gap_details@;
                    let ghost reason_view = reason@;
                    report.gap_details.push(GapDetail { seq: record.seq, attempts, reason });
                    assert(report.gap_details@.map_values(
                        |d: GapDetail| (d.seq, d.attempts, d.reason@),
                    ) =~= old_details.map_values(|d: GapDetail| (d.seq, d.attempts, d.reason@)).push(
                        (record.seq, attempts, reason_view),
                    ));
                },
                None => {
                    report.undecodable_gaps = report.undecodable_gaps + 1;
                },
            }
        } else {
            report.venue_frames = report.venue_frames + 1;
            match feed::update_span(record.instrument.venue(), record.channel, record.payload.as_slice()) {
                Some(span) => {
                    report.checked_frames = report.checked_frames + 1;
                    if let Some(previous) = previous_last {
                        if span.first as u128 > previous as u128 + 1 {
                            let ghost old_gaps = report.update_id_gaps@;
                            report.update_id_gaps.push(
                                UpdateIdGap { expected: previous + 1, found: span.first },
                            );
                            assert(report.update_id_gaps@.map_values(
                                |g: UpdateIdGap| (g.expected, g.found),
                            ) =~= old_gaps.map_values(|g: UpdateIdGap| (g.expected, g.found)).push(
                                ((previous + 1) as u64, span.first),
                            ));
                        }
                    }
                    previous_last = Some(span.last);
                },
                None => {
                    report.unchecked_frames = report.unchecked_frames + 1;
                },
            }
        }
        i += 1;
    }
    assert(records@.take(records@.len() as int) =~= records@);
    report
}

} // verus!
