use astra::capture::{CaptureFlags, SCHEMA_VERSION};
use astra::instrument::{Channel, Instrument, MarketType, Symbol, Venue};
use astra::reconstructor::UpdateSpan;
use astra::session::{
    init_manifest, new_capture_id, reconnect_failed_reason, CaptureOptions, CaptureSession,
    Disconnect, DisconnectPlan, SequenceTracker, GAP_VENUE_CLOSE, RECONNECT_INITIAL_BACKOFF_MILLIS,
    RECONNECT_MAX_BACKOFF_MILLIS, STOP_DURATION, STOP_INTERRUPTED, STOP_MAX_FRAMES,
    STOP_RECONNECT_EXHAUSTED, STOP_VENUE_CLOSED,
};
use astra::time::Timestamp;

fn instrument() -> Instrument {
    Instrument::new(
        Venue::Binance,
        MarketType::Spot,
        Symbol::new("BTC/USDT").unwrap(),
    )
}

fn options() -> CaptureOptions {
    CaptureOptions {
        output: "capture".to_owned(),
        instrument: instrument(),
        channel: Channel::BookDiff,
        url: "ws://localhost".to_owned(),
        max_frames: None,
        duration: None,
        max_reconnects: 0,
    }
}

fn depth_frame(first: u64, last: u64) -> String {
    format!(r#"{{"e":"depthUpdate","s":"BTCUSDT","U":{first},"u":{last},"b":[],"a":[]}}"#)
}

fn at(nanos: i64) -> Timestamp {
    Timestamp::from_unix_nanos(nanos)
}

#[test]
fn frames_are_recorded_with_exact_payloads() {
    let mut session = CaptureSession::new(&options(), at(1));
    let payloads: [&[u8]; 3] = [b"{\"a\":1}", "h\u{e9}llo".as_bytes(), b""];
    let mut records = Vec::new();
    for (i, payload) in payloads.iter().enumerate() {
        let plan = session.on_frame(payload, at(10 + i as i64), at(11 + i as i64));
        assert!(plan.gap.is_none());
        records.push(plan.record);
    }
    assert_eq!(records[0].payload, b"{\"a\":1}");
    assert_eq!(records[1].payload, "h\u{e9}llo".as_bytes());
    assert_eq!(records[2].payload, Vec::<u8>::new());
    assert_eq!(records[0].seq, 0);
    assert_eq!(records[2].seq, 2);
    assert_eq!(records[0].instrument, instrument());
    assert_eq!(records[0].flags, CaptureFlags::none());

    let outcome = session.outcome("id".to_owned(), STOP_VENUE_CLOSED.to_owned());
    assert_eq!(outcome.frames_written, 3);
    assert_eq!(outcome.connection_gaps, 0);
    assert_eq!(outcome.sequence_gaps, 0);
    assert_eq!(outcome.checked_frames, 0);
    assert_eq!(outcome.stop_reason, STOP_VENUE_CLOSED);
}

#[test]
fn continuous_update_ids_produce_no_gaps() {
    let mut session = CaptureSession::new(&options(), at(1));
    for (first, last) in [(100, 110), (111, 120), (121, 130)] {
        let plan = session.on_frame(depth_frame(first, last).as_bytes(), at(5), at(6));
        assert!(plan.gap.is_none());
    }
    let outcome = session.outcome("id".to_owned(), STOP_VENUE_CLOSED.to_owned());
    assert_eq!(outcome.frames_written, 3);
    assert_eq!(outcome.checked_frames, 3);
    assert_eq!(outcome.sequence_gaps, 0);
    assert_eq!(outcome.connection_gaps, 0);
    assert_eq!(session.next_seq(), 3);
}

#[test]
fn update_id_gaps_are_detected() {
    let mut session = CaptureSession::new(&options(), at(1));
    let mut seqs = Vec::new();
    let mut gaps = Vec::new();
    for (i, (first, last)) in [(100, 110), (111, 120), (200, 210)].into_iter().enumerate() {
        let plan = session.on_frame(depth_frame(first, last).as_bytes(), at(100 + i as i64), at(101 + i as i64));
        if let Some((seq, marker)) = plan.gap {
            seqs.push(seq);
            gaps.push(marker);
        }
        seqs.push(plan.record.seq);
    }
    assert_eq!(seqs, vec![0, 1, 2, 3]);
    assert_eq!(gaps.len(), 1);
    assert_eq!(gaps[0].attempts, 0);
    assert_eq!(gaps[0].reason, "update_id_gap: expected 121, saw 200");

    let outcome = session.outcome("id".to_owned(), STOP_VENUE_CLOSED.to_owned());
    assert_eq!(outcome.frames_written, 3);
    assert_eq!(outcome.checked_frames, 3);
    assert_eq!(outcome.sequence_gaps, 1);
    assert_eq!(outcome.connection_gaps, 0);

    let gap_record = session.gap_record(2, gaps[0].ended_at, b"{}".to_vec());
    assert!(gap_record.flags.contains(CaptureFlags::synthetic()));
    assert!(gap_record.flags.contains(CaptureFlags::sequence_gap()));
    assert!(gap_record.flags.contains(CaptureFlags::unreliable()));
    assert_eq!(gap_record.seq, 2);
}

#[test]
fn the_sequence_gap_precedes_the_frame_that_revealed_it() {
    let mut session = CaptureSession::new(&options(), at(1));
    let first = session.on_frame(depth_frame(100, 110).as_bytes(), at(10), at(11));
    let second = session.on_frame(depth_frame(500, 510).as_bytes(), at(20), at(21));
    let (gap_seq, marker) = second.gap.unwrap();
    assert_eq!(first.record.seq, 0);
    assert_eq!(gap_seq, 1);
    assert_eq!(second.record.seq, 2);
    assert_eq!(marker.started_at, first.record.ts_socket);
    assert_eq!(marker.ended_at, at(20));
}

#[test]
fn max_frames_stops_the_capture_cleanly() {
    let mut opts = options();
    opts.max_frames = Some(3);
    let mut session = CaptureSession::new(&opts, at(1));
    let mut written = 0;
    let reason = loop {
        if let Some(reason) = session.stop_reason(false, 0) {
            break reason;
        }
        session.on_frame(format!("frame-{written}").as_bytes(), at(2), at(3));
        written += 1;
    };
    assert_eq!(written, 3);
    assert_eq!(reason, STOP_MAX_FRAMES);
}

#[test]
fn interruption_stops_before_capturing() {
    let mut opts = options();
    opts.max_frames = Some(0);
    let session = CaptureSession::new(&opts, at(1));
    assert_eq!(session.stop_reason(true, 0).unwrap(), STOP_INTERRUPTED);
}

#[test]
fn quiet_feeds_still_respect_the_duration_limit() {
    let mut opts = options();
    opts.duration = Some(100);
    let session = CaptureSession::new(&opts, at(1));
    assert_eq!(session.stop_reason(false, 99), None);
    assert_eq!(session.stop_reason(false, 100).unwrap(), STOP_DURATION);
}

#[test]
fn reconnect_records_a_gap_and_keeps_capturing() {
    let mut opts = options();
    opts.max_reconnects = 1;
    let mut session = CaptureSession::new(&opts, at(1));
    session.on_frame(b"first-0", at(2), at(3));
    session.on_frame(b"first-1", at(4), at(5));

    let (wait, gap_started, attempts) = match session.on_disconnect(&Disconnect::VenueClose) {
        DisconnectPlan::Reconnect { wait_millis, gap_started, attempts } => (wait_millis, gap_started, attempts),
        DisconnectPlan::Stop(reason) => panic!("stopped: {reason}"),
    };
    assert_eq!(wait, RECONNECT_INITIAL_BACKOFF_MILLIS);
    assert_eq!(gap_started, at(5));
    assert_eq!(attempts, 1);

    let (gap_seq, marker) = session.on_reconnected(at(9), gap_started, attempts, &Disconnect::VenueClose);
    assert_eq!(gap_seq, 2);
    assert_eq!(marker.reason, GAP_VENUE_CLOSE);
    assert_eq!(marker.attempts, 1);
    assert!(marker.ended_at > marker.started_at);

    for payload in [&b"second-0"[..], b"second-1", b"second-2"] {
        session.on_frame(payload, at(10), at(11));
    }
    assert_eq!(session.next_seq(), 6);

    match session.on_disconnect(&Disconnect::VenueClose) {
        DisconnectPlan::Stop(reason) => assert_eq!(reason, STOP_RECONNECT_EXHAUSTED),
        DisconnectPlan::Reconnect { .. } => panic!("reconnected past the limit"),
    }
    let outcome = session.outcome("id".to_owned(), STOP_RECONNECT_EXHAUSTED.to_owned());
    assert_eq!(outcome.frames_written, 5);
    assert_eq!(outcome.connection_gaps, 1);
    assert_eq!(outcome.sequence_gaps, 0);
}

#[test]
fn gap_span_matches_the_last_frame_before_the_drop() {
    let mut opts = options();
    opts.max_reconnects = 1;
    let mut session = CaptureSession::new(&opts, at(1));
    let only = session.on_frame(b"only", at(2), at(3));
    match session.on_disconnect(&Disconnect::ReadError("reset".to_owned())) {
        DisconnectPlan::Reconnect { gap_started, .. } => assert_eq!(gap_started, only.record.ts_socket),
        DisconnectPlan::Stop(reason) => panic!("stopped: {reason}"),
    }
}

#[test]
fn a_drop_without_reconnects_stops_at_its_reason() {
    let mut session = CaptureSession::new(&options(), at(1));
    match session.on_disconnect(&Disconnect::VenueClose) {
        DisconnectPlan::Stop(reason) => assert_eq!(reason, STOP_VENUE_CLOSED),
        DisconnectPlan::Reconnect { .. } => panic!("reconnected"),
    }
    match session.on_disconnect(&Disconnect::ReadError("broken pipe".to_owned())) {
        DisconnectPlan::Stop(reason) => assert_eq!(reason, "read_error: broken pipe"),
        DisconnectPlan::Reconnect { .. } => panic!("reconnected"),
    }
}

#[test]
fn a_gap_before_any_frame_starts_at_the_connection() {
    let mut opts = options();
    opts.max_reconnects = 3;
    let mut session = CaptureSession::new(&opts, at(42));
    match session.on_disconnect(&Disconnect::VenueClose) {
        DisconnectPlan::Reconnect { gap_started, .. } => assert_eq!(gap_started, at(42)),
        DisconnectPlan::Stop(reason) => panic!("stopped: {reason}"),
    }
}

#[test]
fn backoff_doubles_up_to_its_cap() {
    let mut opts = options();
    opts.max_reconnects = 12;
    let mut session = CaptureSession::new(&opts, at(1));
    let mut waits = Vec::new();
    for _ in 0..10 {
        match session.on_disconnect(&Disconnect::VenueClose) {
            DisconnectPlan::Reconnect { wait_millis, .. } => waits.push(wait_millis),
            DisconnectPlan::Stop(reason) => panic!("stopped: {reason}"),
        }
    }
    assert_eq!(
        waits,
        vec![250, 500, 1000, 2000, 4000, 8000, 16000, 30000, 30000, 30000]
    );
    assert_eq!(RECONNECT_MAX_BACKOFF_MILLIS, 30000);
}

#[test]
fn a_reconnect_restarts_the_update_id_check() {
    let mut opts = options();
    opts.max_reconnects = 1;
    let mut session = CaptureSession::new(&opts, at(1));
    session.on_frame(depth_frame(100, 110).as_bytes(), at(2), at(3));
    if let DisconnectPlan::Reconnect { gap_started, attempts, .. } = session.on_disconnect(&Disconnect::VenueClose) {
        session.on_reconnected(at(4), gap_started, attempts, &Disconnect::VenueClose);
    }
    let plan = session.on_frame(depth_frame(500, 510).as_bytes(), at(5), at(6));
    assert!(plan.gap.is_none());
    assert_eq!(plan.record.seq, 2);
}

#[test]
fn the_tracker_reports_the_expected_and_seen_ids() {
    let mut tracker = SequenceTracker::new();
    assert_eq!(tracker.check(None), None);
    assert_eq!(tracker.check(Some(UpdateSpan::new(1, 5))), None);
    assert_eq!(tracker.check(Some(UpdateSpan::new(6, 9))), None);
    assert_eq!(
        tracker.check(Some(UpdateSpan::new(8, 12))),
        Some("update_id_gap: expected 10, saw 8".to_owned())
    );
    assert_eq!(tracker.checked, 3);
    assert_eq!(tracker.gaps, 1);
    tracker.reset();
    assert_eq!(tracker.check(Some(UpdateSpan::new(100, 101))), None);
    assert_eq!(
        tracker.check(Some(UpdateSpan::new(0, 1))),
        Some("update_id_gap: expected 102, saw 0".to_owned())
    );
    let mut top = SequenceTracker { previous_last: Some(u64::MAX), checked: 0, gaps: 0 };
    assert_eq!(
        top.check(Some(UpdateSpan::new(0, 0))),
        Some("update_id_gap: expected 18446744073709551616, saw 0".to_owned())
    );
}

#[test]
fn disconnects_give_their_reasons() {
    assert_eq!(Disconnect::VenueClose.gap_reason(), "venue_close");
    assert_eq!(Disconnect::VenueClose.stop_reason(), "connection_closed_by_venue");
    assert_eq!(Disconnect::ReadError("eof".to_owned()).gap_reason(), "read_error: eof");
    assert_eq!(reconnect_failed_reason("refused"), "reconnect_failed: refused");
}

#[test]
fn init_writes_a_manifest_in_progress() {
    let manifest = init_manifest("abc".to_owned(), at(7), &instrument(), Channel::BookDiff);
    assert_eq!(manifest.schema_version, SCHEMA_VERSION);
    assert_eq!(manifest.capture_id.as_str(), "abc");
    assert_eq!(manifest.created_at, at(7));
    assert_eq!(manifest.instrument, instrument());
    assert_eq!(manifest.frames_written, 0);
    assert_eq!(manifest.stop_reason.as_deref(), Some("in_progress"));
}

#[test]
fn capture_ids_are_random_uuids() {
    let a = new_capture_id();
    let b = new_capture_id();
    assert_ne!(a, b);
    assert_eq!(a.len(), 36);
    for (i, c) in a.chars().enumerate() {
        if [8, 13, 18, 23].contains(&i) {
            assert_eq!(c, '-');
        } else {
            assert!(c.is_ascii_hexdigit() && !c.is_ascii_uppercase());
        }
    }
    assert_eq!(a.as_bytes()[14], b'4');
}
