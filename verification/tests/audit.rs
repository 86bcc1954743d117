use astra::audit::{check, read_gap_marker, SeqBreak, UpdateIdGap};
use astra::capture::{CaptureFlags, CaptureRecord};
use astra::instrument::{Channel, Instrument, MarketType, Symbol, Venue};
use astra::store::{read_all, ChunkWriter, StoreError};
use astra::time::Timestamp;

fn instrument() -> Instrument {
    Instrument::new(
        Venue::Binance,
        MarketType::Spot,
        Symbol::new("BTC/USDT").unwrap(),
    )
}

fn depth_frame(first: u64, last: u64) -> Vec<u8> {
    format!(r#"{{"e":"depthUpdate","s":"BTCUSDT","U":{first},"u":{last},"b":[],"a":[]}}"#)
        .into_bytes()
}

fn gap_payload(reason: &str, attempts: u32) -> Vec<u8> {
    format!(r#"{{"started_at":1,"ended_at":2,"attempts":{attempts},"reason":"{reason}"}}"#)
        .into_bytes()
}

fn gap_flags() -> CaptureFlags {
    CaptureFlags::synthetic()
        .union(CaptureFlags::sequence_gap())
        .union(CaptureFlags::unreliable())
}

fn records(payloads: Vec<(Vec<u8>, CaptureFlags)>) -> Vec<CaptureRecord> {
    payloads
        .into_iter()
        .enumerate()
        .map(|(index, (payload, flags))| CaptureRecord {
            seq: index as u64,
            instrument: instrument(),
            channel: Channel::BookDiff,
            ts_socket: Timestamp::from_unix_nanos(index as i64),
            ts_exchange: None,
            payload,
            flags,
        })
        .collect()
}

#[test]
fn a_clean_capture_audits_healthy() {
    let records = records(vec![
        (depth_frame(100, 110), CaptureFlags::none()),
        (depth_frame(111, 120), CaptureFlags::none()),
        (depth_frame(121, 130), CaptureFlags::none()),
    ]);

    let report = check(&records, 2, 3);

    assert_eq!(report.chunks, 2);
    assert_eq!(report.records, 3);
    assert_eq!(report.venue_frames, 3);
    assert_eq!(report.checked_frames, 3);
    assert_eq!(report.unchecked_frames, 0);
    assert_eq!(report.manifest_frames, Some(3));
    assert_eq!(report.first_ts, Some(Timestamp::from_unix_nanos(0)));
    assert_eq!(report.last_ts, Some(Timestamp::from_unix_nanos(2)));
    assert!(report.is_healthy());
}

#[test]
fn a_sequence_break_is_reported_not_hidden() {
    let mut records = records(vec![
        (depth_frame(100, 109), CaptureFlags::none()),
        (depth_frame(110, 119), CaptureFlags::none()),
        (depth_frame(150, 159), CaptureFlags::none()),
    ]);
    records[2].seq = 5;

    let report = check(&records, 1, 3);

    assert_eq!(
        report.seq_breaks,
        vec![SeqBreak {
            expected: 2,
            found: 5
        }]
    );
    assert!(!report.is_healthy());
}

#[test]
fn an_update_id_gap_is_detected_offline() {
    let records = records(vec![
        (depth_frame(100, 110), CaptureFlags::none()),
        (depth_frame(200, 210), CaptureFlags::none()),
    ]);

    let report = check(&records, 1, 2);

    assert_eq!(
        report.update_id_gaps,
        vec![UpdateIdGap {
            expected: 111,
            found: 200
        }]
    );
    assert!(!report.is_healthy());
}

#[test]
fn gap_records_are_listed_with_reasons() {
    let records = records(vec![
        (depth_frame(100, 110), CaptureFlags::none()),
        (gap_payload("venue_close", 1), gap_flags()),
        (depth_frame(111, 120), CaptureFlags::none()),
    ]);

    let report = check(&records, 1, 2);

    assert_eq!(report.synthetic_records, 1);
    assert_eq!(report.connection_gaps, 1);
    assert_eq!(report.gap_details.len(), 1);
    assert_eq!(report.gap_details[0].reason, "venue_close");
    assert_eq!(report.gap_details[0].attempts, 1);
    assert_eq!(report.gap_details[0].seq, 1);
    assert_eq!(report.seq_breaks, vec![]);
    assert!(report.is_healthy());
}

#[test]
fn unparseable_frames_count_as_unchecked() {
    let records = records(vec![
        (depth_frame(100, 110), CaptureFlags::none()),
        (b"not json".to_vec(), CaptureFlags::none()),
    ]);

    let report = check(&records, 1, 2);

    assert_eq!(report.checked_frames, 1);
    assert_eq!(report.unchecked_frames, 1);
    assert!(report.is_healthy());
}

#[test]
fn recorded_update_id_gaps_make_the_capture_unhealthy() {
    let records = records(vec![
        (depth_frame(100, 110), CaptureFlags::none()),
        (gap_payload("update_id_gap: expected 111, saw 200", 0), gap_flags()),
        (depth_frame(200, 210), CaptureFlags::none()),
    ]);

    let report = check(&records, 1, 2);

    // The recorded marker and the offline check both report the gap.
    assert_eq!(
        report.update_id_gaps,
        vec![
            UpdateIdGap { expected: 0, found: 0 },
            UpdateIdGap { expected: 111, found: 200 }
        ]
    );
    assert_eq!(report.connection_gaps, 0);
    assert!(!report.is_healthy());
}

#[test]
fn undecodable_gap_records_are_counted() {
    let records = records(vec![(b"{}".to_vec(), gap_flags())]);
    let report = check(&records, 1, 0);
    assert_eq!(report.undecodable_gaps, 1);
    assert_eq!(report.gap_details, vec![]);
    assert!(!report.is_healthy());
}

#[test]
fn an_empty_capture_is_healthy() {
    let report = check(&[], 0, 0);
    assert_eq!(report.records, 0);
    assert_eq!(report.first_ts, None);
    assert!(report.is_healthy());
}

#[test]
fn gap_markers_read_from_objects_and_arrays() {
    assert_eq!(
        read_gap_marker(br#"{"reason":"x","attempts":3,"ended_at":-2,"started_at":5}"#),
        Some((5, -2, 3, "x".to_owned()))
    );
    assert_eq!(
        read_gap_marker(br#"[1,2,0,"read_error: reset"]"#),
        Some((1, 2, 0, "read_error: reset".to_owned()))
    );
    assert_eq!(read_gap_marker(br#"{"started_at":1,"ended_at":2,"attempts":-1,"reason":"x"}"#), None);
    assert_eq!(read_gap_marker(b"[1,2,0]"), None);
}

#[test]
fn a_tampered_chunk_fails_the_audit() {
    let records = records(vec![(depth_frame(100, 110), CaptureFlags::none())]);
    let mut writer = ChunkWriter::open(Vec::new(), 10).unwrap();
    for record in &records {
        assert!(writer.append(record.seq, &record.payload).unwrap().is_none());
    }
    let (chunk, index) = writer.finish().unwrap();
    let mut bytes = chunk.unwrap().compressed;
    bytes[0] ^= 0xFF;

    assert!(matches!(
        read_all("capture/frames", &index, &[bytes]),
        Err(StoreError::Integrity(_))
    ));
}
