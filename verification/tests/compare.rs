use astra::book::{BookDiff, Level};
use astra::capture::{CaptureFlags, CaptureRecord};
use astra::compare::{compare, compare_streams, load_events, load_references};
use astra::instrument::{Channel, Instrument, MarketType, Symbol, Venue};
use astra::reconstructor::{BookSnapshot, UpdateSpan};
use astra::time::Timestamp;

fn level(price: &str, quantity: &str) -> Level {
    Level {
        price: price.parse().unwrap(),
        quantity: quantity.parse().unwrap(),
    }
}

fn snapshot(last_update_id: u64, bids: Vec<Level>, asks: Vec<Level>) -> BookSnapshot {
    BookSnapshot {
        last_update_id,
        bids,
        asks,
    }
}

fn event(first: u64, last: u64, bids: Vec<Level>, asks: Vec<Level>) -> (UpdateSpan, BookDiff) {
    (UpdateSpan::new(first, last), BookDiff { bids, asks })
}

fn base_book() -> (Vec<Level>, Vec<Level>) {
    (
        vec![level("100.00000000", "1"), level("99.00000000", "2")],
        vec![level("101.00000000", "1"), level("102.00000000", "3")],
    )
}

#[test]
fn a_correct_reconstruction_matches_every_reference() {
    let (bids, asks) = base_book();
    let references = vec![
        snapshot(100, bids.clone(), asks.clone()),
        snapshot(110, bids.clone(), asks.clone()),
        snapshot(
            120,
            bids,
            vec![level("101.00000000", "5"), level("102.00000000", "3")],
        ),
    ];
    let events = vec![
        event(101, 105, vec![level("98.00000000", "1")], vec![]),
        event(106, 115, vec![], vec![level("101.00000000", "5")]),
    ];

    let report = compare_streams(&events, &references, 2).unwrap();

    assert_eq!(report.bootstrap_frames, 1);
    assert_eq!(report.checked, 2);
    assert_eq!(report.matched, 2);
    assert_eq!(report.mismatched, 0);
    assert_eq!(report.events_applied, 2);
}

#[test]
fn a_drifted_book_is_reported_not_hidden() {
    let (bids, asks) = base_book();
    let references = vec![
        snapshot(100, bids.clone(), asks.clone()),
        snapshot(
            110,
            vec![level("100.50000000", "9"), level("99.00000000", "2")],
            asks,
        ),
    ];
    let events = vec![event(101, 105, vec![], vec![])];

    let report = compare_streams(&events, &references, 2).unwrap();

    assert_eq!(report.checked, 1);
    assert_eq!(report.mismatched, 1);
    assert!(report.first_mismatch.unwrap().contains("bid level 0"));
}

#[test]
fn a_depth_difference_is_reported() {
    let (bids, asks) = base_book();
    let references = vec![
        snapshot(100, bids.clone(), asks.clone()),
        snapshot(110, vec![level("100.00000000", "1")], asks),
    ];
    let events = Vec::new();

    let report = compare_streams(&events, &references, 4).unwrap();

    assert_eq!(report.mismatched, 1);
    assert!(report.first_mismatch.unwrap().contains("bid depth"));
}

#[test]
fn no_references_means_no_checks() {
    let report = compare_streams(&[], &[], 10).unwrap();
    assert_eq!(report.checked, 0);
    assert_eq!(report.bootstrap_frames, 0);
}

#[test]
fn mismatch_messages_are_exact() {
    let (bids, asks) = base_book();
    let references = vec![
        snapshot(100, bids.clone(), asks.clone()),
        snapshot(110, vec![level("100.50000000", "9")], asks),
    ];
    let report = compare_streams(&[], &references, 2).unwrap();
    assert_eq!(
        report.first_mismatch.unwrap(),
        "bid depth: book 2, reference 1; bid level 0: book 100.00000000 x 1.00000000, reference 100.50000000 x 9.00000000"
    );
}

#[test]
fn events_at_or_before_the_bootstrap_are_skipped() {
    let (bids, asks) = base_book();
    let references = vec![snapshot(100, bids.clone(), asks.clone()), snapshot(120, bids, asks)];
    let events = vec![
        event(90, 100, vec![level("50.00000000", "1")], vec![]),
        event(101, 110, vec![], vec![]),
        event(115, 118, vec![], vec![]),
    ];
    let report = compare_streams(&events, &references, 2).unwrap();
    assert_eq!(report.events, 3);
    assert_eq!(report.events_skipped, 1);
    assert_eq!(report.events_applied, 1);
    assert_eq!(report.events_rejected, 1);
    assert_eq!(report.matched, 1);
}

#[test]
fn an_invalid_bootstrap_ends_the_comparison() {
    let references = vec![snapshot(100, vec![level("0", "1")], vec![])];
    assert!(compare_streams(&[], &references, 2).is_err());
}

fn record(seq: u64, channel: Channel, payload: &str, flags: CaptureFlags) -> CaptureRecord {
    CaptureRecord {
        seq,
        instrument: Instrument::new(Venue::Binance, MarketType::Spot, Symbol::new("BTC/USDT").unwrap()),
        channel,
        ts_socket: Timestamp::from_unix_nanos(seq as i64),
        ts_exchange: None,
        payload: payload.as_bytes().to_vec(),
        flags,
    }
}

#[test]
fn events_come_from_readable_venue_frames_only() {
    let records = vec![
        record(0, Channel::BookDiff, r#"{"U":1,"u":2,"b":[["10","1"]],"a":[]}"#, CaptureFlags::none()),
        record(1, Channel::BookDiff, r#"{"U":3,"u":4,"b":[],"a":[]}"#, CaptureFlags::synthetic()),
        record(2, Channel::BookDiff, "not json", CaptureFlags::none()),
        record(3, Channel::BookDiff, r#"{"U":3,"u":4}"#, CaptureFlags::none()),
        record(4, Channel::BookDiff, r#"{"U":5,"u":6,"b":[],"a":[["11","2"]]}"#, CaptureFlags::none()),
    ];
    let events = load_events(&records);
    assert_eq!(events.len(), 2);
    assert_eq!(events[0].0, UpdateSpan::new(1, 2));
    assert_eq!(events[0].1.bids, vec![level("10", "1")]);
    assert_eq!(events[1].0, UpdateSpan::new(5, 6));
    assert_eq!(events[1].1.asks, vec![level("11", "2")]);
}

#[test]
fn references_are_ordered_by_update_id() {
    let records = vec![
        record(0, Channel::BookSnapshot, r#"{"lastUpdateId":30,"bids":[],"asks":[]}"#, CaptureFlags::none()),
        record(1, Channel::BookSnapshot, r#"{"lastUpdateId":10,"bids":[["1","1"]],"asks":[]}"#, CaptureFlags::none()),
        record(2, Channel::BookDiff, r#"{"lastUpdateId":5,"bids":[],"asks":[]}"#, CaptureFlags::none()),
        record(3, Channel::BookSnapshot, r#"{"lastUpdateId":20,"bids":[],"asks":[]}"#, CaptureFlags::synthetic()),
        record(4, Channel::BookSnapshot, r#"{"lastUpdateId":10,"bids":[["2","1"]],"asks":[]}"#, CaptureFlags::none()),
    ];
    let references = load_references(&records);
    let ids: Vec<u64> = references.iter().map(|s| s.last_update_id).collect();
    assert_eq!(ids, vec![10, 10, 30]);
    // Snapshots with equal ids keep their order.
    assert_eq!(references[0].bids, vec![level("1", "1")]);
    assert_eq!(references[1].bids, vec![level("2", "1")]);
}

#[test]
fn a_capture_compares_against_reference_records() {
    let events = vec![
        record(0, Channel::BookDiff, r#"{"U":101,"u":105,"b":[["98","1"]],"a":[]}"#, CaptureFlags::none()),
    ];
    let references = vec![
        record(0, Channel::BookSnapshot, r#"{"lastUpdateId":110,"bids":[["100","1"],["99","2"],["98","1"]],"asks":[["101","1"]]}"#, CaptureFlags::none()),
        record(1, Channel::BookSnapshot, r#"{"lastUpdateId":100,"bids":[["100","1"],["99","2"]],"asks":[["101","1"]]}"#, CaptureFlags::none()),
    ];
    let report = compare(&events, &references, 3).unwrap();
    assert_eq!(report.events, 1);
    assert_eq!(report.bootstrap_frames, 1);
    assert_eq!(report.events_applied, 1);
    assert_eq!(report.checked, 1);
    assert_eq!(report.matched, 1);
}

#[test]
fn a_mismatch_is_named_exactly_when_one_is_counted() {
    let (bids, asks) = base_book();
    let references = vec![snapshot(100, bids.clone(), asks.clone()), snapshot(110, bids, asks)];
    let report = compare_streams(&[], &references, 2).unwrap();
    assert_eq!(report.mismatched, 0);
    assert_eq!(report.matched, 1);
    assert!(report.first_mismatch.is_none());
    assert_eq!(report.events, 0);
    assert_eq!(report.matched + report.mismatched, report.checked);
}
