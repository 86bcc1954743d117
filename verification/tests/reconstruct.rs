use astra::book::{BookError, Side};
use astra::capture::{CaptureFlags, CaptureRecord};
use astra::instrument::{Channel, Instrument, MarketType, Symbol, Venue};
use astra::reconstruct::reconstruct;
use astra::time::Timestamp;

/// A Binance depth event as captured from the live feed: two of its bid
/// quantities are zero, which removes those levels.
const REAL_FRAME: &str = r#"{"e":"depthUpdate","E":1742476510123,"s":"BTCUSDT","U":100697441890,"u":100697441922,"b":[["84162.47000000","1.23456000"],["84162.46000000","0.00050000"],["84160.00000000","0.10000000"],["84158.91000000","0.00000000"],["84158.90000000","0.02000000"],["84150.00000000","0.30000000"],["80000.00000000","1.00000000"],["75746.00000000","0.00000000"]],"a":[["84162.48000000","2.00000000"],["84165.00000000","0.50000000"],["84170.10000000","0.00100000"],["84200.00000000","3.00000000"]]}"#;

fn instrument() -> Instrument {
    Instrument::new(
        Venue::Binance,
        MarketType::Spot,
        Symbol::new("BTC/USDT").unwrap(),
    )
}

fn record(seq: u64, payload: &[u8], flags: CaptureFlags) -> CaptureRecord {
    CaptureRecord {
        seq,
        instrument: instrument(),
        channel: Channel::BookDiff,
        ts_socket: Timestamp::from_unix_nanos(seq as i64),
        ts_exchange: None,
        payload: payload.to_vec(),
        flags,
    }
}

#[test]
fn a_real_captured_frame_produces_a_book() {
    let records = vec![record(0, REAL_FRAME.as_bytes(), CaptureFlags::none())];

    let summary = reconstruct(&records);

    assert_eq!(summary.records, 1);
    assert_eq!(summary.venue_frames, 1);
    assert_eq!(summary.diffs_applied, 1);
    assert_eq!(summary.frames_without_a_book, 0);
    assert_eq!(summary.invalid_diffs, 0);
    assert_eq!(summary.book.bids_len(), 6);
    assert_eq!(summary.book.asks_len(), 4);
    assert_eq!(
        summary.book.best_bid().unwrap().price.to_string(),
        "84162.47000000"
    );
    assert_eq!(
        summary.book.best_ask().unwrap().price.to_string(),
        "84162.48000000"
    );
}

#[test]
fn a_zero_quantity_in_real_data_removes_the_level() {
    let records = vec![record(0, REAL_FRAME.as_bytes(), CaptureFlags::none())];

    let summary = reconstruct(&records);
    let bid_prices: Vec<String> = summary
        .book
        .levels(Side::Bid, 32)
        .iter()
        .map(|level| level.price.to_string())
        .collect();

    assert_eq!(bid_prices.len(), 6);
    assert!(!bid_prices.contains(&"84158.91000000".to_owned()));
    assert!(!bid_prices.contains(&"75746.00000000".to_owned()));
    assert!(bid_prices.contains(&"84158.90000000".to_owned()));
    assert!(bid_prices.contains(&"84162.47000000".to_owned()));
}

#[test]
fn synthetic_records_never_reach_the_book() {
    let records = vec![
        record(0, REAL_FRAME.as_bytes(), CaptureFlags::none()),
        record(
            1,
            b"{\"b\":[[\"1.00000000\",\"9\"]],\"a\":[]}",
            CaptureFlags::synthetic()
                .union(CaptureFlags::sequence_gap())
                .union(CaptureFlags::unreliable()),
        ),
    ];

    let summary = reconstruct(&records);

    assert_eq!(summary.records, 2);
    assert_eq!(summary.synthetic_records, 1);
    assert_eq!(summary.venue_frames, 1);
    assert_eq!(summary.book.bids_len(), 6);
}

#[test]
fn frames_without_a_book_are_counted_not_guessed() {
    let records = vec![
        record(0, REAL_FRAME.as_bytes(), CaptureFlags::none()),
        record(1, b"not json", CaptureFlags::none()),
    ];

    let summary = reconstruct(&records);

    assert_eq!(summary.venue_frames, 2);
    assert_eq!(summary.diffs_applied, 1);
    assert_eq!(summary.frames_without_a_book, 1);
}

#[test]
fn the_first_invalid_diff_is_kept() {
    let records = vec![
        record(0, br#"{"b":[["0","1"]],"a":[]}"#, CaptureFlags::none()),
        record(1, br#"{"b":[],"a":[["5","-1"]]}"#, CaptureFlags::none()),
        record(2, br#"{"b":[["4","1"]],"a":[]}"#, CaptureFlags::none()),
    ];

    let summary = reconstruct(&records);

    assert_eq!(summary.invalid_diffs, 2);
    assert_eq!(summary.diffs_applied, 1);
    assert_eq!(summary.first_error, Some(BookError::InvalidPrice("0".parse().unwrap())));
    assert_eq!(summary.book.bids_len(), 1);
}

#[test]
fn other_venues_have_no_book() {
    let mut other = record(0, REAL_FRAME.as_bytes(), CaptureFlags::none());
    other.instrument = Instrument::new(Venue::Bybit, MarketType::Spot, Symbol::new("BTC/USDT").unwrap());
    let summary = reconstruct(&[other]);
    assert_eq!(summary.frames_without_a_book, 1);
    assert!(summary.book.is_empty());
}
