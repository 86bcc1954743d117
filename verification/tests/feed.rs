use astra::feed::{
    binance_book_snapshot, binance_depth_diff, binance_depth_span, book_diff, book_snapshot,
    read_level, read_levels, stream_url, update_span, FeedError,
};
use astra::json::{JsonNumber, JsonValue};
use astra::instrument::{Channel, Instrument, MarketType, Symbol, Venue};

/// A Binance depth event as captured from the live feed: two of its bid
/// quantities are zero, which removes those levels.
const REAL_FRAME: &str = r#"{"e":"depthUpdate","E":1742476510123,"s":"BTCUSDT","U":100697441890,"u":100697441922,"b":[["84162.47000000","1.23456000"],["84162.46000000","0.00050000"],["84160.00000000","0.10000000"],["84158.91000000","0.00000000"],["84158.90000000","0.02000000"],["84150.00000000","0.30000000"],["80000.00000000","1.00000000"],["75746.00000000","0.00000000"]],"a":[["84162.48000000","2.00000000"],["84165.00000000","0.50000000"],["84170.10000000","0.00100000"],["84200.00000000","3.00000000"]]}"#;

fn instrument(venue: Venue, market_type: MarketType) -> Instrument {
    Instrument::new(venue, market_type, Symbol::new("BTC/USDT").unwrap())
}

#[test]
fn binance_spot_depth_maps_to_the_diff_stream() {
    let url = stream_url(
        &instrument(Venue::Binance, MarketType::Spot),
        Channel::BookDiff,
    )
    .unwrap();
    assert_eq!(url, "wss://stream.binance.com:9443/ws/btcusdt@depth@100ms");
}

#[test]
fn binance_perp_depth_maps_to_the_futures_diff_stream() {
    let url = stream_url(
        &instrument(Venue::Binance, MarketType::PerpUsdt),
        Channel::BookDiff,
    )
    .unwrap();
    assert_eq!(url, "wss://fstream.binance.com/ws/btcusdt@depth@100ms");
}

#[test]
fn unimplemented_combinations_are_refused() {
    assert!(matches!(
        stream_url(
            &instrument(Venue::Bybit, MarketType::Spot),
            Channel::BookDiff
        ),
        Err(FeedError::NotImplemented { .. })
    ));
    assert!(matches!(
        stream_url(
            &instrument(Venue::Binance, MarketType::Spot),
            Channel::Funding
        ),
        Err(FeedError::NotImplemented { .. })
    ));
    assert!(matches!(
        stream_url(
            &instrument(Venue::Binance, MarketType::Spot),
            Channel::Liquidation
        ),
        Err(FeedError::NotImplemented { .. })
    ));
}

#[test]
fn every_supported_channel_maps_to_its_venue_stream() {
    let spot = instrument(Venue::Binance, MarketType::Spot);
    assert_eq!(
        stream_url(&spot, Channel::Trade).unwrap(),
        "wss://stream.binance.com:9443/ws/btcusdt@trade"
    );
    assert_eq!(
        stream_url(&spot, Channel::BookTicker).unwrap(),
        "wss://stream.binance.com:9443/ws/btcusdt@bookTicker"
    );
    assert_eq!(
        stream_url(&spot, Channel::BookSnapshot).unwrap(),
        "wss://stream.binance.com:9443/ws/btcusdt@depth10@100ms"
    );

    let perp = instrument(Venue::Binance, MarketType::PerpUsdt);
    assert_eq!(
        stream_url(&perp, Channel::Funding).unwrap(),
        "wss://fstream.binance.com/ws/btcusdt@markPrice@1s"
    );
    assert_eq!(
        stream_url(&perp, Channel::Liquidation).unwrap(),
        "wss://fstream.binance.com/ws/btcusdt@forceOrder"
    );
}

#[test]
fn open_interest_is_not_a_native_websocket_stream() {
    let perp = instrument(Venue::Binance, MarketType::PerpUsdt);
    assert!(matches!(
        stream_url(&perp, Channel::OpenInterest),
        Err(FeedError::NotImplemented { .. })
    ));
}

#[test]
fn a_real_captured_frame_yields_its_update_span() {
    let payload = REAL_FRAME;
    let span = update_span(Venue::Binance, Channel::BookDiff, payload.as_bytes()).unwrap();
    assert_eq!(span.first, 100697441890);
    assert_eq!(span.last, 100697441922);
}

#[test]
fn payloads_without_update_ids_are_not_checked() {
    assert!(update_span(Venue::Binance, Channel::BookDiff, b"{\"e\":\"trade\"}").is_none());
    assert!(update_span(Venue::Binance, Channel::BookDiff, b"not json").is_none());
    assert!(update_span(Venue::Binance, Channel::BookDiff, b"").is_none());
    assert!(update_span(Venue::Binance, Channel::Trade, b"{\"U\":1,\"u\":2}").is_none());
}

#[test]
fn the_not_implemented_error_names_the_combination() {
    match stream_url(&instrument(Venue::Bybit, MarketType::PerpUsdt), Channel::Trade) {
        Err(FeedError::NotImplemented { venue, market_type, channel }) => {
            assert_eq!(venue, "bybit");
            assert_eq!(market_type, "perp_usdt");
            assert_eq!(channel, "trade");
        }
        other => panic!("unexpected {other:?}"),
    }
}

#[test]
fn a_real_frame_yields_its_levels() {
    let diff = book_diff(Venue::Binance, Channel::BookDiff, REAL_FRAME.as_bytes()).unwrap();
    assert_eq!(diff.bids.len(), 8);
    assert_eq!(diff.asks.len(), 4);
    assert_eq!(diff.bids[0].price.to_string(), "84162.47000000");
    assert_eq!(diff.bids[3].quantity.to_string(), "0.00000000");
    assert!(book_diff(Venue::Bybit, Channel::BookDiff, REAL_FRAME.as_bytes()).is_none());
    assert!(book_diff(Venue::Binance, Channel::BookDiff, b"{\"b\":[[\"x\",\"1\"]],\"a\":[]}").is_none());
}

#[test]
fn snapshots_are_read_from_the_snapshot_channel_only() {
    let payload = br#"{"lastUpdateId":42,"bids":[["10.5","2"]],"asks":[["11","1"],["12","3"]]}"#;
    let snapshot = book_snapshot(Venue::Binance, Channel::BookSnapshot, payload).unwrap();
    assert_eq!(snapshot.last_update_id, 42);
    assert_eq!(snapshot.bids.len(), 1);
    assert_eq!(snapshot.asks.len(), 2);
    assert_eq!(snapshot.bids[0].price.to_string(), "10.50000000");
    assert!(book_snapshot(Venue::Binance, Channel::BookDiff, payload).is_none());
    assert!(book_snapshot(Venue::Binance, Channel::BookSnapshot, b"{\"lastUpdateId\":-1,\"bids\":[],\"asks\":[]}").is_none());
}

#[test]
fn update_ids_must_be_unsigned_integers() {
    assert!(update_span(Venue::Binance, Channel::BookDiff, b"{\"U\":1.5,\"u\":2}").is_none());
    assert!(update_span(Venue::Binance, Channel::BookDiff, b"{\"U\":\"1\",\"u\":2}").is_none());
    let span = update_span(Venue::Binance, Channel::BookDiff, b"{\"u\":9,\"U\":7}").unwrap();
    assert_eq!((span.first, span.last), (7, 9));
}

fn text(s: &str) -> JsonValue {
    JsonValue::Str(s.to_owned())
}

fn number(n: u64) -> JsonValue {
    JsonValue::Number(JsonNumber::UInt(n))
}

fn object(members: Vec<(&str, JsonValue)>) -> JsonValue {
    let (names, values): (Vec<String>, Vec<JsonValue>) =
        members.into_iter().map(|(n, v)| (n.to_owned(), v)).unzip();
    JsonValue::Object(names, values)
}

#[test]
fn documents_yield_spans_from_objects_and_arrays() {
    let span = binance_depth_span(&object(vec![("U", number(7)), ("e", text("x")), ("u", number(9))])).unwrap();
    assert_eq!((span.first, span.last), (7, 9));
    let span = binance_depth_span(&JsonValue::Array(vec![number(3), number(4)])).unwrap();
    assert_eq!((span.first, span.last), (3, 4));
    assert!(binance_depth_span(&object(vec![("U", number(7))])).is_none());
    assert!(binance_depth_span(&object(vec![("U", JsonValue::Number(JsonNumber::NegInt(-1))), ("u", number(1))])).is_none());
    assert!(binance_depth_span(&JsonValue::Array(vec![number(3)])).is_none());
}

#[test]
fn documents_yield_levels() {
    let level = read_level(&JsonValue::Array(vec![text("1.5"), text("2")])).unwrap();
    assert_eq!(level.price.to_string(), "1.50000000");
    assert_eq!(level.quantity.to_string(), "2.00000000");
    assert!(read_level(&JsonValue::Array(vec![text("1.5"), number(2)])).is_none());
    assert!(read_level(&JsonValue::Array(vec![text("1.5")])).is_none());
    assert_eq!(read_levels(&JsonValue::Array(vec![])).unwrap().len(), 0);
    assert!(read_levels(&JsonValue::Array(vec![JsonValue::Null])).is_none());

    let diff = binance_depth_diff(&object(vec![
        ("b", JsonValue::Array(vec![JsonValue::Array(vec![text("10"), text("1")])])),
        ("a", JsonValue::Array(vec![])),
    ]))
    .unwrap();
    assert_eq!(diff.bids.len(), 1);
    assert!(diff.asks.is_empty());

    let snapshot = binance_book_snapshot(&object(vec![
        ("asks", JsonValue::Array(vec![])),
        ("bids", JsonValue::Array(vec![])),
        ("lastUpdateId", number(42)),
    ]))
    .unwrap();
    assert_eq!(snapshot.last_update_id, 42);
    assert!(binance_book_snapshot(&object(vec![("bids", JsonValue::Array(vec![]))])).is_none());
}
