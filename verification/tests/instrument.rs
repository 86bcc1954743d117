use astra::instrument::{Channel, Instrument, MarketType, Symbol, SymbolError, Venue};

#[test]
fn symbols_round_trip() {
    let symbol = Symbol::new("BTC/USDT").unwrap();
    assert_eq!(symbol.base(), "BTC");
    assert_eq!(symbol.quote(), "USDT");
    assert_eq!(symbol.to_string(), "BTC/USDT");
}

#[test]
fn symbols_reject_malformed_input() {
    assert!(matches!(
        Symbol::new("BTCUSDT").unwrap_err(),
        SymbolError::Malformed(_)
    ));
    assert!(matches!(
        Symbol::new("BTC/USDT/USD").unwrap_err(),
        SymbolError::Malformed(_)
    ));
    assert!(matches!(
        Symbol::new("/USDT").unwrap_err(),
        SymbolError::EmptyBase(_)
    ));
    assert!(matches!(
        Symbol::new("btc/usdt").unwrap_err(),
        SymbolError::InvalidCharacters(_)
    ));
}

#[test]
fn enums_parse_from_lowercase_names() {
    assert_eq!("binance".parse::<Venue>().unwrap(), Venue::Binance);
    assert_eq!("perp".parse::<MarketType>().unwrap(), MarketType::PerpUsdt);
    assert_eq!("book".parse::<Channel>().unwrap(), Channel::BookDiff);
    assert!("kraken".parse::<Venue>().is_err());
    assert!("candles".parse::<Channel>().is_err());
}

#[test]
fn names_parse_case_insensitively() {
    assert_eq!(Venue::parse("BiNaNcE"), Ok(Venue::Binance));
    assert_eq!(MarketType::parse("PERP_USDT"), Ok(MarketType::PerpUsdt));
    assert_eq!(Channel::parse("Open_Interest"), Ok(Channel::OpenInterest));
}

#[test]
fn canonical_names_round_trip() {
    for venue in [Venue::Binance, Venue::Bybit] {
        assert_eq!(Venue::parse(venue.as_str()), Ok(venue));
    }
    for market in [MarketType::Spot, MarketType::PerpUsdt] {
        assert_eq!(MarketType::parse(market.as_str()), Ok(market));
    }
    for channel in [
        Channel::BookDiff,
        Channel::BookSnapshot,
        Channel::Trade,
        Channel::BookTicker,
        Channel::Funding,
        Channel::OpenInterest,
        Channel::Liquidation,
    ] {
        assert_eq!(Channel::parse(channel.as_str()), Ok(channel));
    }
    assert_eq!(Channel::BookTicker.to_string(), "book_ticker");
    assert_eq!(MarketType::PerpUsdt.to_string(), "perp_usdt");
}

#[test]
fn symbols_refuse_an_empty_quote() {
    assert!(matches!(
        Symbol::new("BTC/").unwrap_err(),
        SymbolError::EmptyQuote(_)
    ));
    assert!(matches!(
        "ETH/USD T".parse::<Symbol>().unwrap_err(),
        SymbolError::InvalidCharacters(_)
    ));
    assert!(Symbol::new("BRK.B/USD-1_X").is_ok());
}

#[test]
fn instruments_display_their_parts() {
    let instrument = Instrument::new(
        Venue::Bybit,
        MarketType::PerpUsdt,
        Symbol::new("ETH/USDT").unwrap(),
    );
    assert_eq!(instrument.to_string(), "bybit perp_usdt ETH/USDT");
    assert_eq!(instrument.venue(), Venue::Bybit);
    assert_eq!(instrument.market_type(), MarketType::PerpUsdt);
    assert_eq!(instrument.symbol().as_str(), "ETH/USDT");
    assert_eq!(instrument.clone(), instrument);
}

#[test]
fn a_symbol_needs_exactly_one_separator() {
    assert!(matches!(Symbol::new("A//B").unwrap_err(), SymbolError::Malformed(_)));
    assert!(matches!(Symbol::new("/").unwrap_err(), SymbolError::EmptyBase(_)));
    assert!(matches!(Symbol::new("A/").unwrap_err(), SymbolError::EmptyQuote(_)));
    assert_eq!(Symbol::new("A/B").unwrap().as_str(), "A/B");
}
