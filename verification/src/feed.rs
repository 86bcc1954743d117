//! Venue feeds: stream addresses and the reading of venue payloads.
use vstd::prelude::*;
use crate::book::{BookDiff, Level};
use crate::fixed::{self, Fixed};
use crate::instrument::{self, Channel, Instrument, MarketType, Venue};
use crate::json::{self, JsonValue};
use crate::reconstructor::{BookSnapshot, UpdateSpan};
use crate::text;

verus! {

/// A JSON level: an array of exactly two strings, a price and a quantity,
/// each a decimal literal.
pub open spec fn json_level(v: JsonValue) -> Option<Level> {
    match v {
        JsonValue::Array(items) => if items@.len() == 2 {
            match (items@[0], items@[1]) {
                (JsonValue::Str(p), JsonValue::Str(q)) => match (
                    fixed::parse_fixed(p@),
                    fixed::parse_fixed(q@),
                ) {
                    (Ok(a), Ok(b)) => Some(
                        Level { price: Fixed(a as i128), quantity: Fixed(b as i128) },
                    ),
                    _ => None,
                },
                _ => None,
            }
        } else {
            None
        },
        _ => None,
    }
}

/// Every item read as a level, or `None` if one is not a level.
pub open spec fn levels_of(items: Seq<JsonValue>) -> Option<Seq<Level>>
    decreases items.len(),
{
    if items.len() == 0 {
        Some(Seq::empty())
    } else {
        match (levels_of(items.drop_last()), json_level(items.last())) {
            (Some(ls), Some(l)) => Some(ls.push(l)),
            _ => None,
        }
    }
}

/// A JSON array of levels.
pub open spec fn json_levels(v: JsonValue) -> Option<Seq<Level>> {
    match v {
        JsonValue::Array(items) => levels_of(items@),
        _ => None,
    }
}

/// The two fields of a record as serde reads a struct: from an object, the
/// members with those names (other members are ignored); from an array,
/// exactly two items in field order.
pub open spec fn record2(doc: JsonValue, k1: Seq<char>, k2: Seq<char>) -> Option<(JsonValue, JsonValue)> {
    match doc {
        JsonValue::Object(names, values) => match (
            json::member(names@, values@, k1),
            json::member(names@, values@, k2),
        ) {
            (Some(a), Some(b)) => Some((a, b)),
            _ => None,
        },
        JsonValue::Array(items) => if items@.len() == 2 {
            Some((items@[0], items@[1]))
        } else {
            None
        },
        _ => None,
    }
}

/// The three fields of a record, read as `record2` reads two.
pub open spec fn record3(doc: JsonValue, k1: Seq<char>, k2: Seq<char>, k3: Seq<char>) -> Option<
    (JsonValue, JsonValue, JsonValue),
> {
    match doc {
        JsonValue::Object(names, values) => match (
            json::member(names@, values@, k1),
            json::member(names@, values@, k2),
            json::member(names@, values@, k3),
        ) {
            (Some(a), Some(b), Some(c)) => Some((a, b, c)),
            _ => None,
        },
        JsonValue::Array(items) => if items@.len() == 3 {
            Some((items@[0], items@[1], items@[2]))
        } else {
            None
        },
        _ => None,
    }
}

/// The update span of a Binance depth event: its `U` and `u` ids.
pub open spec fn depth_span(doc: JsonValue) -> Option<UpdateSpan> {
    match record2(doc, "U"@, "u"@) {
        Some((a, b)) => match (json::as_u64(a), json::as_u64(b)) {
            (Some(first), Some(last)) => Some(UpdateSpan { first, last }),
            _ => None,
        },
        None => None,
    }
}

/// The levels of a Binance depth event: bids `b` and asks `a`.
pub open spec fn depth_levels(doc: JsonValue) -> Option<(Seq<Level>, Seq<Level>)> {
    match record2(doc, "b"@, "a"@) {
        Some((b, a)) => match (json_levels(b), json_levels(a)) {
            (Some(bids), Some(asks)) => Some((bids, asks)),
            _ => None,
        },
        None => None,
    }
}

/// A Binance depth snapshot: `lastUpdateId`, `bids` and `asks`.
pub open spec fn snapshot_parts(doc: JsonValue) -> Option<(u64, Seq<Level>, Seq<Level>)> {
    match record3(doc, "lastUpdateId"@, "bids"@, "asks"@) {
        Some((id, b, a)) => match (json::as_u64(id), json_levels(b), json_levels(a)) {
            (Some(i), Some(bids), Some(asks)) => Some((i, bids, asks)),
            _ => None,
        },
        None => None,
    }
}

/// Reads one level: an array of a price and a quantity, both decimal strings.
pub fn read_level(v: &JsonValue) -> (r: Option<Level>)
    ensures
        r == json_level(*v),
{
    match v {
        JsonValue::Array(items) => {
            if items.len() != 2 {
                return None;
            }
            match (&items[0], &items[1]) {
                (JsonValue::Str(p), JsonValue::Str(q)) => {
                    match (Fixed::parse(p.as_str()), Fixed::parse(q.as_str())) {
                        (Ok(price), Ok(quantity)) => Some(Level { price, quantity }),
                        _ => None,
                    }
                },
                _ => None,
            }
        },
        _ => None,
    }
}

/// Reads an array of levels; `None` if any item is not a level.
pub fn read_levels(v: &JsonValue) -> (r: Option<Vec<Level>>)
    ensures
        match json_levels(*v) {
            Some(ls) => r is Some && r->0@ == ls,
            None => r is None,
        },
{
    match v {
        JsonValue::Array(items) => {
            let mut out: Vec<Level> = Vec::new();
            let mut i: usize = 0;
            while i < items.len()
                invariant
                    0 <= i <= items@.len(),
                    levels_of(items@.take(i as int)) == Some(out@),
                    json_levels(*v) == levels_of(items@),
                decreases items.len() - i,
            {
                proof {
                    assert(items@.take(i + 1).drop_last() =~= items@.take(i as int));
                    assert(items@.take(i + 1).last() == items@[i as int]);
                }
                match read_level(&items[i]) {
                    Some(l) => out.push(l),
                    None => {
                        proof {
                            assert(json_level(items@[i as int]) is None);
                            assert(levels_of(items@.take(i + 1)) is None);
                            lemma_levels_of_prefix(items@, i + 1);
                        }
                        return None;
                    },
                }
                i += 1;
            }
            assert(items@.take(items@.len() as int) =~= items@);
            Some(out)
        },
        _ => None,
    }
}

/// Once a prefix holds an item that is not a level, so does the whole sequence.
proof fn lemma_levels_of_prefix(items: Seq<JsonValue>, n: int)
    requires
        0 <= n <= items.len(),
        levels_of(items.take(n)) is None,
    ensures
        levels_of(items) is None,
    decreases items.len() - n,
{
    if n < items.len() {
        assert(items.take(n + 1).drop_last() =~= items.take(n));
        lemma_levels_of_prefix(items, n + 1);
    } else {
        assert(items.take(n) =~= items);
    }
}

fn read_record2<'a>(doc: &'a JsonValue, k1: &str, k2: &str) -> (r: Option<(&'a JsonValue, &'a JsonValue)>)
    ensures
        match record2(*doc, k1@, k2@) {
            Some((a, b)) => r == Some((&a, &b)),
            None => r is None,
        },
{
    match doc {
        JsonValue::Object(names, values) => {
            match (json::find_member(names, values, k1), json::find_member(names, values, k2)) {
                (Some(a), Some(b)) => Some((a, b)),
                _ => None,
            }
        },
        JsonValue::Array(items) => {
            if items.len() == 2 {
                Some((&items[0], &items[1]))
            } else {
                None
            }
        },
        _ => None,
    }
}

fn read_record3<'a>(doc: &'a JsonValue, k1: &str, k2: &str, k3: &str) -> (r: Option<
    (&'a JsonValue, &'a JsonValue, &'a JsonValue),
>)
    ensures
        match record3(*doc, k1@, k2@, k3@) {
            Some((a, b, c)) => r == Some((&a, &b, &c)),
            None => r is None,
        },
{
    match doc {
        JsonValue::Object(names, values) => {
            match (
                json::find_member(names, values, k1),
                json::find_member(names, values, k2),
                json::find_member(names, values, k3),
            ) {
                (Some(a), Some(b), Some(c)) => Some((a, b, c)),
                _ => None,
            }
        },
        JsonValue::Array(items) => {
            if items.len() == 3 {
                Some((&items[0], &items[1], &items[2]))
            } else {
                None
            }
        },
        _ => None,
    }
}

/// The update span of a Binance depth event document (see `depth_span`).
pub fn binance_depth_span(doc: &JsonValue) -> (r: Option<UpdateSpan>)
    ensures
        r == depth_span(*doc),
{
    match read_record2(doc, "U", "u") {
        Some((a, b)) => match (json::read_u64(a), json::read_u64(b)) {
            (Some(first), Some(last)) => Some(UpdateSpan { first, last }),
            _ => None,
        },
        None => None,
    }
}

/// The level updates of a Binance depth event document (see `depth_levels`).
pub fn binance_depth_diff(doc: &JsonValue) -> (r: Option<BookDiff>)
    ensures
        match depth_levels(*doc) {
            Some((bids, asks)) => r is Some && r->0.bids@ == bids && r->0.asks@ == asks,
            None => r is None,
        },
{
    match read_record2(doc, "b", "a") {
        Some((b, a)) => match (read_levels(b), read_levels(a)) {
            (Some(bids), Some(asks)) => Some(BookDiff { bids, asks }),
            _ => None,
        },
        None => None,
    }
}

/// A Binance depth snapshot document (see `snapshot_parts`).
pub fn binance_book_snapshot(doc: &JsonValue) -> (r: Option<BookSnapshot>)
    ensures
        match snapshot_parts(*doc) {
            Some((id, bids, asks)) => r is Some && r->0.last_update_id == id && r->0.bids@ == bids
                && r->0.asks@ == asks,
            None => r is None,
        },
{
    match read_record3(doc, "lastUpdateId", "bids", "asks") {
        Some((i, b, a)) => match (json::read_u64(i), read_levels(b), read_levels(a)) {
            (Some(last_update_id), Some(bids), Some(asks)) => Some(
                BookSnapshot { last_update_id, bids, asks },
            ),
            _ => None,
        },
        None => None,
    }
}

/// Whether a venue's payloads on a channel are Binance depth events.
pub open spec fn is_binance_depth(venue: Venue, channel: Channel) -> bool {
    venue == Venue::Binance && channel == Channel::BookDiff
}

/// The update span of a payload, where its format is understood: Binance
/// depth events. `None` for every other venue and channel, and for payloads
/// that are not such an event.
pub fn update_span(venue: Venue, channel: Channel, payload: &[u8]) -> (r: Option<UpdateSpan>)
    ensures
        r == (if is_binance_depth(venue, channel) {
            match json::json_document(payload@) {
                Some(doc) => depth_span(doc),
                None => None,
            }
        } else {
            None
        }),
{
    match (venue, channel) {
        (Venue::Binance, Channel::BookDiff) => {
            let doc = match json::parse_json(payload) {
                Some(d) => d,
                None => {
                    return None;
                },
            };
            binance_depth_span(&doc)
        },
        _ => None,
    }
}

/// The level updates of a payload: Binance depth events only.
pub fn book_diff(venue: Venue, channel: Channel, payload: &[u8]) -> (r: Option<BookDiff>)
    ensures
        match (if is_binance_depth(venue, channel) {
            match json::json_document(payload@) {
                Some(doc) => depth_levels(doc),
                None => None,
            }
        } else {
            None
        }) {
            Some((bids, asks)) => r is Some && r->0.bids@ == bids && r->0.asks@ == asks,
            None => r is None,
        },
{
    match (venue, channel) {
        (Venue::Binance, Channel::BookDiff) => {
            let doc = match json::parse_json(payload) {
                Some(d) => d,
                None => {
                    return None;
                },
            };
            binance_depth_diff(&doc)
        },
        _ => None,
    }
}

/// The depth snapshot in a payload: Binance snapshots on the snapshot channel only.
pub fn book_snapshot(venue: Venue, channel: Channel, payload: &[u8]) -> (r: Option<BookSnapshot>)
    ensures
        match (if venue == Venue::Binance && channel == Channel::BookSnapshot {
            match json::json_document(payload@) {
                Some(doc) => snapshot_parts(doc),
                None => None,
            }
        } else {
            None
        }) {
            Some((id, bids, asks)) => r is Some && r->0.last_update_id == id && r->0.bids@ == bids
                && r->0.asks@ == asks,
            None => r is None,
        },
{
    match (venue, channel) {
        (Venue::Binance, Channel::BookSnapshot) => {
            let doc = match json::parse_json(payload) {
                Some(d) => d,
                None => {
                    return None;
                },
            };
            binance_book_snapshot(&doc)
        },
        _ => None,
    }
}


/// Why no stream address could be given.
#[derive(Debug)]
pub enum FeedError {
    /// No feed is implemented for this venue, market type and channel.
    NotImplemented { venue: String, market_type: String, channel: String },
    /// The symbol gives an empty stream name.
    EmptySymbol { symbol: String },
}

/// The error for a combination that has no feed.
pub open spec fn not_implemented_for(e: FeedError, instrument: Instrument, channel: Channel) -> bool {
    match e {
        FeedError::NotImplemented { venue, market_type, channel: c } => {
            &&& venue@ == instrument::venue_name(instrument@.0)
            &&& market_type@ == instrument::market_type_name(instrument@.1)
            &&& c@ == instrument::channel_name(channel)
        },
        _ => false,
    }
}

/// `s` without its `/` characters.
pub open spec fn without_slashes(s: Seq<char>) -> Seq<char>
    decreases s.len(),
{
    if s.len() == 0 {
        Seq::empty()
    } else if s.last() == '/' {
        without_slashes(s.drop_last())
    } else {
        without_slashes(s.drop_last()).push(s.last())
    }
}

/// The stream name of a symbol: lower case, without the separator.
pub open spec fn stream_symbol_text(symbol: Seq<char>) -> Seq<char> {
    instrument::ascii_lower(without_slashes(symbol))
}

pub open spec fn binance_root(market: MarketType) -> Seq<char> {
    match market {
        MarketType::Spot => "wss://stream.binance.com:9443/ws"@,
        MarketType::PerpUsdt => "wss://fstream.binance.com/ws"@,
    }
}

/// The Binance stream suffix for a channel, where there is one.
pub open spec fn binance_stream(market: MarketType, channel: Channel) -> Option<Seq<char>> {
    match (market, channel) {
        (_, Channel::BookDiff) => Some("@depth@100ms"@),
        (_, Channel::BookSnapshot) => Some("@depth10@100ms"@),
        (_, Channel::Trade) => Some("@trade"@),
        (_, Channel::BookTicker) => Some("@bookTicker"@),
        (MarketType::PerpUsdt, Channel::Funding) => Some("@markPrice@1s"@),
        (MarketType::PerpUsdt, Channel::Liquidation) => Some("@forceOrder"@),
        _ => None,
    }
}

fn not_implemented(instrument: &Instrument, channel: Channel) -> (e: FeedError)
    ensures
        not_implemented_for(e, *instrument, channel),
{
    FeedError::NotImplemented {
        venue: instrument.venue().to_string(),
        market_type: instrument.market_type().to_string(),
        channel: channel.to_string(),
    }
}

fn stream_symbol(instrument: &Instrument) -> (r: Result<Vec<char>, FeedError>)
    ensures
        match r {
            Ok(v) => v@ == stream_symbol_text(instrument@.2) && v@.len() > 0,
            Err(FeedError::EmptySymbol { symbol }) => symbol@ == instrument@.2
                && stream_symbol_text(instrument@.2).len() == 0,
            Err(_) => false,
        },
{
    let chars = text::chars_of(instrument.symbol().as_str());
    let mut v: Vec<char> = Vec::new();
    let mut i: usize = 0;
    while i < chars.len()
        invariant
            0 <= i <= chars@.len(),
            chars@ == instrument@.2,
            v@ == stream_symbol_text(chars@.take(i as int)),
        decreases chars.len() - i,
    {
        let c = chars[i];
        proof {
            assert(chars@.take(i + 1).drop_last() =~= chars@.take(i as int));
            assert(chars@.take(i + 1).last() == c);
        }
        if c != '/' {
            let lower = if 65 <= c as u32 && c as u32 <= 90 {
                ((c as u32 + 32) as u8) as char
            } else {
                c
            };
            v.push(lower);
        }
        proof {
            assert(v@ =~= stream_symbol_text(chars@.take(i + 1)));
        }
        i += 1;
    }
    assert(chars@.take(chars@.len() as int) =~= chars@);
    if v.len() == 0 {
        return Err(FeedError::EmptySymbol { symbol: instrument.symbol().to_string() });
    }
    Ok(v)
}

/// The websocket address of an instrument's channel. Binance feeds only; every
/// other venue, and every channel Binance has no stream for, is refused.
pub fn stream_url(instrument: &Instrument, channel: Channel) -> (r: Result<String, FeedError>)
    ensures
        match instrument@.0 {
            Venue::Bybit => r is Err && not_implemented_for(r->Err_0, *instrument, channel),
            Venue::Binance => match binance_stream(instrument@.1, channel) {
                Some(stream) => r is Ok && r->Ok_0@ == binance_root(instrument@.1) + "/"@
                    + stream_symbol_text(instrument@.2) + stream,
                None => r is Err && not_implemented_for(r->Err_0, *instrument, channel),
            },
        },
{
    let symbol_ref = instrument.symbol();
    proof {
        lemma_valid_symbol_has_stream_name(symbol_ref@);
    }
    match instrument.venue() {
        Venue::Bybit => {
            return Err(not_implemented(instrument, channel));
        },
        Venue::Binance => {},
    }
    let market = instrument.market_type();
    let symbol = match stream_symbol(instrument) {
        Ok(s) => s,
        Err(e) => {
            return Err(e);
        },
    };
    let stream: &str = match (market, channel) {
        (_, Channel::BookDiff) => "@depth@100ms",
        (_, Channel::BookSnapshot) => "@depth10@100ms",
        (_, Channel::Trade) => "@trade",
        (_, Channel::BookTicker) => "@bookTicker",
        (MarketType::PerpUsdt, Channel::Funding) => "@markPrice@1s",
        (MarketType::PerpUsdt, Channel::Liquidation) => "@forceOrder",
        _ => {
            return Err(not_implemented(instrument, channel));
        },
    };
    let root: &str = match market {
        MarketType::Spot => "wss://stream.binance.com:9443/ws",
        MarketType::PerpUsdt => "wss://fstream.binance.com/ws",
    };
    let mut out: Vec<char> = Vec::new();
    text::push_str(&mut out, root);
    text::push_str(&mut out, "/");
    let mut i: usize = 0;
    let ghost base = out@;
    while i < symbol.len()
        invariant
            0 <= i <= symbol@.len(),
            out@ == base + symbol@.take(i as int),
        decreases symbol.len() - i,
    {
        out.push(symbol[i]);
        i += 1;
        assert(out@ =~= base + symbol@.take(i as int));
    }
    assert(symbol@.take(symbol@.len() as int) =~= symbol@);
    text::push_str(&mut out, stream);
    assert(out@ =~= binance_root(market) + "/"@ + stream_symbol_text(instrument@.2) + stream@);
    Ok(text::string_from_chars(&out))
}


proof fn lemma_without_slashes_nonempty(s: Seq<char>, i: int)
    requires
        0 <= i < s.len(),
        s[i] != '/',
    ensures
        without_slashes(s).len() > 0,
    decreases s.len(),
{
    if s.last() == '/' {
        lemma_without_slashes_nonempty(s.drop_last(), i);
    }
}

/// A valid symbol always gives a stream name: its base is not empty and
/// holds no separator.
pub proof fn lemma_valid_symbol_has_stream_name(s: Seq<char>)
    requires
        instrument::symbol_check(s) is None,
    ensures
        stream_symbol_text(s).len() > 0,
{
    text::lemma_first_index(s, '/');
    let k = text::first_index(s, '/')->0;
    assert(instrument::symbol_base(s).len() == k);
    assert(s[0] != '/');
    lemma_without_slashes_nonempty(s, 0);
}

/// The depth diff, depth snapshot, trade and book ticker streams are named the
/// same on both markets: their suffix depends on the channel alone. The
/// snapshot stream is the ten-level partial depth and never the diff stream,
/// so a snapshot capture receives snapshots on either market.
pub proof fn lemma_shared_streams_follow_the_channel(market: MarketType, channel: Channel)
    ensures
        (channel == Channel::BookDiff || channel == Channel::BookSnapshot || channel
            == Channel::Trade || channel == Channel::BookTicker) ==> binance_stream(market, channel)
            == binance_stream(MarketType::Spot, channel),
        binance_stream(market, Channel::BookSnapshot) == Some("@depth10@100ms"@),
        binance_stream(market, Channel::BookDiff) == Some("@depth@100ms"@),
        binance_stream(market, Channel::BookSnapshot) != binance_stream(market, Channel::BookDiff),
{
    reveal_strlit("@depth10@100ms");
    reveal_strlit("@depth@100ms");
    assert("@depth10@100ms"@[6] != "@depth@100ms"@[6]);
}

/// Binance streams exist for the depth diff, the depth snapshot, trades and
/// the book ticker on both markets, and for funding and liquidations on the
/// perpetual market only; every other combination is refused.
pub proof fn lemma_binance_streams(market: MarketType, channel: Channel)
    ensures
        binance_stream(market, channel) is Some <==> (channel == Channel::BookDiff || channel
            == Channel::BookSnapshot || channel == Channel::Trade || channel == Channel::BookTicker
            || (market == MarketType::PerpUsdt && (channel == Channel::Funding || channel
            == Channel::Liquidation))),
{
}

} // verus!
