//! Venues, market types, channels, symbols and instruments.
use vstd::prelude::*;
use crate::text;

verus! {

/// ASCII upper-case letters become lower case; everything else is kept.
pub open spec fn lower_char(c: char) -> char {
    if 65 <= (c as int) <= 90 {
        ((c as int) + 32) as char
    } else {
        c
    }
}

/// `str::to_ascii_lowercase`.
pub open spec fn ascii_lower(s: Seq<char>) -> Seq<char> {
    Seq::new(s.len(), |i: int| lower_char(s[i]))
}

fn lower_char_exec(c: char) -> (r: char)
    ensures
        r == lower_char(c),
{
    let v = c as u32;
    if 65 <= v && v <= 90 {
        ((v + 32) as u8) as char
    } else {
        c
    }
}

/// The characters of `s` with ASCII letters in lower case.
pub fn lowercase_chars(s: &str) -> (r: Vec<char>)
    ensures
        r@ == ascii_lower(s@),
{
    let v = text::chars_of(s);
    let mut r: Vec<char> = Vec::new();
    let mut i: usize = 0;
    while i < v.len()
        invariant
            0 <= i <= v.len(),
            v@ == s@,
            r@ == ascii_lower(s@).take(i as int),
        decreases v.len() - i,
    {
        r.push(lower_char_exec(v[i]));
        i += 1;
        assert(r@ =~= ascii_lower(s@).take(i as int));
    }
    assert(ascii_lower(s@).take(i as int) =~= ascii_lower(s@));
    r
}

/// Whether the characters in `v` are those of `lit`.
pub fn chars_equal(v: &Vec<char>, lit: &str) -> (r: bool)
    ensures
        r == (v@ == lit@),
{
    let w = text::chars_of(lit);
    if v.len() != w.len() {
        return false;
    }
    let mut i: usize = 0;
    while i < v.len()
        invariant
            0 <= i <= v.len() == w.len(),
            w@ == lit@,
            forall|j: int| 0 <= j < i ==> v@[j] == w@[j],
        decreases v.len() - i,
    {
        if v[i] != w[i] {
            return false;
        }
        i += 1;
    }
    assert(v@ =~= w@);
    true
}

#[derive(Clone, Copy, PartialEq, Eq, Structural, Hash, Debug)]
pub enum Venue {
    Binance,
    Bybit,
}

/// An unknown name; carries the name as it was compared (lower case).
#[derive(Clone, PartialEq, Eq, Debug)]
pub enum VenueParseError {
    Unknown(String),
}

pub open spec fn venue_name(v: Venue) -> Seq<char> {
    match v {
        Venue::Binance => "binance"@,
        Venue::Bybit => "bybit"@,
    }
}

/// The venue a (lower-cased) name denotes.
pub open spec fn venue_named(name: Seq<char>) -> Option<Venue> {
    if name == "binance"@ {
        Some(Venue::Binance)
    } else if name == "bybit"@ {
        Some(Venue::Bybit)
    } else {
        None
    }
}

impl Venue {
    pub fn as_str(self) -> (s: &'static str)
        ensures
            s@ == venue_name(self),
    {
        match self {
            Venue::Binance => "binance",
            Venue::Bybit => "bybit",
        }
    }

    /// Parses a venue name, ignoring ASCII case.
    pub fn parse(s: &str) -> (r: Result<Venue, VenueParseError>)
        ensures
            match venue_named(ascii_lower(s@)) {
                Some(v) => r == Ok::<Venue, VenueParseError>(v),
                None => r matches Err(VenueParseError::Unknown(n)) && n@ == ascii_lower(s@),
            },
    {
        let name = lowercase_chars(s);
        if chars_equal(&name, "binance") {
            Ok(Venue::Binance)
        } else if chars_equal(&name, "bybit") {
            Ok(Venue::Bybit)
        } else {
            Err(VenueParseError::Unknown(text::string_from_chars(&name)))
        }
    }

    pub fn to_string(&self) -> (s: String)
        ensures
            s@ == venue_name(*self),
    {
        text::string_from_chars(&text::chars_of(self.as_str()))
    }
}

impl core::str::FromStr for Venue {
    type Err = VenueParseError;

    /// Parses a venue name, ignoring ASCII case, as `Venue::parse` does.
    fn from_str(s: &str) -> (r: Result<Self, Self::Err>)
        ensures
            match venue_named(ascii_lower(s@)) {
                Some(v) => r == Ok::<Venue, VenueParseError>(v),
                None => r matches Err(VenueParseError::Unknown(n)) && n@ == ascii_lower(s@),
            },
    {
        Venue::parse(s)
    }
}

#[derive(Clone, Copy, PartialEq, Eq, Structural, Hash, Debug)]
pub enum MarketType {
    Spot,
    PerpUsdt,
}

#[derive(Clone, PartialEq, Eq, Debug)]
pub enum MarketTypeParseError {
    Unknown(String),
}

pub open spec fn market_type_name(m: MarketType) -> Seq<char> {
    match m {
        MarketType::Spot => "spot"@,
        MarketType::PerpUsdt => "perp_usdt"@,
    }
}

/// The market type a (lower-cased) name denotes; `perp` is accepted for `perp_usdt`.
pub open spec fn market_type_named(name: Seq<char>) -> Option<MarketType> {
    if name == "spot"@ {
        Some(MarketType::Spot)
    } else if name == "perp_usdt"@ || name == "perp"@ {
        Some(MarketType::PerpUsdt)
    } else {
        None
    }
}

impl MarketType {
    pub fn as_str(self) -> (s: &'static str)
        ensures
            s@ == market_type_name(self),
    {
        match self {
            MarketType::Spot => "spot",
            MarketType::PerpUsdt => "perp_usdt",
        }
    }

    /// Parses a market type name, ignoring ASCII case.
    pub fn parse(s: &str) -> (r: Result<MarketType, MarketTypeParseError>)
        ensures
            match market_type_named(ascii_lower(s@)) {
                Some(m) => r == Ok::<MarketType, MarketTypeParseError>(m),
                None => r matches Err(MarketTypeParseError::Unknown(n)) && n@ == ascii_lower(s@),
            },
    {
        let name = lowercase_chars(s);
        if chars_equal(&name, "spot") {
            Ok(MarketType::Spot)
        } else if chars_equal(&name, "perp_usdt") || chars_equal(&name, "perp") {
            Ok(MarketType::PerpUsdt)
        } else {
            Err(MarketTypeParseError::Unknown(text::string_from_chars(&name)))
        }
    }

    pub fn to_string(&self) -> (s: String)
        ensures
            s@ == market_type_name(*self),
    {
        text::string_from_chars(&text::chars_of(self.as_str()))
    }
}

impl core::str::FromStr for MarketType {
    type Err = MarketTypeParseError;

    /// Parses a market type name, ignoring ASCII case, as `MarketType::parse` does.
    fn from_str(s: &str) -> (r: Result<Self, Self::Err>)
        ensures
            match market_type_named(ascii_lower(s@)) {
                Some(m) => r == Ok::<MarketType, MarketTypeParseError>(m),
                None => r matches Err(MarketTypeParseError::Unknown(n)) && n@ == ascii_lower(s@),
            },
    {
        MarketType::parse(s)
    }
}

#[derive(Clone, Copy, PartialEq, Eq, Structural, Hash, Debug)]
pub enum Channel {
    BookDiff,
    BookSnapshot,
    Trade,
    BookTicker,
    Funding,
    OpenInterest,
    Liquidation,
}

#[derive(Clone, PartialEq, Eq, Debug)]
pub enum ChannelParseError {
    Unknown(String),
}

pub open spec fn channel_name(c: Channel) -> Seq<char> {
    match c {
        Channel::BookDiff => "book_diff"@,
        Channel::BookSnapshot => "book_snapshot"@,
        Channel::Trade => "trade"@,
        Channel::BookTicker => "book_ticker"@,
        Channel::Funding => "funding"@,
        Channel::OpenInterest => "open_interest"@,
        Channel::Liquidation => "liquidation"@,
    }
}

/// The channel a (lower-cased) name denotes, canonical names and their short forms.
pub open spec fn channel_named(n: Seq<char>) -> Option<Channel> {
    if n == "book_diff"@ || n == "book"@ {
        Some(Channel::BookDiff)
    } else if n == "book_snapshot"@ || n == "snapshot"@ {
        Some(Channel::BookSnapshot)
    } else if n == "trade"@ || n == "trades"@ {
        Some(Channel::Trade)
    } else if n == "book_ticker"@ || n == "ticker"@ {
        Some(Channel::BookTicker)
    } else if n == "funding"@ {
        Some(Channel::Funding)
    } else if n == "open_interest"@ || n == "oi"@ {
        Some(Channel::OpenInterest)
    } else if n == "liquidation"@ || n == "liquidations"@ {
        Some(Channel::Liquidation)
    } else {
        None
    }
}

impl Channel {
    pub fn as_str(self) -> (s: &'static str)
        ensures
            s@ == channel_name(self),
    {
        match self {
            Channel::BookDiff => "book_diff",
            Channel::BookSnapshot => "book_snapshot",
            Channel::Trade => "trade",
            Channel::BookTicker => "book_ticker",
            Channel::Funding => "funding",
            Channel::OpenInterest => "open_interest",
            Channel::Liquidation => "liquidation",
        }
    }

    /// Parses a channel name, ignoring ASCII case.
    pub fn parse(s: &str) -> (r: Result<Channel, ChannelParseError>)
        ensures
            match channel_named(ascii_lower(s@)) {
                Some(c) => r == Ok::<Channel, ChannelParseError>(c),
                None => r matches Err(ChannelParseError::Unknown(n)) && n@ == ascii_lower(s@),
            },
    {
        let n = lowercase_chars(s);
        if chars_equal(&n, "book_diff") || chars_equal(&n, "book") {
            Ok(Channel::BookDiff)
        } else if chars_equal(&n, "book_snapshot") || chars_equal(&n, "snapshot") {
            Ok(Channel::BookSnapshot)
        } else if chars_equal(&n, "trade") || chars_equal(&n, "trades") {
            Ok(Channel::Trade)
        } else if chars_equal(&n, "book_ticker") || chars_equal(&n, "ticker") {
            Ok(Channel::BookTicker)
        } else if chars_equal(&n, "funding") {
            Ok(Channel::Funding)
        } else if chars_equal(&n, "open_interest") || chars_equal(&n, "oi") {
            Ok(Channel::OpenInterest)
        } else if chars_equal(&n, "liquidation") || chars_equal(&n, "liquidations") {
            Ok(Channel::Liquidation)
        } else {
            Err(ChannelParseError::Unknown(text::string_from_chars(&n)))
        }
    }

    pub fn to_string(&self) -> (s: String)
        ensures
            s@ == channel_name(*self),
    {
        text::string_from_chars(&text::chars_of(self.as_str()))
    }
}

impl core::str::FromStr for Channel {
    type Err = ChannelParseError;

    /// Parses a channel name or short form, ignoring ASCII case, as `Channel::parse` does.
    fn from_str(s: &str) -> (r: Result<Self, Self::Err>)
        ensures
            match channel_named(ascii_lower(s@)) {
                Some(c) => r == Ok::<Channel, ChannelParseError>(c),
                None => r matches Err(ChannelParseError::Unknown(n)) && n@ == ascii_lower(s@),
            },
    {
        Channel::parse(s)
    }
}


/// Characters allowed on either side of a symbol.
pub open spec fn symbol_char(c: char) -> bool {
    let v = c as int;
    ||| 65 <= v <= 90
    ||| 48 <= v <= 57
    ||| v == 46
    ||| v == 95
    ||| v == 45
}

pub open spec fn valid_side(s: Seq<char>) -> bool {
    forall|i: int| 0 <= i < s.len() ==> symbol_char(#[trigger] s[i])
}

/// The part before the first `/`.
pub open spec fn symbol_base(s: Seq<char>) -> Seq<char> {
    match text::first_index(s, '/') {
        Some(k) => s.take(k as int),
        None => s,
    }
}

/// The part after the first `/`.
pub open spec fn symbol_quote(s: Seq<char>) -> Seq<char> {
    match text::first_index(s, '/') {
        Some(k) => s.skip(k + 1 as int),
        None => Seq::empty(),
    }
}

/// Exactly one `/` separator.
pub open spec fn one_separator(s: Seq<char>) -> bool {
    text::first_index(s, '/') is Some && text::first_index(symbol_quote(s), '/') is None
}

/// Why a symbol was refused.
#[derive(Clone, Copy, PartialEq, Eq, Structural, Debug)]
pub enum SymbolFailure {
    Malformed,
    EmptyBase,
    EmptyQuote,
    InvalidCharacters,
}

/// The verdict on a candidate symbol: `BASE/QUOTE`, both sides non-empty and
/// made of upper-case ASCII letters, digits, `.`, `_` and `-`.
pub open spec fn symbol_check(s: Seq<char>) -> Option<SymbolFailure> {
    if !one_separator(s) {
        Some(SymbolFailure::Malformed)
    } else if symbol_base(s).len() == 0 {
        Some(SymbolFailure::EmptyBase)
    } else if symbol_quote(s).len() == 0 {
        Some(SymbolFailure::EmptyQuote)
    } else if !valid_side(symbol_base(s)) || !valid_side(symbol_quote(s)) {
        Some(SymbolFailure::InvalidCharacters)
    } else {
        None
    }
}

/// Errors from validating a symbol; each carries the rejected value.
#[derive(Clone, PartialEq, Eq, Debug)]
pub enum SymbolError {
    Malformed(String),
    EmptyBase(String),
    EmptyQuote(String),
    InvalidCharacters(String),
}

impl SymbolError {
    pub open spec fn failure(&self) -> SymbolFailure {
        match self {
            SymbolError::Malformed(_) => SymbolFailure::Malformed,
            SymbolError::EmptyBase(_) => SymbolFailure::EmptyBase,
            SymbolError::EmptyQuote(_) => SymbolFailure::EmptyQuote,
            SymbolError::InvalidCharacters(_) => SymbolFailure::InvalidCharacters,
        }
    }

    pub open spec fn value(&self) -> Seq<char> {
        match self {
            SymbolError::Malformed(v) => v@,
            SymbolError::EmptyBase(v) => v@,
            SymbolError::EmptyQuote(v) => v@,
            SymbolError::InvalidCharacters(v) => v@,
        }
    }
}

/// A validated `BASE/QUOTE` symbol.
#[derive(PartialEq, Eq, Hash, Debug)]
pub struct Symbol(String);

impl Clone for Symbol {
    fn clone(&self) -> (r: Self)
        ensures
            r@ == self@,
    {
        proof {
            use_type_invariant(self);
        }
        Symbol(self.0.clone())
    }
}

impl View for Symbol {
    type V = Seq<char>;

    closed spec fn view(&self) -> Seq<char> {
        self.0@
    }
}

fn is_symbol_char(c: char) -> (r: bool)
    ensures
        r == symbol_char(c),
{
    let x = c as u32;
    (65 <= x && x <= 90) || (48 <= x && x <= 57) || x == 46 || x == 95 || x == 45
}

fn all_symbol_chars(v: &Vec<char>, lo: usize, hi: usize) -> (r: bool)
    requires
        lo <= hi <= v.len(),
    ensures
        r == valid_side(v@.subrange(lo as int, hi as int)),
{
    let mut i = lo;
    while i < hi
        invariant
            lo <= i <= hi <= v.len(),
            forall|j: int| lo <= j < i ==> symbol_char(#[trigger] v@[j]),
        decreases hi - i,
    {
        if !is_symbol_char(v[i]) {
            assert(v@.subrange(lo as int, hi as int)[i - lo] == v@[i as int]);
            return false;
        }
        i += 1;
    }
    assert forall|j: int| 0 <= j < hi - lo implies symbol_char(
        #[trigger] v@.subrange(lo as int, hi as int)[j],
    ) by {
        assert(v@.subrange(lo as int, hi as int)[j] == v@[lo + j]);
    }
    true
}

impl Symbol {
    #[verifier::type_invariant]
    spec fn well_formed(self) -> bool {
        symbol_check(self.0@) is None
    }

    /// Validates `value` as a symbol.
    pub fn new(value: &str) -> (r: Result<Symbol, SymbolError>)
        ensures
            match symbol_check(value@) {
                None => r is Ok && r->Ok_0@ == value@,
                Some(f) => r is Err && r->Err_0.failure() == f && r->Err_0.value() == value@,
            },
    {
        let v = text::chars_of(value);
        let n = v.len();
        let owned = text::string_from_chars(&v);
        assert(v@.skip(0) =~= v@);
        let k = match text::find_char(&v, 0, '/') {
            Some(k) => k,
            None => {
                return Err(SymbolError::Malformed(owned));
            },
        };
        assert(symbol_quote(v@) =~= v@.skip(k + 1));
        assert(symbol_base(v@) =~= v@.subrange(0, k as int));
        assert(symbol_quote(v@) =~= v@.subrange(k + 1, n as int));
        if text::find_char(&v, k + 1, '/').is_some() {
            return Err(SymbolError::Malformed(owned));
        }
        if k == 0 {
            return Err(SymbolError::EmptyBase(owned));
        }
        if k + 1 == n {
            return Err(SymbolError::EmptyQuote(owned));
        }
        if !all_symbol_chars(&v, 0, k) || !all_symbol_chars(&v, k + 1, n) {
            return Err(SymbolError::InvalidCharacters(owned));
        }
        assert(one_separator(v@));
        assert(valid_side(symbol_base(v@)));
        assert(valid_side(symbol_quote(v@)));
        assert(symbol_check(owned@) is None);
        Ok(Symbol(owned))
    }

    /// The symbol's text; it is always a valid symbol.
    pub fn as_str(&self) -> (s: &str)
        ensures
            s@ == self@,
            symbol_check(s@) is None,
    {
        proof {
            use_type_invariant(self);
        }
        self.0.as_str()
    }

    /// The part before the separator.
    pub fn base(&self) -> (s: String)
        ensures
            s@ == symbol_base(self@),
    {
        proof {
            use_type_invariant(self);
        }
        let v = text::chars_of(self.0.as_str());
        assert(v@.skip(0) =~= v@);
        match text::find_char(&v, 0, '/') {
            Some(k) => {
                let b = crate::fixed::sub_chars(&v, 0, k);
                assert(b@ =~= symbol_base(self@));
                text::string_from_chars(&b)
            },
            None => text::string_from_chars(&v),
        }
    }

    /// The part after the separator.
    pub fn quote(&self) -> (s: String)
        ensures
            s@ == symbol_quote(self@),
    {
        proof {
            use_type_invariant(self);
        }
        let v = text::chars_of(self.0.as_str());
        assert(v@.skip(0) =~= v@);
        match text::find_char(&v, 0, '/') {
            Some(k) => {
                let q = crate::fixed::sub_chars(&v, k + 1, v.len());
                assert(q@ =~= symbol_quote(self@));
                text::string_from_chars(&q)
            },
            None => text::string_from_chars(&Vec::new()),
        }
    }

    pub fn to_string(&self) -> (s: String)
        ensures
            s@ == self@,
    {
        text::string_from_chars(&text::chars_of(self.0.as_str()))
    }
}

impl core::str::FromStr for Symbol {
    type Err = SymbolError;

    /// Validates a symbol, as `Symbol::new` does.
    fn from_str(s: &str) -> (r: Result<Self, Self::Err>)
        ensures
            match symbol_check(s@) {
                None => r is Ok && r->Ok_0@ == s@,
                Some(f) => r is Err && r->Err_0.failure() == f && r->Err_0.value() == s@,
            },
    {
        Symbol::new(s)
    }
}

/// A venue, a market type and a symbol.
#[derive(PartialEq, Eq, Hash, Debug)]
pub struct Instrument {
    venue: Venue,
    market_type: MarketType,
    symbol: Symbol,
}

impl Clone for Instrument {
    fn clone(&self) -> (r: Self)
        ensures
            r@ == self@,
    {
        Instrument { venue: self.venue, market_type: self.market_type, symbol: self.symbol.clone() }
    }
}

impl View for Instrument {
    type V = (Venue, MarketType, Seq<char>);

    closed spec fn view(&self) -> (Venue, MarketType, Seq<char>) {
        (self.venue, self.market_type, self.symbol@)
    }
}

impl Instrument {
    pub fn new(venue: Venue, market_type: MarketType, symbol: Symbol) -> (r: Instrument)
        ensures
            r@ == (venue, market_type, symbol@),
    {
        Instrument { venue, market_type, symbol }
    }

    pub fn venue(&self) -> (v: Venue)
        ensures
            v == self@.0,
    {
        self.venue
    }

    pub fn market_type(&self) -> (m: MarketType)
        ensures
            m == self@.1,
    {
        self.market_type
    }

    /// The instrument's symbol, which is always valid.
    pub fn symbol(&self) -> (s: &Symbol)
        ensures
            s@ == self@.2,
            symbol_check(s@) is None,
    {
        proof {
            use_type_invariant(&self.symbol);
        }
        &self.symbol
    }

    /// The venue, market type and symbol separated by spaces.
    pub fn to_string(&self) -> (s: String)
        ensures
            s@ == venue_name(self@.0) + " "@ + market_type_name(self@.1) + " "@ + self@.2,
    {
        let mut out: Vec<char> = Vec::new();
        text::push_str(&mut out, self.venue.as_str());
        text::push_str(&mut out, " ");
        text::push_str(&mut out, self.market_type.as_str());
        text::push_str(&mut out, " ");
        text::push_str(&mut out, self.symbol.as_str());
        assert(out@ =~= venue_name(self@.0) + " "@ + market_type_name(self@.1) + " "@ + self@.2);
        text::string_from_chars(&out)
    }
}


proof fn lemma_lower_identity(s: Seq<char>)
    requires
        forall|i: int| 0 <= i < s.len() ==> !(65 <= (#[trigger] s[i] as int) <= 90),
    ensures
        ascii_lower(s) == s,
{
    assert(ascii_lower(s) =~= s);
}

/// Lowering the case twice is lowering it once, so a name and its lower-case
/// form are read alike.
pub proof fn lemma_lowering_is_idempotent(s: Seq<char>)
    ensures
        ascii_lower(ascii_lower(s)) == ascii_lower(s),
{
    assert(ascii_lower(ascii_lower(s)) =~= ascii_lower(s));
}

/// Every venue, market type and channel reads back from its canonical name.
pub proof fn lemma_names_round_trip(v: Venue, m: MarketType, c: Channel)
    ensures
        venue_named(ascii_lower(venue_name(v))) == Some(v),
        market_type_named(ascii_lower(market_type_name(m))) == Some(m),
        channel_named(ascii_lower(channel_name(c))) == Some(c),
{
    reveal_strlit("binance");
    reveal_strlit("bybit");
    reveal_strlit("spot");
    reveal_strlit("perp_usdt");
    reveal_strlit("perp");
    reveal_strlit("book_diff");
    reveal_strlit("book");
    reveal_strlit("book_snapshot");
    reveal_strlit("snapshot");
    reveal_strlit("trade");
    reveal_strlit("trades");
    reveal_strlit("book_ticker");
    reveal_strlit("ticker");
    reveal_strlit("funding");
    reveal_strlit("open_interest");
    reveal_strlit("oi");
    reveal_strlit("liquidation");
    reveal_strlit("liquidations");
    lemma_lower_identity(venue_name(v));
    lemma_lower_identity(market_type_name(m));
    lemma_lower_identity(channel_name(c));
    match c {
        Channel::BookDiff => {},
        Channel::BookSnapshot => {},
        Channel::Trade => {},
        Channel::BookTicker => {},
        Channel::Funding => {},
        Channel::OpenInterest => {},
        Channel::Liquidation => {
            assert("liquidation"@[0] != "book_ticker"@[0]);
            assert("liquidation"@[0] != "open_interest"@[0]);
        },
    }
}

/// The separator test holds exactly when `/` occurs once.
pub proof fn lemma_one_separator_counts(s: Seq<char>)
    ensures
        one_separator(s) <==> text::char_count(s, '/') == 1,
{
    text::lemma_char_count(s, '/');
    match text::first_index(s, '/') {
        Some(k) => {
            text::lemma_char_count(symbol_quote(s), '/');
        },
        None => {},
    }
}

/// A valid symbol is its base, the separator and its quote.
pub proof fn lemma_symbol_parts(s: Seq<char>)
    requires
        symbol_check(s) is None,
    ensures
        symbol_base(s) + seq!['/'] + symbol_quote(s) == s,
        symbol_base(s).len() > 0,
        symbol_quote(s).len() > 0,
{
    text::lemma_first_index(s, '/');
    let k = text::first_index(s, '/')->0;
    assert(symbol_base(s) + seq!['/'] + symbol_quote(s) =~= s);
}

} // verus!
