//! Fixed-point decimal numbers: an `i128` count of units of 10^-8.
use vstd::prelude::*;
use crate::text;

verus! {

/// The number of raw units in one whole unit.
pub const SCALE: i128 = 100_000_000;

/// The number of decimal places a `Fixed` carries.
pub const DECIMAL_PLACES: u32 = 8;

/// A signed decimal with exactly eight fractional places.
#[derive(Clone, Copy, PartialEq, Eq, Structural, PartialOrd, Ord, Hash, Default, Debug)]
pub struct Fixed(pub i128);

/// Rust's truncating integer division (`/` on signed integers), for `d != 0`.
pub open spec fn trunc_div(x: int, d: int) -> int {
    if x == 0 {
        0
    } else if x > 0 && d > 0 {
        x / d
    } else if x < 0 && d < 0 {
        (-x) / (-d)
    } else if x < 0 {
        -((-x) / d)
    } else {
        -(x / (-d))
    }
}

/// True when `v` fits in an `i128`.
pub open spec fn fits_i128(v: int) -> bool {
    i128::MIN <= v <= i128::MAX
}

/// Half the magnitude of a divisor, rounded down.
pub open spec fn half_of(d: int) -> int {
    if d >= 0 {
        d / 2
    } else {
        (-d) / 2
    }
}

/// The numerator after the rounding offset is applied: the offset moves
/// the numerator away from zero by half the divisor's magnitude.
pub open spec fn offset_numerator(n: int, d: int) -> int {
    if n >= 0 {
        n + half_of(d)
    } else {
        n - half_of(d)
    }
}

/// Division rounding half away from zero: the numerator is moved away from
/// zero by half the divisor's magnitude, then divided with truncation.
/// `None` when an intermediate value or the quotient leaves `i128` or when
/// `d` is zero.
pub open spec fn spec_round_div(n: int, d: int) -> Option<int> {
    let m = offset_numerator(n, d);
    if d == 0 || !fits_i128(m) || !fits_i128(trunc_div(m, d)) {
        None
    } else {
        Some(trunc_div(m, d))
    }
}

/// The product of two fixed values, rounded to eight places; `None` on overflow.
pub open spec fn spec_mul(a: int, b: int) -> Option<int> {
    if !fits_i128(a * b) {
        None
    } else {
        spec_round_div(a * b, SCALE as int)
    }
}

/// The quotient of two fixed values, rounded to eight places; `None` on a zero
/// divisor or on overflow.
pub open spec fn spec_div(a: int, b: int) -> Option<int> {
    if b == 0 || !fits_i128(a * SCALE) {
        None
    } else {
        spec_round_div(a * SCALE, b)
    }
}

pub open spec fn lift(v: Option<int>) -> Option<Fixed> {
    match v {
        Some(x) => Some(Fixed(x as i128)),
        None => None,
    }
}

/// Truncating division of two `i128` values, `None` where Rust's `checked_div` is.
fn checked_trunc_div(x: i128, d: i128) -> (r: Option<i128>)
    ensures
        r == (if d == 0 || !fits_i128(trunc_div(x as int, d as int)) {
            None::<i128>
        } else {
            Some(trunc_div(x as int, d as int) as i128)
        }),
{
    x.checked_div(d)
}

fn round_div(numerator: i128, denominator: i128) -> (r: Option<i128>)
    ensures
        match spec_round_div(numerator as int, denominator as int) {
            Some(v) => r == Some(v as i128),
            None => r is None,
        },
{
    if denominator == 0 {
        return None;
    }
    let half = if denominator >= 0 {
        denominator / 2
    } else {
        -(denominator / 2)
    };
    assert(half == half_of(denominator as int));
    if numerator >= 0 {
        match numerator.checked_add(half) {
            Some(m) => checked_trunc_div(m, denominator),
            None => None,
        }
    } else {
        match numerator.checked_sub(half) {
            Some(m) => checked_trunc_div(m, denominator),
            None => None,
        }
    }
}

impl Fixed {
    /// Zero.
    pub fn zero() -> (r: Fixed)
        ensures
            r.0 == 0,
    {
        Fixed(0)
    }

    /// One whole unit.
    pub fn one() -> (r: Fixed)
        ensures
            r.0 == SCALE,
    {
        Fixed(SCALE)
    }

    pub fn from_raw(raw: i128) -> (r: Fixed)
        ensures
            r.0 == raw,
    {
        Fixed(raw)
    }

    pub fn raw(self) -> (r: i128)
        ensures
            r == self.0,
    {
        self.0
    }

    pub fn from_units(units: i64) -> (r: Fixed)
        ensures
            r.0 == units * SCALE,
    {
        assert(i64::MIN * SCALE <= units * SCALE <= i64::MAX * SCALE) by (nonlinear_arith)
            requires
                i64::MIN <= units <= i64::MAX,
        ;
        Fixed(units as i128 * SCALE)
    }

    pub fn checked_add(self, rhs: Self) -> (r: Option<Self>)
        ensures
            r == (if fits_i128(self.0 + rhs.0) {
                Some(Fixed((self.0 + rhs.0) as i128))
            } else {
                None
            }),
    {
        match self.0.checked_add(rhs.0) {
            Some(v) => Some(Fixed(v)),
            None => None,
        }
    }

    pub fn checked_sub(self, rhs: Self) -> (r: Option<Self>)
        ensures
            r == (if fits_i128(self.0 - rhs.0) {
                Some(Fixed((self.0 - rhs.0) as i128))
            } else {
                None
            }),
    {
        match self.0.checked_sub(rhs.0) {
            Some(v) => Some(Fixed(v)),
            None => None,
        }
    }

    pub fn checked_mul(self, rhs: Self) -> (r: Option<Self>)
        ensures
            r == lift(spec_mul(self.0 as int, rhs.0 as int)),
    {
        match self.0.checked_mul(rhs.0) {
            Some(p) => match round_div(p, SCALE) {
                Some(v) => Some(Fixed(v)),
                None => None,
            },
            None => None,
        }
    }

    pub fn checked_div(self, rhs: Self) -> (r: Option<Self>)
        ensures
            r == lift(spec_div(self.0 as int, rhs.0 as int)),
    {
        if rhs.0 == 0 {
            return None;
        }
        match self.0.checked_mul(SCALE) {
            Some(p) => match round_div(p, rhs.0) {
                Some(v) => Some(Fixed(v)),
                None => None,
            },
            None => None,
        }
    }

    pub fn checked_neg(self) -> (r: Option<Self>)
        ensures
            r == (if self.0 == i128::MIN {
                None
            } else {
                Some(Fixed(-self.0 as i128))
            }),
    {
        if self.0 == i128::MIN {
            None
        } else {
            Some(Fixed(-self.0))
        }
    }

    pub fn is_zero(self) -> (r: bool)
        ensures
            r == (self.0 == 0),
    {
        self.0 == 0
    }
}


/// Why a decimal literal was refused.
#[derive(Clone, Copy, PartialEq, Eq, Structural, Debug)]
pub enum ParseFailure {
    Empty,
    Invalid,
    ExcessPrecision,
    OutOfRange,
}

/// Errors from parsing a decimal literal. Each but `Empty` carries the
/// literal with surrounding whitespace removed.
#[derive(Clone, PartialEq, Eq, Debug)]
pub enum FixedParseError {
    Empty,
    Invalid(String),
    ExcessPrecision(String),
    OutOfRange(String),
}

impl FixedParseError {
    pub open spec fn failure(&self) -> ParseFailure {
        match self {
            FixedParseError::Empty => ParseFailure::Empty,
            FixedParseError::Invalid(_) => ParseFailure::Invalid,
            FixedParseError::ExcessPrecision(_) => ParseFailure::ExcessPrecision,
            FixedParseError::OutOfRange(_) => ParseFailure::OutOfRange,
        }
    }

    pub open spec fn literal(&self) -> Seq<char> {
        match self {
            FixedParseError::Empty => Seq::empty(),
            FixedParseError::Invalid(t) => t@,
            FixedParseError::ExcessPrecision(t) => t@,
            FixedParseError::OutOfRange(t) => t@,
        }
    }
}

/// The magnitude of `x`.
pub open spec fn magnitude(x: int) -> nat {
    if x < 0 {
        (-x) as nat
    } else {
        x as nat
    }
}

/// The canonical text of a raw value: an optional minus sign, the whole units
/// without leading zeros, a point, and exactly eight fractional digits.
pub open spec fn fixed_text(x: int) -> Seq<char> {
    (if x < 0 {
        seq!['-']
    } else {
        Seq::empty()
    }) + text::decimal(magnitude(x) / (SCALE as nat)) + seq!['.'] + text::padded(
        magnitude(x) % (SCALE as nat),
        8,
    )
}

/// The part before the first `.` (all of `s` when there is none).
pub open spec fn whole_part(s: Seq<char>) -> Seq<char> {
    match text::first_index(s, '.') {
        Some(k) => s.take(k as int),
        None => s,
    }
}

/// The part after the first `.` (empty when there is none).
pub open spec fn fraction_part(s: Seq<char>) -> Seq<char> {
    match text::first_index(s, '.') {
        Some(k) => s.skip(k + 1 as int),
        None => Seq::empty(),
    }
}

/// The number of bytes `c` takes in UTF-8.
pub open spec fn utf8_width(c: char) -> nat {
    if (c as int) < 0x80 {
        1
    } else if (c as int) < 0x800 {
        2
    } else if (c as int) < 0x10000 {
        3
    } else {
        4
    }
}

/// The number of bytes `s` takes in UTF-8.
pub open spec fn utf8_len(s: Seq<char>) -> nat
    decreases s.len(),
{
    if s.len() == 0 {
        0
    } else {
        utf8_len(s.drop_last()) + utf8_width(s.last())
    }
}

/// Unicode `White_Space`, the property `char::is_whitespace` tests.
pub open spec fn is_white_space(c: char) -> bool {
    let v = c as int;
    ||| 0x09 <= v <= 0x0d
    ||| v == 0x20
    ||| v == 0x85
    ||| v == 0xa0
    ||| v == 0x1680
    ||| 0x2000 <= v <= 0x200a
    ||| v == 0x2028
    ||| v == 0x2029
    ||| v == 0x202f
    ||| v == 0x205f
    ||| v == 0x3000
}

pub open spec fn trim_start(s: Seq<char>) -> Seq<char>
    decreases s.len(),
{
    if s.len() > 0 && is_white_space(s[0]) {
        trim_start(s.drop_first())
    } else {
        s
    }
}

pub open spec fn trim_end(s: Seq<char>) -> Seq<char>
    decreases s.len(),
{
    if s.len() > 0 && is_white_space(s.last()) {
        trim_end(s.drop_last())
    } else {
        s
    }
}

/// `s` without leading and trailing white space.
pub open spec fn trim(s: Seq<char>) -> Seq<char> {
    trim_end(trim_start(s))
}

/// The digits after a sign, if the literal starts with one.
pub open spec fn unsigned_part(t: Seq<char>) -> Seq<char> {
    if t.len() > 0 && (t[0] == '-' || t[0] == '+') {
        t.drop_first()
    } else {
        t
    }
}

/// The fraction padded on the right with zeros to eight digits.
pub open spec fn fraction_value(f: Seq<char>) -> int {
    text::digits_value(f) * text::pow10((8 - f.len()) as nat)
}

/// The meaning of a decimal literal: optional surrounding white space, an
/// optional sign, digits, and optionally a point followed by at most eight
/// digits. Either side of the point may be empty.
pub open spec fn parse_fixed(s: Seq<char>) -> Result<int, ParseFailure> {
    let t = trim(s);
    let negative = t.len() > 0 && t[0] == '-';
    let digits = unsigned_part(t);
    let whole = whole_part(digits);
    let fraction = fraction_part(digits);
    let mag = text::digits_value(whole) * SCALE + fraction_value(fraction);
    if t.len() == 0 {
        Err(ParseFailure::Empty)
    } else if utf8_len(fraction) > 8 {
        Err(ParseFailure::ExcessPrecision)
    } else if !text::all_digits(whole) || !text::all_digits(fraction) {
        Err(ParseFailure::Invalid)
    } else if mag > i128::MAX {
        Err(ParseFailure::OutOfRange)
    } else if negative {
        Ok(-mag)
    } else {
        Ok(mag)
    }
}


pub proof fn lemma_utf8_len_append(a: Seq<char>, b: Seq<char>)
    ensures
        utf8_len(a + b) == utf8_len(a) + utf8_len(b),
    decreases b.len(),
{
    if b.len() == 0 {
        assert(a + b =~= a);
    } else {
        assert((a + b).drop_last() =~= a + b.drop_last());
        lemma_utf8_len_append(a, b.drop_last());
    }
}

/// A run of ASCII digits takes one byte per digit.
pub proof fn lemma_utf8_len_digits(s: Seq<char>)
    requires
        text::all_digits(s),
    ensures
        utf8_len(s) == s.len(),
    decreases s.len(),
{
    if s.len() > 0 {
        assert(text::all_digits(s.drop_last())) by {
            assert forall|i: int| 0 <= i < s.drop_last().len() implies text::is_digit(
                #[trigger] s.drop_last()[i],
            ) by {
                assert(s.drop_last()[i] == s[i]);
            }
        }
        assert(text::is_digit(s[s.len() - 1]));
        lemma_utf8_len_digits(s.drop_last());
    }
}

fn is_white_space_char(c: char) -> (r: bool)
    ensures
        r == is_white_space(c),
{
    let v = c as u32;
    (0x09 <= v && v <= 0x0d) || v == 0x20 || v == 0x85 || v == 0xa0 || v == 0x1680 || (0x2000 <= v
        && v <= 0x200a) || v == 0x2028 || v == 0x2029 || v == 0x202f || v == 0x205f || v == 0x3000
}

fn is_digit_char(c: char) -> (r: bool)
    ensures
        r == text::is_digit(c),
{
    let v = c as u32;
    48 <= v && v <= 57
}

fn utf8_width_of(c: char) -> (w: u64)
    ensures
        w == utf8_width(c),
{
    let v = c as u32;
    if v < 0x80 {
        1
    } else if v < 0x800 {
        2
    } else if v < 0x10000 {
        3
    } else {
        4
    }
}

/// The characters `v[lo..hi]`.
pub fn sub_chars(v: &Vec<char>, lo: usize, hi: usize) -> (r: Vec<char>)
    requires
        lo <= hi <= v.len(),
    ensures
        r@ == v@.subrange(lo as int, hi as int),
{
    let mut r = Vec::new();
    let mut i = lo;
    while i < hi
        invariant
            lo <= i <= hi <= v.len(),
            r@ == v@.subrange(lo as int, i as int),
        decreases hi - i,
    {
        r.push(v[i]);
        i += 1;
        assert(r@ =~= v@.subrange(lo as int, i as int));
    }
    r
}

/// Whether every character of `v[lo..hi]` is a decimal digit.
fn digits_only(v: &Vec<char>, lo: usize, hi: usize) -> (r: bool)
    requires
        lo <= hi <= v.len(),
    ensures
        r == text::all_digits(v@.subrange(lo as int, hi as int)),
{
    let mut i = lo;
    while i < hi
        invariant
            lo <= i <= hi <= v.len(),
            forall|j: int| lo <= j < i ==> text::is_digit(#[trigger] v@[j]),
        decreases hi - i,
    {
        if !is_digit_char(v[i]) {
            assert(v@.subrange(lo as int, hi as int)[i - lo] == v@[i as int]);
            return false;
        }
        i += 1;
    }
    assert forall|j: int| 0 <= j < hi - lo implies text::is_digit(
        #[trigger] v@.subrange(lo as int, hi as int)[j],
    ) by {
        assert(v@.subrange(lo as int, hi as int)[j] == v@[lo + j]);
    }
    true
}

/// Whether `v[lo..hi]` takes more than eight bytes in UTF-8.
fn longer_than_eight_bytes(v: &Vec<char>, lo: usize, hi: usize) -> (r: bool)
    requires
        lo <= hi <= v.len(),
    ensures
        r == (utf8_len(v@.subrange(lo as int, hi as int)) > 8),
{
    let ghost f = v@.subrange(lo as int, hi as int);
    let mut bytes: u64 = 0;
    let mut i = lo;
    while i < hi
        invariant
            lo <= i <= hi <= v.len(),
            f == v@.subrange(lo as int, hi as int),
            bytes == utf8_len(f.take(i - lo)),
            bytes <= 8,
        decreases hi - i,
    {
        let w = utf8_width_of(v[i]);
        proof {
            assert(f.take(i - lo + 1).drop_last() =~= f.take(i - lo));
            assert(f[i - lo] == v@[i as int]);
        }
        bytes = bytes + w;
        i += 1;
        if bytes > 8 {
            proof {
                assert(f =~= f.take(i - lo) + f.skip(i - lo));
                lemma_utf8_len_append(f.take(i - lo), f.skip(i - lo));
            }
            return true;
        }
    }
    assert(f.take(hi - lo) =~= f);
    false
}

/// Reads `v[lo..hi]` as a decimal number; `None` when it exceeds `i128::MAX`.
fn read_digits(v: &Vec<char>, lo: usize, hi: usize) -> (r: Option<i128>)
    requires
        lo <= hi <= v.len(),
        text::all_digits(v@.subrange(lo as int, hi as int)),
    ensures
        match r {
            Some(x) => x == text::digits_value(v@.subrange(lo as int, hi as int)),
            None => text::digits_value(v@.subrange(lo as int, hi as int)) > i128::MAX,
        },
{
    let ghost s = v@.subrange(lo as int, hi as int);
    let mut acc: i128 = 0;
    let mut i = lo;
    proof {
        assert(s.take(0) =~= Seq::<char>::empty());
    }
    while i < hi
        invariant
            lo <= i <= hi <= v.len(),
            s == v@.subrange(lo as int, hi as int),
            text::all_digits(s),
            acc == text::digits_value(s.take(i - lo)),
            acc >= 0,
        decreases hi - i,
    {
        let c = v[i];
        proof {
            assert(s[i - lo] == c);
            assert(text::is_digit(s[i - lo]));
            assert(s.take(i - lo + 1) =~= s.take(i - lo).push(c));
            text::lemma_digits_value_push(s.take(i - lo), c);
        }
        let d = (c as u32 - 48) as i128;
        let next = match acc.checked_mul(10) {
            Some(t) => t.checked_add(d),
            None => None,
        };
        match next {
            Some(n) => {
                acc = n;
            },
            None => {
                proof {
                    text::lemma_digits_prefix_le(s, i - lo + 1);
                }
                return None;
            },
        }
        i += 1;
    }
    assert(s.take(hi - lo) =~= s);
    Some(acc)
}

impl Fixed {
    /// The canonical text: sign, whole units, a point and eight fractional digits.
    pub fn to_string(&self) -> (s: String)
        ensures
            s@ == fixed_text(self.0 as int),
    {
        let mut out: Vec<char> = Vec::new();
        if self.0 < 0 {
            out.push('-');
        }
        let mag: u128 = if self.0 < 0 {
            ((-(self.0 + 1)) as u128) + 1
        } else {
            self.0 as u128
        };
        assert(mag == magnitude(self.0 as int));
        text::push_decimal(&mut out, mag / 100_000_000);
        out.push('.');
        text::push_padded(&mut out, mag % 100_000_000, 8);
        assert(out@ =~= fixed_text(self.0 as int));
        text::string_from_chars(&out)
    }

    /// Parses a decimal literal (see `parse_fixed`).
    #[verifier::spinoff_prover]
    #[verifier::rlimit(40)]
    pub fn parse(s: &str) -> (r: Result<Fixed, FixedParseError>)
        ensures
            match parse_fixed(s@) {
                Ok(v) => r == Ok::<Fixed, FixedParseError>(Fixed(v as i128)),
                Err(f) => r is Err && r->Err_0.failure() == f && (f != ParseFailure::Empty
                    ==> r->Err_0.literal() == trim(s@)),
            },
    {
        let chars = text::chars_of(s);
        let n = chars.len();
        let mut start: usize = 0;
        assert(chars@.skip(0) =~= chars@);
        while start < n && is_white_space_char(chars[start])
            invariant
                0 <= start <= n == chars@.len(),
                trim_start(chars@) == trim_start(chars@.skip(start as int)),
            decreases n - start,
        {
            proof {
                assert(chars@.skip(start as int).drop_first() =~= chars@.skip(start + 1));
            }
            start += 1;
        }
        assert(trim_start(chars@) == chars@.skip(start as int));
        let mut end: usize = n;
        while end > start && is_white_space_char(chars[end - 1])
            invariant
                start <= end <= n == chars@.len(),
                trim(chars@) == trim_end(chars@.subrange(start as int, end as int)),
            decreases end - start,
        {
            proof {
                assert(chars@.subrange(start as int, end as int).drop_last() =~= chars@.subrange(
                    start as int,
                    end - 1,
                ));
            }
            end -= 1;
        }
        assert(chars@.skip(start as int) =~= chars@.subrange(start as int, n as int));
        let t = sub_chars(&chars, start, end);
        assert(t@ == trim(s@));
        let tn = t.len();
        if tn == 0 {
            return Err(FixedParseError::Empty);
        }
        let negative = t[0] == '-';
        let sign_len: usize = if t[0] == '-' || t[0] == '+' {
            1
        } else {
            0
        };
        let ghost digits = unsigned_part(t@);
        assert(digits =~= t@.skip(sign_len as int));
        let mut k = sign_len;
        while k < tn && t[k] != '.'
            invariant
                sign_len <= k <= tn == t@.len(),
                forall|i: int| sign_len <= i < k ==> t@[i] != '.',
            decreases tn - k,
        {
            k += 1;
        }
        proof {
            text::lemma_first_index(digits, '.');
        }
        let (whole_end, fraction_start) = if k < tn {
            proof {
                match text::first_index(digits, '.') {
                    Some(j) => {
                        if j < k - sign_len {
                            assert(t@[sign_len + j] == digits[j as int]);
                        } else if j > k - sign_len {
                            assert(digits[k - sign_len] == t@[k as int]);
                        }
                    },
                    None => {
                        assert(digits[k - sign_len] == t@[k as int]);
                    },
                }
                assert(text::first_index(digits, '.') == Some((k - sign_len) as nat));
            }
            (k, k + 1)
        } else {
            proof {
                match text::first_index(digits, '.') {
                    Some(j) => {
                        assert(t@[sign_len + j] == digits[j as int]);
                    },
                    None => {},
                }
            }
            (tn, tn)
        };
        let ghost whole = whole_part(digits);
        let ghost fraction = fraction_part(digits);
        assert(whole =~= t@.subrange(sign_len as int, whole_end as int));
        assert(fraction =~= t@.subrange(fraction_start as int, tn as int));
        if longer_than_eight_bytes(&t, fraction_start, tn) {
            return Err(FixedParseError::ExcessPrecision(text::string_from_chars(&t)));
        }
        if !digits_only(&t, sign_len, whole_end) || !digits_only(&t, fraction_start, tn) {
            return Err(FixedParseError::Invalid(text::string_from_chars(&t)));
        }
        proof {
            lemma_utf8_len_digits(fraction);
            text::lemma_digits_bounds(fraction);
            text::lemma_digits_bounds(whole);
        }
        let out_of_range = FixedParseError::OutOfRange(text::string_from_chars(&t));
        let units = match read_digits(&t, sign_len, whole_end) {
            Some(u) => u,
            None => {
                proof {
                    let w = text::digits_value(whole);
                    assert(w * SCALE > i128::MAX) by (nonlinear_arith)
                        requires
                            w > i128::MAX,
                    ;
                }
                return Err(out_of_range);
            },
        };
        let frac_digits = match read_digits(&t, fraction_start, tn) {
            Some(f) => f,
            None => {
                proof {
                    text::lemma_pow10_8();
                    text::lemma_pow10_monotonic(fraction.len(), 8);
                }
                return Err(out_of_range);
            },
        };
        let flen = tn - fraction_start;
        let mut frac: i128 = frac_digits;
        let mut j: usize = flen;
        proof {
            assert(text::pow10(0) == 1);
            assert(frac == text::digits_value(fraction) * text::pow10(0));
            text::lemma_pow10_8();
            text::lemma_pow10_monotonic(flen as nat, 8);
        }
        while j < 8
            invariant
                flen <= j <= 8,
                flen == fraction.len(),
                0 <= text::digits_value(fraction) < text::pow10(flen as nat),
                frac == text::digits_value(fraction) * text::pow10((j - flen) as nat),
                text::pow10(j as nat) <= text::pow10(8),
                text::pow10(8) == 100_000_000,
                frac < text::pow10(j as nat),
            decreases 8 - j,
        {
            proof {
                let x = text::digits_value(fraction);
                let p = text::pow10((j - flen) as nat);
                assert(text::pow10((j + 1 - flen) as nat) == 10 * p);
                assert(text::pow10((j + 1) as nat) == 10 * text::pow10(j as nat));
                assert(x * (10 * p) == (x * p) * 10) by (nonlinear_arith);
                text::lemma_pow10_monotonic((j + 1) as nat, 8);
            }
            frac = frac * 10;
            j += 1;
        }
        assert(frac == fraction_value(fraction));
        let scaled = match units.checked_mul(SCALE) {
            Some(v) => v,
            None => {
                return Err(out_of_range);
            },
        };
        let mag = match scaled.checked_add(frac) {
            Some(v) => v,
            None => {
                return Err(out_of_range);
            },
        };
        if negative {
            Ok(Fixed(-mag))
        } else {
            Ok(Fixed(mag))
        }
    }
}

impl core::str::FromStr for Fixed {
    type Err = FixedParseError;

    /// Parses a decimal literal, as `Fixed::parse` does.
    fn from_str(s: &str) -> (r: Result<Self, Self::Err>)
        ensures
            match parse_fixed(s@) {
                Ok(v) => r == Ok::<Fixed, FixedParseError>(Fixed(v as i128)),
                Err(f) => r is Err && r->Err_0.failure() == f && (f != ParseFailure::Empty
                    ==> r->Err_0.literal() == trim(s@)),
            },
    {
        Fixed::parse(s)
    }
}


/// Decimal text round-trips: parsing the canonical text of any value other than
/// `i128::MIN` (whose magnitude does not fit) gives the value back.
pub proof fn lemma_text_round_trip(x: i128)
    requires
        x != i128::MIN,
    ensures
        parse_fixed(fixed_text(x as int)) == Ok::<int, ParseFailure>(x as int),
{
    let m = magnitude(x as int);
    let w = m / (SCALE as nat);
    let f = m % (SCALE as nat);
    let d = text::decimal(w);
    let p = text::padded(f, 8);
    let sign: Seq<char> = if x < 0 {
        seq!['-']
    } else {
        Seq::empty()
    };
    let rest = d + seq!['.'] + p;
    let t = fixed_text(x as int);
    text::lemma_decimal(w);
    text::lemma_padded(f, 8);
    text::lemma_pow10_8();
    assert(t =~= sign + rest);
    assert(d[0] == rest[0]);
    assert(text::is_digit(d[0]));
    assert(text::is_digit(p[7]));
    assert(t.last() == p[7]);
    assert(trim_start(t) == t);
    assert(trim_end(t) == t);
    assert(trim(t) == t);
    let digits = unsigned_part(t);
    assert(digits =~= rest);
    let k = d.len();
    assert(rest[k as int] == '.');
    assert forall|i: int| 0 <= i < k implies rest[i] != '.' by {
        assert(rest[i] == d[i]);
        assert(text::is_digit(d[i]));
    }
    text::lemma_first_index(rest, '.');
    match text::first_index(rest, '.') {
        Some(j) => {
            if j > k {
                assert(rest[k as int] != '.');
            }
        },
        None => {
            assert(rest[k as int] != '.');
        },
    }
    assert(text::first_index(rest, '.') == Some(k));
    assert(whole_part(digits) =~= d);
    assert(fraction_part(digits) =~= p);
    lemma_utf8_len_digits(p);
    assert(w == m / 100_000_000 && f == m % 100_000_000);
    assert(m == w * 100_000_000 + f && f < 100_000_000) by (nonlinear_arith)
        requires
            w == m / 100_000_000,
            f == m % 100_000_000,
    ;
    assert(text::digits_value(p) == f);
    assert(fraction_value(p) == f) by {
        assert(text::pow10(0) == 1);
        assert((8 - p.len()) as nat == 0);
    }
}

/// Rounding of products: `checked_mul` gives the integer nearest to
/// `a * b / SCALE`, and on a tie the one farther from zero.
pub proof fn lemma_mul_rounds_half_away_from_zero(a: i128, b: i128)
    requires
        spec_mul(a as int, b as int) is Some,
    ensures
        ({
            let r = spec_mul(a as int, b as int)->0;
            let p = a * b;
            let e = p - r * SCALE;
            &&& -SCALE <= 2 * e <= SCALE
            &&& 2 * e == SCALE ==> p < 0
            &&& 2 * e == -SCALE ==> p > 0
        }),
{
    let p = a * b;
    let r = spec_mul(a as int, b as int)->0;
    let s = SCALE as int;
    if p >= 0 {
        let m = p + 50_000_000;
        assert(r == m / s);
        assert(0 <= m - r * s < s) by (nonlinear_arith)
            requires
                r == m / s,
                s == 100_000_000,
                m >= 0,
        ;
    } else {
        let m = p - 50_000_000;
        assert(r == -((-m) / s));
        assert(0 <= (-m) - (-r) * s < s) by (nonlinear_arith)
            requires
                -r == (-m) / s,
                s == 100_000_000,
                -m >= 0,
        ;
    }
}


/// Rounding of quotients: `spec_round_div(n, d)` is an integer nearest to
/// `n / d`, and on a tie the one farther from zero, whatever the signs.
pub proof fn lemma_round_div_half_away_from_zero(n: int, d: int)
    requires
        spec_round_div(n, d) is Some,
    ensures
        ({
            let r = spec_round_div(n, d)->0;
            &&& 2 * magnitude(n - r * d) <= magnitude(d)
            &&& 2 * magnitude(n - r * d) == magnitude(d) ==> magnitude(r * d) > magnitude(n)
        }),
{
    let r = spec_round_div(n, d)->0;
    let dd: int = magnitude(d) as int;
    let h = half_of(d);
    assert(dd > 0);
    assert(h == dd / 2);
    assert(dd - 1 <= 2 * h <= dd);
    if n >= 0 {
        let m = n + h;
        let q = m / dd;
        assert(0 <= m - q * dd < dd) by (nonlinear_arith)
            requires
                q == m / dd,
                dd > 0,
                m >= 0,
        ;
        assert(q >= 0) by (nonlinear_arith)
            requires
                q == m / dd,
                dd > 0,
                m >= 0,
        ;
        if d > 0 {
            assert(r * d == q * dd);
        } else {
            assert(r == -q);
            assert(r * d == q * dd) by (nonlinear_arith)
                requires
                    r == -q,
                    d == -dd,
            ;
        }
        assert(q * dd >= 0) by (nonlinear_arith)
            requires
                q >= 0,
                dd > 0,
        ;
    } else {
        let m = n - h;
        let q = (-m) / dd;
        assert(0 <= (-m) - q * dd < dd) by (nonlinear_arith)
            requires
                q == (-m) / dd,
                dd > 0,
                -m >= 0,
        ;
        assert(q >= 0) by (nonlinear_arith)
            requires
                q == (-m) / dd,
                dd > 0,
                -m >= 0,
        ;
        if d > 0 {
            assert(r == -q);
            assert(r * d == -(q * dd)) by (nonlinear_arith)
                requires
                    r == -q,
                    d == dd,
            ;
        } else {
            assert(r == q);
            assert(r * d == -(q * dd)) by (nonlinear_arith)
                requires
                    r == q,
                    d == -dd,
            ;
        }
        assert(q * dd >= 0) by (nonlinear_arith)
            requires
                q >= 0,
                dd > 0,
        ;
    }
}

/// Rounding of quotients: `checked_div` gives the integer nearest to
/// `a * SCALE / b`, and on a tie the one farther from zero, for a divisor of
/// either sign.
pub proof fn lemma_div_rounds_half_away_from_zero(a: i128, b: i128)
    requires
        spec_div(a as int, b as int) is Some,
    ensures
        ({
            let r = spec_div(a as int, b as int)->0;
            let p = a * SCALE;
            &&& 2 * magnitude(p - r * b) <= magnitude(b as int)
            &&& 2 * magnitude(p - r * b) == magnitude(b as int) ==> magnitude(r * b) > magnitude(p)
        }),
{
    lemma_round_div_half_away_from_zero(a * SCALE, b as int);
}

} // verus!
