//! Decimal digits, character sequences and the conversions between `String`,
//! `&str` and `Vec<char>` that the rest of the library builds on.
use vstd::prelude::*;

verus! {

/// The ASCII digit for `d` in `0..10`.
pub open spec fn digit_char(d: int) -> char {
    (d + 48) as char
}

pub open spec fn is_digit(c: char) -> bool {
    48 <= (c as int) <= 57
}

pub open spec fn digit_value(c: char) -> int {
    (c as int) - 48
}

pub open spec fn all_digits(s: Seq<char>) -> bool {
    forall|i: int| 0 <= i < s.len() ==> is_digit(#[trigger] s[i])
}

/// The value of a sequence of decimal digits, most significant first.
pub open spec fn digits_value(s: Seq<char>) -> int
    decreases s.len(),
{
    if s.len() == 0 {
        0
    } else {
        digits_value(s.drop_last()) * 10 + digit_value(s.last())
    }
}

/// The canonical decimal form of `n`: no leading zeros, `"0"` for zero.
pub open spec fn decimal(n: nat) -> Seq<char>
    decreases n,
{
    if n < 10 {
        seq![digit_char(n as int)]
    } else {
        decimal(n / 10).push(digit_char((n % 10) as int))
    }
}

/// The lowest `width` decimal digits of `n`, padded with leading zeros.
pub open spec fn padded(n: nat, width: nat) -> Seq<char>
    decreases width,
{
    if width == 0 {
        Seq::empty()
    } else {
        padded(n / 10, (width - 1) as nat).push(digit_char((n % 10) as int))
    }
}

pub open spec fn pow10(w: nat) -> nat
    decreases w,
{
    if w == 0 {
        1
    } else {
        10 * pow10((w - 1) as nat)
    }
}

pub proof fn lemma_digit_char(d: int)
    requires
        0 <= d < 10,
    ensures
        is_digit(digit_char(d)),
        digit_value(digit_char(d)) == d,
{
}

/// The canonical decimal form is made of digits, is never empty, and reads back as `n`.
pub proof fn lemma_decimal(n: nat)
    ensures
        all_digits(decimal(n)),
        decimal(n).len() >= 1,
        digits_value(decimal(n)) == n,
    decreases n,
{
    if n < 10 {
        lemma_digit_char(n as int);
        assert(decimal(n).drop_last() =~= Seq::<char>::empty());
        assert(digits_value(Seq::<char>::empty()) == 0);
    } else {
        lemma_decimal(n / 10);
        lemma_digit_char((n % 10) as int);
        assert(decimal(n).drop_last() =~= decimal(n / 10));
        assert(decimal(n).last() == digit_char((n % 10) as int));
        assert(digits_value(decimal(n)) == digits_value(decimal(n / 10)) * 10 + (n % 10));
    }
}

/// A padded form has the requested width, is made of digits, and reads back as
/// `n` when `n` has no more than `width` digits.
pub proof fn lemma_padded(n: nat, width: nat)
    ensures
        all_digits(padded(n, width)),
        padded(n, width).len() == width,
        n < pow10(width) ==> digits_value(padded(n, width)) == n,
    decreases width,
{
    if width > 0 {
        lemma_padded(n / 10, (width - 1) as nat);
        lemma_digit_char((n % 10) as int);
        assert(padded(n, width).drop_last() =~= padded(n / 10, (width - 1) as nat));
        if n < pow10(width) {
            assert(n / 10 < pow10((width - 1) as nat));
        }
    }
}

pub proof fn lemma_pow10_positive(w: nat)
    ensures
        pow10(w) >= 1,
    decreases w,
{
    if w > 0 {
        lemma_pow10_positive((w - 1) as nat);
    }
}

pub proof fn lemma_pow10_monotonic(a: nat, b: nat)
    requires
        a <= b,
    ensures
        pow10(a) <= pow10(b),
    decreases b,
{
    if a < b {
        lemma_pow10_monotonic(a, (b - 1) as nat);
    }
}

pub proof fn lemma_pow10_8()
    ensures
        pow10(8) == 100_000_000,
{
    reveal_with_fuel(pow10, 9);
}

/// Digits read as a number lie in `0 .. 10^len`.
pub proof fn lemma_digits_bounds(s: Seq<char>)
    requires
        all_digits(s),
    ensures
        0 <= digits_value(s) < pow10(s.len()),
    decreases s.len(),
{
    if s.len() > 0 {
        let p = s.drop_last();
        assert(all_digits(p)) by {
            assert forall|i: int| 0 <= i < p.len() implies is_digit(#[trigger] p[i]) by {
                assert(p[i] == s[i]);
            }
        }
        lemma_digits_bounds(p);
        assert(is_digit(s[s.len() - 1]));
        let x = digits_value(p);
        let d = digit_value(s.last());
        let q = pow10(p.len());
        assert(0 <= x * 10 + d < 10 * q) by (nonlinear_arith)
            requires
                0 <= x < q,
                0 <= d < 10,
        ;
    }
}

/// Reading a concatenation of digits: the left part is shifted by the length of the right.
pub proof fn lemma_digits_value_append(a: Seq<char>, b: Seq<char>)
    ensures
        digits_value(a + b) == digits_value(a) * pow10(b.len()) + digits_value(b),
    decreases b.len(),
{
    if b.len() == 0 {
        assert(a + b =~= a);
        assert(digits_value(b) == 0);
        assert(pow10(0) == 1);
    } else {
        let b2 = b.drop_last();
        assert((a + b).drop_last() =~= a + b2);
        assert((a + b).last() == b.last());
        lemma_digits_value_append(a, b2);
        let x = digits_value(a);
        let p = pow10(b2.len());
        let y = digits_value(b2);
        let d = digit_value(b.last());
        assert((x * p + y) * 10 + d == x * (10 * p) + (y * 10 + d)) by (nonlinear_arith);
        assert(pow10(b.len()) == 10 * p);
        assert(digits_value(b) == y * 10 + d);
        assert(digits_value(a + b) == digits_value(a + b2) * 10 + d);
    }
}

/// A prefix of a digit sequence reads as no more than the whole.
pub proof fn lemma_digits_prefix_le(s: Seq<char>, i: int)
    requires
        all_digits(s),
        0 <= i <= s.len(),
    ensures
        0 <= digits_value(s.take(i)) <= digits_value(s),
{
    assert(s =~= s.take(i) + s.skip(i));
    lemma_digits_value_append(s.take(i), s.skip(i));
    assert(all_digits(s.take(i)));
    assert(all_digits(s.skip(i))) by {
        assert forall|j: int| 0 <= j < s.skip(i).len() implies is_digit(#[trigger] s.skip(i)[j]) by {
            assert(s.skip(i)[j] == s[i + j]);
        }
    }
    lemma_digits_bounds(s.take(i));
    lemma_digits_bounds(s.skip(i));
    lemma_pow10_positive(s.skip(i).len());
    let x = digits_value(s.take(i));
    let p = pow10(s.skip(i).len());
    assert(x <= x * p) by (nonlinear_arith)
        requires
            x >= 0,
            p >= 1,
    ;
}

/// Appending one digit.
pub proof fn lemma_digits_value_push(s: Seq<char>, c: char)
    ensures
        digits_value(s.push(c)) == digits_value(s) * 10 + digit_value(c),
{
    assert(s.push(c).drop_last() =~= s);
}

/// The index of the first `c` in `s`.
pub open spec fn first_index(s: Seq<char>, c: char) -> Option<nat>
    decreases s.len(),
{
    if s.len() == 0 {
        None
    } else if s[0] == c {
        Some(0)
    } else {
        match first_index(s.drop_first(), c) {
            Some(k) => Some(k + 1),
            None => None,
        }
    }
}

/// How many times `c` occurs in `s`.
pub open spec fn char_count(s: Seq<char>, c: char) -> nat
    decreases s.len(),
{
    if s.len() == 0 {
        0
    } else {
        (if s[0] == c {
            1nat
        } else {
            0nat
        }) + char_count(s.drop_first(), c)
    }
}

/// `c` is absent exactly when it occurs no time; when present, the count is one
/// more than the count after its first occurrence.
pub proof fn lemma_char_count(s: Seq<char>, c: char)
    ensures
        first_index(s, c) is None <==> char_count(s, c) == 0,
        first_index(s, c) matches Some(k) ==> char_count(s, c) == 1 + char_count(
            s.skip(k + 1 as int),
            c,
        ),
    decreases s.len(),
{
    if s.len() > 0 {
        lemma_char_count(s.drop_first(), c);
        if s[0] == c {
            assert(s.skip(1) =~= s.drop_first());
        } else {
            match first_index(s.drop_first(), c) {
                Some(k) => {
                    lemma_first_index(s.drop_first(), c);
                    assert(s.drop_first().skip(k + 1 as int) =~= s.skip(k + 2 as int));
                },
                None => {},
            }
        }
    }
}

/// `first_index` finds the first occurrence, or reports that there is none.
pub proof fn lemma_first_index(s: Seq<char>, c: char)
    ensures
        match first_index(s, c) {
            Some(k) => k < s.len() && s[k as int] == c && forall|i: int|
                0 <= i < k ==> s[i] != c,
            None => forall|i: int| 0 <= i < s.len() ==> s[i] != c,
        },
    decreases s.len(),
{
    if s.len() > 0 && s[0] != c {
        lemma_first_index(s.drop_first(), c);
        assert forall|i: int| 0 < i < s.len() implies s[i] == s.drop_first()[i - 1] by {}
    }
}

/// Finds the first `c` in `v[from..]`.
pub fn find_char(v: &Vec<char>, from: usize, c: char) -> (r: Option<usize>)
    requires
        from <= v.len(),
    ensures
        match r {
            Some(i) => from <= i < v.len() && v@[i as int] == c && first_index(
                v@.skip(from as int),
                c,
            ) == Some((i - from) as nat),
            None => first_index(v@.skip(from as int), c) is None,
        },
{
    let ghost s = v@.skip(from as int);
    proof {
        lemma_first_index(s, c);
    }
    let mut i = from;
    while i < v.len()
        invariant
            from <= i <= v.len(),
            s == v@.skip(from as int),
            forall|j: int| from <= j < i ==> v@[j] != c,
        decreases v.len() - i,
    {
        if v[i] == c {
            proof {
                lemma_first_index(s, c);
                match first_index(s, c) {
                    Some(k) => {
                        if k < i - from {
                            assert(s[k as int] == v@[from + k]);
                        } else if k > i - from {
                            assert(s[i - from] == v@[i as int]);
                        }
                    },
                    None => {
                        assert(s[i - from] == v@[i as int]);
                    },
                }
                assert(first_index(s, c) == Some((i - from) as nat));
            }
            return Some(i);
        }
        i += 1;
    }
    proof {
        match first_index(s, c) {
            Some(k) => {
                assert(s[k as int] == v@[from + k]);
            },
            None => {},
        }
    }
    None
}

/// The digit for `d` in `0..10`.
pub fn digit(d: u8) -> (c: char)
    requires
        d < 10,
    ensures
        c == digit_char(d as int),
{
    (48u8 + d) as char
}

/// Appends the canonical decimal form of `n`.
pub fn push_decimal(out: &mut Vec<char>, n: u128)
    ensures
        final(out)@ == old(out)@ + decimal(n as nat),
    decreases n,
{
    if n >= 10 {
        push_decimal(out, n / 10);
    }
    out.push(digit((n % 10) as u8));
    assert(final(out)@ =~= old(out)@ + decimal(n as nat));
}

/// Appends the lowest `width` digits of `n`, zero padded.
pub fn push_padded(out: &mut Vec<char>, n: u128, width: u32)
    ensures
        final(out)@ == old(out)@ + padded(n as nat, width as nat),
    decreases width,
{
    if width > 0 {
        push_padded(out, n / 10, width - 1);
        out.push(digit((n % 10) as u8));
    }
    assert(final(out)@ =~= old(out)@ + padded(n as nat, width as nat));
}

/// Appends every character of `s`.
pub fn push_str(out: &mut Vec<char>, s: &str)
    ensures
        final(out)@ == old(out)@ + s@,
{
    let ghost start = out@;
    for c in it: s.chars()
        invariant
            out@ == start + it.seq().take(it.index()),
    {
        out.push(c);
    }
}

/// The characters of a string slice.
pub fn chars_of(s: &str) -> (v: Vec<char>)
    ensures
        v@ == s@,
{
    let mut v = Vec::new();
    push_str(&mut v, s);
    v
}

/// Collects characters into a `String` (std's `FromIterator<char>` for `String`,
/// which appends the characters in order).
#[verifier::external_body]
pub fn string_from_chars(chars: &Vec<char>) -> (s: String)
    ensures
        s@ == chars@,
{
    chars.iter().collect()
}

} // verus!
