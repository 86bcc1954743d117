//! Wall-clock instants as nanoseconds since the Unix epoch.
use vstd::prelude::*;
use crate::text;

verus! {

/// Nanoseconds since 1970-01-01T00:00:00Z, ordered chronologically.
#[derive(Clone, Copy, PartialEq, Eq, Structural, PartialOrd, Ord, Hash, Default, Debug)]
pub struct Timestamp(pub i64);

/// Reads the system clock: nanoseconds elapsed since the Unix epoch, or zero
/// when the clock is set before the epoch (std's `SystemTime::now` and
/// `duration_since`). The value depends on the moment of the call, so
/// nothing more is stated of it.
#[verifier::external_body]
fn system_clock_nanos() -> (nanos: u128) {
    std::time::SystemTime::now().duration_since(std::time::UNIX_EPOCH).unwrap_or_default().as_nanos()
}

/// The text of a timestamp: sign, whole seconds, a point and nine digits of nanoseconds.
pub open spec fn timestamp_text(x: int) -> Seq<char> {
    let m: nat = if x < 0 {
        (-x) as nat
    } else {
        x as nat
    };
    (if x < 0 {
        seq!['-']
    } else {
        Seq::empty()
    }) + text::decimal(m / 1_000_000_000) + seq!['.'] + text::padded(m % 1_000_000_000, 9)
}

impl Timestamp {
    pub fn from_unix_nanos(nanos: i64) -> (t: Timestamp)
        ensures
            t.0 == nanos,
    {
        Timestamp(nanos)
    }

    pub fn unix_nanos(self) -> (n: i64)
        ensures
            n == self.0,
    {
        self.0
    }

    /// The current time, saturated at `i64::MAX`; never before the epoch.
    pub fn now() -> (t: Timestamp)
        ensures
            t.0 >= 0,
    {
        let nanos = system_clock_nanos();
        if nanos > i64::MAX as u128 {
            Timestamp(i64::MAX)
        } else {
            Timestamp(nanos as i64)
        }
    }

    /// Nanoseconds from `earlier` to `self`, `None` when the difference overflows.
    pub fn checked_duration_since(self, earlier: Self) -> (d: Option<i64>)
        ensures
            d == (if i64::MIN <= self.0 - earlier.0 <= i64::MAX {
                Some((self.0 - earlier.0) as i64)
            } else {
                None
            }),
    {
        self.0.checked_sub(earlier.0)
    }

    pub fn to_string(&self) -> (s: String)
        ensures
            s@ == timestamp_text(self.0 as int),
    {
        let mut out: Vec<char> = Vec::new();
        if self.0 < 0 {
            out.push('-');
        }
        let mag: u128 = if self.0 < 0 {
            ((-(self.0 as i128)) as u128)
        } else {
            self.0 as u128
        };
        text::push_decimal(&mut out, mag / 1_000_000_000);
        out.push('.');
        text::push_padded(&mut out, mag % 1_000_000_000, 9);
        assert(out@ =~= timestamp_text(self.0 as int));
        text::string_from_chars(&out)
    }
}

} // verus!
