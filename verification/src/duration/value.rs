//! Durations with their total seconds.

use core::cmp::Ordering;

use vstd::prelude::*;
use vstd::string::*;

use super::digits::{digits_value, lemma_decimal_value};
use super::error::DurationError;
use super::grammar::{
    can_start_duration_segment, in_class, is_number, lemma_run_len, lemma_run_within, number_read,
    part_read, read_parts, run_len, starts_number, starts_part, unsigned_len, CharClass, DurationParts,
    DurationRead, NumberRead, PartRead, PartView,
};
use super::unit::{lemma_short_spellings, unit_millis, unit_spelled, DurationUnit};
use crate::number::{compare_total, int_order, is_finite, magnitude, total_rank, Order, INFINITY, SIGN};
use crate::text::{all_digits, chars_of, decimal, decimal_text, is_digit, is_space, trimmed, trimmed_end, trimmed_start};

verus! {

/// A finite number of seconds, held as the bits of a double.
#[derive(Copy, Clone, Debug, Hash)]
pub struct DurationSeconds {
    bits: u64,
}

impl DurationSeconds {
    /// The bits of the double.
    pub closed spec fn spec_bits(self) -> u64 {
        self.bits
    }

    /// Accepts the bits of a finite double.
    pub fn try_from_bits(bits: u64) -> (result: Result<Self, DurationError>)
        ensures
            match result {
                Ok(seconds) => is_finite(bits) && seconds.spec_bits() == bits,
                Err(error) => !is_finite(bits) && error == DurationError::NonFiniteSeconds,
            },
    {
        if bits % SIGN < INFINITY {
            Ok(DurationSeconds { bits })
        } else {
            Err(DurationError::NonFiniteSeconds)
        }
    }

    /// The bits of the double.
    pub fn bits(self) -> (bits: u64)
        ensures
            bits == self.spec_bits(),
    {
        self.bits
    }

    /// Whether this is zero, of either sign.
    pub fn is_zero(self) -> (zero: bool)
        ensures
            zero == (magnitude(self.spec_bits()) == 0),
    {
        self.bits % SIGN == 0
    }

    /// Whether this is less than zero.
    pub fn is_negative(self) -> (negative: bool)
        ensures
            negative == (crate::number::rank(self.spec_bits()) < 0),
    {
        self.bits > SIGN
    }
}

impl PartialEq for DurationSeconds {
    fn eq(&self, other: &Self) -> (same: bool) {
        self.bits == other.bits
    }
}

impl vstd::std_specs::cmp::PartialEqSpecImpl for DurationSeconds {
    open spec fn obeys_eq_spec() -> bool {
        true
    }

    open spec fn eq_spec(&self, other: &Self) -> bool {
        self.spec_bits() == other.spec_bits()
    }
}

impl Eq for DurationSeconds {

}

/// The standard library's name for an order.
pub open spec fn std_order(order: Order) -> Ordering {
    match order {
        Order::Less => Ordering::Less,
        Order::Equal => Ordering::Equal,
        Order::Greater => Ordering::Greater,
    }
}

impl PartialOrd for DurationSeconds {
    fn partial_cmp(&self, other: &Self) -> (order: Option<Ordering>) {
        match compare_total(self.bits, other.bits) {
            Order::Less => Some(Ordering::Less),
            Order::Equal => Some(Ordering::Equal),
            Order::Greater => Some(Ordering::Greater),
        }
    }
}

impl vstd::std_specs::cmp::PartialOrdSpecImpl for DurationSeconds {
    open spec fn obeys_partial_cmp_spec() -> bool {
        true
    }

    open spec fn partial_cmp_spec(&self, other: &Self) -> Option<Ordering> {
        Some(
            std_order(
                int_order(total_rank(self.spec_bits()), total_rank(other.spec_bits())),
            ),
        )
    }
}

/// A duration with its total seconds and the text it was written as.
///
/// Durations are equal, and ordered, by their seconds alone.
#[derive(Debug)]
pub struct DurationValue {
    seconds: DurationSeconds,
    raw: String,
}

impl PartialEq for DurationValue {
    fn eq(&self, other: &Self) -> (same: bool) {
        self.seconds == other.seconds
    }
}

impl vstd::std_specs::cmp::PartialEqSpecImpl for DurationValue {
    open spec fn obeys_eq_spec() -> bool {
        true
    }

    open spec fn eq_spec(&self, other: &Self) -> bool {
        self.spec_seconds().spec_bits() == other.spec_seconds().spec_bits()
    }
}

impl Eq for DurationValue {

}

impl PartialOrd for DurationValue {
    fn partial_cmp(&self, other: &Self) -> (order: Option<Ordering>) {
        self.seconds.partial_cmp(&other.seconds)
    }
}

impl vstd::std_specs::cmp::PartialOrdSpecImpl for DurationValue {
    open spec fn obeys_partial_cmp_spec() -> bool {
        true
    }

    open spec fn partial_cmp_spec(&self, other: &Self) -> Option<Ordering> {
        Some(
            std_order(
                int_order(
                    total_rank(self.spec_seconds().spec_bits()),
                    total_rank(other.spec_seconds().spec_bits()),
                ),
            ),
        )
    }
}

/// The units a duration is written in, largest first.
pub open spec fn written_unit(k: int) -> DurationUnit {
    if k == 0 {
        DurationUnit::Week
    } else if k == 1 {
        DurationUnit::Day
    } else if k == 2 {
        DurationUnit::Hour
    } else if k == 3 {
        DurationUnit::Minute
    } else if k == 4 {
        DurationUnit::Second
    } else {
        DurationUnit::Millisecond
    }
}

/// The spelling of [`written_unit`].
pub open spec fn written_suffix(k: int) -> Seq<char> {
    if k == 0 {
        "w"@
    } else if k == 1 {
        "d"@
    } else if k == 2 {
        "h"@
    } else if k == 3 {
        "m"@
    } else if k == 4 {
        "s"@
    } else {
        "ms"@
    }
}

/// `millis` split into units from the `k`-th on, each as often as it fits,
/// written with single spaces between. The first part is preceded by a space
/// where `spaced`.
pub open spec fn written_parts(millis: nat, k: int, spaced: bool) -> Seq<char>
    decreases 6 - k,
{
    if k >= 6 {
        Seq::empty()
    } else {
        let each = unit_millis(written_unit(k));
        if millis >= each {
            let gap = if spaced {
                " "@
            } else {
                Seq::empty()
            };
            gap + decimal(millis / each) + written_suffix(k) + written_parts(
                millis % each,
                k + 1,
                true,
            )
        } else {
            written_parts(millis, k + 1, spaced)
        }
    }
}

/// A duration of `millis` milliseconds written out.
pub open spec fn written_duration(negative: bool, millis: nat) -> Seq<char> {
    let size = if millis == 0 {
        "0s"@
    } else {
        written_parts(millis, 0, false)
    };
    if negative {
        "-"@ + size
    } else {
        size
    }
}

fn write_parts(millis: u64, k: u8, spaced: bool) -> (text: String)
    requires
        k <= 6,
    ensures
        text@ == written_parts(millis as nat, k as int, spaced),
    decreases 6 - k,
{
    if k >= 6 {
        return String::new();
    }
    let (unit, suffix) = if k == 0 {
        (DurationUnit::Week, "w")
    } else if k == 1 {
        (DurationUnit::Day, "d")
    } else if k == 2 {
        (DurationUnit::Hour, "h")
    } else if k == 3 {
        (DurationUnit::Minute, "m")
    } else if k == 4 {
        (DurationUnit::Second, "s")
    } else {
        (DurationUnit::Millisecond, "ms")
    };
    let each: u64 = unit.millis();
    if millis >= each {
        let mut text = String::new();
        if spaced {
            text.append(" ");
        }
        text.append(decimal_text(millis / each).as_str());
        text.append(suffix);
        text.append(write_parts(millis % each, k + 1, true).as_str());
        assert(Seq::<char>::empty() + " "@ =~= " "@);
        text
    } else {
        write_parts(millis, k + 1, spaced)
    }
}

impl DurationValue {
    /// The total seconds.
    pub closed spec fn spec_seconds(self) -> DurationSeconds {
        self.seconds
    }

    /// The text of the duration.
    pub closed spec fn spec_raw(self) -> Seq<char> {
        self.raw@
    }

    /// Completes a parsed duration with the double of its total seconds.
    pub fn from_parts(parts: DurationParts, total_seconds: u64) -> (result: Result<
        Self,
        DurationError,
    >)
        ensures
            match result {
                Ok(value) => {
                    &&& is_finite(total_seconds)
                    &&& value.spec_seconds().spec_bits() == total_seconds
                    &&& value.spec_raw() == parts.raw@
                },
                Err(error) => !is_finite(total_seconds) && error
                    == DurationError::NonFiniteSeconds,
            },
    {
        match DurationSeconds::try_from_bits(total_seconds) {
            Ok(seconds) => Ok(DurationValue { seconds, raw: parts.raw }),
            Err(error) => Err(error),
        }
    }

    /// Writes out a number of seconds. `millis` is its magnitude in whole
    /// milliseconds, rounded. A negative number has a leading minus, however
    /// small it is.
    pub fn from_seconds(seconds: DurationSeconds, millis: u64) -> (value: Self)
        ensures
            value.spec_seconds() == seconds,
            value.spec_raw() == if magnitude(seconds.spec_bits()) == 0 {
                "0s"@
            } else {
                written_duration(crate::number::rank(seconds.spec_bits()) < 0, millis as nat)
            },
            crate::number::rank(seconds.spec_bits()) < 0 ==> value.spec_raw().len() > 0
                && value.spec_raw()[0] == '-',
    {
        proof {
            reveal_strlit("-");
        }
        if seconds.is_zero() {
            return DurationValue { seconds, raw: "0s".to_owned() };
        }
        let parts = if millis == 0 {
            "0s".to_owned()
        } else {
            write_parts(millis, 0, false)
        };
        let raw = if seconds.is_negative() {
            "-".to_owned().concat(parts.as_str())
        } else {
            parts
        };
        DurationValue { seconds, raw }
    }

    /// The text of the duration.
    pub fn as_str(&self) -> (raw: &str)
        ensures
            raw@ == self.spec_raw(),
    {
        self.raw.as_str()
    }

    /// The total seconds.
    pub fn to_seconds(&self) -> (seconds: DurationSeconds)
        ensures
            seconds == self.spec_seconds(),
    {
        self.seconds
    }

    /// Whether `s` begins with a number, signed or not.
    pub fn can_start(s: &str) -> (starts: bool)
        ensures
            starts == starts_part(s@),
    {
        let chars = chars_of(s);
        assert(s@.skip(0) =~= s@);
        can_start_duration_segment(chars.as_slice(), 0)
    }
}

} // verus!
