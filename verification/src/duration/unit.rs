//! The units of a duration.

use vstd::prelude::*;

use crate::text::{ascii_lowered, same_ignoring_ascii_case};

verus! {

/// A unit of time.
#[derive(Copy, Clone, Debug, PartialEq, Eq, PartialOrd, Ord, Hash, Structural)]
pub enum DurationUnit {
    /// A thousandth of a second.
    Millisecond,
    /// One second.
    Second,
    /// 60 seconds.
    Minute,
    /// 60 minutes.
    Hour,
    /// 24 hours.
    Day,
    /// 7 days.
    Week,
    /// 30 days.
    Month,
    /// 365 days.
    Year,
}

/// `text` is `spelling` but for the case of ASCII letters.
pub open spec fn spelled(text: Seq<char>, spelling: &str) -> bool {
    ascii_lowered(text) == ascii_lowered(spelling@)
}

/// The unit that `text` spells.
pub open spec fn unit_spelled(text: Seq<char>) -> Option<DurationUnit> {
    if spelled(text, "w") || spelled(text, "wk") || spelled(text, "wks") || spelled(text, "week")
        || spelled(text, "weeks") {
        Some(DurationUnit::Week)
    } else if spelled(text, "d") || spelled(text, "day") || spelled(text, "days") {
        Some(DurationUnit::Day)
    } else if spelled(text, "h") || spelled(text, "hr") || spelled(text, "hrs") || spelled(
        text,
        "hour",
    ) || spelled(text, "hours") {
        Some(DurationUnit::Hour)
    } else if spelled(text, "m") || spelled(text, "min") || spelled(text, "mins") || spelled(
        text,
        "minute",
    ) || spelled(text, "minutes") {
        Some(DurationUnit::Minute)
    } else if spelled(text, "s") || spelled(text, "sec") || spelled(text, "secs") || spelled(
        text,
        "second",
    ) || spelled(text, "seconds") {
        Some(DurationUnit::Second)
    } else if spelled(text, "ms") || spelled(text, "millisecond") || spelled(
        text,
        "milliseconds",
    ) {
        Some(DurationUnit::Millisecond)
    } else if spelled(text, "mo") || spelled(text, "mos") || spelled(text, "month") || spelled(
        text,
        "months",
    ) {
        Some(DurationUnit::Month)
    } else if spelled(text, "y") || spelled(text, "yr") || spelled(text, "yrs") || spelled(
        text,
        "year",
    ) || spelled(text, "years") {
        Some(DurationUnit::Year)
    } else {
        None
    }
}

/// Whole milliseconds in one `unit`.
pub open spec fn unit_millis(unit: DurationUnit) -> nat {
    match unit {
        DurationUnit::Millisecond => 1,
        DurationUnit::Second => 1_000,
        DurationUnit::Minute => 60_000,
        DurationUnit::Hour => 3_600_000,
        DurationUnit::Day => 86_400_000,
        DurationUnit::Week => 604_800_000,
        DurationUnit::Month => 2_592_000_000,
        DurationUnit::Year => 31_536_000_000,
    }
}

impl DurationUnit {
    /// Reads a unit spelling, ignoring ASCII case.
    pub fn parse(unit: &str) -> (found: Option<Self>)
        ensures
            found == unit_spelled(unit@),
    {
        if same_ignoring_ascii_case(unit, "w") || same_ignoring_ascii_case(unit, "wk")
            || same_ignoring_ascii_case(unit, "wks") || same_ignoring_ascii_case(unit, "week")
            || same_ignoring_ascii_case(unit, "weeks") {
            Some(DurationUnit::Week)
        } else if same_ignoring_ascii_case(unit, "d") || same_ignoring_ascii_case(unit, "day")
            || same_ignoring_ascii_case(unit, "days") {
            Some(DurationUnit::Day)
        } else if same_ignoring_ascii_case(unit, "h") || same_ignoring_ascii_case(unit, "hr")
            || same_ignoring_ascii_case(unit, "hrs") || same_ignoring_ascii_case(unit, "hour")
            || same_ignoring_ascii_case(unit, "hours") {
            Some(DurationUnit::Hour)
        } else if same_ignoring_ascii_case(unit, "m") || same_ignoring_ascii_case(unit, "min")
            || same_ignoring_ascii_case(unit, "mins") || same_ignoring_ascii_case(unit, "minute")
            || same_ignoring_ascii_case(unit, "minutes") {
            Some(DurationUnit::Minute)
        } else if same_ignoring_ascii_case(unit, "s") || same_ignoring_ascii_case(unit, "sec")
            || same_ignoring_ascii_case(unit, "secs") || same_ignoring_ascii_case(unit, "second")
            || same_ignoring_ascii_case(unit, "seconds") {
            Some(DurationUnit::Second)
        } else if same_ignoring_ascii_case(unit, "ms") || same_ignoring_ascii_case(
            unit,
            "millisecond",
        ) || same_ignoring_ascii_case(unit, "milliseconds") {
            Some(DurationUnit::Millisecond)
        } else if same_ignoring_ascii_case(unit, "mo") || same_ignoring_ascii_case(unit, "mos")
            || same_ignoring_ascii_case(unit, "month") || same_ignoring_ascii_case(
            unit,
            "months",
        ) {
            Some(DurationUnit::Month)
        } else if same_ignoring_ascii_case(unit, "y") || same_ignoring_ascii_case(unit, "yr")
            || same_ignoring_ascii_case(unit, "yrs") || same_ignoring_ascii_case(unit, "year")
            || same_ignoring_ascii_case(unit, "years") {
            Some(DurationUnit::Year)
        } else {
            None
        }
    }

    /// Whole milliseconds in this unit.
    pub fn millis(self) -> (millis: u64)
        ensures
            millis == unit_millis(self),
    {
        match self {
            DurationUnit::Millisecond => 1,
            DurationUnit::Second => 1_000,
            DurationUnit::Minute => 60_000,
            DurationUnit::Hour => 3_600_000,
            DurationUnit::Day => 86_400_000,
            DurationUnit::Week => 604_800_000,
            DurationUnit::Month => 2_592_000_000,
            DurationUnit::Year => 31_536_000_000,
        }
    }

    /// Whole seconds in this unit; nothing for a unit below one second.
    pub fn seconds_i64(self) -> (seconds: Option<i64>)
        ensures
            match seconds {
                Some(whole) => whole * 1_000 == unit_millis(self),
                None => self == DurationUnit::Millisecond,
            },
    {
        match self {
            DurationUnit::Millisecond => None,
            DurationUnit::Second => Some(1),
            DurationUnit::Minute => Some(60),
            DurationUnit::Hour => Some(3_600),
            DurationUnit::Day => Some(86_400),
            DurationUnit::Week => Some(604_800),
            DurationUnit::Month => Some(2_592_000),
            DurationUnit::Year => Some(31_536_000),
        }
    }
}

/// A unit is spelled in any mix of upper and lower case.
pub proof fn law_unit_ignores_case(a: Seq<char>, b: Seq<char>)
    requires
        ascii_lowered(a) == ascii_lowered(b),
    ensures
        unit_spelled(a) == unit_spelled(b),
{
}

/// The short spellings used when a duration is written out.
pub proof fn lemma_short_spellings()
    ensures
        unit_spelled("w"@) == Some(DurationUnit::Week),
        unit_spelled("d"@) == Some(DurationUnit::Day),
        unit_spelled("h"@) == Some(DurationUnit::Hour),
        unit_spelled("m"@) == Some(DurationUnit::Minute),
        unit_spelled("s"@) == Some(DurationUnit::Second),
        unit_spelled("ms"@) == Some(DurationUnit::Millisecond),
{
    reveal_strlit("w");
    reveal_strlit("wk");
    reveal_strlit("wks");
    reveal_strlit("week");
    reveal_strlit("weeks");
    reveal_strlit("d");
    reveal_strlit("day");
    reveal_strlit("days");
    reveal_strlit("h");
    reveal_strlit("hr");
    reveal_strlit("hrs");
    reveal_strlit("hour");
    reveal_strlit("hours");
    reveal_strlit("m");
    reveal_strlit("min");
    reveal_strlit("mins");
    reveal_strlit("minute");
    reveal_strlit("minutes");
    reveal_strlit("s");
    reveal_strlit("sec");
    reveal_strlit("secs");
    reveal_strlit("second");
    reveal_strlit("seconds");
    reveal_strlit("ms");
    let lengths = |s: Seq<char>| ascii_lowered(s).len();
    assert(lengths("w"@) == 1 && lengths("ms"@) == 2);
    assert(ascii_lowered("w"@)[0] == 'w');
    assert(ascii_lowered("d"@)[0] == 'd');
    assert(ascii_lowered("h"@)[0] == 'h');
    assert(ascii_lowered("m"@)[0] == 'm');
    assert(ascii_lowered("s"@)[0] == 's');
    assert(ascii_lowered("wk"@)[0] == 'w');
    assert(ascii_lowered("hr"@)[0] == 'h');
    assert(ascii_lowered("ms"@)[0] == 'm');
    assert(ascii_lowered("wks"@).len() == 3 && ascii_lowered("week"@).len() == 4 && ascii_lowered(
        "weeks"@,
    ).len() == 5);
    assert(ascii_lowered("day"@).len() == 3 && ascii_lowered("days"@).len() == 4);
    assert(ascii_lowered("hrs"@).len() == 3 && ascii_lowered("hour"@).len() == 4 && ascii_lowered(
        "hours"@,
    ).len() == 5);
    assert(ascii_lowered("min"@).len() == 3 && ascii_lowered("mins"@).len() == 4 && ascii_lowered(
        "minute"@,
    ).len() == 6 && ascii_lowered("minutes"@).len() == 7);
    assert(ascii_lowered("sec"@).len() == 3 && ascii_lowered("secs"@).len() == 4 && ascii_lowered(
        "second"@,
    ).len() == 6 && ascii_lowered("seconds"@).len() == 7);
}

} // verus!
