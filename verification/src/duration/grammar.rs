//! What a duration text means.
//!
//! A part is a number and a unit: an optional sign, digits with at most one
//! decimal point, optional whitespace, and letters that spell a unit.

use vstd::prelude::*;

use super::digits::{digits_value, double_limit, is_beyond_double};
use super::error::{DurationError, DurationFault};
use super::laws::law_prefix_is_a_duration;
use super::unit::{unit_spelled, DurationUnit};
use crate::text::{all_digits, chars_of, is_ascii_space, is_digit, is_letter, text_between, trim, trimmed};

verus! {

/// Kinds of characters that a duration text is made of.
#[derive(Copy, Clone)]
pub enum CharClass {
    /// `0` to `9`.
    Digit,
    /// An ASCII letter.
    Letter,
    /// ASCII whitespace.
    Space,
    /// ASCII whitespace or a comma.
    Separator,
}

/// `c` is of the kind `class`.
pub open spec fn in_class(c: char, class: CharClass) -> bool {
    match class {
        CharClass::Digit => is_digit(c),
        CharClass::Letter => is_letter(c),
        CharClass::Space => is_ascii_space(c),
        CharClass::Separator => is_ascii_space(c) || c == ',',
    }
}

/// How many characters at the front of `s` are of the kind `class`.
pub open spec fn run_len(s: Seq<char>, class: CharClass) -> nat
    decreases s.len(),
{
    if s.len() > 0 && in_class(s[0], class) {
        1 + run_len(s.drop_first(), class)
    } else {
        0
    }
}

/// [`run_len`] is the position of the first character of another kind.
pub proof fn lemma_run_len(s: Seq<char>, class: CharClass, n: int)
    requires
        0 <= n <= s.len(),
        forall|i: int| 0 <= i < n ==> in_class(s[i], class),
        n < s.len() ==> !in_class(s[n], class),
    ensures
        run_len(s, class) == n,
    decreases n,
{
    if n > 0 {
        let rest = s.drop_first();
        assert forall|i: int| 0 <= i < n - 1 implies in_class(rest[i], class) by {
            assert(rest[i] == s[i + 1]);
        }
        lemma_run_len(rest, class, n - 1);
    }
}

/// A run ends within the text.
pub proof fn lemma_run_within(s: Seq<char>, class: CharClass)
    ensures
        run_len(s, class) <= s.len(),
        forall|i: int| 0 <= i < run_len(s, class) ==> in_class(s[i], class),
    decreases s.len(),
{
    if s.len() > 0 && in_class(s[0], class) {
        lemma_run_within(s.drop_first(), class);
        assert forall|i: int| 0 <= i < run_len(s, class) implies in_class(s[i], class) by {
            if i > 0 {
                assert(s[i] == s.drop_first()[i - 1]);
            }
        }
    }
}

/// How long the unsigned number at the front of `s` is: digits, then at most
/// one decimal point with further digits.
pub open spec fn unsigned_len(s: Seq<char>) -> nat {
    let whole = run_len(s, CharClass::Digit);
    if whole < s.len() && s[whole as int] == '.' {
        whole + 1 + run_len(s.skip(whole as int + 1), CharClass::Digit)
    } else {
        whole
    }
}

/// `s` begins with a digit, or with a decimal point and a digit.
pub open spec fn starts_number(s: Seq<char>) -> bool {
    ||| s.len() > 0 && is_digit(s[0])
    ||| s.len() > 1 && s[0] == '.' && is_digit(s[1])
}

/// `c` is a sign.
pub open spec fn is_sign(c: char) -> bool {
    c == '+' || c == '-'
}

/// `s` begins with a number, signed or not.
pub open spec fn starts_part(s: Seq<char>) -> bool {
    starts_number(s) || (s.len() > 0 && is_sign(s[0]) && starts_number(s.skip(1)))
}

/// What the front of a text reads as, where a number is expected.
pub enum NumberRead {
    /// There is no number.
    Missing,
    /// There is something that is not accepted as a number.
    Invalid,
    /// A number.
    Found {
        /// It has a minus sign.
        negative: bool,
        /// Its text without the sign.
        digits: Seq<char>,
        /// How many characters it takes.
        len: nat,
    },
}

/// `digits` is accepted as a number: it holds a digit, and a double can hold
/// its whole part.
pub open spec fn is_number(digits: Seq<char>) -> bool {
    &&& starts_number(digits)
    &&& digits_value(digits.take(run_len(digits, CharClass::Digit) as int)) < double_limit()
}

/// The number at the front of `s`.
pub open spec fn number_read(s: Seq<char>) -> NumberRead {
    let signed = s.len() > 0 && is_sign(s[0]);
    let body = if signed {
        s.skip(1)
    } else {
        s
    };
    let len = unsigned_len(body);
    let digits = body.take(len as int);
    if !signed && len == 0 {
        NumberRead::Missing
    } else if !is_number(digits) {
        NumberRead::Invalid
    } else {
        NumberRead::Found {
            negative: s[0] == '-',
            digits,
            len: if signed {
                len + 1
            } else {
                len
            },
        }
    }
}

/// Contents of a [`DurationPart`].
pub struct PartView {
    /// The number, without a sign.
    pub number: Seq<char>,
    /// The unit.
    pub unit: DurationUnit,
}

/// What the front of a text reads as, where a part is expected.
pub enum PartRead {
    /// No part, for this reason.
    Fault(DurationFault),
    /// A part.
    Part {
        /// Its number has a minus sign.
        negative: bool,
        /// The part.
        part: PartView,
        /// How many characters it takes.
        len: nat,
    },
}

/// The part at the front of `s`.
pub open spec fn part_read(s: Seq<char>) -> PartRead {
    match number_read(s) {
        NumberRead::Missing => PartRead::Fault(DurationFault::MissingNumber),
        NumberRead::Invalid => PartRead::Fault(DurationFault::InvalidNumber),
        NumberRead::Found { negative, digits, len } => {
            let at = len + run_len(s.skip(len as int), CharClass::Space);
            let letters = run_len(s.skip(at as int), CharClass::Letter);
            if letters == 0 {
                PartRead::Fault(DurationFault::MissingUnit)
            } else {
                match unit_spelled(s.subrange(at as int, (at + letters) as int)) {
                    None => PartRead::Fault(DurationFault::UnknownUnit),
                    Some(unit) => PartRead::Part {
                        negative,
                        part: PartView { number: digits, unit },
                        len: at + letters,
                    },
                }
            }
        },
    }
}

pub proof fn lemma_unsigned_within(s: Seq<char>)
    ensures
        unsigned_len(s) <= s.len(),
{
    lemma_run_within(s, CharClass::Digit);
    let whole = run_len(s, CharClass::Digit);
    if whole < s.len() && s[whole as int] == '.' {
        lemma_run_within(s.skip(whole as int + 1), CharClass::Digit);
    }
}

/// A part takes at least one character and ends within the text.
pub proof fn lemma_part_within(s: Seq<char>)
    ensures
        match part_read(s) {
            PartRead::Fault(_) => true,
            PartRead::Part { len, .. } => 0 < len <= s.len(),
        },
{
    let body = if s.len() > 0 && is_sign(s[0]) {
        s.skip(1)
    } else {
        s
    };
    lemma_unsigned_within(body);
    match number_read(s) {
        NumberRead::Found { len, .. } => {
            lemma_run_within(s.skip(len as int), CharClass::Space);
            let at = len + run_len(s.skip(len as int), CharClass::Space);
            lemma_run_within(s.skip(at as int), CharClass::Letter);
        },
        _ => {},
    }
}

/// What a whole text reads as.
pub enum DurationRead {
    /// No duration, for this reason.
    Fault(DurationFault),
    /// A duration.
    Duration {
        /// The first part has a minus sign.
        negative: bool,
        /// The parts in order.
        parts: Seq<PartView>,
    },
}

/// The reading of `s` after `parts` have been read before it. A minus sign is
/// accepted on the first part only.
pub open spec fn read_parts(s: Seq<char>, negative: bool, parts: Seq<PartView>) -> DurationRead
    decreases s.len(),
{
    let rest = s.skip(run_len(s, CharClass::Separator) as int);
    if rest.len() == 0 {
        DurationRead::Duration { negative, parts }
    } else {
        match part_read(rest) {
            PartRead::Fault(fault) => DurationRead::Fault(fault),
            PartRead::Part { negative: minus, part, len } => {
                if minus && parts.len() > 0 {
                    DurationRead::Fault(DurationFault::InvalidNumber)
                } else {
                    proof {
                        lemma_run_within(s, CharClass::Separator);
                        lemma_part_within(rest);
                    }
                    read_parts(rest.skip(len as int), negative || minus, parts.push(part))
                }
            },
        }
    }
}

/// The reading of `text`, whose surrounding whitespace does not count.
pub open spec fn duration_read(text: Seq<char>) -> DurationRead {
    match read_parts(trimmed(text), false, Seq::empty()) {
        DurationRead::Duration { parts, .. } if parts.len() == 0 => DurationRead::Fault(
            DurationFault::Empty,
        ),
        read => read,
    }
}

/// A duration at the front of a text.
pub struct PrefixRead {
    /// The first part has a minus sign.
    pub negative: bool,
    /// The parts in order.
    pub parts: Seq<PartView>,
    /// How many characters they take.
    pub len: nat,
}

/// The parts at the front of `s`, which continue `parts` that took `before`
/// characters. Reading goes on past separators only where a number follows.
pub open spec fn read_prefix(
    s: Seq<char>,
    negative: bool,
    parts: Seq<PartView>,
    before: nat,
) -> Option<PrefixRead>
    decreases s.len(),
{
    match part_read(s) {
        PartRead::Fault(_) => None,
        PartRead::Part { negative: minus, part, len } => {
            let after = s.skip(len as int);
            let gap = run_len(after, CharClass::Separator);
            let next = after.skip(gap as int);
            if minus && parts.len() > 0 {
                None
            } else if starts_part(next) {
                proof {
                    lemma_part_within(s);
                    lemma_run_within(after, CharClass::Separator);
                }
                read_prefix(next, negative || minus, parts.push(part), before + len + gap)
            } else {
                Some(
                    PrefixRead {
                        negative: negative || minus,
                        parts: parts.push(part),
                        len: before + len,
                    },
                )
            }
        },
    }
}

/// The duration at the front of `text`.
pub open spec fn prefix_read(text: Seq<char>) -> Option<PrefixRead> {
    if starts_part(text) {
        read_prefix(text, false, Seq::empty(), 0)
    } else {
        None
    }
}

/// One number with its unit.
#[derive(Debug)]
pub struct DurationPart {
    number: String,
    unit: DurationUnit,
}

impl View for DurationPart {
    type V = PartView;

    closed spec fn view(&self) -> PartView {
        PartView { number: self.number@, unit: self.unit }
    }
}

impl DurationPart {
    /// The number as written, without a sign.
    pub fn number(&self) -> (number: &str)
        ensures
            number@ == self@.number,
    {
        self.number.as_str()
    }

    /// The unit.
    pub fn unit(&self) -> (unit: DurationUnit)
        ensures
            unit == self@.unit,
    {
        self.unit
    }
}

/// The parts as plain values.
pub open spec fn part_views(parts: Seq<DurationPart>) -> Seq<PartView> {
    Seq::new(parts.len(), |i: int| parts[i]@)
}

/// A duration text taken apart.
#[derive(Debug)]
pub struct DurationParts {
    /// The first part has a minus sign.
    pub negative: bool,
    /// The parts in order.
    pub parts: Vec<DurationPart>,
    /// The text of the duration, without surrounding whitespace.
    pub raw: String,
}

fn is_in_class(c: char, class: CharClass) -> (member: bool)
    ensures
        member == in_class(c, class),
{
    match class {
        CharClass::Digit => '0' <= c && c <= '9',
        CharClass::Letter => ('a' <= c && c <= 'z') || ('A' <= c && c <= 'Z'),
        CharClass::Space => c == ' ' || c == '\t' || c == '\n' || c == '\u{c}' || c == '\r',
        CharClass::Separator => c == ' ' || c == '\t' || c == '\n' || c == '\u{c}' || c == '\r'
            || c == ',',
    }
}

/// Where the run of `class` that starts at `pos` ends.
fn run_end(chars: &[char], pos: usize, class: CharClass) -> (end: usize)
    requires
        pos <= chars@.len(),
    ensures
        end == pos + run_len(chars@.skip(pos as int), class),
        end <= chars@.len(),
{
    let mut end: usize = pos;
    while end < chars.len() && is_in_class(chars[end], class)
        invariant
            pos <= end <= chars@.len(),
            forall|i: int| pos <= i < end ==> in_class(chars@[i], class),
        decreases chars@.len() - end,
    {
        end = end + 1;
    }
    proof {
        let rest = chars@.skip(pos as int);
        assert forall|i: int| 0 <= i < end - pos implies in_class(rest[i], class) by {
            assert(rest[i] == chars@[i + pos]);
        }
        if end < chars@.len() {
            assert(rest[end - pos] == chars@[end as int]);
        }
        lemma_run_len(rest, class, end - pos);
    }
    end
}

fn number_starts_at(chars: &[char], pos: usize) -> (starts: bool)
    requires
        pos <= chars@.len(),
    ensures
        starts == starts_number(chars@.skip(pos as int)),
{
    if pos >= chars.len() {
        return false;
    }
    let c: char = chars[pos];
    if is_in_class(c, CharClass::Digit) {
        return true;
    }
    c == '.' && chars.len() - pos > 1 && is_in_class(chars[pos + 1], CharClass::Digit)
}

/// Whether a number, signed or not, starts at `pos`.
pub fn can_start_duration_segment(chars: &[char], pos: usize) -> (starts: bool)
    requires
        pos <= chars@.len(),
    ensures
        starts == starts_part(chars@.skip(pos as int)),
{
    if number_starts_at(chars, pos) {
        return true;
    }
    if pos < chars.len() && (chars[pos] == '+' || chars[pos] == '-') {
        assert(chars@.skip(pos as int).skip(1) =~= chars@.skip(pos + 1));
        return number_starts_at(chars, pos + 1);
    }
    false
}

/// Where the whole part and all of the unsigned number at `start` end.
fn unsigned_end(chars: &[char], start: usize) -> (ends: (usize, usize))
    requires
        start <= chars@.len(),
    ensures
        ends.0 == start + run_len(chars@.skip(start as int), CharClass::Digit),
        ends.1 == start + unsigned_len(chars@.skip(start as int)),
        ends.0 <= ends.1 <= chars@.len(),
{
    let whole_end = run_end(chars, start, CharClass::Digit);
    if whole_end < chars.len() && chars[whole_end] == '.' {
        assert(chars@.skip(start as int).skip(whole_end - start + 1) =~= chars@.skip(
            whole_end + 1,
        ));
        (whole_end, run_end(chars, whole_end + 1, CharClass::Digit))
    } else {
        (whole_end, whole_end)
    }
}

/// Whether the unsigned number at `start` is accepted.
fn is_number_at(chars: &[char], start: usize, whole_end: usize) -> (accepted: bool)
    requires
        start <= chars@.len(),
        whole_end == start + run_len(chars@.skip(start as int), CharClass::Digit),
        whole_end <= chars@.len(),
    ensures
        ({
            let body = chars@.skip(start as int);
            accepted == is_number(body.take(unsigned_len(body) as int))
        }),
{
    let ghost body = chars@.skip(start as int);
    let ghost digits = body.take(unsigned_len(body) as int);
    proof {
        lemma_digits_head(body);
        lemma_starts_within(body);
        lemma_unsigned_within(body);
    }
    if !number_starts_at(chars, start) {
        return false;
    }
    let whole = chars_between(chars, start, whole_end);
    proof {
        lemma_run_within(body, CharClass::Digit);
        assert(whole@ =~= digits.take(run_len(digits, CharClass::Digit) as int));
        assert forall|i: int| 0 <= i < whole@.len() implies is_digit(#[trigger] whole@[i]) by {
            assert(whole@[i] == body[i]);
        }
    }
    !is_beyond_double(whole.as_slice())
}

/// Reads the number at `pos`: its sign, its text without the sign, and where
/// it ends.
fn parse_number(chars: &[char], pos: usize, input: &str) -> (result: Result<
    (bool, String, usize),
    DurationError,
>)
    requires
        pos <= chars@.len(),
    ensures
        match (result, number_read(chars@.skip(pos as int))) {
            (Err(error), NumberRead::Missing) => error.reports(
                DurationFault::MissingNumber,
                input@,
            ),
            (Err(error), NumberRead::Invalid) => error.reports(
                DurationFault::InvalidNumber,
                input@,
            ),
            (Ok(found), NumberRead::Found { negative, digits, len }) => {
                &&& found.0 == negative
                &&& found.1@ == digits
                &&& found.2 == pos + len
                &&& found.2 <= chars@.len()
            },
            _ => false,
        },
{
    let ghost s = chars@.skip(pos as int);
    let signed = pos < chars.len() && (chars[pos] == '+' || chars[pos] == '-');
    let start: usize = if signed {
        pos + 1
    } else {
        pos
    };
    let ghost body = chars@.skip(start as int);
    assert(body =~= if signed {
        s.skip(1)
    } else {
        s
    });
    assert(signed == (s.len() > 0 && is_sign(s[0])));
    let (whole_end, end) = unsigned_end(chars, start);
    if !signed && start == end {
        return Err(DurationError::MissingNumber { input: input.to_owned() });
    }
    if !is_number_at(chars, start, whole_end) {
        return Err(DurationError::InvalidNumber { input: input.to_owned() });
    }
    proof {
        assert(body.take(end - start) =~= chars@.subrange(start as int, end as int));
        lemma_number_head(body);
    }
    Ok((signed && chars[pos] == '-', text_between(chars, start, end), end))
}

/// A number that is accepted is not empty.
proof fn lemma_number_head(body: Seq<char>)
    ensures
        is_number(body.take(unsigned_len(body) as int)) ==> unsigned_len(body) > 0 && body[0]
            != '-',
{
    lemma_unsigned_within(body);
    lemma_starts_within(body);
}

/// The whole part of a number is a run of digits in its own text too.
proof fn lemma_digits_head(body: Seq<char>)
    ensures
        run_len(body.take(unsigned_len(body) as int), CharClass::Digit) == run_len(
            body,
            CharClass::Digit,
        ),
{
    lemma_run_within(body, CharClass::Digit);
    lemma_unsigned_within(body);
    let whole = run_len(body, CharClass::Digit);
    let digits = body.take(unsigned_len(body) as int);
    lemma_run_stops(body, CharClass::Digit);
    assert forall|i: int| 0 <= i < whole implies in_class(digits[i], CharClass::Digit) by {
        assert(digits[i] == body[i]);
    }
    lemma_run_len(digits, CharClass::Digit, whole as int);
}

/// A run stops at the end or before a character of another kind.
pub proof fn lemma_run_stops(s: Seq<char>, class: CharClass)
    ensures
        run_len(s, class) < s.len() ==> !in_class(s[run_len(s, class) as int], class),
    decreases s.len(),
{
    if s.len() > 0 && in_class(s[0], class) {
        lemma_run_stops(s.drop_first(), class);
    }
}

proof fn lemma_starts_within(body: Seq<char>)
    ensures
        starts_number(body.take(unsigned_len(body) as int)) == starts_number(body),
{
    lemma_unsigned_within(body);
    lemma_run_within(body, CharClass::Digit);
    lemma_run_stops(body, CharClass::Digit);
    if body.len() > 1 && body[0] == '.' {
        lemma_run_len(body, CharClass::Digit, 0);
        lemma_run_stops(body.skip(1), CharClass::Digit);
        assert(body.skip(1)[0] == body[1]);
    }
}

fn chars_between(chars: &[char], from: usize, to: usize) -> (piece: Vec<char>)
    requires
        from <= to <= chars@.len(),
    ensures
        piece@ == chars@.subrange(from as int, to as int),
{
    chars_of(text_between(chars, from, to).as_str())
}

/// Reads the unit at `pos` and where it ends.
fn parse_unit(chars: &[char], pos: usize, input: &str) -> (result: Result<
    (DurationUnit, usize),
    DurationError,
>)
    requires
        pos <= chars@.len(),
    ensures
        ({
            let letters = run_len(chars@.skip(pos as int), CharClass::Letter);
            let spelled = unit_spelled(chars@.subrange(pos as int, (pos + letters) as int));
            match result {
                Err(error) => if letters == 0 {
                    error.reports(DurationFault::MissingUnit, input@)
                } else {
                    spelled is None && error.reports(DurationFault::UnknownUnit, input@)
                },
                Ok(found) => {
                    &&& letters > 0
                    &&& spelled == Some(found.0)
                    &&& found.1 == pos + letters
                    &&& found.1 <= chars@.len()
                },
            }
        }),
{
    let end = run_end(chars, pos, CharClass::Letter);
    if pos == end {
        return Err(DurationError::MissingUnit { input: input.to_owned() });
    }
    match DurationUnit::parse(text_between(chars, pos, end).as_str()) {
        Some(unit) => Ok((unit, end)),
        None => Err(DurationError::UnknownUnit { input: input.to_owned() }),
    }
}

/// Reads the part at `pos`: its sign, the part, and where it ends.
fn parse_part(chars: &[char], pos: usize, input: &str) -> (result: Result<
    (bool, DurationPart, usize),
    DurationError,
>)
    requires
        pos <= chars@.len(),
    ensures
        match (result, part_read(chars@.skip(pos as int))) {
            (Err(error), PartRead::Fault(fault)) => error.reports(fault, input@),
            (Ok(found), PartRead::Part { negative, part, len }) => {
                &&& found.0 == negative
                &&& found.1@ == part
                &&& found.2 == pos + len
                &&& found.2 <= chars@.len()
            },
            _ => false,
        },
{
    let ghost s = chars@.skip(pos as int);
    let (negative, number, number_end) = match parse_number(chars, pos, input) {
        Ok(found) => found,
        Err(error) => return Err(error),
    };
    assert(s.skip(number_end - pos) =~= chars@.skip(number_end as int));
    let unit_start = run_end(chars, number_end, CharClass::Space);
    assert(s.skip(unit_start - pos) =~= chars@.skip(unit_start as int));
    let (unit, end) = match parse_unit(chars, unit_start, input) {
        Ok(found) => found,
        Err(error) => {
            proof {
                let letters = run_len(chars@.skip(unit_start as int), CharClass::Letter);
                assert(s.subrange(unit_start - pos, unit_start - pos + letters)
                    =~= chars@.subrange(unit_start as int, unit_start + letters)) by {
                    lemma_run_within(chars@.skip(unit_start as int), CharClass::Letter);
                }
            }
            return Err(error);
        },
    };
    assert(s.subrange(unit_start - pos, end - pos) =~= chars@.subrange(
        unit_start as int,
        end as int,
    ));
    Ok((negative, DurationPart { number, unit }, end))
}

impl DurationParts {
    /// Takes a duration text apart.
    ///
    /// Errors carry the text without its surrounding whitespace.
    pub fn parse(input: &str) -> (result: Result<Self, DurationError>)
        ensures
            match (result, duration_read(input@)) {
                (Err(error), DurationRead::Fault(fault)) => error.reports(fault, trimmed(input@)),
                (Ok(found), DurationRead::Duration { negative, parts }) => {
                    &&& found.negative == negative
                    &&& part_views(found.parts@) == parts
                    &&& found.raw@ == trimmed(input@)
                },
                _ => false,
            },
    {
        let raw = trim(input);
        let chars = chars_of(raw.as_str());
        let mut parts: Vec<DurationPart> = Vec::new();
        let mut negative = false;
        let mut pos: usize = 0;
        let ghost whole = chars@;
        assert(whole.skip(0) =~= whole);
        assert(part_views(parts@) =~= Seq::empty());
        while pos < chars.len()
            invariant
                pos <= chars@.len(),
                whole == chars@,
                raw@ == whole,
                whole == trimmed(input@),
                read_parts(whole, false, Seq::empty()) == read_parts(
                    whole.skip(pos as int),
                    negative,
                    part_views(parts@),
                ),
            decreases chars@.len() - pos,
        {
            let ghost s = whole.skip(pos as int);
            let start = run_end(chars.as_slice(), pos, CharClass::Separator);
            assert(s.skip(start - pos) =~= whole.skip(start as int));
            if start >= chars.len() {
                pos = start;
                assert(whole.skip(pos as int).len() == 0);
                assert(run_len(whole.skip(pos as int), CharClass::Separator) == 0);
                assert(whole.skip(pos as int).skip(0) =~= whole.skip(pos as int));
            } else {
                let (minus, part, end) = match parse_part(chars.as_slice(), start, raw.as_str()) {
                    Ok(found) => found,
                    Err(error) => return Err(error),
                };
                if minus && parts.len() > 0 {
                    return Err(DurationError::InvalidNumber { input: raw });
                }
                proof {
                    lemma_part_within(whole.skip(start as int));
                    assert(whole.skip(start as int).skip(end - start) =~= whole.skip(end as int));
                    assert(part_views(parts@.push(part)) =~= part_views(parts@).push(part@));
                }
                negative = negative || minus;
                parts.push(part);
                pos = end;
            }
        }
        proof {
            let rest = whole.skip(pos as int);
            assert(run_len(rest, CharClass::Separator) == 0);
            assert(rest.skip(0) =~= rest);
        }
        if parts.len() == 0 {
            return Err(DurationError::Empty);
        }
        Ok(DurationParts { negative, parts, raw })
    }

    /// Takes the duration at the front of `input` apart and says how many
    /// characters, which are all ASCII, it takes.
    pub fn parse_prefix(input: &str) -> (result: Option<(Self, usize)>)
        ensures
            match (result, prefix_read(input@)) {
                (None, None) => true,
                (Some(found), Some(read)) => {
                    &&& found.0.negative == read.negative
                    &&& part_views(found.0.parts@) == read.parts
                    &&& found.0.raw@ == input@.take(read.len as int)
                    &&& found.1 == read.len
                    &&& found.1 <= input@.len()
                },
                _ => false,
            },
    {
        let chars = chars_of(input);
        let ghost whole = chars@;
        assert(whole.skip(0) =~= whole);
        if !can_start_duration_segment(chars.as_slice(), 0) {
            return None;
        }
        let mut parts: Vec<DurationPart> = Vec::new();
        let mut negative = false;
        let mut pos: usize = 0;
        assert(part_views(parts@) =~= Seq::empty());
        loop
            invariant
                pos <= chars@.len(),
                whole == chars@,
                whole == input@,
                starts_part(whole),
                prefix_read(whole) == read_prefix(
                    whole.skip(pos as int),
                    negative,
                    part_views(parts@),
                    pos as nat,
                ),
            decreases chars@.len() - pos,
        {
            let (minus, part, end) = match parse_part(chars.as_slice(), pos, input) {
                Ok(found) => found,
                Err(_) => return None,
            };
            if minus && parts.len() > 0 {
                return None;
            }
            let ghost s = whole.skip(pos as int);
            proof {
                lemma_part_within(s);
                assert(s.skip(end - pos) =~= whole.skip(end as int));
                assert(part_views(parts@.push(part)) =~= part_views(parts@).push(part@));
            }
            negative = negative || minus;
            parts.push(part);
            let next = run_end(chars.as_slice(), end, CharClass::Separator);
            assert(whole.skip(end as int).skip(next - end) =~= whole.skip(next as int));
            if can_start_duration_segment(chars.as_slice(), next) {
                pos = next;
            } else {
                let head = text_between(chars.as_slice(), 0, end);
                assert(head@ =~= whole.take(end as int));
                let raw = trim(head.as_str());
                proof {
                    law_prefix_is_a_duration(whole);
                }
                return Some((DurationParts { negative, parts, raw }, end));
            }
        }
    }
}

} // verus!
