//! Whitespace, letters and digits.

use vstd::prelude::*;

use crate::duration::digits::{digits_value, lemma_decimal_value};
use crate::note::byte::{first_occurrence, no_occurrence};
use crate::text::{
    all_digits, ascii_lower, ascii_lowered, begins_with, decimal, is_space, signed_decimal, trimmed,
    trimmed_end, trimmed_start,
};

verus! {

/// Every character is whitespace.
pub open spec fn is_all_space(s: Seq<char>) -> bool {
    forall|i: int| 0 <= i < s.len() ==> is_space(#[trigger] s[i])
}

/// The text begins and ends with something else than whitespace, or is empty.
pub open spec fn is_tight(s: Seq<char>) -> bool {
    s.len() == 0 || (!is_space(s[0]) && !is_space(s.last()))
}

proof fn lemma_start_trimmed(left: Seq<char>, s: Seq<char>)
    requires
        is_all_space(left),
        s.len() == 0 || !is_space(s[0]),
    ensures
        trimmed_start(left + s) == s,
    decreases left.len(),
{
    let whole = left + s;
    if left.len() == 0 {
        assert(whole =~= s);
    } else {
        assert(whole[0] == left[0]);
        let rest = left.drop_first();
        assert forall|i: int| 0 <= i < rest.len() implies is_space(#[trigger] rest[i]) by {
            assert(rest[i] == left[i + 1]);
        }
        assert(whole.drop_first() =~= rest + s);
        lemma_start_trimmed(rest, s);
    }
}

proof fn lemma_end_trimmed(s: Seq<char>, right: Seq<char>)
    requires
        is_all_space(right),
        s.len() == 0 || !is_space(s.last()),
    ensures
        trimmed_end(s + right) == s,
    decreases right.len(),
{
    let whole = s + right;
    if right.len() == 0 {
        assert(whole =~= s);
    } else {
        assert(whole.last() == right.last());
        assert(is_space(right[right.len() - 1]));
        let rest = right.drop_last();
        assert forall|i: int| 0 <= i < rest.len() implies is_space(#[trigger] rest[i]) by {
            assert(rest[i] == right[i]);
        }
        assert(whole.drop_last() =~= s + rest);
        lemma_end_trimmed(s, rest);
    }
}

/// Trimming takes away the whitespace around a text and nothing else.
pub proof fn law_trimming_takes_whitespace_alone(left: Seq<char>, core: Seq<char>, right: Seq<char>)
    requires
        is_all_space(left),
        is_all_space(right),
        is_tight(core),
    ensures
        trimmed(left + core + right) == core,
{
    if core.len() == 0 {
        let blank = left + core + right;
        assert forall|i: int| 0 <= i < blank.len() implies is_space(#[trigger] blank[i]) by {
            if i < left.len() {
                assert(blank[i] == left[i]);
            } else {
                assert(blank[i] == right[i - left.len()]);
            }
        }
        assert(blank + core =~= blank);
        lemma_start_trimmed(blank, core);
        assert(trimmed_end(core) =~= core);
        assert(core =~= Seq::empty());
    } else {
        assert(left + core + right =~= left + (core + right));
        assert((core + right)[0] == core[0]);
        lemma_start_trimmed(left, core + right);
        lemma_end_trimmed(core, right);
    }
}

/// Trimming leaves a tight text that stands in what was trimmed.
pub proof fn law_trimmed_texts_are_tight(s: Seq<char>)
    ensures
        is_tight(trimmed(s)),
        trimmed(trimmed(s)) == trimmed(s),
        trimmed(s).len() <= s.len(),
        trimmed(s).len() == 0 <==> is_all_space(s),
{
    lemma_trimmed_start(s);
    let a = trimmed_start(s);
    lemma_trimmed_end(a);
    let b = trimmed_end(a);
    let none = Seq::<char>::empty();
    if b.len() > 0 {
        assert(a.len() > 0);
        assert(b[0] == a[0]);
    }
    law_trimming_takes_whitespace_alone(none, b, none);
    assert(none + b + none =~= b);
    if is_all_space(s) {
        assert(s + none =~= s);
        lemma_start_trimmed(s, none);
    }
    if b.len() == 0 {
        if a.len() > 0 {
            assert(is_space(a[0]));
        }
    }
}

proof fn lemma_trimmed_start(s: Seq<char>)
    ensures
        trimmed_start(s).len() <= s.len(),
        trimmed_start(s).len() > 0 ==> !is_space(trimmed_start(s)[0]),
        trimmed_start(s).len() == 0 ==> is_all_space(s),
        is_all_space(s) ==> trimmed_start(s).len() == 0,
    decreases s.len(),
{
    if s.len() > 0 && is_space(s[0]) {
        let rest = s.drop_first();
        lemma_trimmed_start(rest);
        if is_all_space(rest) {
            assert forall|i: int| 0 <= i < s.len() implies is_space(#[trigger] s[i]) by {
                if i > 0 {
                    assert(rest[i - 1] == s[i]);
                    assert(is_space(rest[i - 1]));
                }
            }
        }
        if is_all_space(s) {
            assert forall|i: int| 0 <= i < rest.len() implies is_space(#[trigger] rest[i]) by {
                assert(is_space(s[i + 1]));
            }
        }
    }
}

proof fn lemma_trimmed_end(s: Seq<char>)
    ensures
        trimmed_end(s).len() <= s.len(),
        trimmed_end(s) == s.take(trimmed_end(s).len() as int),
        trimmed_end(s).len() > 0 ==> !is_space(trimmed_end(s).last()),
        trimmed_end(s).len() == 0 && s.len() > 0 ==> is_space(s[0]),
    decreases s.len(),
{
    if s.len() > 0 && is_space(s.last()) {
        let rest = s.drop_last();
        lemma_trimmed_end(rest);
        assert(trimmed_end(s) =~= s.take(trimmed_end(s).len() as int));
        if rest.len() > 0 {
            assert(rest[0] == s[0]);
        }
    } else {
        assert(s.take(s.len() as int) =~= s);
    }
}

/// Blanks, tabs and line ends are whitespace; no printable ASCII character is.
pub proof fn law_whitespace(c: char)
    ensures
        c == ' ' || c == '\t' || c == '\n' || c == '\r' ==> is_space(c),
        '!' <= c && c <= '~' ==> !is_space(c),
        c == '\u{85}' || c == '\u{a0}' || c == '\u{1680}' || ('\u{2000}' <= c && c <= '\u{200a}') || c
            == '\u{2028}' || c == '\u{2029}' || c == '\u{202f}' || c == '\u{205f}' || c == '\u{3000}'
            ==> is_space(c),
        c > '\u{3000}' ==> !is_space(c),
{
}

/// Lowering changes capital letters alone, each to its small letter.
pub proof fn law_lowering_changes_capitals_alone(c: char, s: Seq<char>)
    ensures
        'A' <= c && c <= 'Z' ==> ascii_lower(c) as int == c as int + 32,
        !('A' <= c && c <= 'Z') ==> ascii_lower(c) == c,
        ascii_lowered(s).len() == s.len(),
        forall|i: int| 0 <= i < s.len() ==> #[trigger] ascii_lowered(s)[i] == ascii_lower(s[i]),
{
}

/// A number is written in digits that read back as that number, without a zero
/// in front, and a negative one with a minus before them.
pub proof fn law_numbers_are_written_in_digits(n: nat)
    ensures
        all_digits(decimal(n)),
        decimal(n).len() > 0,
        digits_value(decimal(n)) == n,
        n > 0 ==> decimal(n)[0] != '0',
        signed_decimal(n as int) == decimal(n),
        n > 0 ==> signed_decimal(-n) == seq!['-'] + decimal(n),
    decreases n,
{
    lemma_decimal_value(n);
    lemma_first_digit(n);
}

proof fn lemma_first_digit(n: nat)
    ensures
        decimal(n).len() > 0,
        n > 0 ==> decimal(n)[0] != '0',
    decreases n,
{
    if n >= 10 {
        lemma_first_digit(n / 10);
        assert(decimal(n)[0] == decimal(n / 10)[0]);
    }
}

/// A text begins with another exactly where their first characters are the same,
/// one by one.
pub proof fn law_texts_begin_with_their_front(text: Seq<char>, front: Seq<char>)
    ensures
        begins_with(text, front) <==> front.len() <= text.len() && forall|i: int|
            0 <= i < front.len() ==> #[trigger] text[i] == front[i],
{
    if front.len() <= text.len() {
        let head = text.subrange(0, front.len() as int);
        if begins_with(text, front) {
            assert forall|i: int| 0 <= i < front.len() implies #[trigger] text[i] == front[i] by {
                assert(head[i] == text[i]);
            }
        } else if forall|i: int| 0 <= i < front.len() ==> #[trigger] text[i] == front[i] {
            assert(head =~= front);
        }
    }
}

/// Where something is found it stands, from there on, and nowhere before; where it
/// is not found it stands nowhere.
pub proof fn law_the_first_occurrence_is_found(
    hay: Seq<u8>,
    needle: Seq<u8>,
    from: int,
    at: int,
    k: int,
)
    requires
        0 <= from <= k,
        k + needle.len() <= hay.len(),
        forall|i: int| 0 <= i < needle.len() ==> hay[k + i] == #[trigger] needle[i],
    ensures
        !no_occurrence(hay, needle, from),
        first_occurrence(hay, needle, at, from) ==> from <= at <= k && forall|i: int|
            0 <= i < needle.len() ==> hay[at + i] == #[trigger] needle[i],
{
    assert(hay.subrange(k, k + needle.len()) =~= needle);
    if first_occurrence(hay, needle, at, from) {
        let found = hay.subrange(at, at + needle.len());
        assert forall|i: int| 0 <= i < needle.len() implies hay[at + i] == #[trigger] needle[i] by {
            assert(found[i] == hay[at + i]);
        }
    }
}

/// Each digit counts ten times as much as the one behind it.
pub proof fn law_digits_count_in_tens(front: Seq<char>, digit: char)
    requires
        '0' <= digit <= '9',
    ensures
        digits_value(Seq::empty()) == 0,
        digits_value(front.push(digit)) == 10 * digits_value(front) + (digit as int - '0' as int),
{
    assert(front.push(digit).drop_last() =~= front);
}

} // verus!
