//! Tags and fields in the text of a note.

use vstd::prelude::*;
use vstd::string::*;

use super::texts::{
    is_all_space, is_tight, law_trimmed_texts_are_tight, law_trimming_takes_whitespace_alone,
};
use crate::note::inline::{
    blank_end, bracket_field, bracket_fields, by_start, char_is_alphanumeric, field_of,
    inline_fields, key_at, key_end, law_by_start, line_field, line_fields, placed_fields,
    starts_sorted, stop_at, tag_end, tags_from, value_of_text, FoundField,
};
use crate::note::metadata::{FieldSource, FieldView, InlineFieldForm};
use crate::note::structure::{bar_position, bracketed, wikilink_of, LinkType, OutlinkView};
use crate::note::value::{starts_with_date, ValueView};
use crate::number::{is_finite, number_for, NumberView};
use crate::text::{ascii_lower, ascii_lowered, is_space, trimmed};

verus! {

/// A letter from `a` to `z`, small or capital.
pub open spec fn is_latin(c: char) -> bool {
    ('a' <= c && c <= 'z') || ('A' <= c && c <= 'Z')
}

/// A digit from `0` to `9`.
pub open spec fn is_figure(c: char) -> bool {
    '0' <= c && c <= '9'
}

/// A character that can follow the first letter of a tag.
pub open spec fn can_go_on_tag(c: char) -> bool {
    is_latin(c) || is_figure(c) || c == '_' || c == '/' || c == '-'
}

/// A character in front of which a `#` belongs to a word.
pub open spec fn is_part_of_word(c: char) -> bool {
    if c as int <= 0x7f {
        is_latin(c) || is_figure(c) || c == '_'
    } else {
        char_is_alphanumeric(c)
    }
}

/// A tag stands in `s` from `p` up to `e`: a `#`, a letter, and all that goes on
/// behind it; and no word goes on into it.
pub open spec fn is_tag_between(s: Seq<char>, p: int, e: int) -> bool {
    &&& 0 <= p
    &&& p + 2 <= e <= s.len()
    &&& s[p] == '#'
    &&& is_latin(s[p + 1])
    &&& forall|i: int| p + 2 <= i < e ==> can_go_on_tag(#[trigger] s[i])
    &&& e == s.len() || !can_go_on_tag(s[e])
    &&& p == 0 || !is_part_of_word(s[p - 1])
}

/// `tags` stand in `s` at `places`, one behind the other, and are all the tags
/// that begin at `from` or later.
pub open spec fn are_all_tags(
    s: Seq<char>,
    from: int,
    tags: Seq<Seq<char>>,
    places: Seq<(int, int)>,
) -> bool {
    &&& tags.len() == places.len()
    &&& forall|k: int|
        0 <= k < places.len() ==> from <= (#[trigger] places[k]).0 && is_tag_between(
            s,
            places[k].0,
            places[k].1,
        ) && tags[k] == s.subrange(places[k].0, places[k].1)
    &&& forall|i: int, j: int|
        0 <= i < j < places.len() ==> (#[trigger] places[i]).1 <= (#[trigger] places[j]).0
    &&& forall|p: int, e: int|
        from <= p && #[trigger] is_tag_between(s, p, e) ==> places.contains((p, e))
}

proof fn lemma_tag_run(s: Seq<char>, pos: int)
    requires
        0 <= pos <= s.len(),
    ensures
        pos <= tag_end(s, pos) <= s.len(),
        forall|i: int| pos <= i < tag_end(s, pos) ==> can_go_on_tag(#[trigger] s[i]),
        tag_end(s, pos) == s.len() || !can_go_on_tag(s[tag_end(s, pos)]),
    decreases s.len() - pos,
{
    if pos < s.len() && can_go_on_tag(s[pos]) {
        lemma_tag_run(s, pos + 1);
    }
}

proof fn lemma_tags(s: Seq<char>, pos: int) -> (places: Seq<(int, int)>)
    requires
        0 <= pos <= s.len(),
    ensures
        are_all_tags(s, pos, tags_from(s, pos), places),
    decreases s.len() - pos,
{
    if pos + 1 >= s.len() {
        Seq::empty()
    } else if s[pos] == '#' && is_latin(s[pos + 1]) {
        lemma_tag_run(s, pos + 2);
        let end = tag_end(s, pos + 2);
        let rest = lemma_tags(s, end);
        assert forall|p: int, e: int| pos < p && #[trigger] is_tag_between(s, p, e) implies end
            <= p by {
            if p < end && p > pos + 1 {
                assert(can_go_on_tag(s[p]));
            }
        }
        if pos > 0 && is_part_of_word(s[pos - 1]) {
            assert(tags_from(s, pos) == tags_from(s, end));
            rest
        } else {
            let places = seq![(pos, end)] + rest;
            let tags = seq![s.subrange(pos, end)] + tags_from(s, end);
            assert(tags_from(s, pos) == tags);
            assert(is_tag_between(s, pos, end));
            assert forall|k: int| 0 <= k < places.len() implies pos <= (#[trigger] places[k]).0
                && is_tag_between(s, places[k].0, places[k].1) && tags[k] == s.subrange(
                places[k].0,
                places[k].1,
            ) by {
                if k > 0 {
                    assert(places[k] == rest[k - 1]);
                    assert(tags[k] == tags_from(s, end)[k - 1]);
                }
            }
            assert forall|i: int, j: int| 0 <= i < j < places.len() implies (#[trigger] places[i]).1
                <= (#[trigger] places[j]).0 by {
                assert(places[j] == rest[j - 1]);
                if i > 0 {
                    assert(places[i] == rest[i - 1]);
                }
            }
            assert forall|p: int, e: int| pos <= p && #[trigger] is_tag_between(
                s,
                p,
                e,
            ) implies places.contains((p, e)) by {
                if p == pos {
                    if e < end {
                        assert(can_go_on_tag(s[e]));
                    } else if e > end {
                        assert(can_go_on_tag(s[end]));
                    }
                    assert(places[0] == (p, e));
                } else {
                    assert(rest.contains((p, e)));
                    let k = choose|k: int| 0 <= k < rest.len() && rest[k] == (p, e);
                    assert(places[k + 1] == (p, e));
                }
            }
            places
        }
    } else {
        let places = lemma_tags(s, pos + 1);
        assert(tags_from(s, pos) == tags_from(s, pos + 1));
        places
    }
}

/// The tags of a text are all tags that stand in it, in order: each `#` with a
/// letter behind it that no word goes on into, with all that goes on the tag.
pub proof fn law_tags_are_all_that_stand_in_a_text(s: Seq<char>)
    ensures
        exists|places: Seq<(int, int)>| are_all_tags(s, 0, tags_from(s, 0), places),
{
    let places = lemma_tags(s, 0);
    assert(are_all_tags(s, 0, tags_from(s, 0), places));
}

/// A character that can follow the first letter of a key; a blank only in
/// brackets.
pub open spec fn can_go_on_key(c: char, blanks: bool) -> bool {
    is_latin(c) || is_figure(c) || c == '_' || c == '-' || (blanks && c == ' ')
}

/// A key: a letter and what can follow it.
pub open spec fn is_key(key: Seq<char>, blanks: bool) -> bool {
    &&& key.len() > 0
    &&& is_latin(key[0])
    &&& forall|i: int| 1 <= i < key.len() ==> can_go_on_key(#[trigger] key[i], blanks)
}

proof fn lemma_key_run(s: Seq<char>, pos: int, end: int, blanks: bool)
    requires
        0 <= pos <= end < s.len(),
        forall|i: int| pos <= i < end ==> can_go_on_key(#[trigger] s[i], blanks),
        !can_go_on_key(s[end], blanks),
    ensures
        key_end(s, pos, blanks) == end,
    decreases end - pos,
{
    if pos < end {
        assert(can_go_on_key(s[pos], blanks));
        lemma_key_run(s, pos + 1, end, blanks);
    }
}

proof fn lemma_blank_run(s: Seq<char>, pos: int, end: int)
    requires
        0 <= pos <= end < s.len(),
        forall|i: int| pos <= i < end ==> #[trigger] s[i] == ' ' || s[i] == '\t',
        s[end] != ' ' && s[end] != '\t',
    ensures
        blank_end(s, pos) == end,
    decreases end - pos,
{
    if pos < end {
        assert(s[pos] == ' ' || s[pos] == '\t');
        lemma_blank_run(s, pos + 1, end);
    }
}

proof fn lemma_stop_run(s: Seq<char>, pos: int, end: int, stop: char)
    requires
        0 <= pos <= end <= s.len(),
        forall|i: int| pos <= i < end ==> #[trigger] s[i] != stop && s[i] != '\n',
        end == s.len() || s[end] == stop || s[end] == '\n',
    ensures
        stop_at(s, pos, stop) == end,
    decreases end - pos,
{
    if pos < end {
        assert(s[pos] != stop && s[pos] != '\n');
        lemma_stop_run(s, pos + 1, end, stop);
    }
}

proof fn lemma_key_at(s: Seq<char>, from: int, key: Seq<char>, blanks: bool)
    requires
        0 <= from,
        from + key.len() + 1 < s.len(),
        is_key(key, blanks),
        s.subrange(from, from + key.len()) == key,
        s[from + key.len()] == ':',
        s[from + key.len() + 1] == ':',
    ensures
        key_at(s, from, blanks) == Some(from + key.len()),
{
    let end = from + key.len();
    assert forall|i: int| from <= i < end implies s[i] == key[i - from] by {
        assert(s.subrange(from, end)[i - from] == s[i]);
    }
    assert(s[from] == key[0]);
    assert forall|i: int| from + 1 <= i < end implies can_go_on_key(#[trigger] s[i], blanks) by {
        assert(can_go_on_key(key[i - from], blanks));
    }
    lemma_key_run(s, from + 1, end, blanks);
}

/// A line that a field fills: blanks, a key, two colons and a value.
pub open spec fn field_line(blanks: Seq<char>, key: Seq<char>, value: Seq<char>) -> Seq<char> {
    blanks + key + seq![':', ':'] + value
}

proof fn lemma_lines_grow(s: Seq<char>, p: int, q: int)
    requires
        0 <= p <= q,
    ensures
        line_fields(s, p).len() <= line_fields(s, q).len(),
        forall|k: int|
            0 <= k < line_fields(s, p).len() ==> line_fields(s, q)[k] == #[trigger] line_fields(
                s,
                p,
            )[k],
    decreases q - p,
{
    if p < q {
        lemma_lines_grow(s, p, q - 1);
    }
}

proof fn lemma_placed(
    s: Seq<char>,
    numbers: Seq<(Seq<char>, NumberView)>,
    placed: (int, FieldView),
)
    requires
        ({
            ||| placed_fields(
                line_fields(s, s.len() as int + 1),
                InlineFieldForm::Body,
                numbers,
            ).contains(placed)
            ||| placed_fields(
                bracket_fields(s, 0, '[', ']'),
                InlineFieldForm::VisibleKey,
                numbers,
            ).contains(placed)
            ||| placed_fields(
                bracket_fields(s, 0, '(', ')'),
                InlineFieldForm::HiddenKey,
                numbers,
            ).contains(placed)
        }),
    ensures
        inline_fields(s, numbers).contains(placed),
{
    broadcast use vstd::seq_lib::group_to_multiset_ensures;

    let a = placed_fields(line_fields(s, s.len() as int + 1), InlineFieldForm::Body, numbers);
    let b = placed_fields(bracket_fields(s, 0, '[', ']'), InlineFieldForm::VisibleKey, numbers);
    let c = placed_fields(bracket_fields(s, 0, '(', ')'), InlineFieldForm::HiddenKey, numbers);
    let all = a + b + c;
    if a.contains(placed) {
        let k = choose|k: int| 0 <= k < a.len() && a[k] == placed;
        assert(all[k] == placed);
    } else if b.contains(placed) {
        let k = choose|k: int| 0 <= k < b.len() && b[k] == placed;
        assert(all[a.len() + k] == placed);
    } else {
        let k = choose|k: int| 0 <= k < c.len() && c[k] == placed;
        assert(all[a.len() + b.len() + k] == placed);
    }
    law_by_start(all);
    assert(all.to_multiset().count(placed) > 0);
    assert(by_start(all).to_multiset().count(placed) > 0);
}

/// A field that fills a line is found, on whatever line it stands, with the key
/// and the value that are written there.
pub proof fn law_fields_that_fill_a_line_are_found(
    before: Seq<char>,
    blanks: Seq<char>,
    key: Seq<char>,
    value: Seq<char>,
    after: Seq<char>,
    numbers: Seq<(Seq<char>, NumberView)>,
)
    requires
        before.len() == 0 || before.last() == '\n',
        forall|i: int| 0 <= i < blanks.len() ==> #[trigger] blanks[i] == ' ' || blanks[i] == '\t',
        is_key(key, false),
        !value.contains('\n'),
        after.len() == 0 || after[0] == '\n',
    ensures
        inline_fields(before + field_line(blanks, key, value) + after, numbers).contains(
            (
                before.len() as int,
                FieldView {
                    key,
                    value: value_of_text(value, numbers),
                    source: FieldSource::Body(InlineFieldForm::Body),
                },
            ),
        ),
{
    let s = before + field_line(blanks, key, value) + after;
    let pos = before.len() as int;
    let stop = pos + blanks.len() + key.len() + 2 + value.len();
    let found = FoundField { start: pos, end: stop, key, value };
    lemma_line_found(before, blanks, key, value, after);
    if pos > 0 {
        assert(s[pos - 1] == before[pos - 1]);
    }
    let upto = line_fields(s, pos + 1);
    assert(upto == line_fields(s, pos).push(found));
    let all = line_fields(s, s.len() as int + 1);
    lemma_lines_grow(s, pos + 1, s.len() as int + 1);
    let k = upto.len() - 1;
    assert(upto[k] == found);
    assert(all[k] == found);
    lemma_tight_key(key);
    let placed = placed_fields(all, InlineFieldForm::Body, numbers);
    assert(placed[k] == (found.start, field_of(found, InlineFieldForm::Body, numbers)));
    lemma_placed(s, numbers, placed[k]);
}

proof fn lemma_tight_key(key: Seq<char>)
    requires
        is_key(key, false),
    ensures
        trimmed(key) == key,
{
    let none = Seq::<char>::empty();
    assert(!is_space(key[0]));
    assert(!is_space(key.last())) by {
        if key.len() > 1 {
            assert(can_go_on_key(key[key.len() - 1], false));
        }
    }
    law_trimming_takes_whitespace_alone(none, key, none);
    assert(none + key + none =~= key);
}

proof fn lemma_line_found(
    before: Seq<char>,
    blanks: Seq<char>,
    key: Seq<char>,
    value: Seq<char>,
    after: Seq<char>,
)
    requires
        forall|i: int| 0 <= i < blanks.len() ==> #[trigger] blanks[i] == ' ' || blanks[i] == '\t',
        is_key(key, false),
        !value.contains('\n'),
        after.len() == 0 || after[0] == '\n',
    ensures
        line_field(before + field_line(blanks, key, value) + after, before.len() as int) == Some(
            FoundField {
                start: before.len() as int,
                end: (before.len() + blanks.len() + key.len() + 2 + value.len()) as int,
                key,
                value,
            },
        ),
{
    let s = before + field_line(blanks, key, value) + after;
    let pos = before.len() as int;
    let from = pos + blanks.len();
    let end = from + key.len();
    let stop = end + 2 + value.len();
    assert forall|i: int| pos <= i < from implies #[trigger] s[i] == ' ' || s[i] == '\t' by {
        assert(s[i] == blanks[i - pos]);
    }
    assert(s.subrange(from, end) =~= key);
    assert(s[from] == key[0]);
    assert(s[end] == ':' && s[end + 1] == ':');
    lemma_blank_run(s, pos, from);
    lemma_key_at(s, from, key, false);
    assert forall|i: int| end + 2 <= i < stop implies #[trigger] s[i] != '\n' by {
        assert(s[i] == value[i - end - 2]);
        assert(value.contains(value[i - end - 2]));
    }
    if after.len() > 0 {
        assert(s[stop] == after[0]);
    }
    lemma_stop_run(s, end + 2, stop, '\n');
    assert(s.subrange(end + 2, stop) =~= value);
}

/// Between the brackets, on one line: a key, two colons and a value.
pub open spec fn bracketed_field(
    open: char,
    key: Seq<char>,
    value: Seq<char>,
    close: char,
) -> Seq<char> {
    seq![open] + key + seq![':', ':'] + value + seq![close]
}

proof fn lemma_first_bracket(
    before: Seq<char>,
    open: char,
    key: Seq<char>,
    value: Seq<char>,
    close: char,
    after: Seq<char>,
    pos: int,
)
    requires
        !before.contains(open),
        is_key(key, true),
        !value.contains('\n'),
        !value.contains(close),
        close != '\n',
        0 <= pos <= before.len(),
    ensures
        ({
            let s = before + bracketed_field(open, key, value, close) + after;
            let end = before.len() + key.len() + value.len() + 4;
            bracket_fields(s, pos, open, close) == seq![
                FoundField { start: before.len() as int, end: end as int, key, value },
            ] + bracket_fields(s, end as int, open, close)
        }),
    decreases before.len() - pos,
{
    let s = before + bracketed_field(open, key, value, close) + after;
    if pos < before.len() {
        assert(s[pos] == before[pos]);
        assert(before.contains(before[pos]));
        assert(bracket_field(s, pos, open, close) is None);
        lemma_first_bracket(before, open, key, value, close, after, pos + 1);
    } else {
        let from = pos + 1;
        let end = from + key.len();
        let stop = end + 2 + value.len();
        assert(s[pos] == open);
        assert(s.subrange(from, end) =~= key);
        assert(s[end] == ':' && s[end + 1] == ':');
        lemma_key_at(s, from, key, true);
        assert forall|i: int| end + 2 <= i < stop implies #[trigger] s[i] != close && s[i]
            != '\n' by {
            assert(s[i] == value[i - end - 2]);
            assert(value.contains(value[i - end - 2]));
        }
        assert(s[stop] == close);
        lemma_stop_run(s, end + 2, stop, close);
        assert(s.subrange(end + 2, stop) =~= value);
    }
}

/// A field in square brackets is found with its key shown, one in round brackets
/// with its key hidden, wherever it stands on a line.
pub proof fn law_fields_in_brackets_are_found(
    before: Seq<char>,
    key: Seq<char>,
    value: Seq<char>,
    after: Seq<char>,
    numbers: Seq<(Seq<char>, NumberView)>,
)
    requires
        is_key(key, true),
        !value.contains('\n'),
    ensures
        !before.contains('[') && !value.contains(']') ==> inline_fields(
            before + bracketed_field('[', key, value, ']') + after,
            numbers,
        ).contains(
            (
                before.len() as int,
                FieldView {
                    key: trimmed(key),
                    value: value_of_text(value, numbers),
                    source: FieldSource::Body(InlineFieldForm::VisibleKey),
                },
            ),
        ),
        !before.contains('(') && !value.contains(')') ==> inline_fields(
            before + bracketed_field('(', key, value, ')') + after,
            numbers,
        ).contains(
            (
                before.len() as int,
                FieldView {
                    key: trimmed(key),
                    value: value_of_text(value, numbers),
                    source: FieldSource::Body(InlineFieldForm::HiddenKey),
                },
            ),
        ),
{
    let end = (before.len() + key.len() + value.len() + 4) as int;
    let found = FoundField { start: before.len() as int, end, key, value };
    if !before.contains('[') && !value.contains(']') {
        let s = before + bracketed_field('[', key, value, ']') + after;
        lemma_first_bracket(before, '[', key, value, ']', after, 0);
        let all = bracket_fields(s, 0, '[', ']');
        assert(all[0] == found);
        let placed = placed_fields(all, InlineFieldForm::VisibleKey, numbers);
        assert(placed[0] == (found.start, field_of(found, InlineFieldForm::VisibleKey, numbers)));
        lemma_placed(s, numbers, placed[0]);
    }
    if !before.contains('(') && !value.contains(')') {
        let s = before + bracketed_field('(', key, value, ')') + after;
        lemma_first_bracket(before, '(', key, value, ')', after, 0);
        let all = bracket_fields(s, 0, '(', ')');
        assert(all[0] == found);
        let placed = placed_fields(all, InlineFieldForm::HiddenKey, numbers);
        assert(placed[0] == (found.start, field_of(found, InlineFieldForm::HiddenKey, numbers)));
        lemma_placed(s, numbers, placed[0]);
    }
}

/// The keys and values of fields, without their places.
pub open spec fn captured(found: Seq<FoundField>) -> Seq<(Seq<char>, Seq<char>)> {
    Seq::new(found.len(), |i: int| (found[i].key, found[i].value))
}

proof fn lemma_key_end_shifts(a: Seq<char>, b: Seq<char>, p: int, blanks: bool)
    requires
        0 <= p <= b.len(),
    ensures
        key_end(a + b, a.len() + p, blanks) == a.len() + key_end(b, p, blanks),
        p <= key_end(b, p, blanks) <= b.len(),
    decreases b.len() - p,
{
    if p < b.len() {
        assert((a + b)[a.len() + p] == b[p]);
        if can_go_on_key(b[p], blanks) {
            lemma_key_end_shifts(a, b, p + 1, blanks);
        }
    }
}

proof fn lemma_stop_shifts(a: Seq<char>, b: Seq<char>, p: int, stop: char)
    requires
        0 <= p <= b.len(),
    ensures
        stop_at(a + b, a.len() + p, stop) == a.len() + stop_at(b, p, stop),
        p <= stop_at(b, p, stop) <= b.len(),
    decreases b.len() - p,
{
    if p < b.len() {
        assert((a + b)[a.len() + p] == b[p]);
        if b[p] != stop && b[p] != '\n' {
            lemma_stop_shifts(a, b, p + 1, stop);
        }
    }
}

proof fn lemma_bracket_shifts(a: Seq<char>, b: Seq<char>, p: int, open: char, close: char)
    requires
        0 <= p < b.len(),
    ensures
        match bracket_field(b, p, open, close) {
            None => bracket_field(a + b, a.len() + p, open, close) is None,
            Some(found) => {
                &&& p < found.end <= b.len()
                &&& bracket_field(a + b, a.len() + p, open, close) == Some(
                    FoundField {
                        start: a.len() + found.start,
                        end: a.len() + found.end,
                        key: found.key,
                        value: found.value,
                    },
                )
            },
        },
{
    let s = a + b;
    let n = a.len() as int;
    assert(s[n + p] == b[p]);
    if b[p] == open && p + 1 < b.len() {
        assert(s[n + p + 1] == b[p + 1]);
        if is_latin(b[p + 1]) {
            lemma_key_end_shifts(a, b, p + 2, true);
            let end = key_end(b, p + 2, true);
            if end + 1 < b.len() {
                assert(s[n + end] == b[end] && s[n + end + 1] == b[end + 1]);
                lemma_stop_shifts(a, b, end + 2, close);
                let stop = stop_at(b, end + 2, close);
                if stop < b.len() {
                    assert(s[n + stop] == b[stop]);
                    assert(s.subrange(n + p + 1, n + end) =~= b.subrange(p + 1, end));
                    assert(s.subrange(n + end + 2, n + stop) =~= b.subrange(end + 2, stop));
                }
            }
        }
    }
}

proof fn lemma_brackets_shift(a: Seq<char>, b: Seq<char>, p: int, open: char, close: char)
    requires
        0 <= p <= b.len(),
    ensures
        captured(bracket_fields(a + b, a.len() + p, open, close)) == captured(
            bracket_fields(b, p, open, close),
        ),
    decreases b.len() - p,
{
    if p < b.len() {
        lemma_bracket_shifts(a, b, p, open, close);
        match bracket_field(b, p, open, close) {
            None => {
                lemma_brackets_shift(a, b, p + 1, open, close);
            },
            Some(found) => {
                lemma_brackets_shift(a, b, found.end, open, close);
                let x = bracket_fields(a + b, a.len() + p, open, close);
                let y = bracket_fields(b, p, open, close);
                let u = bracket_fields(a + b, a.len() + found.end, open, close);
                let v = bracket_fields(b, found.end, open, close);
                let w = bracket_field(a + b, a.len() + p, open, close).unwrap();
                assert(x =~= seq![w] + u);
                assert(y =~= seq![found] + v);
                assert(captured(x) =~= seq![(found.key, found.value)] + captured(u));
                assert(captured(y) =~= seq![(found.key, found.value)] + captured(v));
            },
        }
    }
}

/// Fields in brackets are found one after the other: the first, then those of
/// what follows it.
pub proof fn law_bracketed_fields_follow_one_another(
    before: Seq<char>,
    open: char,
    key: Seq<char>,
    value: Seq<char>,
    close: char,
    after: Seq<char>,
)
    requires
        !before.contains(open),
        is_key(key, true),
        !value.contains('\n'),
        !value.contains(close),
        close != '\n',
    ensures
        captured(
            bracket_fields(
                before + bracketed_field(open, key, value, close) + after,
                0,
                open,
                close,
            ),
        ) == seq![(key, value)] + captured(bracket_fields(after, 0, open, close)),
        captured(bracket_fields(before, 0, open, close)).len() == 0,
{
    let first = before + bracketed_field(open, key, value, close);
    let s = first + after;
    lemma_first_bracket(before, open, key, value, close, after, 0);
    lemma_brackets_shift(first, after, 0, open, close);
    let end = (before.len() + key.len() + value.len() + 4) as int;
    assert(first.len() == end);
    let rest = bracket_fields(s, end, open, close);
    let all = bracket_fields(s, 0, open, close);
    assert(captured(all) =~= seq![(key, value)] + captured(rest));
    lemma_no_bracket(before, 0, open, close);
}

proof fn lemma_no_bracket(s: Seq<char>, pos: int, open: char, close: char)
    requires
        0 <= pos,
        !s.contains(open),
    ensures
        bracket_fields(s, pos, open, close).len() == 0,
    decreases s.len() - pos,
{
    if pos < s.len() {
        assert(s.contains(s[pos]));
        assert(bracket_field(s, pos, open, close) is None);
        lemma_no_bracket(s, pos + 1, open, close);
    }
}

/// No field is made up: of each form there are as many as were found, and all
/// stand in the order in which they begin.
pub proof fn law_no_field_is_made_up(s: Seq<char>, numbers: Seq<(Seq<char>, NumberView)>)
    ensures
        inline_fields(s, numbers).len() == line_fields(s, s.len() as int + 1).len()
            + bracket_fields(s, 0, '[', ']').len() + bracket_fields(s, 0, '(', ')').len(),
        forall|i: int, j: int|
            0 <= i <= j < inline_fields(s, numbers).len() ==> (#[trigger] inline_fields(
                s,
                numbers,
            )[i]).0 <= (#[trigger] inline_fields(s, numbers)[j]).0,
{
    broadcast use vstd::seq_lib::group_to_multiset_ensures;

    let a = placed_fields(line_fields(s, s.len() as int + 1), InlineFieldForm::Body, numbers);
    let b = placed_fields(bracket_fields(s, 0, '[', ']'), InlineFieldForm::VisibleKey, numbers);
    let c = placed_fields(bracket_fields(s, 0, '(', ')'), InlineFieldForm::HiddenKey, numbers);
    let all = a + b + c;
    law_by_start(all);
    assert(by_start(all).to_multiset().len() == all.to_multiset().len());
    assert(starts_sorted(by_start(all)));
}

proof fn lemma_blanks(s: Seq<char>, pos: int)
    requires
        0 <= pos <= s.len(),
    ensures
        pos <= blank_end(s, pos) <= s.len(),
        forall|i: int| pos <= i < blank_end(s, pos) ==> #[trigger] s[i] == ' ' || s[i] == '\t',
    decreases s.len() - pos,
{
    if pos < s.len() && (s[pos] == ' ' || s[pos] == '\t') {
        lemma_blanks(s, pos + 1);
    }
}

proof fn lemma_key_chars(s: Seq<char>, pos: int, blanks: bool)
    requires
        0 <= pos <= s.len(),
    ensures
        pos <= key_end(s, pos, blanks) <= s.len(),
        forall|i: int| pos <= i < key_end(s, pos, blanks) ==> can_go_on_key(#[trigger] s[i], blanks),
    decreases s.len() - pos,
{
    if pos < s.len() && can_go_on_key(s[pos], blanks) {
        lemma_key_chars(s, pos + 1, blanks);
    }
}

proof fn lemma_until_stop(s: Seq<char>, pos: int, stop: char)
    requires
        0 <= pos <= s.len(),
    ensures
        pos <= stop_at(s, pos, stop) <= s.len(),
        forall|i: int|
            pos <= i < stop_at(s, pos, stop) ==> #[trigger] s[i] != stop && s[i] != '\n',
        stop_at(s, pos, stop) == s.len() || s[stop_at(s, pos, stop)] == stop || s[stop_at(
            s,
            pos,
            stop,
        )] == '\n',
    decreases s.len() - pos,
{
    if pos < s.len() && s[pos] != stop && s[pos] != '\n' {
        lemma_until_stop(s, pos + 1, stop);
    }
}

proof fn lemma_key_shape(s: Seq<char>, from: int, end: int, blanks: bool)
    requires
        0 <= from,
        key_at(s, from, blanks) == Some(end),
    ensures
        from < end,
        end + 1 < s.len(),
        is_key(s.subrange(from, end), blanks),
        s[end] == ':' && s[end + 1] == ':',
{
    lemma_key_chars(s, from + 1, blanks);
    let key = s.subrange(from, end);
    assert(key[0] == s[from]);
    assert forall|i: int| 1 <= i < key.len() implies can_go_on_key(#[trigger] key[i], blanks) by {
        assert(key[i] == s[from + i]);
    }
}

/// A field that fills a line is what is written there: from the beginning of a
/// line, behind blanks alone, its key, two colons, and its value up to the end of
/// the line.
pub proof fn law_fields_that_fill_a_line_are_written_there(s: Seq<char>, pos: int, k: int) -> (blanks:
    Seq<char>)
    requires
        0 <= pos <= s.len() + 1,
        0 <= k < line_fields(s, pos).len(),
    ensures
        ({
            let found = line_fields(s, pos)[k];
            &&& 0 <= found.start < pos
            &&& found.start == 0 || s[found.start - 1] == '\n'
            &&& forall|i: int|
                0 <= i < blanks.len() ==> #[trigger] blanks[i] == ' ' || blanks[i] == '\t'
            &&& is_key(found.key, false)
            &&& !found.value.contains('\n')
            &&& found.end <= s.len()
            &&& s.subrange(found.start, found.end) == field_line(blanks, found.key, found.value)
            &&& found.end == s.len() || s[found.end] == '\n'
        }),
        forall|j: int| 0 <= j < k ==> (#[trigger] line_fields(s, pos)[j]).start < line_fields(
            s,
            pos,
        )[k].start,
    decreases pos,
{
    let all = line_fields(s, pos);
    let before = line_fields(s, pos - 1);
    if k < before.len() {
        let blanks = law_fields_that_fill_a_line_are_written_there(s, pos - 1, k);
        assert(all[k] == before[k]);
        assert forall|j: int| 0 <= j < k implies (#[trigger] all[j]).start < all[k].start by {
            assert(all[j] == before[j]);
        }
        blanks
    } else {
        let at = pos - 1;
        let found = line_field(s, at).unwrap();
        assert(all[k] == found);
        lemma_blanks(s, at);
        let from = blank_end(s, at);
        let end = key_at(s, from, false).unwrap();
        lemma_key_shape(s, from, end, false);
        lemma_until_stop(s, end + 2, '\n');
        let stop = stop_at(s, end + 2, '\n');
        let blanks = s.subrange(at, from);
        assert forall|i: int| 0 <= i < blanks.len() implies #[trigger] blanks[i] == ' '
            || blanks[i] == '\t' by {
            assert(blanks[i] == s[at + i]);
        }
        assert(!found.value.contains('\n')) by {
            if found.value.contains('\n') {
                let i = choose|i: int| 0 <= i < found.value.len() && found.value[i] == '\n';
                assert(s[end + 2 + i] == '\n');
            }
        }
        assert(s.subrange(at, stop) =~= field_line(blanks, found.key, found.value));
        assert forall|j: int| 0 <= j < k implies (#[trigger] all[j]).start < found.start by {
            assert(all[j] == before[j]);
            let earlier = law_fields_that_fill_a_line_are_written_there(s, pos - 1, j);
        }
        blanks
    }
}

/// A field in brackets is what is written there: the opening bracket, its key,
/// two colons, its value and the closing bracket, on one line.
pub proof fn law_fields_in_brackets_are_written_there(
    s: Seq<char>,
    pos: int,
    open: char,
    close: char,
    k: int,
)
    requires
        0 <= pos,
        close != '\n',
        0 <= k < bracket_fields(s, pos, open, close).len(),
    ensures
        ({
            let found = bracket_fields(s, pos, open, close)[k];
            &&& pos <= found.start < found.end <= s.len()
            &&& is_key(found.key, true)
            &&& !found.value.contains('\n')
            &&& !found.value.contains(close)
            &&& s.subrange(found.start, found.end) == bracketed_field(
                open,
                found.key,
                found.value,
                close,
            )
        }),
    decreases s.len() - pos,
{
    if pos < s.len() {
        match bracket_field(s, pos, open, close) {
            None => {
                law_fields_in_brackets_are_written_there(s, pos + 1, open, close, k);
            },
            Some(found) => {
                let end = key_at(s, pos + 1, true).unwrap();
                lemma_key_shape(s, pos + 1, end, true);
                lemma_until_stop(s, end + 2, close);
                if k == 0 {
                    let value = found.value;
                    assert forall|c: char| c == '\n' || c == close implies !#[trigger] value.contains(
                        c,
                    ) by {
                        if value.contains(c) {
                            let i = choose|i: int| 0 <= i < value.len() && value[i] == c;
                            assert(s[end + 2 + i] == c);
                        }
                    }
                    assert(s.subrange(found.start, found.end) =~= bracketed_field(
                        open,
                        found.key,
                        value,
                        close,
                    ));
                } else {
                    law_fields_in_brackets_are_written_there(s, found.end, open, close, k - 1);
                }
            },
        }
    }
}

/// The text is `true` but for the case of its letters.
pub open spec fn says_true(s: Seq<char>) -> bool {
    &&& s.len() == 4
    &&& s[0] == 't' || s[0] == 'T'
    &&& s[1] == 'r' || s[1] == 'R'
    &&& s[2] == 'u' || s[2] == 'U'
    &&& s[3] == 'e' || s[3] == 'E'
}

/// The text is `false` but for the case of its letters.
pub open spec fn says_false(s: Seq<char>) -> bool {
    &&& s.len() == 5
    &&& s[0] == 'f' || s[0] == 'F'
    &&& s[1] == 'a' || s[1] == 'A'
    &&& s[2] == 'l' || s[2] == 'L'
    &&& s[3] == 's' || s[3] == 'S'
    &&& s[4] == 'e' || s[4] == 'E'
}

/// The text begins with four digits, a hyphen, two digits, a hyphen and two
/// digits.
pub open spec fn begins_with_day(s: Seq<char>) -> bool {
    &&& s.len() >= 10
    &&& s[4] == '-' && s[7] == '-'
    &&& forall|i: int| 0 <= i < 10 && i != 4 && i != 7 ==> is_figure(#[trigger] s[i])
}

/// A text is a date where it begins with a day in digits.
pub proof fn law_dates_begin_with_a_day(s: Seq<char>)
    ensures
        starts_with_date(s) <==> begins_with_day(s),
{
    if starts_with_date(s) {
        assert forall|i: int| 0 <= i < 10 && i != 4 && i != 7 implies is_figure(
            #[trigger] s[i],
        ) by {}
    }
}

/// What an inline value stands for, whatever whitespace is around it: nothing
/// where it is blank, a boolean where it is one in any case, a number where it
/// reads as one, a date where it begins with a day, and else its text.
pub proof fn law_inline_values(
    left: Seq<char>,
    core: Seq<char>,
    right: Seq<char>,
    numbers: Seq<(Seq<char>, NumberView)>,
)
    requires
        is_all_space(left),
        is_all_space(right),
        is_tight(core),
    ensures
        ({
            let value = value_of_text(left + core + right, numbers);
            let number = number_for(numbers, core);
            if core.len() == 0 {
                value == ValueView::Null
            } else if says_true(core) {
                value == ValueView::Bool(true)
            } else if says_false(core) {
                value == ValueView::Bool(false)
            } else if number is Some && is_finite(number.unwrap().bits) {
                value == ValueView::Number(number.unwrap())
            } else if begins_with_day(core) {
                value == ValueView::Date(core)
            } else {
                value == ValueView::String(core)
            }
        }),
{
    law_trimming_takes_whitespace_alone(left, core, right);
    law_dates_begin_with_a_day(core);
    reveal_strlit("true");
    reveal_strlit("false");
    let low = ascii_lowered(core);
    assert(ascii_lowered("true"@) =~= seq!['t', 'r', 'u', 'e']);
    assert(ascii_lowered("false"@) =~= seq!['f', 'a', 'l', 's', 'e']);
    if says_true(core) {
        assert(low =~= seq!['t', 'r', 'u', 'e']);
    } else if low == seq!['t', 'r', 'u', 'e'] {
        assert(low[0] == 't' && low[1] == 'r' && low[2] == 'u' && low[3] == 'e');
        assert(core.len() == 4);
        lemma_lowered(core[0], 't', 'T');
        lemma_lowered(core[1], 'r', 'R');
        lemma_lowered(core[2], 'u', 'U');
        lemma_lowered(core[3], 'e', 'E');
    }
    if says_false(core) {
        assert(low =~= seq!['f', 'a', 'l', 's', 'e']);
        assert(seq!['t', 'r', 'u', 'e'].len() == 4);
    } else if low == seq!['f', 'a', 'l', 's', 'e'] {
        assert(low[0] == 'f' && low[1] == 'a' && low[2] == 'l' && low[3] == 's' && low[4] == 'e');
        assert(core.len() == 5);
        lemma_lowered(core[0], 'f', 'F');
        lemma_lowered(core[1], 'a', 'A');
        lemma_lowered(core[2], 'l', 'L');
        lemma_lowered(core[3], 's', 'S');
        lemma_lowered(core[4], 'e', 'E');
    }
}

proof fn lemma_lowered(c: char, letter: char, capital: char)
    requires
        ascii_lower(c) == letter,
        'a' <= letter && letter <= 'z',
        capital as int + 32 == letter as int,
    ensures
        c == letter || c == capital,
{
}

proof fn lemma_bar(target: Seq<char>, rest: Seq<char>, from: int)
    requires
        !target.contains('|'),
        0 <= from <= target.len(),
    ensures
        bar_position(target + seq!['|'] + rest, from) == target.len(),
        bar_position(target, from) == target.len(),
    decreases target.len() - from,
{
    let s = target + seq!['|'] + rest;
    if from < target.len() {
        assert(s[from] == target[from]);
        assert(target.contains(target[from]));
        lemma_bar(target, rest, from + 1);
    } else {
        assert(s[from] == '|');
    }
}

/// A target in double square brackets is a link to it. Behind a bar stands what
/// the link shows; without one it shows its target. Whitespace around either does
/// not count, and a link without a target is none.
pub proof fn law_wikilinks(target: Seq<char>, shown: Seq<char>)
    requires
        !target.contains('[') && !target.contains(']') && !target.contains('|'),
        !shown.contains('[') && !shown.contains(']'),
    ensures
        trimmed(target).len() > 0 ==> {
            &&& wikilink_of(seq!['[', '['] + target + seq![']', ']']) == Some(
                OutlinkView {
                    target: trimmed(target),
                    text: trimmed(target),
                    kind: LinkType::Wikilink,
                },
            )
            &&& wikilink_of(seq!['[', '['] + (target + seq!['|'] + shown) + seq![']', ']']) == Some(
                OutlinkView {
                    target: trimmed(target),
                    text: trimmed(shown),
                    kind: LinkType::Wikilink,
                },
            )
        },
        trimmed(target).len() == 0 ==> {
            &&& wikilink_of(seq!['[', '['] + target + seq![']', ']']) is None
            &&& wikilink_of(seq!['[', '['] + (target + seq!['|'] + shown) + seq![']', ']']) is None
        },
{
    lemma_bar(target, shown, 0);
    lemma_in_brackets(target);
    let both = target + seq!['|'] + shown;
    assert forall|c: char| c == '[' || c == ']' implies !#[trigger] both.contains(c) by {
        if both.contains(c) {
            let i = choose|i: int| 0 <= i < both.len() && both[i] == c;
            if i < target.len() {
                assert(target[i] == c);
            } else if i > target.len() {
                assert(shown[i - target.len() - 1] == c);
            }
        }
    }
    lemma_in_brackets(both);
    let n = target.len() as int;
    assert(target.take(n) =~= target);
    assert(both.take(n) =~= target);
    assert(both.skip(n + 1) =~= shown);
    law_trimmed_texts_are_tight(target);
}

proof fn lemma_in_brackets(inner: Seq<char>)
    requires
        !inner.contains('[') && !inner.contains(']'),
    ensures
        bracketed(seq!['[', '['] + inner + seq![']', ']']) == if inner.len()
            > 0 {
            Some(inner)
        } else {
            None
        },
{
    let s = seq!['[', '['] + inner + seq![']', ']'];
    assert(s.subrange(2, s.len() - 2) =~= inner);
    assert(s[0] == '[' && s[1] == '[');
    assert(s[s.len() - 2] == ']' && s[s.len() - 1] == ']');
}

} // verus!
