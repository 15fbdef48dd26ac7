//! Inline fields and tags in plain text.
//!
//! A text buffer holds one paragraph, heading or list item, without code. Three
//! forms of inline fields are known: `Key:: Value` on a line of its own,
//! `[Key:: Value]` and `(Key:: Value)`. A tag is a `#` with a letter behind it.

use vstd::prelude::*;
use vstd::string::*;

use super::metadata::{field_views, FieldSource, FieldView, InlineFieldForm, MetadataField};
use super::structure::Tag;
use super::value::{is_iso_date, starts_with_date, FieldValue, ValueView};
use crate::number::{is_finite, number_for, Number, NumberView, NumberWords, INFINITY, SIGN};
use crate::text::{
    ascii_lowered, chars_of, is_digit, is_letter, same_ignoring_ascii_case, text_between, trim,
    trimmed,
};

verus! {

/// What the standard library's `char::is_alphanumeric` says of `c`.
pub uninterp spec fn char_is_alphanumeric(c: char) -> bool;

/// `char::is_alphanumeric` decides by the character alone.
pub assume_specification[ char::is_alphanumeric ](c: char) -> (alphanumeric: bool)
    ensures
        alphanumeric == char_is_alphanumeric(c),
;

/// `c` is a letter or digit of any script, or `_`.
pub open spec fn is_word_char(c: char) -> bool {
    if c <= '\u{7f}' {
        is_letter(c) || is_digit(c) || c == '_'
    } else {
        char_is_alphanumeric(c)
    }
}

/// `c` may follow the first letter of a key. Keys inside brackets may hold
/// spaces.
pub open spec fn is_key_char(c: char, spaces: bool) -> bool {
    is_letter(c) || is_digit(c) || c == '_' || c == '-' || (spaces && c == ' ')
}

/// `c` may follow the first letter of a tag.
pub open spec fn is_tag_char(c: char) -> bool {
    is_letter(c) || is_digit(c) || c == '_' || c == '/' || c == '-'
}

/// Where the key characters from `pos` on end.
pub open spec fn key_end(s: Seq<char>, pos: int, spaces: bool) -> int
    decreases s.len() - pos,
{
    if 0 <= pos < s.len() && is_key_char(s[pos], spaces) {
        key_end(s, pos + 1, spaces)
    } else {
        pos
    }
}

/// Where the tag characters from `pos` on end.
pub open spec fn tag_end(s: Seq<char>, pos: int) -> int
    decreases s.len() - pos,
{
    if 0 <= pos < s.len() && is_tag_char(s[pos]) {
        tag_end(s, pos + 1)
    } else {
        pos
    }
}

/// Where the spaces and tabs from `pos` on end.
pub open spec fn blank_end(s: Seq<char>, pos: int) -> int
    decreases s.len() - pos,
{
    if 0 <= pos < s.len() && (s[pos] == ' ' || s[pos] == '\t') {
        blank_end(s, pos + 1)
    } else {
        pos
    }
}

/// The first position from `pos` on that holds `stop` or a line end.
pub open spec fn stop_at(s: Seq<char>, pos: int, stop: char) -> int
    decreases s.len() - pos,
{
    if 0 <= pos < s.len() && s[pos] != stop && s[pos] != '\n' {
        stop_at(s, pos + 1, stop)
    } else {
        pos
    }
}

/// A field found in a text.
pub struct FoundField {
    /// Where the match starts.
    pub start: int,
    /// One past the end of the match.
    pub end: int,
    /// The key as captured.
    pub key: Seq<char>,
    /// The value as captured.
    pub value: Seq<char>,
}

/// The end of the key that starts at `pos`, where a letter, key characters and
/// `::` stand there.
pub open spec fn key_at(s: Seq<char>, pos: int, spaces: bool) -> Option<int> {
    if 0 <= pos < s.len() && is_letter(s[pos]) {
        let end = key_end(s, pos + 1, spaces);
        if end + 1 < s.len() && s[end] == ':' && s[end + 1] == ':' {
            Some(end)
        } else {
            None
        }
    } else {
        None
    }
}

/// The field that fills the line from `pos` on.
pub open spec fn line_field(s: Seq<char>, pos: int) -> Option<FoundField> {
    let from = blank_end(s, pos);
    match key_at(s, from, false) {
        Some(end) => {
            let stop = stop_at(s, end + 2, '\n');
            Some(
                FoundField {
                    start: pos,
                    end: stop,
                    key: s.subrange(from, end),
                    value: s.subrange(end + 2, stop),
                },
            )
        },
        None => None,
    }
}

/// The field between `open` at `pos` and the next `close` on the line.
pub open spec fn bracket_field(s: Seq<char>, pos: int, open: char, close: char) -> Option<FoundField> {
    if 0 <= pos < s.len() && s[pos] == open {
        match key_at(s, pos + 1, true) {
            Some(end) => {
                let stop = stop_at(s, end + 2, close);
                if stop < s.len() && s[stop] == close {
                    Some(
                        FoundField {
                            start: pos,
                            end: stop + 1,
                            key: s.subrange(pos + 1, end),
                            value: s.subrange(end + 2, stop),
                        },
                    )
                } else {
                    None
                }
            },
            None => None,
        }
    } else {
        None
    }
}

/// The fields that fill a line, for the lines that begin before `pos`.
pub open spec fn line_fields(s: Seq<char>, pos: int) -> Seq<FoundField>
    decreases pos,
{
    if pos <= 0 {
        Seq::empty()
    } else {
        let before = line_fields(s, pos - 1);
        if pos - 1 == 0 || s[pos - 2] == '\n' {
            match line_field(s, pos - 1) {
                Some(found) => before.push(found),
                None => before,
            }
        } else {
            before
        }
    }
}

proof fn lemma_key_end_moves(s: Seq<char>, pos: int, spaces: bool)
    requires
        0 <= pos <= s.len(),
    ensures
        pos <= key_end(s, pos, spaces) <= s.len(),
    decreases s.len() - pos,
{
    if pos < s.len() && is_key_char(s[pos], spaces) {
        lemma_key_end_moves(s, pos + 1, spaces);
    }
}

proof fn lemma_stop_moves(s: Seq<char>, pos: int, stop: char)
    requires
        0 <= pos <= s.len(),
    ensures
        pos <= stop_at(s, pos, stop) <= s.len(),
    decreases s.len() - pos,
{
    if pos < s.len() && s[pos] != stop && s[pos] != '\n' {
        lemma_stop_moves(s, pos + 1, stop);
    }
}

/// A tag ends within the text.
pub proof fn lemma_tag_end_moves(s: Seq<char>, pos: int)
    requires
        0 <= pos <= s.len(),
    ensures
        pos <= tag_end(s, pos) <= s.len(),
    decreases s.len() - pos,
{
    if pos < s.len() && is_tag_char(s[pos]) {
        lemma_tag_end_moves(s, pos + 1);
    }
}

/// A field in brackets ends behind its start, within the text.
pub proof fn lemma_bracket_field_moves(s: Seq<char>, pos: int, open: char, close: char)
    ensures
        match bracket_field(s, pos, open, close) {
            Some(found) => pos < found.end <= s.len(),
            None => true,
        },
{
    if 0 <= pos < s.len() && s[pos] == open {
        match key_at(s, pos + 1, true) {
            Some(end) => {
                lemma_key_end_moves(s, pos + 2, true);
                lemma_stop_moves(s, end + 2, close);
            },
            None => {},
        }
    }
}

/// The fields in brackets from `pos` on: the leftmost first, the next from
/// where it ends.
pub open spec fn bracket_fields(s: Seq<char>, pos: int, open: char, close: char) -> Seq<FoundField>
    decreases s.len() - pos,
{
    if pos < 0 || pos >= s.len() {
        Seq::empty()
    } else {
        match bracket_field(s, pos, open, close) {
            Some(found) => {
                proof {
                    lemma_bracket_field_moves(s, pos, open, close);
                }
                seq![found] + bracket_fields(s, found.end, open, close)
            },
            None => bracket_fields(s, pos + 1, open, close),
        }
    }
}

/// The value that `text` stands for.
pub open spec fn value_of_text(text: Seq<char>, numbers: Seq<(Seq<char>, NumberView)>) -> ValueView {
    let core = trimmed(text);
    if core.len() == 0 {
        ValueView::Null
    } else if ascii_lowered(core) == ascii_lowered("true"@) {
        ValueView::Bool(true)
    } else if ascii_lowered(core) == ascii_lowered("false"@) {
        ValueView::Bool(false)
    } else {
        match number_for(numbers, core) {
            Some(number) if is_finite(number.bits) => ValueView::Number(number),
            _ => if starts_with_date(core) {
                ValueView::Date(core)
            } else {
                ValueView::String(core)
            },
        }
    }
}

/// The field that was found, with its value read.
pub open spec fn field_of(
    found: FoundField,
    form: InlineFieldForm,
    numbers: Seq<(Seq<char>, NumberView)>,
) -> FieldView {
    FieldView {
        key: trimmed(found.key),
        value: value_of_text(found.value, numbers),
        source: FieldSource::Body(form),
    }
}

/// The fields that were found, with where they start.
pub open spec fn placed_fields(
    found: Seq<FoundField>,
    form: InlineFieldForm,
    numbers: Seq<(Seq<char>, NumberView)>,
) -> Seq<(int, FieldView)> {
    Seq::new(found.len(), |i: int| (found[i].start, field_of(found[i], form, numbers)))
}

/// `sorted` with `placed` behind the last that starts no later.
pub open spec fn with_placed(sorted: Seq<(int, FieldView)>, placed: (int, FieldView)) -> Seq<
    (int, FieldView),
>
    decreases sorted.len(),
{
    if sorted.len() == 0 || sorted.last().0 <= placed.0 {
        sorted.push(placed)
    } else {
        with_placed(sorted.drop_last(), placed).push(sorted.last())
    }
}

/// `all` in the order of their starts; those with one start stay in order.
pub open spec fn by_start(all: Seq<(int, FieldView)>) -> Seq<(int, FieldView)>
    decreases all.len(),
{
    if all.len() == 0 {
        Seq::empty()
    } else {
        with_placed(by_start(all.drop_last()), all.last())
    }
}

/// Every inline field of `s`, by where it starts.
pub open spec fn inline_fields(s: Seq<char>, numbers: Seq<(Seq<char>, NumberView)>) -> Seq<
    (int, FieldView),
> {
    by_start(
        placed_fields(line_fields(s, s.len() as int + 1), InlineFieldForm::Body, numbers)
            + placed_fields(
            bracket_fields(s, 0, '[', ']'),
            InlineFieldForm::VisibleKey,
            numbers,
        ) + placed_fields(bracket_fields(s, 0, '(', ')'), InlineFieldForm::HiddenKey, numbers),
    )
}

/// The fields without their places.
pub open spec fn without_places(placed: Seq<(int, FieldView)>) -> Seq<FieldView> {
    Seq::new(placed.len(), |i: int| placed[i].1)
}

/// Starts do not decrease.
pub open spec fn starts_sorted(placed: Seq<(int, FieldView)>) -> bool {
    forall|i: int, j: int|
        0 <= i <= j < placed.len() ==> (#[trigger] placed[i]).0 <= (#[trigger] placed[j]).0
}

proof fn lemma_with_placed(sorted: Seq<(int, FieldView)>, placed: (int, FieldView))
    requires
        starts_sorted(sorted),
    ensures
        starts_sorted(with_placed(sorted, placed)),
        with_placed(sorted, placed).to_multiset() == sorted.to_multiset().insert(placed),
        forall|i: int|
            0 <= i < with_placed(sorted, placed).len() ==> (#[trigger] with_placed(
                sorted,
                placed,
            )[i]).0 <= placed.0 || (sorted.len() > 0 && with_placed(sorted, placed)[i].0
                <= sorted.last().0),
    decreases sorted.len(),
{
    broadcast use vstd::seq_lib::group_to_multiset_ensures;

    if sorted.len() == 0 || sorted.last().0 <= placed.0 {
        assert forall|i: int| 0 <= i < sorted.len() implies (#[trigger] sorted[i]).0
            <= sorted.last().0 by {
            assert(sorted[sorted.len() - 1] == sorted.last());
        }
    } else {
        let front = sorted.drop_last();
        assert(starts_sorted(front)) by {
            assert forall|i: int, j: int| 0 <= i <= j < front.len() implies (#[trigger] front[i]).0
                <= (#[trigger] front[j]).0 by {
                assert(front[i] == sorted[i] && front[j] == sorted[j]);
            }
        }
        lemma_with_placed(front, placed);
        let inner = with_placed(front, placed);
        let all = with_placed(sorted, placed);
        if front.len() > 0 {
            assert(front.last() == sorted[front.len() - 1]);
            assert(sorted[sorted.len() - 1] == sorted.last());
        }
        assert forall|i: int, j: int| 0 <= i <= j < all.len() implies (#[trigger] all[i]).0 <= (
        #[trigger] all[j]).0 by {
            if j < inner.len() {
                assert(all[i] == inner[i] && all[j] == inner[j]);
            } else if i < inner.len() {
                assert(all[i] == inner[i]);
            }
        }
        assert(sorted =~= front.push(sorted.last()));
        assert(all.to_multiset() =~= sorted.to_multiset().insert(placed));
    }
}

/// Ordering by start loses nothing, adds nothing, and leaves the starts in
/// order.
pub proof fn law_by_start(all: Seq<(int, FieldView)>)
    ensures
        starts_sorted(by_start(all)),
        by_start(all).to_multiset() == all.to_multiset(),
    decreases all.len(),
{
    broadcast use vstd::seq_lib::group_to_multiset_ensures;

    if all.len() > 0 {
        law_by_start(all.drop_last());
        lemma_with_placed(by_start(all.drop_last()), all.last());
        assert(all =~= all.drop_last().push(all.last()));
    }
}

/// The tags of `s` from `pos` on.
pub open spec fn tags_from(s: Seq<char>, pos: int) -> Seq<Seq<char>>
    decreases s.len() - pos,
{
    if pos < 0 || pos + 1 >= s.len() {
        Seq::empty()
    } else if s[pos] == '#' && is_letter(s[pos + 1]) {
        let end = tag_end(s, pos + 2);
        proof {
            lemma_tag_end_moves(s, pos + 2);
        }
        let rest = tags_from(s, end);
        if pos > 0 && is_word_char(s[pos - 1]) {
            rest
        } else {
            seq![s.subrange(pos, end)] + rest
        }
    } else {
        tags_from(s, pos + 1)
    }
}

fn is_ascii_letter(c: char) -> (letter: bool)
    ensures
        letter == is_letter(c),
{
    ('a' <= c && c <= 'z') || ('A' <= c && c <= 'Z')
}

fn is_ascii_digit(c: char) -> (digit: bool)
    ensures
        digit == is_digit(c),
{
    '0' <= c && c <= '9'
}

fn is_word(c: char) -> (word: bool)
    ensures
        word == is_word_char(c),
{
    if c <= '\u{7f}' {
        is_ascii_letter(c) || is_ascii_digit(c) || c == '_'
    } else {
        c.is_alphanumeric()
    }
}

/// Where the key that starts at `pos` ends.
fn find_key(chars: &Vec<char>, pos: usize, spaces: bool) -> (end: Option<usize>)
    ensures
        match end {
            Some(found) => {
                &&& key_at(chars@, pos as int, spaces) == Some(found as int)
                &&& pos < found
                &&& found + 1 < chars@.len()
            },
            None => key_at(chars@, pos as int, spaces) is None,
        },
{
    if pos >= chars.len() || !is_ascii_letter(chars[pos]) {
        return None;
    }
    let mut end: usize = pos + 1;
    while end < chars.len() && (is_ascii_letter(chars[end]) || is_ascii_digit(chars[end])
        || chars[end] == '_' || chars[end] == '-' || (spaces && chars[end] == ' '))
        invariant
            pos < end <= chars@.len(),
            key_end(chars@, pos + 1, spaces) == key_end(chars@, end as int, spaces),
        decreases chars@.len() - end,
    {
        end = end + 1;
    }
    if chars.len() - end > 1 && chars[end] == ':' && chars[end + 1] == ':' {
        Some(end)
    } else {
        None
    }
}

/// The first position from `pos` on that holds `stop` or a line end.
fn find_stop(chars: &Vec<char>, pos: usize, stop: char) -> (at: usize)
    requires
        pos <= chars@.len(),
    ensures
        at == stop_at(chars@, pos as int, stop),
        pos <= at <= chars@.len(),
{
    let mut at: usize = pos;
    while at < chars.len() && chars[at] != stop && chars[at] != '\n'
        invariant
            pos <= at <= chars@.len(),
            stop_at(chars@, pos as int, stop) == stop_at(chars@, at as int, stop),
        decreases chars@.len() - at,
    {
        at = at + 1;
    }
    at
}

/// Reads the value that `raw` stands for. `numbers` tells which texts read as
/// numbers.
pub fn parse_inline_value_str(raw: &str, numbers: &NumberWords) -> (value: FieldValue)
    ensures
        value.contents() == value_of_text(raw@, numbers@),
{
    let core = trim(raw);
    if core.as_str().is_empty() {
        return FieldValue::Null;
    }
    if same_ignoring_ascii_case(core.as_str(), "true") {
        return FieldValue::Bool(true);
    }
    if same_ignoring_ascii_case(core.as_str(), "false") {
        return FieldValue::Bool(false);
    }
    if let Some(number) = numbers.find(core.as_str()) {
        if number.bits() % SIGN < INFINITY {
            return FieldValue::Number(number);
        }
    }
    if is_iso_date(core.as_str()) {
        return FieldValue::Date(core);
    }
    FieldValue::String(core)
}

/// The places and contents of fields collected so far.
pub open spec fn placed_views(placed: Seq<(usize, MetadataField)>) -> Seq<(int, FieldView)> {
    Seq::new(placed.len(), |i: int| (placed[i].0 as int, placed[i].1@))
}

/// Collects the field captured between the given positions.
fn push_field(
    placed: &mut Vec<(usize, MetadataField)>,
    chars: &Vec<char>,
    start: usize,
    key: (usize, usize),
    value: (usize, usize),
    form: InlineFieldForm,
    numbers: &NumberWords,
)
    requires
        key.0 <= key.1 <= chars@.len(),
        value.0 <= value.1 <= chars@.len(),
    ensures
        placed_views(final(placed)@) == placed_views(old(placed)@).push(
            (
                start as int,
                FieldView {
                    key: trimmed(chars@.subrange(key.0 as int, key.1 as int)),
                    value: value_of_text(
                        chars@.subrange(value.0 as int, value.1 as int),
                        numbers@,
                    ),
                    source: FieldSource::Body(form),
                },
            ),
        ),
{
    let key_text = text_between(chars.as_slice(), key.0, key.1);
    let value_text = text_between(chars.as_slice(), value.0, value.1);
    let field = MetadataField::new(
        trim(key_text.as_str()).as_str(),
        parse_inline_value_str(value_text.as_str(), numbers),
        FieldSource::Body(form),
    );
    placed.push((start, field));
    assert(placed_views(placed@) =~= placed_views(old(placed)@).push((start as int, field@)));
}

fn push_line_fields(
    placed: &mut Vec<(usize, MetadataField)>,
    chars: &Vec<char>,
    numbers: &NumberWords,
)
    ensures
        placed_views(final(placed)@) == placed_views(old(placed)@) + placed_fields(
            line_fields(chars@, chars@.len() as int + 1),
            InlineFieldForm::Body,
            numbers@,
        ),
{
    let ghost before = placed_views(placed@);
    let ghost s = chars@;
    let mut pos: usize = 0;
    assert(before + placed_fields(line_fields(s, 0), InlineFieldForm::Body, numbers@) =~= before);
    loop
        invariant_except_break
            placed_views(placed@) == before + placed_fields(
                line_fields(s, pos as int),
                InlineFieldForm::Body,
                numbers@,
            ),
        invariant
            s == chars@,
            pos <= s.len(),
        ensures
            placed_views(placed@) == before + placed_fields(
                line_fields(s, s.len() as int + 1),
                InlineFieldForm::Body,
                numbers@,
            ),
        decreases s.len() - pos,
    {
        if pos == 0 || chars[pos - 1] == '\n' {
            let mut from: usize = pos;
            while from < chars.len() && (chars[from] == ' ' || chars[from] == '\t')
                invariant
                    s == chars@,
                    pos <= from <= s.len(),
                    blank_end(s, pos as int) == blank_end(s, from as int),
                decreases s.len() - from,
            {
                from = from + 1;
            }
            if let Some(end) = find_key(chars, from, false) {
                let stop = find_stop(chars, end + 2, '\n');
                push_field(
                    placed,
                    chars,
                    pos,
                    (from, end),
                    (end + 2, stop),
                    InlineFieldForm::Body,
                    numbers,
                );
            }
        }
        proof {
            let old_found = line_fields(s, pos as int);
            let found = line_fields(s, pos + 1);
            let a = placed_fields(old_found, InlineFieldForm::Body, numbers@);
            let b = placed_fields(found, InlineFieldForm::Body, numbers@);
            if found != old_found {
                assert(b =~= a.push(
                    (
                        found.last().start,
                        field_of(found.last(), InlineFieldForm::Body, numbers@),
                    ),
                ));
                assert(before + b =~= (before + a).push(b.last()));
            }
        }
        if pos >= chars.len() {
            break;
        }
        pos = pos + 1;
    }
}

fn push_bracket_fields(
    placed: &mut Vec<(usize, MetadataField)>,
    chars: &Vec<char>,
    open: char,
    close: char,
    form: InlineFieldForm,
    numbers: &NumberWords,
)
    ensures
        placed_views(final(placed)@) == placed_views(old(placed)@) + placed_fields(
            bracket_fields(chars@, 0, open, close),
            form,
            numbers@,
        ),
{
    let ghost s = chars@;
    let ghost whole = placed_views(placed@) + placed_fields(
        bracket_fields(s, 0, open, close),
        form,
        numbers@,
    );
    let mut pos: usize = 0;
    while pos < chars.len()
        invariant
            s == chars@,
            pos <= s.len(),
            placed_views(placed@) + placed_fields(
                bracket_fields(s, pos as int, open, close),
                form,
                numbers@,
            ) == whole,
        decreases s.len() - pos,
    {
        let ghost upto = placed_views(placed@);
        let ghost here = bracket_fields(s, pos as int, open, close);
        let mut next: usize = pos + 1;
        if chars[pos] == open {
            if let Some(end) = find_key(chars, pos + 1, true) {
                let stop = find_stop(chars, end + 2, close);
                if stop < chars.len() && chars[stop] == close {
                    push_field(
                        placed,
                        chars,
                        pos,
                        (pos + 1, end),
                        (end + 2, stop),
                        form,
                        numbers,
                    );
                    next = stop + 1;
                    proof {
                        let rest = bracket_fields(s, next as int, open, close);
                        let found = here[0];
                        assert(here =~= seq![found] + rest);
                        assert(placed_fields(here, form, numbers@) =~= seq![
                            (found.start, field_of(found, form, numbers@)),
                        ] + placed_fields(rest, form, numbers@));
                        assert(upto + placed_fields(here, form, numbers@) =~= placed_views(placed@)
                            + placed_fields(rest, form, numbers@));
                    }
                }
            }
        }
        pos = next;
    }
    assert(placed_views(placed@) + placed_fields(
        bracket_fields(s, pos as int, open, close),
        form,
        numbers@,
    ) =~= placed_views(placed@));
}

fn place(sorted: &mut Vec<(usize, MetadataField)>, item: (usize, MetadataField))
    ensures
        placed_views(final(sorted)@) == with_placed(
            placed_views(old(sorted)@),
            (item.0 as int, item.1@),
        ),
    decreases old(sorted)@.len(),
{
    let ghost before = sorted@;
    match sorted.pop() {
        None => {
            sorted.push(item);
            assert(placed_views(sorted@) =~= placed_views(before).push((item.0 as int, item.1@)));
        },
        Some(last) => {
            let ghost front = sorted@;
            assert(before =~= front.push(last));
            assert(placed_views(before).drop_last() =~= placed_views(front));
            assert(placed_views(before).last() == (last.0 as int, last.1@));
            if last.0 <= item.0 {
                sorted.push(last);
                sorted.push(item);
                assert(placed_views(sorted@) =~= placed_views(before).push(
                    (item.0 as int, item.1@),
                ));
            } else {
                place(sorted, item);
                let ghost inner = sorted@;
                sorted.push(last);
                assert(placed_views(sorted@) =~= placed_views(inner).push(
                    (last.0 as int, last.1@),
                ));
            }
        },
    }
}

/// Every inline field of `text`, in the order of where they start. `numbers`
/// tells which values read as numbers.
pub fn extract_inline_fields(text: &str, numbers: &NumberWords) -> (fields: Vec<MetadataField>)
    ensures
        field_views(fields@) == without_places(inline_fields(text@, numbers@)),
{
    let chars = chars_of(text);
    let mut placed: Vec<(usize, MetadataField)> = Vec::new();
    assert(placed_views(placed@) =~= Seq::empty());
    push_line_fields(&mut placed, &chars, numbers);
    push_bracket_fields(&mut placed, &chars, '[', ']', InlineFieldForm::VisibleKey, numbers);
    push_bracket_fields(&mut placed, &chars, '(', ')', InlineFieldForm::HiddenKey, numbers);
    let ghost all = placed_views(placed@);
    assert(all =~= placed_fields(
        line_fields(text@, text@.len() as int + 1),
        InlineFieldForm::Body,
        numbers@,
    ) + placed_fields(bracket_fields(text@, 0, '[', ']'), InlineFieldForm::VisibleKey, numbers@)
        + placed_fields(bracket_fields(text@, 0, '(', ')'), InlineFieldForm::HiddenKey, numbers@));
    let mut sorted: Vec<(usize, MetadataField)> = Vec::new();
    assert(placed_views(sorted@) =~= by_start(all.take(0)));
    let ghost originals = placed@;
    for item in it: placed
        invariant
            it.seq() == originals,
            all == placed_views(originals),
            placed_views(sorted@) == by_start(all.take(it.index())),
    {
        place(&mut sorted, item);
        proof {
            let next = all.take(it.index() + 1);
            assert(next.drop_last() =~= all.take(it.index()));
            assert(next.last() == (item.0 as int, item.1@));
        }
    }
    assert(all.take(all.len() as int) =~= all);
    let mut fields: Vec<MetadataField> = Vec::new();
    let ghost ordered = sorted@;
    for item in it: sorted
        invariant
            it.seq() == ordered,
            field_views(fields@) == without_places(placed_views(ordered)).take(it.index()),
    {
        let ghost before = fields@;
        fields.push(item.1);
        proof {
            let views = without_places(placed_views(ordered));
            assert(views[it.index()] == item.1@);
            assert(field_views(fields@) =~= field_views(before).push(item.1@));
            assert(views.take(it.index() + 1) =~= views.take(it.index()).push(item.1@));
        }
    }
    assert(without_places(placed_views(ordered)).take(ordered.len() as int) =~= without_places(
        placed_views(ordered),
    ));
    fields
}

/// The text of each tag.
pub open spec fn tag_texts(tags: Seq<Tag>) -> Seq<Seq<char>> {
    Seq::new(tags.len(), |i: int| tags[i]@)
}

/// Every tag of `text`, with its leading `#`. A `#` inside a word starts no
/// tag.
pub fn extract_tags(text: &str) -> (tags: Vec<Tag>)
    ensures
        tag_texts(tags@) == tags_from(text@, 0),
{
    let chars = chars_of(text);
    let ghost s = chars@;
    let mut tags: Vec<Tag> = Vec::new();
    let mut pos: usize = 0;
    assert(tag_texts(tags@) + tags_from(s, 0) =~= tags_from(s, 0));
    while pos < chars.len() && chars.len() - pos > 1
        invariant
            s == chars@,
            s == text@,
            pos <= s.len(),
            tag_texts(tags@) + tags_from(s, pos as int) == tags_from(s, 0),
        decreases s.len() - pos,
    {
        if chars[pos] == '#' && is_ascii_letter(chars[pos + 1]) {
            let mut end: usize = pos + 2;
            while end < chars.len() && (is_ascii_letter(chars[end]) || is_ascii_digit(chars[end])
                || chars[end] == '_' || chars[end] == '/' || chars[end] == '-')
                invariant
                    s == chars@,
                    pos + 2 <= end <= s.len(),
                    tag_end(s, pos + 2) == tag_end(s, end as int),
                decreases s.len() - end,
            {
                end = end + 1;
            }
            let ghost before = tags@;
            if !(pos > 0 && is_word(chars[pos - 1])) {
                let tag = Tag::new(text_between(chars.as_slice(), pos, end).as_str());
                tags.push(tag);
                proof {
                    let rest = tags_from(s, end as int);
                    assert(tag_texts(tags@) =~= tag_texts(before).push(tag@));
                    assert(tag_texts(before) + (seq![tag@] + rest) =~= tag_texts(tags@) + rest);
                }
            }
            pos = end;
        } else {
            pos = pos + 1;
        }
    }
    assert(tag_texts(tags@) + Seq::<Seq<char>>::empty() =~= tag_texts(tags@));
    tags
}

} // verus!
