//! Values as text.

use vstd::prelude::*;
use vstd::string::*;

use super::record::string_texts;
use crate::note::value::{
    lemma_entry_views, lemma_value_views, FieldValue, ValueView,
};

verus! {

/// `texts` one after the other, with ", " between two.
pub open spec fn joined(texts: Seq<Seq<char>>) -> Seq<char>
    decreases texts.len(),
{
    if texts.len() == 0 {
        Seq::empty()
    } else if texts.len() == 1 {
        texts[0]
    } else {
        joined(texts.drop_last()) + ", "@ + texts.last()
    }
}

/// A value as plain text. A link is its target; lists and objects are written
/// out, element by element.
pub open spec fn plain_text(value: ValueView) -> Seq<char>
    decreases value,
{
    match value {
        ValueView::Null => Seq::empty(),
        ValueView::Bool(b) => if b {
            "true"@
        } else {
            "false"@
        },
        ValueView::Number(n) => n.text,
        ValueView::String(s) => s,
        ValueView::Date(s) => s,
        ValueView::Duration(s) => s,
        ValueView::Link(link) => link.target,
        ValueView::List(items) => joined(plain_texts(items)),
        ValueView::Object(entries) => joined(entry_texts(entries)),
    }
}

/// Each value as plain text.
pub open spec fn plain_texts(items: Seq<ValueView>) -> Seq<Seq<char>>
    decreases items,
{
    if items.len() == 0 {
        Seq::empty()
    } else {
        plain_texts(items.drop_last()).push(plain_text(items.last()))
    }
}

/// Each entry as its key, ": " and its value.
pub open spec fn entry_texts(entries: Seq<(Seq<char>, ValueView)>) -> Seq<Seq<char>>
    decreases entries,
{
    if entries.len() == 0 {
        Seq::empty()
    } else {
        entry_texts(entries.drop_last()).push(
            entries.last().0 + ": "@ + plain_text(entries.last().1),
        )
    }
}

/// Text for a table cell: every line break becomes a space, and every `|` is
/// written `\|`.
pub open spec fn escaped(text: Seq<char>) -> Seq<char>
    decreases text.len(),
{
    if text.len() == 0 {
        Seq::empty()
    } else {
        let before = escaped(text.drop_last());
        if text.last() == '\n' {
            before.push(' ')
        } else if text.last() == '|' {
            before.push('\\').push('|')
        } else {
            before.push(text.last())
        }
    }
}

/// A value as plain text.
pub fn field_text(value: &FieldValue) -> (text: String)
    ensures
        text@ == plain_text(value.contents()),
    decreases value,
{
    match value {
        FieldValue::Null => String::new(),
        FieldValue::Bool(b) => if *b {
            "true".to_owned()
        } else {
            "false".to_owned()
        },
        FieldValue::Number(n) => n.text().to_owned(),
        FieldValue::String(s) => s.clone(),
        FieldValue::Date(s) => s.clone(),
        FieldValue::Duration(s) => s.clone(),
        FieldValue::Link(link) => link.target().to_owned(),
        FieldValue::List(items) => {
            assert(decreases_to!(value => items));
            assert(decreases_to!(items => items@));
            let ghost views = crate::note::value::value_views(items@);
            proof {
                lemma_value_views(items@);
                assert(views.take(0) =~= Seq::empty());
            }
            let mut text = String::new();
            let mut i: usize = 0;
            while i < items.len()
                invariant
                    decreases_to!(value => items@),
                    i <= items@.len(),
                    views.len() == items@.len(),
                    forall|k: int|
                        0 <= k < views.len() ==> (#[trigger] views[k]) == items@[k].contents(),
                    text@ == joined(plain_texts(views.take(i as int))),
                    plain_texts(views.take(i as int)).len() == i,
                decreases items@.len() - i,
            {
                assert(decreases_to!(items@ => items@[i as int]));
                let item = field_text(&items[i]);
                proof {
                    let next = views.take(i + 1);
                    assert(next.drop_last() =~= views.take(i as int));
                    assert(next.last() == views[i as int]);
                    let texts = plain_texts(next);
                    assert(texts.drop_last() =~= plain_texts(views.take(i as int)));
                }
                if i > 0 {
                    text.append(", ");
                }
                text.append(item.as_str());
                i = i + 1;
            }
            assert(views.take(i as int) =~= views);
            text
        },
        FieldValue::Object(entries) => {
            assert(decreases_to!(value => entries));
            assert(decreases_to!(entries => entries@));
            let ghost views = crate::note::value::entry_views(entries@);
            proof {
                lemma_entry_views(entries@);
                assert(views.take(0) =~= Seq::empty());
            }
            let mut text = String::new();
            let mut i: usize = 0;
            while i < entries.len()
                invariant
                    decreases_to!(value => entries@),
                    i <= entries@.len(),
                    views.len() == entries@.len(),
                    forall|k: int|
                        0 <= k < views.len() ==> (#[trigger] views[k]) == (
                            entries@[k].0@,
                            entries@[k].1.contents(),
                        ),
                    text@ == joined(entry_texts(views.take(i as int))),
                    entry_texts(views.take(i as int)).len() == i,
                decreases entries@.len() - i,
            {
                assert(decreases_to!(entries@ => entries@[i as int]));
                assert(decreases_to!(entries@[i as int] => entries@[i as int].1));
                let item = field_text(&entries[i].1);
                proof {
                    let next = views.take(i + 1);
                    assert(next.drop_last() =~= views.take(i as int));
                    assert(next.last() == views[i as int]);
                    let texts = entry_texts(next);
                    assert(texts.drop_last() =~= entry_texts(views.take(i as int)));
                }
                if i > 0 {
                    text.append(", ");
                }
                let ghost head = text@;
                text.append(entries[i].0.as_str());
                text.append(": ");
                text.append(item.as_str());
                assert(text@ =~= head + (views[i as int].0 + ": "@ + item@));
                i = i + 1;
            }
            assert(views.take(i as int) =~= views);
            text
        },
    }
}

/// Text for a table cell.
pub fn escape_table_text(text: &str) -> (cell: String)
    ensures
        cell@ == escaped(text@),
{
    let mut cell = String::new();
    assert(text@.take(0) =~= Seq::empty());
    for c in it: text.chars()
        invariant
            it.seq() == text@,
            cell@ == escaped(text@.take(it.index())),
    {
        proof {
            let next = text@.take(it.index() + 1);
            assert(next.drop_last() =~= text@.take(it.index()));
            assert(next.last() == c);
        }
        if c == '\n' {
            cell.push(' ');
        } else if c == '|' {
            cell.push('\\');
            cell.push('|');
        } else {
            cell.push(c);
        }
    }
    assert(text@.take(text@.len() as int) =~= text@);
    cell
}

/// A value as text for a table cell.
pub fn table_cell_text(value: &FieldValue) -> (cell: String)
    ensures
        cell@ == escaped(plain_text(value.contents())),
{
    escape_table_text(field_text(value).as_str())
}

/// The cells of each row.
pub open spec fn row_texts(rows: Seq<Vec<String>>) -> Seq<Seq<Seq<char>>> {
    Seq::new(rows.len(), |i: int| string_texts(rows[i]@))
}

/// The Markdown table with these headers and rows.
pub uninterp spec fn markdown_table(
    headers: Seq<Seq<char>>,
    rows: Seq<Seq<Seq<char>>>,
) -> Seq<char>;

/// `comfy_table::Table` with the `ASCII_MARKDOWN` preset, this header and these
/// rows, written with `to_string`. The text is a function of the cells.
#[verifier::external_body]
pub(crate) fn draw_table(headers: Vec<String>, rows: Vec<Vec<String>>) -> (text: String)
    ensures
        text@ == markdown_table(string_texts(headers@), row_texts(rows@)),
{
    let mut table = comfy_table::Table::new();
    table.load_preset(comfy_table::presets::ASCII_MARKDOWN);
    table.set_header(headers);
    table.add_rows(rows);
    table.to_string()
}

/// Escaped text holds no line break.
pub proof fn law_cells_hold_no_line_break(text: Seq<char>)
    ensures
        !escaped(text).contains('\n'),
    decreases text.len(),
{
    if text.len() > 0 {
        law_cells_hold_no_line_break(text.drop_last());
        let before = escaped(text.drop_last());
        let cell = escaped(text);
        if cell.contains('\n') {
            let i = choose|i: int| 0 <= i < cell.len() && cell[i] == '\n';
            if i < before.len() {
                assert(before[i] == '\n');
            }
        }
    }
}

/// Every `|` of an escaped text stands behind a backslash.
pub proof fn law_cells_escape_every_pipe(text: Seq<char>, at: int)
    requires
        0 <= at < escaped(text).len(),
        escaped(text)[at] == '|',
    ensures
        at > 0,
        escaped(text)[at - 1] == '\\',
    decreases text.len(),
{
    let before = escaped(text.drop_last());
    if at < before.len() {
        law_cells_escape_every_pipe(text.drop_last(), at);
    }
}

} // verus!
