//! Rows kept, ordered and written out.

use vstd::prelude::*;
use vstd::string::*;

use super::order::{
    comes_before, holds_text, is_no_number, law_missing_keys_are_smallest,
    law_sorting_agrees_with_filters, law_texts_are_sorted_by_dictionary,
};
use crate::note::value::ValueView;
use crate::number::NumberView;
use crate::query::error::QueryError;
use crate::query::field::{path_of, path_refusal, PathView};
use crate::query::filter::{expr_holds, ExprView};
use crate::query::operators::{op_holds, CompareOp};
use crate::query::order::{law_ordering_covers, law_ordering_is_stable, ordered_positions};
use crate::query::outcome::{
    bullets, cells_of, checkboxes, column_paths, escaped_texts, exploded, exploded_rows,
    first_bad_column, kept_rows, keys_of, sorted_rows, table_cells, table_result,
};
use crate::query::record::{resolved, RecordView};
use crate::query::render::{entry_texts, escaped, joined, markdown_table, plain_text, plain_texts};
use crate::query::sort::{is_of_kind, ValueKind};
use crate::query::token::{word_token, TokenView};
use crate::text::ascii_lowered;

verus! {

/// The text of a boolean is its name, so that it tells which one it is, and a
/// filter reads it back as the same boolean.
pub proof fn law_booleans_are_shown_by_name(b: bool, numbers: Seq<(Seq<char>, NumberView)>)
    ensures
        b ==> plain_text(ValueView::Bool(b)) == seq!['t', 'r', 'u', 'e'],
        !b ==> plain_text(ValueView::Bool(b)) == seq!['f', 'a', 'l', 's', 'e'],
        plain_text(ValueView::Bool(b)) != plain_text(ValueView::Bool(!b)),
        word_token(plain_text(ValueView::Bool(b)), numbers) == TokenView::Literal(
            ValueView::Bool(b),
        ),
{
    reveal_strlit("true");
    reveal_strlit("false");
    reveal_strlit("and");
    reveal_strlit("or");
    reveal_strlit("not");
    assert("true"@ =~= seq!['t', 'r', 'u', 'e']);
    assert("false"@ =~= seq!['f', 'a', 'l', 's', 'e']);
    assert("true"@.len() == 4 && "false"@.len() == 5);
    let word = plain_text(ValueView::Bool(b));
    assert(ascii_lowered(word).len() == word.len());
    assert(ascii_lowered("and"@).len() == 3);
    assert(ascii_lowered("or"@).len() == 2);
    assert(ascii_lowered("not"@).len() == 3);
}

/// A missing value shows nothing; a number shows as it is written; texts show
/// themselves; a link shows its target.
pub proof fn law_single_values_show_themselves(value: ValueView, text: Seq<char>)
    ensures
        value is Null ==> plain_text(value).len() == 0,
        value is Number ==> plain_text(value) == value->Number_0.text,
        holds_text(value, text) ==> plain_text(value) == text,
        value is Link ==> plain_text(value) == value->Link_0.target,
{
}

/// Text with a comma and a space in front.
pub open spec fn after_comma(text: Seq<char>) -> Seq<char> {
    seq![',', ' '] + text
}

/// A list shows its items one after the other, with a comma and a space between
/// two. A list of one item shows that item.
pub proof fn law_lists_show_their_items(front: Seq<ValueView>, item: ValueView)
    ensures
        plain_text(ValueView::List(Seq::empty())).len() == 0,
        plain_text(ValueView::List(seq![item])) == plain_text(item),
        front.len() > 0 ==> plain_text(ValueView::List(front.push(item))) == plain_text(
            ValueView::List(front),
        ) + after_comma(plain_text(item)),
{
    reveal_strlit(", ");
    assert(", "@ =~= seq![',', ' ']);
    let one = seq![item];
    assert(one.drop_last() =~= Seq::empty());
    assert(plain_texts(one.drop_last()) =~= Seq::empty());
    assert(plain_texts(one) =~= seq![plain_text(item)]);
    let all = front.push(item);
    assert(all.drop_last() =~= front);
    lemma_as_many_texts(front);
    let texts = plain_texts(all);
    assert(texts.drop_last() =~= plain_texts(front));
    if front.len() > 0 {
        assert(joined(texts) =~= joined(plain_texts(front)) + after_comma(plain_text(item)));
    }
}

proof fn lemma_as_many_texts(items: Seq<ValueView>)
    ensures
        plain_texts(items).len() == items.len(),
    decreases items.len(),
{
    if items.len() > 0 {
        lemma_as_many_texts(items.drop_last());
    }
}

proof fn lemma_as_many_entry_texts(entries: Seq<(Seq<char>, ValueView)>)
    ensures
        entry_texts(entries).len() == entries.len(),
    decreases entries.len(),
{
    if entries.len() > 0 {
        lemma_as_many_entry_texts(entries.drop_last());
    }
}

/// An object shows its entries one after the other, each as its key, a colon, a
/// space and its value, with a comma and a space between two.
pub proof fn law_objects_show_their_entries(
    front: Seq<(Seq<char>, ValueView)>,
    key: Seq<char>,
    value: ValueView,
)
    ensures
        plain_text(ValueView::Object(Seq::empty())).len() == 0,
        plain_text(ValueView::Object(seq![(key, value)])) == key + seq![':', ' '] + plain_text(
            value,
        ),
        front.len() > 0 ==> plain_text(ValueView::Object(front.push((key, value)))) == plain_text(
            ValueView::Object(front),
        ) + after_comma(key + seq![':', ' '] + plain_text(value)),
{
    reveal_strlit(", ");
    reveal_strlit(": ");
    assert(", "@ =~= seq![',', ' ']);
    assert(": "@ =~= seq![':', ' ']);
    let one = seq![(key, value)];
    let shown = key + ": "@ + plain_text(value);
    assert(one.drop_last() =~= Seq::empty());
    assert(entry_texts(one.drop_last()) =~= Seq::empty());
    assert(entry_texts(one) =~= seq![shown]);
    let all = front.push((key, value));
    assert(all.drop_last() =~= front);
    lemma_as_many_entry_texts(front);
    let texts = entry_texts(all);
    assert(texts.drop_last() =~= entry_texts(front));
    if front.len() > 0 {
        assert(joined(texts) =~= joined(entry_texts(front)) + after_comma(shown));
    }
}

/// The text of a table cell is put together character by character: a line
/// break becomes a space, a `|` gets a backslash in front, and every other
/// character stays.
pub proof fn law_cells_go_character_by_character(a: Seq<char>, b: Seq<char>, c: char)
    ensures
        escaped(a + b) == escaped(a) + escaped(b),
        c == '\n' ==> escaped(seq![c]) == seq![' '],
        c == '|' ==> escaped(seq![c]) == seq!['\\', '|'],
        c != '\n' && c != '|' ==> escaped(seq![c]) == seq![c],
    decreases b.len(),
{
    let one = seq![c];
    assert(one.drop_last() =~= Seq::empty());
    assert(escaped(one.drop_last()) =~= Seq::empty());
    assert(c == '\n' ==> escaped(one) =~= seq![' ']);
    assert(c == '|' ==> escaped(one) =~= seq!['\\', '|']);
    assert(c != '\n' && c != '|' ==> escaped(one) =~= seq![c]);
    if b.len() == 0 {
        assert(a + b =~= a);
    } else {
        law_cells_go_character_by_character(a, b.drop_last(), c);
        assert((a + b).drop_last() =~= a + b.drop_last());
        assert((a + b).last() == b.last());
    }
    assert(escaped(a + b) =~= escaped(a) + escaped(b));
}

/// A filter keeps the rows that satisfy it and drops the others, in order.
pub proof fn law_filters_keep_what_satisfies_them(rows: Seq<RecordView>, expr: ExprView)
    ensures
        kept_rows(rows, expr) == rows.filter(|row: RecordView| expr_holds(expr, row)),
    decreases rows.len(),
{
    reveal(Seq::filter);
    if rows.len() > 0 {
        law_filters_keep_what_satisfies_them(rows.drop_last(), expr);
    }
}

/// `after` holds the members of `before` at the positions of `places`, which are
/// all positions, each once.
pub open spec fn rearranges<A>(after: Seq<A>, before: Seq<A>, places: Seq<int>) -> bool {
    &&& after.len() == before.len()
    &&& places.len() == before.len()
    &&& forall|k: int| 0 <= k < before.len() ==> #[trigger] places.contains(k)
    &&& forall|i: int|
        0 <= i < after.len() ==> 0 <= #[trigger] places[i] < before.len() && after[i]
            == before[places[i]]
}

/// Sorting neither drops nor repeats a row.
pub proof fn law_sorting_rearranges(rows: Seq<RecordView>, path: PathView, descending: bool)
    ensures
        exists|places: Seq<int>|
            rearranges(sorted_rows(rows, path, descending), rows, places),
{
    let keys = keys_of(rows, path);
    let places = ordered_positions(keys, descending);
    law_ordering_covers(keys, 0, keys.len() as int, descending);
    assert forall|i: int| 0 <= i < places.len() implies 0 <= #[trigger] places[i] < rows.len() by {
        assert(places.contains(places[i]));
    }
    assert(rearranges(sorted_rows(rows, path, descending), rows, places));
}

/// What every row gives at the path is a text.
pub open spec fn all_give_texts(rows: Seq<RecordView>, path: PathView, texts: Seq<Seq<char>>) -> bool {
    &&& texts.len() == rows.len()
    &&& forall|i: int|
        0 <= i < rows.len() ==> holds_text(resolved(#[trigger] rows[i], path), texts[i])
}

/// Rows that give texts come out in dictionary order, or turned round where the
/// largest comes first: no row gives a text that comes before that of a row in
/// front of it. Rows that give one text stay in the order they were in.
pub proof fn law_sorted_rows_are_in_dictionary_order(
    rows: Seq<RecordView>,
    path: PathView,
    texts: Seq<Seq<char>>,
    descending: bool,
) -> (places: Seq<int>)
    requires
        all_give_texts(rows, path, texts),
    ensures
        rearranges(sorted_rows(rows, path, descending), rows, places),
        forall|i: int, j: int|
            0 <= i < j < rows.len() ==> {
                let x = texts[#[trigger] places[i]];
                let y = texts[#[trigger] places[j]];
                &&& !descending ==> !comes_before(y, x)
                &&& descending ==> !comes_before(x, y)
                &&& x == y ==> places[i] < places[j]
            },
{
    let keys = keys_of(rows, path);
    let places = ordered_positions(keys, descending);
    law_ordering_covers(keys, 0, keys.len() as int, descending);
    assert forall|i: int| 0 <= i < places.len() implies 0 <= #[trigger] places[i] < rows.len() by {
        assert(places.contains(places[i]));
    }
    assert forall|i: int| 0 <= i < keys.len() implies is_of_kind(
        #[trigger] keys[i],
        ValueKind::Text,
    ) by {
        assert(holds_text(resolved(rows[i], path), texts[i]));
    }
    law_ordering_is_stable(keys, ValueKind::Text, 0, keys.len() as int, descending);
    assert forall|i: int, j: int| 0 <= i < j < rows.len() implies {
        let x = texts[#[trigger] places[i]];
        let y = texts[#[trigger] places[j]];
        &&& !descending ==> !comes_before(y, x)
        &&& descending ==> !comes_before(x, y)
        &&& x == y ==> places[i] < places[j]
    } by {
        let p = places[i];
        let q = places[j];
        assert(holds_text(resolved(rows[p], path), texts[p]));
        assert(holds_text(resolved(rows[q], path), texts[q]));
        law_texts_are_sorted_by_dictionary(keys[p], keys[q], texts[p], texts[q]);
    }
    places
}

/// Every row gives a number at the path, or every row a boolean, or nothing.
pub open spec fn all_give(rows: Seq<RecordView>, path: PathView, numbers: bool) -> bool {
    forall|i: int|
        0 <= i < rows.len() ==> {
            let value = resolved(#[trigger] rows[i], path);
            ||| value is Null
            ||| !numbers && value is Bool
            ||| numbers && value is Number && !is_no_number(value->Number_0.bits)
        }
}

/// Rows that give numbers, or booleans, or nothing, come out in the order that
/// filters go by, rows that give nothing first; all of it turned round where the
/// largest comes first.
pub proof fn law_sorted_rows_are_in_order(
    rows: Seq<RecordView>,
    path: PathView,
    numbers: bool,
    descending: bool,
)
    requires
        all_give(rows, path, numbers),
    ensures
        forall|i: int, j: int|
            0 <= i < j < rows.len() ==> {
                let x = resolved(#[trigger] sorted_rows(rows, path, descending)[i], path);
                let y = resolved(#[trigger] sorted_rows(rows, path, descending)[j], path);
                &&& !descending ==> !op_holds(CompareOp::Gt, x, y)
                &&& descending ==> !op_holds(CompareOp::Lt, x, y)
                &&& !descending && y is Null ==> x is Null
                &&& descending && x is Null ==> y is Null
            },
{
    let keys = keys_of(rows, path);
    let kind = if numbers {
        ValueKind::Number
    } else {
        ValueKind::Bool
    };
    let places = ordered_positions(keys, descending);
    law_ordering_covers(keys, 0, keys.len() as int, descending);
    assert forall|i: int| 0 <= i < places.len() implies 0 <= #[trigger] places[i] < rows.len() by {
        assert(places.contains(places[i]));
    }
    assert forall|i: int| 0 <= i < keys.len() implies is_of_kind(
        #[trigger] keys[i],
        kind,
    ) by {
        assert(resolved(rows[i], path) == keys[i]);
    }
    law_ordering_is_stable(keys, kind, 0, keys.len() as int, descending);
    let sorted = sorted_rows(rows, path, descending);
    assert forall|i: int, j: int| 0 <= i < j < rows.len() implies {
        let x = resolved(#[trigger] sorted[i], path);
        let y = resolved(#[trigger] sorted[j], path);
        &&& !descending ==> !op_holds(CompareOp::Gt, x, y)
        &&& descending ==> !op_holds(CompareOp::Lt, x, y)
        &&& !descending && y is Null ==> x is Null
        &&& descending && x is Null ==> y is Null
    } by {
        let p = places[i];
        let q = places[j];
        assert(sorted[i] == rows[p] && sorted[j] == rows[q]);
        assert(keys[p] == resolved(rows[p], path) && keys[q] == resolved(rows[q], path));
        if !(keys[p] is Null) && !(keys[q] is Null) {
            law_sorting_agrees_with_filters(keys[p], keys[q]);
        } else if keys[p] is Null {
            law_missing_keys_are_smallest(keys[p], keys[q]);
        } else {
            law_missing_keys_are_smallest(keys[q], keys[p]);
        }
    }
}

/// Flattening goes row by row. A row with a list makes a row for each item, one
/// with an empty list makes none, and any other row stays as it is.
pub proof fn law_flattening_goes_row_by_row(
    a: Seq<RecordView>,
    b: Seq<RecordView>,
    row: RecordView,
    path: PathView,
)
    ensures
        exploded_rows(a + b, path) == exploded_rows(a, path) + exploded_rows(b, path),
        exploded_rows(seq![row], path) == exploded(row, path),
        !(resolved(row, path) is List) ==> exploded(row, path) == seq![row],
        resolved(row, path) matches ValueView::List(items) ==> exploded(row, path).len()
            == items.len(),
    decreases b.len(),
{
    let one = seq![row];
    assert(one.drop_last() =~= Seq::empty());
    assert(exploded_rows(one.drop_last(), path) =~= Seq::empty());
    assert(exploded_rows(one, path) =~= exploded(row, path));
    if b.len() == 0 {
        assert(a + b =~= a);
        assert(exploded_rows(a, path) + exploded_rows(b, path) =~= exploded_rows(a, path));
    } else {
        law_flattening_goes_row_by_row(a, b.drop_last(), row, path);
        assert((a + b).drop_last() =~= a + b.drop_last());
        assert((a + b).last() == b.last());
        assert(exploded_rows(a + b, path) =~= exploded_rows(a, path) + exploded_rows(b, path));
    }
}

/// A bullet list has a line for each row, in order: a hyphen, a space and what
/// the row gives at the path.
pub proof fn law_bullets_go_row_by_row(
    a: Seq<RecordView>,
    b: Seq<RecordView>,
    row: RecordView,
    path: PathView,
)
    ensures
        bullets(a + b, path) == bullets(a, path) + bullets(b, path),
        bullets(seq![row], path) == seq!['-', ' '] + plain_text(resolved(row, path)) + seq!['\n'],
    decreases b.len(),
{
    reveal_strlit("- ");
    assert("- "@ =~= seq!['-', ' ']);
    let one = seq![row];
    assert(one.drop_last() =~= Seq::empty());
    assert(bullets(one.drop_last(), path) =~= Seq::empty());
    assert(bullets(one, path) =~= seq!['-', ' '] + plain_text(resolved(row, path)) + seq!['\n']);
    if b.len() == 0 {
        assert(a + b =~= a);
        assert(bullets(a, path) + bullets(b, path) =~= bullets(a, path));
    } else {
        law_bullets_go_row_by_row(a, b.drop_last(), row, path);
        assert((a + b).drop_last() =~= a + b.drop_last());
        assert((a + b).last() == b.last());
        assert(bullets(a + b, path) =~= bullets(a, path) + bullets(b, path));
    }
}

/// A task list has a line for each task, in order: a box with an `x` where the
/// task is done and a space where it is not, then its text.
pub proof fn law_checkboxes_go_row_by_row(
    a: Seq<RecordView>,
    b: Seq<RecordView>,
    row: RecordView,
)
    requires
        row.task is Some,
    ensures
        checkboxes(a + b) == checkboxes(a) + checkboxes(b),
        row.task->Some_0.completed ==> checkboxes(seq![row]) == seq!['-', ' ', '[', 'x', ']', ' ']
            + row.task->Some_0.text + seq!['\n'],
        !row.task->Some_0.completed ==> checkboxes(seq![row]) == seq!['-', ' ', '[', ' ', ']', ' ']
            + row.task->Some_0.text + seq!['\n'],
    decreases b.len(),
{
    reveal_strlit("- [x] ");
    reveal_strlit("- [ ] ");
    assert("- [x] "@ =~= seq!['-', ' ', '[', 'x', ']', ' ']);
    assert("- [ ] "@ =~= seq!['-', ' ', '[', ' ', ']', ' ']);
    let one = seq![row];
    assert(one.drop_last() =~= Seq::empty());
    assert(checkboxes(one.drop_last()) =~= Seq::empty());
    if row.task->Some_0.completed {
        assert(checkboxes(one) =~= seq!['-', ' ', '[', 'x', ']', ' '] + row.task->Some_0.text
            + seq!['\n']);
    } else {
        assert(checkboxes(one) =~= seq!['-', ' ', '[', ' ', ']', ' '] + row.task->Some_0.text
            + seq!['\n']);
    }
    if b.len() == 0 {
        assert(a + b =~= a);
        assert(checkboxes(a) + checkboxes(b) =~= checkboxes(a));
    } else {
        law_checkboxes_go_row_by_row(a, b.drop_last(), row);
        assert((a + b).drop_last() =~= a + b.drop_last());
        assert((a + b).last() == b.last());
        assert(checkboxes(a + b) =~= checkboxes(a) + checkboxes(b));
    }
}

/// The cell of a row in a column shows what the row gives at the path of that
/// column: as it is, where that holds neither a line break nor a `|`.
pub proof fn law_cells_show_their_column(row: RecordView, paths: Seq<PathView>, i: int)
    requires
        0 <= i < paths.len(),
    ensures
        cells_of(row, paths).len() == paths.len(),
        ({
            let shown = plain_text(resolved(row, paths[i]));
            !shown.contains('\n') && !shown.contains('|') ==> cells_of(row, paths)[i] == shown
        }),
{
    let shown = plain_text(resolved(row, paths[i]));
    if !shown.contains('\n') && !shown.contains('|') {
        lemma_plain_cell(shown);
    }
}

/// A table has a header for each column and a line for each row, in their order;
/// the cell in a row and a column shows what the row gives there. It is written
/// exactly where there are as many headers as columns and each column names a
/// path.
pub proof fn law_tables_show_rows_by_columns(
    rows: Seq<RecordView>,
    headers: Seq<Seq<char>>,
    columns: Seq<Seq<char>>,
    result: Result<String, QueryError>,
)
    requires
        table_result(rows, headers, columns, result),
    ensures
        result is Ok <==> headers.len() == columns.len() && forall|k: int|
            0 <= k < columns.len() ==> path_of(#[trigger] columns[k]) is Some,
        result is Ok ==> exists|shown: Seq<Seq<char>>, cells: Seq<Seq<Seq<char>>>|
            {
                &&& result->Ok_0@ == #[trigger] markdown_table(shown, cells) + seq!['\n']
                &&& shown.len() == headers.len()
                &&& forall|k: int|
                    0 <= k < headers.len() ==> #[trigger] shown[k] == escaped(headers[k])
                &&& cells.len() == rows.len()
                &&& forall|i: int|
                    0 <= i < rows.len() ==> (#[trigger] cells[i]).len() == columns.len()
                &&& forall|i: int, k: int|
                    0 <= i < rows.len() && 0 <= k < columns.len() ==> #[trigger] cells[i][k]
                        == escaped(plain_text(resolved(rows[i], path_of(columns[k])->Some_0)))
            },
        result matches Err(error) ==> if headers.len() != columns.len() {
            error is TableColumnMismatch
        } else {
            error is UnknownFieldPath
        },
{
    match result {
        Ok(text) => {
            let shown = escaped_texts(headers);
            let cells = table_cells(rows, column_paths(columns));
            assert(text@ =~= markdown_table(shown, cells) + seq!['\n']);
        },
        Err(error) => {
            if headers.len() == columns.len() {
                let i = choose|i: int| #[trigger]
                    first_bad_column(columns, i)
                        && path_refusal(columns[i], error);
                assert(path_of(columns[i]) is None);
            }
        },
    }
}

proof fn lemma_plain_cell(text: Seq<char>)
    requires
        !text.contains('\n'),
        !text.contains('|'),
    ensures
        escaped(text) == text,
    decreases text.len(),
{
    if text.len() > 0 {
        let front = text.drop_last();
        assert forall|c: char| !text.contains(c) implies !#[trigger] front.contains(c) by {
            if front.contains(c) {
                let i = choose|i: int| 0 <= i < front.len() && front[i] == c;
                assert(text[i] == c);
            }
        }
        lemma_plain_cell(front);
        assert(text.contains(text.last()));
        assert(escaped(text) =~= text);
    } else {
        assert(escaped(text) =~= text);
    }
}

} // verus!
