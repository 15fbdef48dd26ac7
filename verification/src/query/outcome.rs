//! Results of a query.

use vstd::prelude::*;
use vstd::string::*;

use super::error::QueryError;
use super::field::{path_of, path_refusal, FieldPath, PathView};
use super::filter::{expr_holds, filter_read, filter_refusal, ExprView, FilterExpr, FilterRead};
use super::order::{
    as_ints, comparable, covers, in_order, key_views, law_ordering_covers, law_ordering_is_stable,
    order_positions, ordered_positions,
};
use super::record::{resolved, string_texts, with_override, IndexRecord, RecordView};
use super::render::{
    draw_table, escape_table_text, escaped, field_text, markdown_table, plain_text, row_texts,
    table_cell_text,
};
use super::sort::ValueKind;
use crate::note::value::{lemma_value_views, value_views, FieldValue, ValueView};
use crate::number::NumberWords;

verus! {

/// The contents of each row.
pub open spec fn record_views(records: Seq<IndexRecord>) -> Seq<RecordView> {
    Seq::new(records.len(), |i: int| records[i]@)
}

/// The rows that satisfy `expr`, in order.
pub open spec fn kept_rows(rows: Seq<RecordView>, expr: ExprView) -> Seq<RecordView>
    decreases rows.len(),
{
    if rows.len() == 0 {
        Seq::empty()
    } else {
        let before = kept_rows(rows.drop_last(), expr);
        if expr_holds(expr, rows.last()) {
            before.push(rows.last())
        } else {
            before
        }
    }
}

/// What `path` gives for each row.
pub open spec fn keys_of(rows: Seq<RecordView>, path: PathView) -> Seq<ValueView> {
    Seq::new(rows.len(), |i: int| resolved(rows[i], path))
}

/// The rows in the order of what `path` gives for them.
pub open spec fn sorted_rows(rows: Seq<RecordView>, path: PathView, descending: bool) -> Seq<
    RecordView,
> {
    let positions = ordered_positions(keys_of(rows, path), descending);
    Seq::new(rows.len(), |i: int| rows[positions[i]])
}

/// A row with another value at `path`.
pub open spec fn row_with(row: RecordView, path: PathView, value: ValueView) -> RecordView {
    RecordView { overrides: with_override(row.overrides, path, value), ..row }
}

/// A row for each element of the list at `path`; the row itself where there is
/// no list.
pub open spec fn exploded(row: RecordView, path: PathView) -> Seq<RecordView> {
    match resolved(row, path) {
        ValueView::List(items) => Seq::new(items.len(), |i: int| row_with(row, path, items[i])),
        _ => seq![row],
    }
}

/// The rows of all `rows`, each exploded at `path`.
pub open spec fn exploded_rows(rows: Seq<RecordView>, path: PathView) -> Seq<RecordView>
    decreases rows.len(),
{
    if rows.len() == 0 {
        Seq::empty()
    } else {
        exploded_rows(rows.drop_last(), path) + exploded(rows.last(), path)
    }
}

/// One bullet for each row.
pub open spec fn bullets(rows: Seq<RecordView>, path: PathView) -> Seq<char>
    decreases rows.len(),
{
    if rows.len() == 0 {
        Seq::empty()
    } else {
        (bullets(rows.drop_last(), path) + "- "@ + plain_text(resolved(rows.last(), path))).push(
            '\n',
        )
    }
}

/// Every row is a task.
pub open spec fn all_tasks(rows: Seq<RecordView>) -> bool {
    forall|i: int| 0 <= i < rows.len() ==> (#[trigger] rows[i]).task is Some
}

/// One checkbox for each task row.
pub open spec fn checkboxes(rows: Seq<RecordView>) -> Seq<char>
    decreases rows.len(),
{
    if rows.len() == 0 {
        Seq::empty()
    } else {
        let task = rows.last().task->Some_0;
        let mark = if task.completed {
            "- [x] "@
        } else {
            "- [ ] "@
        };
        (checkboxes(rows.drop_last()) + mark + task.text).push('\n')
    }
}

/// The characters of each text.
pub open spec fn str_texts(texts: Seq<&str>) -> Seq<Seq<char>> {
    Seq::new(texts.len(), |i: int| texts[i]@)
}

/// Each text for a table cell.
pub open spec fn escaped_texts(texts: Seq<Seq<char>>) -> Seq<Seq<char>> {
    Seq::new(texts.len(), |i: int| escaped(texts[i]))
}

/// The paths that `columns` name.
pub open spec fn column_paths(columns: Seq<Seq<char>>) -> Seq<PathView> {
    Seq::new(columns.len(), |i: int| path_of(columns[i])->Some_0)
}

/// The cells of a row.
pub open spec fn cells_of(row: RecordView, paths: Seq<PathView>) -> Seq<Seq<char>> {
    Seq::new(paths.len(), |i: int| escaped(plain_text(resolved(row, paths[i]))))
}

/// The cells of all rows.
pub open spec fn table_cells(rows: Seq<RecordView>, paths: Seq<PathView>) -> Seq<
    Seq<Seq<char>>,
> {
    Seq::new(rows.len(), |i: int| cells_of(rows[i], paths))
}

/// What [`QueryOutcome::table`] gives.
pub open spec fn table_result(
    rows: Seq<RecordView>,
    headers: Seq<Seq<char>>,
    columns: Seq<Seq<char>>,
    result: Result<String, QueryError>,
) -> bool {
    match result {
        Ok(text) => {
            &&& headers.len() == columns.len()
            &&& forall|i: int| 0 <= i < columns.len() ==> path_of(#[trigger] columns[i]) is Some
            &&& text@ == markdown_table(
                escaped_texts(headers),
                table_cells(rows, column_paths(columns)),
            ).push('\n')
        },
        Err(error) => if headers.len() != columns.len() {
            error == QueryError::TableColumnMismatch {
                headers: headers.len() as usize,
                columns: columns.len() as usize,
            }
        } else {
            exists|i: int| #[trigger] first_bad_column(columns, i) && path_refusal(
                columns[i],
                error,
            )
        },
    }
}

/// Column `i` is the first that names no path.
pub open spec fn first_bad_column(columns: Seq<Seq<char>>, i: int) -> bool {
    &&& 0 <= i < columns.len()
    &&& path_of(columns[i]) is None
    &&& forall|j: int| 0 <= j < i ==> path_of(#[trigger] columns[j]) is Some
}

/// An ordered collection of rows.
#[derive(Debug)]
pub struct QueryOutcome {
    records: Vec<IndexRecord>,
}

impl View for QueryOutcome {
    type V = Seq<RecordView>;

    closed spec fn view(&self) -> Seq<RecordView> {
        record_views(self.records@)
    }
}

impl Default for QueryOutcome {
    fn default() -> (outcome: Self)
        ensures
            outcome@ == Seq::<RecordView>::empty(),
    {
        let outcome = QueryOutcome { records: Vec::new() };
        assert(outcome@ =~= Seq::empty());
        outcome
    }
}

impl QueryOutcome {
    /// An outcome with these rows.
    pub fn new(records: Vec<IndexRecord>) -> (outcome: Self)
        ensures
            outcome@ == record_views(records@),
    {
        QueryOutcome { records }
    }

    /// Number of rows.
    pub fn len(&self) -> (len: usize)
        ensures
            len == self@.len(),
    {
        self.records.len()
    }

    /// Whether there is no row.
    pub fn is_empty(&self) -> (empty: bool)
        ensures
            empty == (self@.len() == 0),
    {
        self.records.len() == 0
    }

    /// The row at `index`.
    pub fn get(&self, index: usize) -> (record: Option<&IndexRecord>)
        ensures
            match record {
                Some(found) => index < self@.len() && found@ == self@[index as int],
                None => index >= self@.len(),
            },
    {
        if index < self.records.len() {
            Some(&self.records[index])
        } else {
            None
        }
    }

    /// The rows.
    pub fn records(&self) -> (records: &Vec<IndexRecord>)
        ensures
            record_views(records@) == self@,
    {
        &self.records
    }

    /// The rows, by value.
    pub fn into_records(self) -> (records: Vec<IndexRecord>)
        ensures
            record_views(records@) == self@,
    {
        self.records
    }

    fn keep(self, expr: &FilterExpr) -> (outcome: Self)
        ensures
            outcome@ == kept_rows(self@, expr.contents()),
    {
        let ghost rows = self@;
        let ghost e = expr.contents();
        let mut kept: Vec<IndexRecord> = Vec::new();
        proof {
            assert(rows.take(0) =~= Seq::empty());
            assert(record_views(kept@) =~= Seq::empty());
        }
        for record in it: self.records
            invariant
                rows == record_views(it.seq()),
                e == expr.contents(),
                record_views(kept@) == kept_rows(rows.take(it.index()), e),
        {
            let ghost before = kept@;
            proof {
                let next = rows.take(it.index() + 1);
                assert(next.drop_last() =~= rows.take(it.index()));
                assert(next.last() == record@);
            }
            if expr.matches(&record) {
                kept.push(record);
                assert(record_views(kept@) =~= record_views(before).push(record@));
            }
        }
        assert(rows.take(rows.len() as int) =~= rows);
        QueryOutcome { records: kept }
    }

    /// The rows that satisfy the filter expression `expr`.
    ///
    /// Comparisons are `<field> <op> <value>`, calls `contains(field, value)`;
    /// `AND`, `OR`, `NOT` and brackets combine them. `numbers` reads the words
    /// that are numbers.
    pub fn filter(self, expr: &str, numbers: &NumberWords) -> (result: Result<Self, QueryError>)
        ensures
            match (result, filter_read(expr@, numbers@)) {
                (Ok(outcome), FilterRead::Expr(view)) => outcome@ == kept_rows(self@, view),
                (Err(error), FilterRead::Fault(fault)) => filter_refusal(error, fault, expr@),
                _ => false,
            },
    {
        match FilterExpr::parse(expr, numbers) {
            Ok(parsed) => Ok(self.keep(&parsed)),
            Err(error) => Err(error),
        }
    }

    /// Another name for [`QueryOutcome::filter`].
    pub fn r_where(self, expr: &str, numbers: &NumberWords) -> (result: Result<Self, QueryError>)
        ensures
            match (result, filter_read(expr@, numbers@)) {
                (Ok(outcome), FilterRead::Expr(view)) => outcome@ == kept_rows(self@, view),
                (Err(error), FilterRead::Fault(fault)) => filter_refusal(error, fault, expr@),
                _ => false,
            },
    {
        self.filter(expr, numbers)
    }

    fn sort_by_field(self, path: &FieldPath, descending: bool) -> (outcome: Self)
        ensures
            outcome@ == sorted_rows(self@, path@, descending),
    {
        let ghost rows = self@;
        let ghost keys_seq = keys_of(rows, path@);
        let n: usize = self.records.len();
        let mut keys: Vec<FieldValue> = Vec::new();
        let mut i: usize = 0;
        while i < n
            invariant
                i <= n,
                n == self.records@.len(),
                keys@.len() == i,
                forall|j: int|
                    0 <= j < i ==> (#[trigger] keys@[j]).contents() == resolved(
                        self.records@[j]@,
                        path@,
                    ),
            decreases n - i,
        {
            keys.push(self.records[i].resolve(path));
            i = i + 1;
        }
        assert(key_views(keys@) =~= keys_seq);
        let positions = order_positions(&keys, descending);
        let ghost places = ordered_positions(keys_seq, descending);
        proof {
            law_ordering_covers(keys_seq, 0, keys_seq.len() as int, descending);
        }
        let mut sorted: Vec<IndexRecord> = Vec::new();
        let mut k: usize = 0;
        assert(as_ints(positions@).len() == positions@.len());
        while k < positions.len()
            invariant
                k <= positions@.len(),
                n == self.records@.len(),
                rows == record_views(self.records@),
                keys@.len() == n,
                as_ints(positions@) == places,
                positions@.len() == n,
                forall|j: int| 0 <= j < positions@.len() ==> (#[trigger] positions@[j]) < n,
                sorted@.len() == k,
                forall|j: int|
                    0 <= j < k ==> (#[trigger] sorted@[j])@ == rows[places[j]],
            decreases positions@.len() - k,
        {
            let at: usize = positions[k];
            assert(places[k as int] == at);
            sorted.push(self.records[at].copy());
            k = k + 1;
        }
        let outcome = QueryOutcome { records: sorted };
        assert(outcome@ =~= sorted_rows(rows, path@, descending));
        outcome
    }

    /// The rows in the order of the field at `path`. Rows without the field are
    /// smallest; rows whose values are equal or cannot be compared keep their
    /// order.
    pub fn sort(self, path: &str, descending: bool) -> (result: Result<Self, QueryError>)
        ensures
            match (result, path_of(path@)) {
                (Ok(outcome), Some(view)) => outcome@ == sorted_rows(self@, view, descending),
                (Err(error), None) => path_refusal(path@, error),
                _ => false,
            },
    {
        match FieldPath::parse(path) {
            Ok(parsed) => Ok(self.sort_by_field(&parsed, descending)),
            Err(error) => Err(error),
        }
    }

    /// At most the first `n` rows.
    pub fn limit(self, n: i64) -> (result: Result<Self, QueryError>)
        ensures
            match result {
                Ok(outcome) => {
                    &&& 0 <= n <= usize::MAX
                    &&& outcome@ == if n <= self@.len() {
                        self@.take(n as int)
                    } else {
                        self@
                    }
                },
                Err(error) => {
                    &&& n < 0 || n > usize::MAX
                    &&& error == (QueryError::NegativeLimit { n })
                },
            },
    {
        if n < 0 || n as u64 > usize::MAX as u64 {
            return Err(QueryError::NegativeLimit { n });
        }
        let ghost rows = self@;
        let mut records = self.records;
        if (n as u64) < records.len() as u64 {
            records.truncate(n as usize);
        }
        let outcome = QueryOutcome { records };
        proof {
            if n <= rows.len() {
                assert(outcome@ =~= rows.take(n as int));
            }
        }
        Ok(outcome)
    }

    /// The rows with equal values at `path` side by side, in ascending order.
    pub fn group_by(self, path: &str) -> (result: Result<Self, QueryError>)
        ensures
            match (result, path_of(path@)) {
                (Ok(outcome), Some(view)) => outcome@ == sorted_rows(self@, view, false),
                (Err(error), None) => path_refusal(path@, error),
                _ => false,
            },
    {
        self.sort(path, false)
    }

    fn explode(self, path: &FieldPath) -> (outcome: Self)
        ensures
            outcome@ == exploded_rows(self@, path@),
    {
        let ghost rows = self@;
        let mut records: Vec<IndexRecord> = Vec::new();
        proof {
            assert(rows.take(0) =~= Seq::empty());
            assert(record_views(records@) =~= Seq::empty());
        }
        for record in it: self.records
            invariant
                rows == record_views(it.seq()),
                record_views(records@) == exploded_rows(rows.take(it.index()), path@),
        {
            proof {
                let next = rows.take(it.index() + 1);
                assert(next.drop_last() =~= rows.take(it.index()));
                assert(next.last() == record@);
            }
            explode_record(record, path, &mut records);
        }
        assert(rows.take(rows.len() as int) =~= rows);
        QueryOutcome { records }
    }

    /// One row for each element of the list at `path`. Rows without a list there
    /// stay; rows with an empty list go.
    pub fn flatten(self, path: &str) -> (result: Result<Self, QueryError>)
        ensures
            match (result, path_of(path@)) {
                (Ok(outcome), Some(view)) => outcome@ == exploded_rows(self@, view),
                (Err(error), None) => path_refusal(path@, error),
                _ => false,
            },
    {
        match FieldPath::parse(path) {
            Ok(parsed) => Ok(self.explode(&parsed)),
            Err(error) => Err(error),
        }
    }

    /// The rows as a Markdown table: column `i` has the header `headers[i]` and
    /// the field at `columns[i]`.
    pub fn table(&self, headers: &[&str], columns: &[&str]) -> (result: Result<
        String,
        QueryError,
    >)
        ensures
            table_result(self@, str_texts(headers@), str_texts(columns@), result),
    {
        let n: usize = headers.len();
        let m: usize = columns.len();
        if n != m {
            return Err(QueryError::TableColumnMismatch { headers: n, columns: m });
        }
        let paths = match parse_columns(columns) {
            Ok(paths) => paths,
            Err(error) => return Err(error),
        };
        let titles = escape_headers(headers);
        let ghost views = path_views(paths@);
        let mut rows: Vec<Vec<String>> = Vec::new();
        let mut i: usize = 0;
        while i < self.records.len()
            invariant
                i <= self.records@.len(),
                views == path_views(paths@),
                rows@.len() == i,
                forall|j: int|
                    0 <= j < i ==> string_texts((#[trigger] rows@[j])@) == cells_of(
                        self.records@[j]@,
                        views,
                    ),
            decreases self.records@.len() - i,
        {
            let row = record_cells(&self.records[i], &paths);
            rows.push(row);
            i = i + 1;
        }
        assert(row_texts(rows@) =~= table_cells(self@, views));
        let mut text = draw_table(titles, rows);
        text.push('\n');
        Ok(text)
    }

    /// The rows as a Markdown bullet list of the field at `path`.
    pub fn list(&self, path: &str) -> (result: Result<String, QueryError>)
        ensures
            match (result, path_of(path@)) {
                (Ok(text), Some(view)) => text@ == bullets(self@, view),
                (Err(error), None) => path_refusal(path@, error),
                _ => false,
            },
    {
        let parsed = match FieldPath::parse(path) {
            Ok(parsed) => parsed,
            Err(error) => return Err(error),
        };
        let ghost rows = self@;
        let mut text = String::new();
        let mut i: usize = 0;
        assert(rows.take(0) =~= Seq::empty());
        while i < self.records.len()
            invariant
                i <= self.records@.len(),
                rows == record_views(self.records@),
                text@ == bullets(rows.take(i as int), parsed@),
            decreases self.records@.len() - i,
        {
            proof {
                let next = rows.take(i + 1);
                assert(next.drop_last() =~= rows.take(i as int));
                assert(next.last() == rows[i as int]);
            }
            text.append("- ");
            text.append(field_text(&self.records[i].resolve(&parsed)).as_str());
            text.push('\n');
            i = i + 1;
        }
        assert(rows.take(rows.len() as int) =~= rows);
        Ok(text)
    }

    /// The task rows as a Markdown task list.
    pub fn task_list(&self) -> (result: Result<String, QueryError>)
        ensures
            match result {
                Ok(text) => all_tasks(self@) && text@ == checkboxes(self@),
                Err(error) => !all_tasks(self@) && error == QueryError::TaskListOnPageRecords,
            },
    {
        let ghost rows = self@;
        let mut text = String::new();
        let mut i: usize = 0;
        assert(rows.take(0) =~= Seq::empty());
        while i < self.records.len()
            invariant
                i <= self.records@.len(),
                rows == record_views(self.records@),
                rows == self@,
                forall|j: int| 0 <= j < i ==> (#[trigger] rows[j]).task is Some,
                text@ == checkboxes(rows.take(i as int)),
            decreases self.records@.len() - i,
        {
            proof {
                let next = rows.take(i + 1);
                assert(next.drop_last() =~= rows.take(i as int));
                assert(next.last() == rows[i as int]);
            }
            match (self.records[i].task_completed(), self.records[i].task_text()) {
                (Some(completed), Some(task)) => {
                    if completed {
                        text.append("- [x] ");
                    } else {
                        text.append("- [ ] ");
                    }
                    text.append(task);
                    text.push('\n');
                },
                _ => {
                    assert(rows[i as int].task is None);
                    return Err(QueryError::TaskListOnPageRecords);
                },
            }
            i = i + 1;
        }
        assert(rows.take(rows.len() as int) =~= rows);
        Ok(text)
    }
}

/// The contents of each path.
pub open spec fn path_views(paths: Seq<FieldPath>) -> Seq<PathView> {
    Seq::new(paths.len(), |i: int| paths[i]@)
}

fn explode_record(record: IndexRecord, path: &FieldPath, rows: &mut Vec<IndexRecord>)
    ensures
        record_views(final(rows)@) == record_views(old(rows)@) + exploded(record@, path@),
{
    let ghost row = record@;
    let ghost start = rows@;
    let value = record.resolve(path);
    match &value {
        FieldValue::List(items) => {
            let ghost views = value_views(items@);
            proof {
                lemma_value_views(items@);
            }
            let mut i: usize = 0;
            while i < items.len()
                invariant
                    i <= items@.len(),
                    row == record@,
                    views.len() == items@.len(),
                    forall|k: int|
                        0 <= k < views.len() ==> (#[trigger] views[k]) == items@[k].contents(),
                    rows@.len() == start.len() + i,
                    forall|j: int|
                        0 <= j < start.len() ==> (#[trigger] rows@[j]) == start[j],
                    forall|j: int|
                        start.len() <= j < rows@.len() ==> (#[trigger] rows@[j])@ == row_with(
                            row,
                            path@,
                            views[j - start.len()],
                        ),
                decreases items@.len() - i,
            {
                let item = items[i].copy();
                assert(views[i as int] == item.contents());
                rows.push(record.copy().with_flattened(path.copy(), item));
                i = i + 1;
            }
            assert(record_views(rows@) =~= record_views(start) + exploded(row, path@));
        },
        _ => {
            rows.push(record);
            assert(record_views(rows@) =~= record_views(start) + seq![row]);
        },
    }
}

fn parse_columns(columns: &[&str]) -> (result: Result<Vec<FieldPath>, QueryError>)
    ensures
        match result {
            Ok(paths) => {
                &&& forall|i: int|
                    0 <= i < columns@.len() ==> path_of(#[trigger] str_texts(columns@)[i]) is Some
                &&& path_views(paths@) == column_paths(str_texts(columns@))
            },
            Err(error) => exists|i: int| #[trigger]
                first_bad_column(str_texts(columns@), i) && path_refusal(
                    str_texts(columns@)[i],
                    error,
                ),
        },
{
    let ghost texts = str_texts(columns@);
    let mut paths: Vec<FieldPath> = Vec::new();
    let mut i: usize = 0;
    while i < columns.len()
        invariant
            i <= columns@.len(),
            texts == str_texts(columns@),
            paths@.len() == i,
            forall|j: int| 0 <= j < i ==> path_of(#[trigger] texts[j]) is Some,
            forall|j: int| 0 <= j < i ==> path_of(texts[j]) == Some((#[trigger] paths@[j])@),
        decreases columns@.len() - i,
    {
        assert(texts[i as int] == columns@[i as int]@);
        match FieldPath::parse(columns[i]) {
            Ok(path) => paths.push(path),
            Err(error) => {
                assert(first_bad_column(texts, i as int));
                return Err(error);
            },
        }
        i = i + 1;
    }
    assert(path_views(paths@) =~= column_paths(texts));
    Ok(paths)
}

fn escape_headers(headers: &[&str]) -> (titles: Vec<String>)
    ensures
        string_texts(titles@) == escaped_texts(str_texts(headers@)),
{
    let mut titles: Vec<String> = Vec::new();
    let mut i: usize = 0;
    while i < headers.len()
        invariant
            i <= headers@.len(),
            titles@.len() == i,
            forall|j: int| 0 <= j < i ==> (#[trigger] titles@[j])@ == escaped(headers@[j]@),
        decreases headers@.len() - i,
    {
        titles.push(escape_table_text(headers[i]));
        i = i + 1;
    }
    assert(string_texts(titles@) =~= escaped_texts(str_texts(headers@)));
    titles
}

fn record_cells(record: &IndexRecord, paths: &Vec<FieldPath>) -> (cells: Vec<String>)
    ensures
        string_texts(cells@) == cells_of(record@, path_views(paths@)),
{
    let mut cells: Vec<String> = Vec::new();
    let mut i: usize = 0;
    while i < paths.len()
        invariant
            i <= paths@.len(),
            cells@.len() == i,
            forall|j: int|
                0 <= j < i ==> (#[trigger] cells@[j])@ == escaped(
                    plain_text(resolved(record@, paths@[j]@)),
                ),
        decreases paths@.len() - i,
    {
        cells.push(table_cell_text(&record.resolve(&paths[i])));
        i = i + 1;
    }
    assert(string_texts(cells@) =~= cells_of(record@, path_views(paths@)));
    cells
}

/// Filtering keeps exactly the rows that satisfy the expression.
pub proof fn law_filter_keeps_matching_rows(rows: Seq<RecordView>, expr: ExprView, row: RecordView)
    ensures
        kept_rows(rows, expr).contains(row) <==> rows.contains(row) && expr_holds(expr, row),
    decreases rows.len(),
{
    if rows.len() > 0 {
        law_filter_keeps_matching_rows(rows.drop_last(), expr, row);
        let before = kept_rows(rows.drop_last(), expr);
        let kept = kept_rows(rows, expr);
        if kept.contains(row) {
            let i = choose|i: int| 0 <= i < kept.len() && kept[i] == row;
            if i < before.len() {
                assert(before[i] == row);
                let j = choose|j: int|
                    0 <= j < rows.drop_last().len() && rows.drop_last()[j] == row;
                assert(rows[j] == row);
            } else {
                assert(rows.last() == row);
                assert(rows[rows.len() - 1] == row);
            }
        }
        if rows.contains(row) && expr_holds(expr, row) {
            let i = choose|i: int| 0 <= i < rows.len() && rows[i] == row;
            if i < rows.len() - 1 {
                assert(rows.drop_last()[i] == row);
                let j = choose|j: int| 0 <= j < before.len() && before[j] == row;
                assert(kept[j] == row);
            } else {
                assert(kept[kept.len() - 1] == row);
            }
        }
    }
}

/// Filtering twice with one expression is filtering once.
pub proof fn law_filter_is_idempotent(rows: Seq<RecordView>, expr: ExprView)
    ensures
        kept_rows(kept_rows(rows, expr), expr) == kept_rows(rows, expr),
    decreases rows.len(),
{
    if rows.len() > 0 {
        law_filter_is_idempotent(rows.drop_last(), expr);
        let before = kept_rows(rows.drop_last(), expr);
        if expr_holds(expr, rows.last()) {
            assert(before.push(rows.last()).drop_last() =~= before);
        }
    }
}

/// Sorting neither loses nor repeats a row: the rows come out at the places
/// that a permutation of all positions gives.
pub proof fn law_sort_permutes_rows(rows: Seq<RecordView>, path: PathView, descending: bool)
    ensures
        covers(ordered_positions(keys_of(rows, path), descending), 0, rows.len() as int),
        sorted_rows(rows, path, descending).len() == rows.len(),
{
    law_ordering_covers(keys_of(rows, path), 0, rows.len() as int, descending);
}

/// Where all values at `path` are null or of one comparable kind, the rows come
/// out sorted and rows with equal values keep their order.
pub proof fn law_sort_is_stable(
    rows: Seq<RecordView>,
    path: PathView,
    kind: ValueKind,
    descending: bool,
)
    requires
        comparable(keys_of(rows, path), kind),
    ensures
        in_order(
            ordered_positions(keys_of(rows, path), descending),
            keys_of(rows, path),
            descending,
        ),
{
    law_ordering_is_stable(keys_of(rows, path), kind, 0, rows.len() as int, descending);
}

/// A flattened row gives its element at the path, and what it gave at every
/// other path.
pub proof fn law_flattened_rows_keep_other_fields(
    row: RecordView,
    path: PathView,
    other: PathView,
    i: int,
)
    requires
        resolved(row, path) is List,
        0 <= i < resolved(row, path)->List_0.len(),
    ensures
        exploded(row, path).len() == resolved(row, path)->List_0.len(),
        resolved(exploded(row, path)[i], path) == resolved(row, path)->List_0[i],
        other != path ==> resolved(exploded(row, path)[i], other) == resolved(row, other),
{
    super::record::law_override_changes_one_path(
        row,
        path,
        resolved(row, path)->List_0[i],
        other,
    );
}

} // verus!
