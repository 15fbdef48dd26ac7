//! Rows in the order of their paths.

use vstd::prelude::*;

use crate::file::FileBase;
use crate::note::document::Note;
use crate::path::{
    lemma_path_lt_asymmetric, lemma_path_lt_irreflexive, lemma_path_lt_total,
    lemma_path_lt_transitive, path_lt, FilePath,
};

verus! {

/// A row that belongs to one path.
pub trait HasPath {
    /// The components of the path.
    spec fn place(&self) -> Seq<Seq<char>>;

    /// The path.
    fn row_path(&self) -> (path: &FilePath)
        ensures
            path@ == self.place(),
    ;
}

impl HasPath for FileBase {
    open spec fn place(&self) -> Seq<Seq<char>> {
        self@.path
    }

    fn row_path(&self) -> (path: &FilePath) {
        self.path()
    }
}

impl HasPath for Note {
    open spec fn place(&self) -> Seq<Seq<char>> {
        self@.path
    }

    fn row_path(&self) -> (path: &FilePath) {
        self.path()
    }
}

impl HasPath for FilePath {
    open spec fn place(&self) -> Seq<Seq<char>> {
        self@
    }

    fn row_path(&self) -> (path: &FilePath) {
        self
    }
}

/// The path of each row.
pub open spec fn places<T: HasPath>(rows: Seq<T>) -> Seq<Seq<Seq<char>>> {
    Seq::new(rows.len(), |i: int| rows[i].place())
}

/// No path comes before one that stands earlier.
pub open spec fn ascending(paths: Seq<Seq<Seq<char>>>) -> bool {
    forall|i: int, j: int|
        0 <= i < j < paths.len() ==> !path_lt(#[trigger] paths[j], #[trigger] paths[i])
}

/// Each path comes before all that follow it.
pub open spec fn strictly_ascending(paths: Seq<Seq<Seq<char>>>) -> bool {
    forall|i: int, j: int|
        0 <= i < j < paths.len() ==> path_lt(#[trigger] paths[i], #[trigger] paths[j])
}

/// `rows` with `row` behind all that do not come after it.
pub open spec fn with_row<T: HasPath>(rows: Seq<T>, row: T) -> Seq<T>
    decreases rows.len(),
{
    if rows.len() == 0 || path_lt(row.place(), rows[0].place()) {
        seq![row] + rows
    } else {
        seq![rows[0]] + with_row(rows.drop_first(), row)
    }
}

/// The rows in the order of their paths. Rows with one path keep their order.
pub open spec fn sorted_by_path<T: HasPath>(rows: Seq<T>) -> Seq<T>
    decreases rows.len(),
{
    if rows.len() == 0 {
        Seq::empty()
    } else {
        with_row(sorted_by_path(rows.drop_last()), rows.last())
    }
}

/// Placing a row behind all that do not come after it.
proof fn lemma_with_row<T: HasPath>(rows: Seq<T>, row: T, at: int)
    requires
        0 <= at <= rows.len(),
        forall|i: int| 0 <= i < at ==> !path_lt(row.place(), (#[trigger] rows[i]).place()),
        at < rows.len() ==> path_lt(row.place(), rows[at].place()),
    ensures
        with_row(rows, row) == rows.insert(at, row),
    decreases rows.len(),
{
    if at == 0 {
        assert(rows.insert(0, row) =~= seq![row] + rows);
    } else {
        let rest = rows.drop_first();
        assert forall|i: int| 0 <= i < at - 1 implies !path_lt(
            row.place(),
            (#[trigger] rest[i]).place(),
        ) by {
            assert(rest[i] == rows[i + 1]);
        }
        if at < rows.len() {
            assert(rest[at - 1] == rows[at]);
        }
        lemma_with_row(rest, row, at - 1);
        assert(!path_lt(row.place(), rows[0].place()));
        assert(rows.insert(at, row) =~= seq![rows[0]] + rest.insert(at - 1, row));
    }
}

proof fn lemma_with_row_ascending<T: HasPath>(rows: Seq<T>, row: T)
    requires
        ascending(places(rows)),
    ensures
        ascending(places(with_row(rows, row))),
        with_row(rows, row).len() == rows.len() + 1,
        with_row(rows, row).to_multiset() == rows.to_multiset().insert(row),
    decreases rows.len(),
{
    broadcast use vstd::seq_lib::group_to_multiset_ensures;

    let all = with_row(rows, row);
    let p = places(rows);
    let q = places(all);
    if rows.len() == 0 || path_lt(row.place(), rows[0].place()) {
        assert(all =~= rows.insert(0, row));
        assert(rows.insert(0, row).to_multiset() =~= rows.to_multiset().insert(row));
        assert forall|i: int, j: int| 0 <= i < j < q.len() implies !path_lt(
            #[trigger] q[j],
            #[trigger] q[i],
        ) by {
            assert(q[j] == p[j - 1]);
            if i == 0 {
                if path_lt(q[j], row.place()) {
                    lemma_path_lt_transitive(q[j], row.place(), p[0]);
                    if j == 1 {
                        lemma_path_lt_irreflexive(p[0]);
                    }
                }
            } else {
                assert(q[i] == p[i - 1]);
            }
        }
    } else {
        let rest = rows.drop_first();
        assert forall|i: int, j: int| 0 <= i < j < places(rest).len() implies !path_lt(
            #[trigger] places(rest)[j],
            #[trigger] places(rest)[i],
        ) by {
            assert(places(rest)[j] == p[j + 1] && places(rest)[i] == p[i + 1]);
        }
        lemma_with_row_ascending(rest, row);
        let tail = with_row(rest, row);
        let t = places(tail);
        assert(rows =~= seq![rows[0]] + rest);
        vstd::seq_lib::lemma_multiset_commutative(seq![rows[0]], tail);
        vstd::seq_lib::lemma_multiset_commutative(seq![rows[0]], rest);
        assert(all.to_multiset() =~= rows.to_multiset().insert(row));
        assert forall|j: int| 0 <= j < t.len() implies !path_lt(#[trigger] t[j], p[0]) by {
            assert(tail.to_multiset().count(tail[j]) > 0) by {
                assert(tail.contains(tail[j]));
            }
            if tail[j] != row {
                assert(rest.to_multiset().count(tail[j]) > 0);
                assert(rest.contains(tail[j]));
                let k = choose|k: int| 0 <= k < rest.len() && rest[k] == tail[j];
                assert(p[k + 1] == t[j]);
            }
        }
        assert forall|i: int, j: int| 0 <= i < j < q.len() implies !path_lt(
            #[trigger] q[j],
            #[trigger] q[i],
        ) by {
            assert(q[j] == t[j - 1]);
            if i > 0 {
                assert(q[i] == t[i - 1]);
            }
        }
    }
}

/// Sorting by path orders the rows and neither loses nor repeats one.
pub proof fn law_sorted_by_path<T: HasPath>(rows: Seq<T>)
    ensures
        ascending(places(sorted_by_path(rows))),
        sorted_by_path(rows).to_multiset() == rows.to_multiset(),
    decreases rows.len(),
{
    broadcast use vstd::seq_lib::group_to_multiset_ensures;

    if rows.len() == 0 {
        assert(rows =~= sorted_by_path(rows));
    } else {
        law_sorted_by_path(rows.drop_last());
        lemma_with_row_ascending(sorted_by_path(rows.drop_last()), rows.last());
        assert(rows =~= rows.drop_last().push(rows.last()));
    }
}

/// Rows in the order of their paths.
#[derive(Debug)]
pub struct SortedByPath<T: HasPath> {
    rows: Vec<T>,
}

impl<T: HasPath> View for SortedByPath<T> {
    type V = Seq<T>;

    closed spec fn view(&self) -> Seq<T> {
        self.rows@
    }
}

/// The position behind all rows that do not come after `path`.
fn upper_bound<T: HasPath>(rows: &Vec<T>, path: &FilePath) -> (at: usize)
    requires
        ascending(places(rows@)),
    ensures
        at <= rows@.len(),
        forall|i: int| 0 <= i < at ==> !path_lt(path@, (#[trigger] rows@[i]).place()),
        forall|i: int| at <= i < rows@.len() ==> path_lt(path@, (#[trigger] rows@[i]).place()),
{
    let ghost p = places(rows@);
    let mut lo: usize = 0;
    let mut hi: usize = rows.len();
    while lo < hi
        invariant
            lo <= hi <= rows@.len(),
            p == places(rows@),
            ascending(p),
            forall|i: int| 0 <= i < lo ==> !path_lt(path@, #[trigger] p[i]),
            forall|i: int| hi <= i < p.len() ==> path_lt(path@, #[trigger] p[i]),
        decreases hi - lo,
    {
        let mid: usize = lo + (hi - lo) / 2;
        let later = path.before(rows[mid].row_path());
        assert(p[mid as int] == rows@[mid as int].place());
        if later {
            assert forall|i: int| mid <= i < p.len() implies path_lt(path@, #[trigger] p[i]) by {
                if i > mid {
                    lemma_path_lt_total(p[mid as int], p[i]);
                    if path_lt(p[mid as int], p[i]) {
                        lemma_path_lt_transitive(path@, p[mid as int], p[i]);
                    }
                }
            }
            hi = mid;
        } else {
            assert forall|i: int| 0 <= i <= mid implies !path_lt(path@, #[trigger] p[i]) by {
                if i < mid && path_lt(path@, p[i]) {
                    lemma_path_lt_total(p[i], p[mid as int]);
                    if path_lt(p[i], p[mid as int]) {
                        lemma_path_lt_transitive(path@, p[i], p[mid as int]);
                    }
                }
            }
            lo = mid + 1;
        }
    }
    assert forall|i: int| 0 <= i < lo implies !path_lt(path@, (#[trigger] rows@[i]).place()) by {
        assert(p[i] == rows@[i].place());
    }
    assert forall|i: int| lo <= i < rows@.len() implies path_lt(
        path@,
        (#[trigger] rows@[i]).place(),
    ) by {
        assert(p[i] == rows@[i].place());
    }
    lo
}

/// Sorts rows by path.
pub fn sort_rows<T: HasPath>(rows: Vec<T>) -> (sorted: Vec<T>)
    ensures
        sorted@ == sorted_by_path(rows@),
        ascending(places(sorted@)),
{
    let ghost all = rows@;
    let mut sorted: Vec<T> = Vec::new();
    assert(all.take(0) =~= Seq::empty());
    for row in it: rows
        invariant
            it.seq() == all,
            sorted@ == sorted_by_path(all.take(it.index())),
            ascending(places(sorted@)),
    {
        proof {
            let next = all.take(it.index() + 1);
            assert(next.drop_last() =~= all.take(it.index()));
            assert(next.last() == row);
            law_sorted_by_path(next);
        }
        let at: usize = upper_bound(&sorted, row.row_path());
        proof {
            lemma_with_row(sorted@, row, at as int);
        }
        sorted.insert(at, row);
    }
    assert(all.take(all.len() as int) =~= all);
    sorted
}

impl<T: HasPath> SortedByPath<T> {
    #[verifier::type_invariant]
    spec fn in_order(self) -> bool {
        ascending(places(self.rows@))
    }

    /// Sorts `rows` by path.
    pub fn sorted(rows: Vec<T>) -> (sorted: Self)
        ensures
            sorted@ == sorted_by_path(rows@),
    {
        SortedByPath { rows: sort_rows(rows) }
    }

    /// Rows that are known to be in order.
    pub fn assumed_sorted(rows: Vec<T>) -> (sorted: Self)
        requires
            ascending(places(rows@)),
        ensures
            sorted@ == rows@,
    {
        SortedByPath { rows }
    }

    /// The rows, which are in order.
    pub fn as_rows(&self) -> (rows: &Vec<T>)
        ensures
            rows@ == self@,
            ascending(places(rows@)),
    {
        proof {
            use_type_invariant(self);
        }
        &self.rows
    }

    /// The rows by value.
    pub fn into_vec(self) -> (rows: Vec<T>)
        ensures
            rows@ == self@,
            ascending(places(rows@)),
    {
        proof {
            use_type_invariant(&self);
        }
        self.rows
    }

    /// Where the row of `path` stands, or where it would be inserted.
    pub fn binary_search_by_path(&self, path: &FilePath) -> (found: Result<usize, usize>)
        ensures
            match found {
                Ok(at) => at < self@.len() && self@[at as int].place() == path@,
                Err(at) => {
                    &&& at <= self@.len()
                    &&& forall|i: int|
                        0 <= i < at ==> path_lt((#[trigger] self@[i]).place(), path@)
                    &&& forall|i: int|
                        at <= i < self@.len() ==> path_lt(path@, (#[trigger] self@[i]).place())
                },
            },
    {
        proof {
            use_type_invariant(self);
        }
        search_rows(&self.rows, path)
    }
}

/// Where a row of `path` stands among rows in order, or where it would be
/// inserted.
pub fn search_rows<T: HasPath>(rows: &Vec<T>, path: &FilePath) -> (found: Result<usize, usize>)
    requires
        ascending(places(rows@)),
    ensures
        match found {
            Ok(at) => at < rows@.len() && rows@[at as int].place() == path@,
            Err(at) => {
                &&& at <= rows@.len()
                &&& forall|i: int| 0 <= i < at ==> path_lt((#[trigger] rows@[i]).place(), path@)
                &&& forall|i: int|
                    at <= i < rows@.len() ==> path_lt(path@, (#[trigger] rows@[i]).place())
            },
        },
{
    let ghost p = places(rows@);
    let at: usize = upper_bound(rows, path);
    if at == 0 {
        return Err(at);
    }
    assert(p[at - 1] == rows@[at - 1].place());
    if rows[at - 1].row_path().same(path) {
        return Ok(at - 1);
    }
    assert forall|i: int| 0 <= i < at implies path_lt((#[trigger] rows@[i]).place(), path@) by {
        lemma_path_lt_total(p[at - 1], path@);
        if i < at - 1 {
            assert(p[i] == rows@[i].place());
            lemma_path_lt_total(p[i], p[at - 1]);
            if path_lt(p[i], p[at - 1]) {
                lemma_path_lt_transitive(p[i], p[at - 1], path@);
            }
        }
    }
    Err(at)
}

/// A search finds a row exactly where one has the path.
pub proof fn law_search_is_complete<T: HasPath>(rows: Seq<T>, path: Seq<Seq<char>>, at: int)
    requires
        0 <= at <= rows.len(),
        forall|i: int| 0 <= i < at ==> path_lt((#[trigger] rows[i]).place(), path),
        forall|i: int| at <= i < rows.len() ==> path_lt(path, (#[trigger] rows[i]).place()),
    ensures
        !places(rows).contains(path),
{
    if places(rows).contains(path) {
        let i = choose|i: int| 0 <= i < places(rows).len() && places(rows)[i] == path;
        assert(rows[i].place() == path);
        lemma_path_lt_irreflexive(path);
    }
}

/// Rows whose paths strictly ascend have each path once.
pub proof fn law_strict_paths_are_distinct(paths: Seq<Seq<Seq<char>>>)
    requires
        strictly_ascending(paths),
    ensures
        paths.no_duplicates(),
        ascending(paths),
{
    assert forall|i: int, j: int| 0 <= i < j < paths.len() implies paths[i] != paths[j]
        && !path_lt(#[trigger] paths[j], #[trigger] paths[i]) by {
        lemma_path_lt_asymmetric(paths[i], paths[j]);
    }
}

/// Two strictly ascending series with the same members are the same.
pub proof fn law_members_determine_order(a: Seq<Seq<Seq<char>>>, b: Seq<Seq<Seq<char>>>)
    requires
        strictly_ascending(a),
        strictly_ascending(b),
        forall|p: Seq<Seq<char>>| #[trigger] a.contains(p) <==> b.contains(p),
    ensures
        a == b,
    decreases a.len(),
{
    if a.len() == 0 {
        if b.len() > 0 {
            assert(b.contains(b[0]));
            assert(a.contains(b[0]));
        }
        assert(a =~= b);
    } else {
        assert(a.contains(a[0]));
        assert(b.contains(a[0]));
        let i = choose|i: int| 0 <= i < b.len() && b[i] == a[0];
        assert(b.contains(b[0]));
        assert(a.contains(b[0]));
        let j = choose|j: int| 0 <= j < a.len() && a[j] == b[0];
        if i > 0 {
            assert(path_lt(b[0], b[i]));
            if j > 0 {
                assert(path_lt(a[0], a[j]));
                lemma_path_lt_asymmetric(a[0], b[0]);
            } else {
                lemma_path_lt_irreflexive(a[0]);
            }
        }
        assert(a[0] == b[0]);
        let x = a.drop_first();
        let y = b.drop_first();
        assert forall|p: Seq<Seq<char>>| #[trigger] x.contains(p) <==> y.contains(p) by {
            if x.contains(p) {
                let k = choose|k: int| 0 <= k < x.len() && x[k] == p;
                assert(a[k + 1] == p);
                assert(path_lt(a[0], a[k + 1]));
                assert(a.contains(p));
                assert(b.contains(p));
                let m = choose|m: int| 0 <= m < b.len() && b[m] == p;
                if m == 0 {
                    lemma_path_lt_irreflexive(p);
                }
                assert(y[m - 1] == p);
            }
            if y.contains(p) {
                let k = choose|k: int| 0 <= k < y.len() && y[k] == p;
                assert(b[k + 1] == p);
                assert(path_lt(b[0], b[k + 1]));
                assert(b.contains(p));
                assert(a.contains(p));
                let m = choose|m: int| 0 <= m < a.len() && a[m] == p;
                if m == 0 {
                    lemma_path_lt_irreflexive(p);
                }
                assert(x[m - 1] == p);
            }
        }
        assert forall|m: int, n: int| 0 <= m < n < x.len() implies path_lt(
            #[trigger] x[m],
            #[trigger] x[n],
        ) by {
            assert(x[m] == a[m + 1] && x[n] == a[n + 1]);
        }
        assert forall|m: int, n: int| 0 <= m < n < y.len() implies path_lt(
            #[trigger] y[m],
            #[trigger] y[n],
        ) by {
            assert(y[m] == b[m + 1] && y[n] == b[n + 1]);
        }
        law_members_determine_order(x, y);
        assert(a =~= seq![a[0]] + x);
        assert(b =~= seq![b[0]] + y);
    }
}

} // verus!
