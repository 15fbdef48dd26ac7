//! What changed between two states of an index.

use vstd::prelude::*;

use super::inlinks::{
    canonical, edges_of, link_views, lists_sources, pair_views, says, targets_of, InlinkMap,
};
use super::sort::{
    ascending, law_strict_paths_are_distinct, strictly_ascending, SortedByPath,
};
use super::spelling::{
    lemma_pairs_within, no_spelling, pair_spelling, pairs_within, spelling_of, writes_source,
    writes_target, Spelling,
};
use crate::file::{same_file, FileBase, FileView};
use crate::path::{
    lemma_path_lt_asymmetric, lemma_path_lt_irreflexive, lemma_path_lt_total,
    lemma_path_lt_transitive, path_lt, path_texts, FilePath,
};
use crate::query::record::file_paths;

verus! {

/// The contents of each file.
pub open spec fn file_views(files: Seq<FileBase>) -> Seq<FileView> {
    Seq::new(files.len(), |i: int| files[i]@)
}

/// The path of each file.
pub open spec fn view_paths(files: Seq<FileView>) -> Seq<Seq<Seq<char>>> {
    Seq::new(files.len(), |i: int| files[i].path)
}

/// How the path of each file is written.
pub open spec fn view_texts(files: Seq<FileView>) -> Seq<Seq<char>> {
    Seq::new(files.len(), |i: int| files[i].path_text)
}

/// Files of `current` that are new or say something else than those of
/// `persisted`, both in the order of their paths.
pub open spec fn upserted_files(current: Seq<FileView>, persisted: Seq<FileView>) -> Seq<FileView>
    decreases current.len() + persisted.len(),
{
    if current.len() == 0 {
        Seq::empty()
    } else if persisted.len() == 0 {
        current
    } else if path_lt(current[0].path, persisted[0].path) {
        seq![current[0]] + upserted_files(current.drop_first(), persisted)
    } else if path_lt(persisted[0].path, current[0].path) {
        upserted_files(current, persisted.drop_first())
    } else if same_file(current[0], persisted[0]) {
        upserted_files(current.drop_first(), persisted.drop_first())
    } else {
        seq![current[0]] + upserted_files(current.drop_first(), persisted.drop_first())
    }
}

/// Files of `persisted` that are no more in `current`, both in the order of
/// their paths.
pub open spec fn deleted_files(current: Seq<FileView>, persisted: Seq<FileView>) -> Seq<FileView>
    decreases current.len() + persisted.len(),
{
    if persisted.len() == 0 {
        Seq::empty()
    } else if current.len() == 0 {
        persisted
    } else if path_lt(current[0].path, persisted[0].path) {
        deleted_files(current.drop_first(), persisted)
    } else if path_lt(persisted[0].path, current[0].path) {
        seq![persisted[0]] + deleted_files(current, persisted.drop_first())
    } else {
        deleted_files(current.drop_first(), persisted.drop_first())
    }
}

/// Files that were added, changed or removed.
#[derive(Debug)]
pub struct FileDelta {
    upserted: Vec<FileBase>,
    deleted: Vec<FileBase>,
}

/// Contents of a [`FileDelta`].
pub struct FileDeltaView {
    /// Files that are new or changed.
    pub upserted: Seq<FileView>,
    /// Files that are gone.
    pub deleted: Seq<FileView>,
}

impl View for FileDelta {
    type V = FileDeltaView;

    closed spec fn view(&self) -> FileDeltaView {
        FileDeltaView {
            upserted: file_views(self.upserted@),
            deleted: file_views(self.deleted@),
        }
    }
}

impl Default for FileDelta {
    fn default() -> (delta: Self)
        ensures
            delta@ == (FileDeltaView { upserted: Seq::empty(), deleted: Seq::empty() }),
    {
        let delta = FileDelta { upserted: Vec::new(), deleted: Vec::new() };
        assert(delta@.upserted =~= Seq::empty());
        assert(delta@.deleted =~= Seq::empty());
        delta
    }
}

proof fn lemma_front<A>(s: Seq<A>, i: int)
    requires
        0 <= i < s.len(),
    ensures
        s.skip(i)[0] == s[i],
        s.skip(i).drop_first() == s.skip(i + 1),
        s.skip(i) == seq![s[i]] + s.skip(i + 1),
{
    assert(s.skip(i).drop_first() =~= s.skip(i + 1));
    assert(s.skip(i) =~= seq![s[i]] + s.skip(i + 1));
}

impl FileDelta {
    /// What changed from `persisted` to `current`.
    pub fn compute(current: &SortedByPath<FileBase>, persisted: &SortedByPath<FileBase>) -> (delta:
        Self)
        ensures
            delta@ == (FileDeltaView {
                upserted: upserted_files(file_views(current@), file_views(persisted@)),
                deleted: deleted_files(file_views(current@), file_views(persisted@)),
            }),
    {
        let now = current.as_rows();
        let then = persisted.as_rows();
        let ghost a = file_views(now@);
        let ghost b = file_views(then@);
        let ghost all_upserted = upserted_files(a, b);
        let ghost all_deleted = deleted_files(a, b);
        let mut upserted: Vec<FileBase> = Vec::new();
        let mut deleted: Vec<FileBase> = Vec::new();
        let m: usize = now.len();
        let n: usize = then.len();
        let mut i: usize = 0;
        let mut j: usize = 0;
        proof {
            assert(a.skip(0) =~= a);
            assert(b.skip(0) =~= b);
            assert(file_views(upserted@) + all_upserted =~= all_upserted);
            assert(file_views(deleted@) + all_deleted =~= all_deleted);
        }
        while i < m || j < n
            invariant
                i <= m,
                j <= n,
                m == now@.len(),
                n == then@.len(),
                a == file_views(now@),
                b == file_views(then@),
                file_views(upserted@) + upserted_files(a.skip(i as int), b.skip(j as int))
                    == all_upserted,
                file_views(deleted@) + deleted_files(a.skip(i as int), b.skip(j as int))
                    == all_deleted,
            decreases m - i + n - j,
        {
            let ghost ups = file_views(upserted@);
            let ghost dels = file_views(deleted@);
            let ghost x = a.skip(i as int);
            let ghost y = b.skip(j as int);
            proof {
                if i < m {
                    lemma_front(a, i as int);
                }
                if j < n {
                    lemma_front(b, j as int);
                }
            }
            let only_now = i < m && (j >= n || now[i].path().before(then[j].path()));
            if only_now {
                upserted.push(now[i].copy());
                proof {
                    assert(file_views(upserted@) =~= ups.push(a[i as int]));
                    let rest = upserted_files(a.skip(i + 1), y);
                    assert(upserted_files(x, y) =~= seq![a[i as int]] + rest);
                    assert(ups + (seq![a[i as int]] + rest) =~= file_views(upserted@) + rest);
                    assert(deleted_files(x, y) =~= deleted_files(a.skip(i + 1), y));
                }
                i = i + 1;
            } else {
                let only_then = i >= m || then[j].path().before(now[i].path());
                if only_then {
                    deleted.push(then[j].copy());
                    proof {
                        assert(file_views(deleted@) =~= dels.push(b[j as int]));
                        let rest = deleted_files(x, b.skip(j + 1));
                        assert(deleted_files(x, y) =~= seq![b[j as int]] + rest) by {
                            if i < m {
                                lemma_path_lt_total(a[i as int].path, b[j as int].path);
                                if path_lt(a[i as int].path, b[j as int].path) {
                                    lemma_path_lt_asymmetric(a[i as int].path, b[j as int].path);
                                }
                            }
                        }
                        assert(dels + (seq![b[j as int]] + rest) =~= file_views(deleted@) + rest);
                        assert(upserted_files(x, y) =~= upserted_files(x, b.skip(j + 1)));
                    }
                    j = j + 1;
                } else {
                    if !now[i].same(&then[j]) {
                        upserted.push(now[i].copy());
                        proof {
                            assert(file_views(upserted@) =~= ups.push(a[i as int]));
                            let rest = upserted_files(a.skip(i + 1), b.skip(j + 1));
                            assert(upserted_files(x, y) =~= seq![a[i as int]] + rest);
                            assert(ups + (seq![a[i as int]] + rest) =~= file_views(upserted@)
                                + rest);
                        }
                    }
                    i = i + 1;
                    j = j + 1;
                }
            }
        }
        let delta = FileDelta { upserted, deleted };
        proof {
            assert(upserted_files(a.skip(i as int), b.skip(j as int)) =~= Seq::empty());
            assert(deleted_files(a.skip(i as int), b.skip(j as int)) =~= Seq::empty());
            assert(delta@.upserted =~= all_upserted);
            assert(delta@.deleted =~= all_deleted);
        }
        delta
    }

    /// Whether nothing changed.
    pub fn is_empty(&self) -> (empty: bool)
        ensures
            empty == (self@.upserted.len() == 0 && self@.deleted.len() == 0),
    {
        self.upserted.len() == 0 && self.deleted.len() == 0
    }

    /// Files that are new or changed, in the order of their paths.
    pub fn upserted(&self) -> (files: &Vec<FileBase>)
        ensures
            file_views(files@) == self@.upserted,
    {
        &self.upserted
    }

    /// Files that are gone, in the order of their paths.
    pub fn deleted(&self) -> (files: &Vec<FileBase>)
        ensures
            file_views(files@) == self@.deleted,
    {
        &self.deleted
    }
}

/// All files of `files` come after `path`.
spec fn all_after(files: Seq<FileView>, path: Seq<Seq<char>>) -> bool {
    forall|i: int| 0 <= i < files.len() ==> path_lt(path, (#[trigger] files[i]).path)
}

proof fn lemma_rest(files: Seq<FileView>)
    requires
        strictly_ascending(view_paths(files)),
        files.len() > 0,
    ensures
        strictly_ascending(view_paths(files.drop_first())),
        all_after(files.drop_first(), files[0].path),
        forall|f: FileView| #[trigger]
            files.contains(f) <==> f == files[0] || files.drop_first().contains(f),
{
    let p = view_paths(files);
    let rest = files.drop_first();
    let q = view_paths(rest);
    assert forall|i: int, j: int| 0 <= i < j < q.len() implies path_lt(
        #[trigger] q[i],
        #[trigger] q[j],
    ) by {
        assert(q[i] == p[i + 1] && q[j] == p[j + 1]);
    }
    assert forall|i: int| 0 <= i < rest.len() implies path_lt(
        files[0].path,
        (#[trigger] rest[i]).path,
    ) by {
        assert(p[0] == files[0].path && p[i + 1] == rest[i].path);
    }
    assert forall|f: FileView| #[trigger] files.contains(f) <==> f == files[0] || rest.contains(
        f,
    ) by {
        if files.contains(f) {
            let i = choose|i: int| 0 <= i < files.len() && files[i] == f;
            if i > 0 {
                assert(rest[i - 1] == f);
            }
        }
        if rest.contains(f) {
            let i = choose|i: int| 0 <= i < rest.len() && rest[i] == f;
            assert(files[i + 1] == f);
        }
        assert(files[0] == files[0]);
    }
}

/// Some file of `files` has this path.
pub open spec fn has_path(files: Seq<FileView>, path: Seq<Seq<char>>) -> bool {
    exists|i: int| 0 <= i < files.len() && (#[trigger] files[i]).path == path
}

proof fn lemma_has_path_rest(files: Seq<FileView>, path: Seq<Seq<char>>)
    requires
        files.len() > 0,
    ensures
        has_path(files, path) <==> files[0].path == path || has_path(files.drop_first(), path),
{
    let rest = files.drop_first();
    if has_path(files, path) {
        let i = choose|i: int| 0 <= i < files.len() && (#[trigger] files[i]).path == path;
        if i > 0 {
            assert(rest[i - 1].path == path);
        }
    }
    if has_path(rest, path) {
        let i = choose|i: int| 0 <= i < rest.len() && (#[trigger] rest[i]).path == path;
        assert(files[i + 1].path == path);
    }
}

/// Nothing of `files` is at or before `path`.
proof fn lemma_not_before(files: Seq<FileView>, path: Seq<Seq<char>>)
    requires
        strictly_ascending(view_paths(files)),
        files.len() > 0 ==> path_lt(path, files[0].path),
    ensures
        !has_path(files, path),
        all_after(files, path),
{
    assert forall|i: int| 0 <= i < files.len() implies path_lt(
        path,
        (#[trigger] files[i]).path,
    ) by {
        if i > 0 {
            assert(view_paths(files)[0] == files[0].path && view_paths(files)[i] == files[i].path);
            lemma_path_lt_transitive(path, files[0].path, files[i].path);
        }
    }
    if has_path(files, path) {
        let i = choose|i: int| 0 <= i < files.len() && (#[trigger] files[i]).path == path;
        lemma_path_lt_irreflexive(path);
    }
}

/// Some file of `files` says the same as `file`.
pub open spec fn has_same(files: Seq<FileView>, file: FileView) -> bool {
    exists|i: int| 0 <= i < files.len() && same_file(#[trigger] files[i], file)
}

proof fn lemma_has_same_rest(files: Seq<FileView>, file: FileView)
    requires
        files.len() > 0,
    ensures
        has_same(files, file) <==> same_file(files[0], file) || has_same(
            files.drop_first(),
            file,
        ),
{
    let rest = files.drop_first();
    if has_same(files, file) {
        let i = choose|i: int| 0 <= i < files.len() && same_file(#[trigger] files[i], file);
        if i > 0 {
            assert(same_file(rest[i - 1], file));
        }
    }
    if has_same(rest, file) {
        let i = choose|i: int| 0 <= i < rest.len() && same_file(#[trigger] rest[i], file);
        assert(same_file(files[i + 1], file));
    }
}

/// A file is upserted exactly where it is in the current state and none in the
/// persisted one says the same.
pub proof fn law_upserted_are_new_or_changed(
    current: Seq<FileView>,
    persisted: Seq<FileView>,
    file: FileView,
)
    requires
        strictly_ascending(view_paths(current)),
        strictly_ascending(view_paths(persisted)),
    ensures
        upserted_files(current, persisted).contains(file) <==> current.contains(file)
            && !has_same(persisted, file),
    decreases current.len() + persisted.len(),
{
    let all = upserted_files(current, persisted);
    if current.len() == 0 {
    } else if persisted.len() == 0 {
    } else {
        let c = current[0];
        let p = persisted[0];
        lemma_rest(current);
        lemma_rest(persisted);
        lemma_path_lt_total(c.path, p.path);
        let current_rest = current.drop_first();
        let persisted_rest = persisted.drop_first();
        lemma_has_same_rest(persisted, file);
        if path_lt(c.path, p.path) {
            law_upserted_are_new_or_changed(current_rest, persisted, file);
            lemma_not_before(persisted, c.path);
            lemma_cons(all, c, upserted_files(current_rest, persisted), file);
            lemma_none_same(persisted, c);
        } else if path_lt(p.path, c.path) {
            law_upserted_are_new_or_changed(current, persisted_rest, file);
            lemma_not_before(current, p.path);
            if current.contains(file) && same_file(p, file) {
                let i = choose|i: int| 0 <= i < current.len() && current[i] == file;
                assert(has_path(current, p.path));
            }
        } else {
            law_upserted_are_new_or_changed(current_rest, persisted_rest, file);
            assert(c.path == p.path);
            lemma_absent(current_rest, c.path, c);
            lemma_absent(persisted_rest, p.path, p);
            lemma_none_same(persisted_rest, c);
            if current_rest.contains(file) && same_file(p, file) {
                lemma_absent(current_rest, c.path, file);
            }
            if !same_file(c, p) {
                lemma_cons(all, c, upserted_files(current_rest, persisted_rest), file);
            }
        }
    }
}

proof fn lemma_none_same(files: Seq<FileView>, file: FileView)
    requires
        !has_path(files, file.path),
    ensures
        !has_same(files, file),
{
    if has_same(files, file) {
        let i = choose|i: int| 0 <= i < files.len() && same_file(#[trigger] files[i], file);
        assert(files[i].path == file.path);
    }
}

proof fn lemma_absent(files: Seq<FileView>, path: Seq<Seq<char>>, file: FileView)
    requires
        all_after(files, path),
        file.path == path,
    ensures
        !files.contains(file),
        !has_path(files, path),
{
    lemma_path_lt_irreflexive(path);
    if files.contains(file) {
        let i = choose|i: int| 0 <= i < files.len() && files[i] == file;
        assert(path_lt(path, files[i].path));
    }
    if has_path(files, path) {
        let i = choose|i: int| 0 <= i < files.len() && (#[trigger] files[i]).path == path;
        assert(path_lt(path, files[i].path));
    }
}

proof fn lemma_cons(all: Seq<FileView>, first: FileView, rest: Seq<FileView>, file: FileView)
    requires
        all =~= seq![first] + rest,
    ensures
        all.contains(file) <==> file == first || rest.contains(file),
{
    if all.contains(file) {
        let i = choose|i: int| 0 <= i < all.len() && all[i] == file;
        if i > 0 {
            assert(rest[i - 1] == file);
        }
    }
    if rest.contains(file) {
        let i = choose|i: int| 0 <= i < rest.len() && rest[i] == file;
        assert(all[i + 1] == file);
    }
    assert(all[0] == first);
}

/// A file is deleted exactly where it is in the persisted state and the current
/// one has none at its path.
pub proof fn law_deleted_are_gone(
    current: Seq<FileView>,
    persisted: Seq<FileView>,
    file: FileView,
)
    requires
        strictly_ascending(view_paths(current)),
        strictly_ascending(view_paths(persisted)),
    ensures
        deleted_files(current, persisted).contains(file) <==> persisted.contains(file)
            && !has_path(current, file.path),
    decreases current.len() + persisted.len(),
{
    let all = deleted_files(current, persisted);
    if persisted.len() == 0 {
    } else if current.len() == 0 {
    } else {
        let c = current[0];
        let p = persisted[0];
        lemma_rest(current);
        lemma_rest(persisted);
        lemma_path_lt_total(c.path, p.path);
        lemma_has_path_rest(current, file.path);
        let current_rest = current.drop_first();
        let persisted_rest = persisted.drop_first();
        if path_lt(c.path, p.path) {
            law_deleted_are_gone(current_rest, persisted, file);
            lemma_not_before(persisted, c.path);
            if persisted.contains(file) {
                let i = choose|i: int| 0 <= i < persisted.len() && persisted[i] == file;
                assert(persisted[i].path == file.path);
                if file.path == c.path {
                    assert(has_path(persisted, c.path));
                }
            }
        } else if path_lt(p.path, c.path) {
            law_deleted_are_gone(current, persisted_rest, file);
            lemma_not_before(current, p.path);
            lemma_cons(all, p, deleted_files(current, persisted_rest), file);
        } else {
            law_deleted_are_gone(current_rest, persisted_rest, file);
            lemma_absent(persisted_rest, p.path, p);
            if persisted_rest.contains(file) && file.path == c.path {
                lemma_absent(persisted_rest, p.path, file);
            }
        }
    }
}

proof fn lemma_upserted_are_current(current: Seq<FileView>, persisted: Seq<FileView>)
    ensures
        forall|f: FileView| #[trigger]
            upserted_files(current, persisted).contains(f) ==> current.contains(f),
    decreases current.len() + persisted.len(),
{
    if current.len() > 0 && persisted.len() > 0 {
        let c = current[0];
        let p = persisted[0];
        let rest = current.drop_first();
        let all = upserted_files(current, persisted);
        lemma_upserted_are_current(rest, persisted);
        lemma_upserted_are_current(current, persisted.drop_first());
        lemma_upserted_are_current(rest, persisted.drop_first());
        assert forall|f: FileView| #[trigger] all.contains(f) implies current.contains(f) by {
            lemma_cons(current, c, rest, f);
            if path_lt(c.path, p.path) {
                lemma_cons(all, c, upserted_files(rest, persisted), f);
            } else if path_lt(p.path, c.path) {
                assert(upserted_files(current, persisted.drop_first()).contains(f));
            } else if !same_file(c, p) {
                lemma_cons(all, c, upserted_files(rest, persisted.drop_first()), f);
            } else {
                assert(upserted_files(rest, persisted.drop_first()).contains(f));
            }
        }
    }
}

proof fn lemma_deleted_are_persisted(current: Seq<FileView>, persisted: Seq<FileView>)
    ensures
        forall|f: FileView| #[trigger]
            deleted_files(current, persisted).contains(f) ==> persisted.contains(f),
    decreases current.len() + persisted.len(),
{
    if current.len() > 0 && persisted.len() > 0 {
        let c = current[0];
        let p = persisted[0];
        let rest = persisted.drop_first();
        let all = deleted_files(current, persisted);
        lemma_deleted_are_persisted(current.drop_first(), persisted);
        lemma_deleted_are_persisted(current, rest);
        lemma_deleted_are_persisted(current.drop_first(), rest);
        assert forall|f: FileView| #[trigger] all.contains(f) implies persisted.contains(f) by {
            lemma_cons(persisted, p, rest, f);
            if path_lt(c.path, p.path) {
                assert(deleted_files(current.drop_first(), persisted).contains(f));
            } else if path_lt(p.path, c.path) {
                lemma_cons(all, p, deleted_files(current, rest), f);
            } else {
                assert(deleted_files(current.drop_first(), rest).contains(f));
            }
        }
    }
}

/// A list is in order where its rest is, and nothing of the rest comes before
/// its first file.
proof fn lemma_cons_ascending(all: Seq<FileView>, files: Seq<FileView>, rest: Seq<FileView>)
    requires
        files.len() > 0,
        ascending(view_paths(files)),
        all =~= seq![files[0]] + rest,
        ascending(view_paths(rest)),
        forall|f: FileView| #[trigger] rest.contains(f) ==> files.drop_first().contains(f),
    ensures
        ascending(view_paths(all)),
{
    let q = view_paths(all);
    let p = view_paths(files);
    assert forall|i: int, j: int| 0 <= i < j < q.len() implies !path_lt(
        #[trigger] q[j],
        #[trigger] q[i],
    ) by {
        assert(q[j] == view_paths(rest)[j - 1]);
        if i == 0 {
            assert(rest.contains(rest[j - 1]));
            let k = choose|k: int|
                0 <= k < files.drop_first().len() && files.drop_first()[k] == rest[j - 1];
            assert(p[k + 1] == q[j]);
            assert(p[0] == q[0]);
        } else {
            assert(q[i] == view_paths(rest)[i - 1]);
        }
    }
}

proof fn lemma_rest_ascending(files: Seq<FileView>)
    requires
        files.len() > 0,
        ascending(view_paths(files)),
    ensures
        ascending(view_paths(files.drop_first())),
{
    let p = view_paths(files);
    let q = view_paths(files.drop_first());
    assert forall|i: int, j: int| 0 <= i < j < q.len() implies !path_lt(
        #[trigger] q[j],
        #[trigger] q[i],
    ) by {
        assert(q[i] == p[i + 1] && q[j] == p[j + 1]);
    }
}

/// Changed and removed files come in the order of their paths.
pub proof fn law_delta_keeps_order(current: Seq<FileView>, persisted: Seq<FileView>)
    requires
        ascending(view_paths(current)),
        ascending(view_paths(persisted)),
    ensures
        ascending(view_paths(upserted_files(current, persisted))),
        ascending(view_paths(deleted_files(current, persisted))),
    decreases current.len() + persisted.len(),
{
    if current.len() > 0 && persisted.len() > 0 {
        let c = current[0];
        let p = persisted[0];
        let current_rest = current.drop_first();
        let persisted_rest = persisted.drop_first();
        lemma_rest_ascending(current);
        lemma_rest_ascending(persisted);
        if path_lt(c.path, p.path) {
            law_delta_keeps_order(current_rest, persisted);
            lemma_upserted_are_current(current_rest, persisted);
            lemma_cons_ascending(
                upserted_files(current, persisted),
                current,
                upserted_files(current_rest, persisted),
            );
        } else if path_lt(p.path, c.path) {
            law_delta_keeps_order(current, persisted_rest);
            lemma_deleted_are_persisted(current, persisted_rest);
            lemma_cons_ascending(
                deleted_files(current, persisted),
                persisted,
                deleted_files(current, persisted_rest),
            );
        } else {
            law_delta_keeps_order(current_rest, persisted_rest);
            lemma_upserted_are_current(current_rest, persisted_rest);
            if !same_file(c, p) {
                lemma_cons_ascending(
                    upserted_files(current, persisted),
                    current,
                    upserted_files(current_rest, persisted_rest),
                );
            }
        }
    }
}

/// Both states have the same files, which say the same.
pub open spec fn same_files(a: Seq<FileView>, b: Seq<FileView>) -> bool {
    &&& a.len() == b.len()
    &&& forall|i: int| 0 <= i < a.len() ==> same_file(#[trigger] a[i], b[i])
}

/// Nothing changed exactly where both states say the same.
pub proof fn law_empty_delta_means_equal(current: Seq<FileView>, persisted: Seq<FileView>)
    requires
        strictly_ascending(view_paths(current)),
        strictly_ascending(view_paths(persisted)),
    ensures
        upserted_files(current, persisted).len() == 0 && deleted_files(current, persisted).len()
            == 0 <==> same_files(current, persisted),
    decreases current.len() + persisted.len(),
{
    if current.len() > 0 && persisted.len() > 0 {
        let c = current[0];
        let p = persisted[0];
        let current_rest = current.drop_first();
        let persisted_rest = persisted.drop_first();
        lemma_rest(current);
        lemma_rest(persisted);
        if same_files(current, persisted) {
            assert(same_file(current[0], persisted[0]));
            lemma_path_lt_irreflexive(c.path);
        }
        if !path_lt(c.path, p.path) && !path_lt(p.path, c.path) && same_file(c, p) {
            law_empty_delta_means_equal(current_rest, persisted_rest);
            if same_files(current_rest, persisted_rest) {
                assert forall|i: int| 0 <= i < current.len() implies same_file(
                    #[trigger] current[i],
                    persisted[i],
                ) by {
                    if i > 0 {
                        assert(same_file(current_rest[i - 1], persisted_rest[i - 1]));
                    }
                }
            }
            if same_files(current, persisted) {
                assert forall|i: int| 0 <= i < current_rest.len() implies same_file(
                    #[trigger] current_rest[i],
                    persisted_rest[i],
                ) by {
                    assert(same_file(current[i + 1], persisted[i + 1]));
                }
            }
        } else if path_lt(p.path, c.path) {
            lemma_path_lt_total(c.path, p.path);
            if path_lt(c.path, p.path) {
                lemma_path_lt_asymmetric(c.path, p.path);
            }
        }
    }
}

/// Applying the changes to the persisted state gives the current one: what its
/// files say is what the upserted ones say, and those persisted ones whose path
/// is neither upserted nor deleted.
pub proof fn law_delta_leads_to_current(
    current: Seq<FileView>,
    persisted: Seq<FileView>,
    file: FileView,
)
    requires
        strictly_ascending(view_paths(current)),
        strictly_ascending(view_paths(persisted)),
    ensures
        has_same(current, file) <==> {
            ||| has_same(upserted_files(current, persisted), file)
            ||| has_same(persisted, file) && !has_path(
                upserted_files(current, persisted),
                file.path,
            ) && !has_path(deleted_files(current, persisted), file.path)
        },
{
    let ups = upserted_files(current, persisted);
    let dels = deleted_files(current, persisted);
    if has_same(current, file) {
        let k = choose|k: int| 0 <= k < current.len() && same_file(#[trigger] current[k], file);
        let own = current[k];
        assert(current.contains(own));
        law_upserted_are_new_or_changed(current, persisted, own);
        if ups.contains(own) {
            let i = choose|i: int| 0 <= i < ups.len() && ups[i] == own;
            assert(same_file(ups[i], file));
        } else {
            let m = choose|m: int|
                0 <= m < persisted.len() && same_file(#[trigger] persisted[m], own);
            assert(same_file(persisted[m], file));
            if has_path(ups, file.path) {
                let i = choose|i: int| 0 <= i < ups.len() && (#[trigger] ups[i]).path == file.path;
                assert(ups.contains(ups[i]));
                law_upserted_are_new_or_changed(current, persisted, ups[i]);
                lemma_one_per_path(current, own, ups[i]);
            }
            if has_path(dels, file.path) {
                let i = choose|i: int|
                    0 <= i < dels.len() && (#[trigger] dels[i]).path == file.path;
                assert(dels.contains(dels[i]));
                law_deleted_are_gone(current, persisted, dels[i]);
                assert(current[k].path == file.path);
            }
        }
    }
    if has_same(ups, file) {
        let i = choose|i: int| 0 <= i < ups.len() && same_file(#[trigger] ups[i], file);
        assert(ups.contains(ups[i]));
        law_upserted_are_new_or_changed(current, persisted, ups[i]);
        let k = choose|k: int| 0 <= k < current.len() && current[k] == ups[i];
        assert(same_file(current[k], file));
    }
    if has_same(persisted, file) && !has_path(ups, file.path) && !has_path(dels, file.path) {
        let m = choose|m: int|
            0 <= m < persisted.len() && same_file(#[trigger] persisted[m], file);
        let own = persisted[m];
        assert(persisted.contains(own));
        law_deleted_are_gone(current, persisted, own);
        if !has_path(current, file.path) {
            let i = choose|i: int| 0 <= i < dels.len() && dels[i] == own;
            assert(dels[i].path == file.path);
        }
        let k = choose|k: int|
            0 <= k < current.len() && (#[trigger] current[k]).path == file.path;
        let now = current[k];
        assert(current.contains(now));
        law_upserted_are_new_or_changed(current, persisted, now);
        if ups.contains(now) {
            let i = choose|i: int| 0 <= i < ups.len() && ups[i] == now;
            assert(ups[i].path == file.path);
        }
        let n = choose|n: int|
            0 <= n < persisted.len() && same_file(#[trigger] persisted[n], now);
        assert(persisted.contains(persisted[n]));
        lemma_one_per_path(persisted, own, persisted[n]);
        assert(same_file(current[k], file));
    }
}

proof fn lemma_one_per_path(files: Seq<FileView>, a: FileView, b: FileView)
    requires
        strictly_ascending(view_paths(files)),
        files.contains(a),
        files.contains(b),
        a.path == b.path,
    ensures
        a == b,
{
    law_strict_paths_are_distinct(view_paths(files));
    let i = choose|i: int| 0 <= i < files.len() && files[i] == a;
    let j = choose|j: int| 0 <= j < files.len() && files[j] == b;
    assert(view_paths(files)[i] == view_paths(files)[j]);
}

/// The members of `left` that `right` lacks, in order.
pub open spec fn missing_from(left: Seq<Seq<Seq<char>>>, right: Seq<Seq<Seq<char>>>) -> Seq<
    Seq<Seq<char>>,
>
    decreases left.len(),
{
    if left.len() == 0 {
        Seq::empty()
    } else {
        let before = missing_from(left.drop_last(), right);
        if right.contains(left.last()) {
            before
        } else {
            before.push(left.last())
        }
    }
}

/// The pairs of one target with each of `sources`.
pub open spec fn pairs_with(target: Seq<Seq<char>>, sources: Seq<Seq<Seq<char>>>) -> Seq<
    (Seq<Seq<char>>, Seq<Seq<char>>),
> {
    Seq::new(sources.len(), |i: int| (target, sources[i]))
}

/// Adds a pair of `target` and each member of `left` that `right` lacks.
fn diff_sorted_sources(
    target: &FilePath,
    left: &[FilePath],
    right: &[FilePath],
    diff: &mut Vec<(FilePath, FilePath)>,
)
    requires
        strictly_ascending(file_paths(left@)),
        strictly_ascending(file_paths(right@)),
    ensures
        pair_views(final(diff)@) == pair_views(old(diff)@) + pairs_with(
            target@,
            missing_from(file_paths(left@), file_paths(right@)),
        ),
        forall|spelling: Spelling|
            pairs_within(old(diff)@, spelling) && spelling.targets.contains(target.spec_text())
                && path_texts(left@).to_set().subset_of(spelling.sources)
                ==> #[trigger] pairs_within(final(diff)@, spelling),
{
    let ghost earlier = diff@;
    let ghost start = pair_views(diff@);
    let ghost x = file_paths(left@);
    let ghost y = file_paths(right@);
    let m: usize = left.len();
    let n: usize = right.len();
    let mut i: usize = 0;
    let mut j: usize = 0;
    proof {
        assert(x.take(0) =~= Seq::empty());
        assert(start + pairs_with(target@, Seq::empty()) =~= start);
    }
    while i < m
        invariant
            i <= m,
            j <= n,
            m == left@.len(),
            n == right@.len(),
            x == file_paths(left@),
            y == file_paths(right@),
            strictly_ascending(x),
            strictly_ascending(y),
            forall|k: int| 0 <= k < j && i < m ==> path_lt(#[trigger] y[k], x[i as int]),
            pair_views(diff@) == start + pairs_with(target@, missing_from(x.take(i as int), y)),
            forall|spelling: Spelling|
                pairs_within(earlier, spelling) && spelling.targets.contains(target.spec_text())
                    && path_texts(left@).to_set().subset_of(spelling.sources)
                    ==> #[trigger] pairs_within(diff@, spelling),
        decreases m - i + n - j,
    {
        let ghost before = pair_views(diff@);
        let ghost so_far = missing_from(x.take(i as int), y);
        proof {
            assert(x.take(i + 1).drop_last() =~= x.take(i as int));
            assert(x.take(i + 1).last() == x[i as int]);
            assert(x[i as int] == left@[i as int]@);
        }
        let lacking = j >= n || left[i].before(&right[j]);
        if lacking {
            proof {
                if y.contains(x[i as int]) {
                    let k = choose|k: int| 0 <= k < y.len() && y[k] == x[i as int];
                    lemma_path_lt_irreflexive(x[i as int]);
                    if k > j {
                        lemma_path_lt_transitive(x[i as int], y[j as int], y[k]);
                    }
                }
                if i + 1 < m {
                    assert forall|k: int| 0 <= k < j implies path_lt(
                        #[trigger] y[k],
                        x[i + 1],
                    ) by {
                        lemma_path_lt_transitive(y[k], x[i as int], x[i + 1]);
                    }
                }
            }
            let ghost shorter = diff@;
            diff.push((target.copy(), left[i].copy()));
            proof {
                assert forall|spelling: Spelling|
                    pairs_within(earlier, spelling) && spelling.targets.contains(
                        target.spec_text(),
                    ) && path_texts(left@).to_set().subset_of(spelling.sources) implies #[trigger]
                    pairs_within(diff@, spelling) by {
                    assert(pairs_within(shorter, spelling));
                    assert(path_texts(left@).contains(path_texts(left@)[i as int]));
                    assert(path_texts(left@).to_set().contains(left@[i as int].spec_text()));
                    assert forall|k: int| #![trigger diff@[k]] 0 <= k < diff@.len() implies
                        spelling.targets.contains(diff@[k].0.spec_text())
                        && spelling.sources.contains(diff@[k].1.spec_text()) by {
                        if k < shorter.len() {
                            assert(diff@[k] == shorter[k]);
                        }
                    }
                }
                assert(pair_views(diff@) =~= before.push((target@, x[i as int])));
                assert(pairs_with(target@, so_far.push(x[i as int])) =~= pairs_with(
                    target@,
                    so_far,
                ).push((target@, x[i as int])));
                assert(pair_views(diff@) =~= start + pairs_with(
                    target@,
                    so_far.push(x[i as int]),
                ));
            }
            i = i + 1;
        } else if right[j].before(&left[i]) {
            j = j + 1;
        } else {
            proof {
                lemma_path_lt_total(x[i as int], y[j as int]);
                assert(y[j as int] == x[i as int]);
                assert(y.contains(x[i as int]));
                if i + 1 < m {
                    assert forall|k: int| 0 <= k < j + 1 implies path_lt(
                        #[trigger] y[k],
                        x[i + 1],
                    ) by {
                        if k < j {
                            lemma_path_lt_transitive(y[k], x[i as int], x[i + 1]);
                        }
                    }
                }
            }
            i = i + 1;
            j = j + 1;
        }
    }
    assert(x.take(i as int) =~= x);
}

/// Contents of an [`InlinkDelta`].
pub struct InlinkDeltaView {
    /// Links that are new, each as target and source.
    pub upserted: Seq<(Seq<Seq<char>>, Seq<Seq<char>>)>,
    /// Links that are gone, each as target and source.
    pub deleted: Seq<(Seq<Seq<char>>, Seq<Seq<char>>)>,
}

/// Links that were added or removed.
#[derive(Debug)]
pub struct InlinkDelta {
    upserted: Vec<(FilePath, FilePath)>,
    deleted: Vec<(FilePath, FilePath)>,
}

impl View for InlinkDelta {
    type V = InlinkDeltaView;

    closed spec fn view(&self) -> InlinkDeltaView {
        InlinkDeltaView {
            upserted: pair_views(self.upserted@),
            deleted: pair_views(self.deleted@),
        }
    }
}

impl Default for InlinkDelta {
    fn default() -> (delta: Self)
        ensures
            delta@ == (InlinkDeltaView { upserted: Seq::empty(), deleted: Seq::empty() }),
            delta.upserted_spelling() == no_spelling(),
            delta.deleted_spelling() == no_spelling(),
    {
        let delta = InlinkDelta { upserted: Vec::new(), deleted: Vec::new() };
        assert(delta@.upserted =~= Seq::empty());
        proof {
            assert(delta@.deleted =~= Seq::empty());
            lemma_pairs_within(delta.upserted@, no_spelling());
            lemma_pairs_within(delta.deleted@, no_spelling());
            assert(delta.upserted_spelling().targets =~= Set::empty());
            assert(delta.upserted_spelling().sources =~= Set::empty());
            assert(delta.deleted_spelling().targets =~= Set::empty());
            assert(delta.deleted_spelling().sources =~= Set::empty());
        }
        delta
    }
}

proof fn lemma_missing(left: Seq<Seq<Seq<char>>>, right: Seq<Seq<Seq<char>>>)
    requires
        strictly_ascending(left),
    ensures
        missing_from(left, right).no_duplicates(),
        forall|p: Seq<Seq<char>>| #[trigger]
            missing_from(left, right).contains(p) <==> left.contains(p) && !right.contains(p),
    decreases left.len(),
{
    let all = missing_from(left, right);
    if left.len() > 0 {
        let head = left.drop_last();
        let last = left.last();
        assert forall|i: int, j: int| 0 <= i < j < head.len() implies path_lt(
            #[trigger] head[i],
            #[trigger] head[j],
        ) by {
            assert(head[i] == left[i] && head[j] == left[j]);
        }
        lemma_missing(head, right);
        let before = missing_from(head, right);
        assert(!head.contains(last)) by {
            if head.contains(last) {
                let i = choose|i: int| 0 <= i < head.len() && head[i] == last;
                assert(path_lt(left[i], left[left.len() - 1]));
                lemma_path_lt_irreflexive(last);
            }
        }
        assert forall|p: Seq<Seq<char>>| #[trigger] all.contains(p) <==> left.contains(p)
            && !right.contains(p) by {
            if all.contains(p) {
                let i = choose|i: int| 0 <= i < all.len() && all[i] == p;
                if i < before.len() {
                    assert(before[i] == p);
                    assert(before.contains(p));
                    let k = choose|k: int| 0 <= k < head.len() && head[k] == p;
                    assert(left[k] == p);
                } else {
                    assert(left[left.len() - 1] == p);
                }
            }
            if left.contains(p) && !right.contains(p) {
                let i = choose|i: int| 0 <= i < left.len() && left[i] == p;
                if i < left.len() - 1 {
                    assert(head[i] == p);
                    assert(before.contains(p));
                    let k = choose|k: int| 0 <= k < before.len() && before[k] == p;
                    assert(all[k] == p);
                } else {
                    assert(all[all.len() - 1] == p);
                }
            }
        }
        assert forall|i: int, j: int| 0 <= i < all.len() && 0 <= j < all.len() && i != j implies
        all[i] != all[j] by {
            if i < before.len() && j < before.len() {
                assert(all[i] == before[i] && all[j] == before[j]);
            } else if i < before.len() {
                assert(before.contains(all[i]));
            } else {
                assert(before.contains(all[j]));
            }
        }
    }
}

/// The links of `left` that `right` lacks, without repetition.
fn missing_edges(left: &InlinkMap, right: &InlinkMap) -> (edges: Vec<(FilePath, FilePath)>)
    ensures
        pair_views(edges@).no_duplicates(),
        forall|edge: (Seq<Seq<char>>, Seq<Seq<char>>)| #[trigger]
            pair_views(edges@).contains(edge) <==> left@.contains(edge) && !right@.contains(edge),
        pair_spelling(edges@).within(left.spelling()),
{
    let ghost texts = left.spelling();
    let entries = left.iter();
    let ghost views = link_views(entries@);
    let mut edges: Vec<(FilePath, FilePath)> = Vec::new();
    proof {
        assert(views.take(0) =~= Seq::empty());
    }
    let mut i: usize = 0;
    while i < entries.len()
        invariant
            i <= entries@.len(),
            views == link_views(entries@),
            canonical(views),
            pair_views(edges@).no_duplicates(),
            forall|edge: (Seq<Seq<char>>, Seq<Seq<char>>)| #[trigger]
                pair_views(edges@).contains(edge) <==> edges_of(views.take(i as int)).contains(
                    edge,
                ) && !right@.contains(edge),
            texts == spelling_of(entries@),
            pairs_within(edges@, texts),
        decreases entries@.len() - i,
    {
        proof {
            let own = path_texts(entries@[i as int].sources@);
            assert(writes_target(entries@, entries@[i as int].target.spec_text(), i as int));
            assert forall|text: Seq<char>| own.to_set().contains(text) implies
                texts.sources.contains(text) by {
                let j = choose|j: int| 0 <= j < own.len() && own[j] == text;
                assert(writes_source(entries@, text, i as int, j));
            }
        }
        let ghost before = pair_views(edges@);
        let sources = right.inlinks_of(&entries[i].target);
        let ghost x = views[i as int].1;
        let ghost y = file_paths(sources@);
        assert(x == file_paths(entries@[i as int].sources@));
        diff_sorted_sources(
            &entries[i].target,
            entries[i].sources.as_slice(),
            sources,
            &mut edges,
        );
        proof {
            lemma_missing(x, y);
            lemma_missing_step(views, i as int, before, x, y, right@, pair_views(edges@));
        }
        i = i + 1;
    }
    proof {
        assert(views.take(i as int) =~= views);
        lemma_pairs_within(edges@, texts);
    }
    edges
}

proof fn lemma_missing_step(
    views: Seq<(Seq<Seq<char>>, Seq<Seq<Seq<char>>>)>,
    i: int,
    before: Seq<(Seq<Seq<char>>, Seq<Seq<char>>)>,
    x: Seq<Seq<Seq<char>>>,
    y: Seq<Seq<Seq<char>>>,
    right: Set<(Seq<Seq<char>>, Seq<Seq<char>>)>,
    after: Seq<(Seq<Seq<char>>, Seq<Seq<char>>)>,
)
    requires
        canonical(views),
        0 <= i < views.len(),
        x == views[i].1,
        lists_sources(y, right, views[i].0),
        before.no_duplicates(),
        forall|edge: (Seq<Seq<char>>, Seq<Seq<char>>)| #[trigger]
            before.contains(edge) <==> edges_of(views.take(i)).contains(edge) && !right.contains(
                edge,
            ),
        after == before + pairs_with(views[i].0, missing_from(x, y)),
        missing_from(x, y).no_duplicates(),
        forall|p: Seq<Seq<char>>| #[trigger]
            missing_from(x, y).contains(p) <==> x.contains(p) && !y.contains(p),
    ensures
        after.no_duplicates(),
        forall|edge: (Seq<Seq<char>>, Seq<Seq<char>>)| #[trigger]
            after.contains(edge) <==> edges_of(views.take(i + 1)).contains(edge)
                && !right.contains(edge),
{
    let target = views[i].0;
    let lacking = missing_from(x, y);
    let own = pairs_with(target, lacking);
    let prior = views.take(i);
    let next = views.take(i + 1);
    law_strict_paths_are_distinct(targets_of(views));
    assert forall|edge: (Seq<Seq<char>>, Seq<Seq<char>>)| #[trigger]
        edges_of(prior).contains(edge) implies edge.0 != target by {
        let k = choose|k: int| says(prior, edge, k);
        assert(targets_of(views)[k] == edge.0);
        assert(targets_of(views)[i] == target);
    }
    assert forall|k: int, m: int| 0 <= k < after.len() && 0 <= m < after.len() && k != m implies
    after[k] != after[m] by {
        if k < before.len() && m < before.len() {
            assert(after[k] == before[k] && after[m] == before[m]);
        } else if k >= before.len() && m >= before.len() {
            assert(after[k] == own[k - before.len()] && after[m] == own[m - before.len()]);
            assert(lacking[k - before.len()] != lacking[m - before.len()]);
        } else if k < before.len() {
            assert(before.contains(after[k]));
            assert(after[m] == own[m - before.len()]);
        } else {
            assert(before.contains(after[m]));
            assert(after[k] == own[k - before.len()]);
        }
    }
    assert forall|edge: (Seq<Seq<char>>, Seq<Seq<char>>)| #[trigger]
        after.contains(edge) <==> edges_of(next).contains(edge) && !right.contains(edge) by {
        if after.contains(edge) {
            let k = choose|k: int| 0 <= k < after.len() && after[k] == edge;
            if k < before.len() {
                assert(before[k] == edge);
                assert(before.contains(edge));
                let m = choose|m: int| says(prior, edge, m);
                assert(prior[m] == next[m]);
                assert(says(next, edge, m));
            } else {
                assert(own[k - before.len()] == edge);
                assert(lacking[k - before.len()] == edge.1);
                assert(lacking.contains(edge.1));
                assert(says(next, edge, i));
                assert(y.contains(edge.1) <==> right.contains((target, edge.1)));
            }
        }
        if edges_of(next).contains(edge) && !right.contains(edge) {
            let m = choose|m: int| says(next, edge, m);
            if m < i {
                assert(prior[m] == next[m]);
                assert(says(prior, edge, m));
                assert(before.contains(edge));
                let k = choose|k: int| 0 <= k < before.len() && before[k] == edge;
                assert(after[k] == edge);
            } else {
                assert(edge.0 == target && x.contains(edge.1));
                assert(y.contains(edge.1) <==> right.contains((target, edge.1)));
                assert(lacking.contains(edge.1));
                let k = choose|k: int| 0 <= k < lacking.len() && lacking[k] == edge.1;
                assert(after[before.len() + k] == edge);
            }
        }
    }
}

impl InlinkDelta {
    /// How the links that are new are written.
    pub closed spec fn upserted_spelling(self) -> Spelling {
        pair_spelling(self.upserted@)
    }

    /// How the links that are gone are written.
    pub closed spec fn deleted_spelling(self) -> Spelling {
        pair_spelling(self.deleted@)
    }

    /// What changed from `persisted` to `current`.
    pub fn compute(current: &InlinkMap, persisted: &InlinkMap) -> (delta: Self)
        ensures
            delta@.upserted.no_duplicates(),
            delta@.upserted.to_set() == current@.difference(persisted@),
            delta@.deleted.no_duplicates(),
            delta@.deleted.to_set() == persisted@.difference(current@),
            delta.upserted_spelling().within(current.spelling()),
            delta.deleted_spelling().within(persisted.spelling()),
    {
        let upserted = missing_edges(current, persisted);
        let deleted = missing_edges(persisted, current);
        let delta = InlinkDelta { upserted, deleted };
        assert(delta@.upserted.to_set() =~= current@.difference(persisted@));
        assert(delta@.deleted.to_set() =~= persisted@.difference(current@));
        delta
    }

    /// Whether nothing changed.
    pub fn is_empty(&self) -> (empty: bool)
        ensures
            empty == (self@.upserted.len() == 0 && self@.deleted.len() == 0),
    {
        self.upserted.len() == 0 && self.deleted.len() == 0
    }

    /// Links that are new, each as target and source.
    pub fn upserted(&self) -> (links: &Vec<(FilePath, FilePath)>)
        ensures
            pair_views(links@) == self@.upserted,
            pair_spelling(links@) == self.upserted_spelling(),
    {
        &self.upserted
    }

    /// Links that are gone, each as target and source.
    pub fn deleted(&self) -> (links: &Vec<(FilePath, FilePath)>)
        ensures
            pair_views(links@) == self@.deleted,
            pair_spelling(links@) == self.deleted_spelling(),
    {
        &self.deleted
    }
}

/// Adding the new links and removing those gone leads from the persisted graph
/// to the current one.
pub proof fn law_link_delta_leads_to_current(
    current: Set<(Seq<Seq<char>>, Seq<Seq<char>>)>,
    persisted: Set<(Seq<Seq<char>>, Seq<Seq<char>>)>,
    delta: InlinkDeltaView,
)
    requires
        delta.upserted.to_set() == current.difference(persisted),
        delta.deleted.to_set() == persisted.difference(current),
    ensures
        persisted.difference(delta.deleted.to_set()).union(delta.upserted.to_set()) == current,
        delta.upserted.len() == 0 && delta.deleted.len() == 0 <==> current == persisted,
{
    assert(persisted.difference(delta.deleted.to_set()).union(delta.upserted.to_set())
        =~= current);
    if delta.upserted.len() == 0 && delta.deleted.len() == 0 {
        assert forall|edge: (Seq<Seq<char>>, Seq<Seq<char>>)| #[trigger]
            current.contains(edge) <==> persisted.contains(edge) by {
            if current.contains(edge) && !persisted.contains(edge) {
                assert(current.difference(persisted).contains(edge));
                assert(delta.upserted.to_set().contains(edge));
            }
            if persisted.contains(edge) && !current.contains(edge) {
                assert(persisted.difference(current).contains(edge));
                assert(delta.deleted.to_set().contains(edge));
            }
        }
        assert(current =~= persisted);
    }
    if current == persisted {
        if delta.upserted.len() > 0 {
            assert(delta.upserted.contains(delta.upserted[0]));
            assert(delta.upserted.to_set().contains(delta.upserted[0]));
        }
        if delta.deleted.len() > 0 {
            assert(delta.deleted.contains(delta.deleted[0]));
            assert(delta.deleted.to_set().contains(delta.deleted[0]));
        }
    }
}

} // verus!
