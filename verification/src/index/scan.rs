//! Which files of a workspace are indexed.

use vstd::prelude::*;

use super::sort::{sorted_by_path, SortedByPath};
use crate::file::FileBase;
use crate::path::{path_parts, FilePath};
use crate::text::same_text;

verus! {

/// Where the index database is, relative to the workspace.
pub open spec fn index_file() -> Seq<char> {
    ".traces/index.redb"@
}

/// Some folder of the path is called `.git`.
pub open spec fn in_git(path: Seq<Seq<char>>) -> bool {
    exists|i: int| 0 <= i < path.len() - 1 && #[trigger] path[i] == ".git"@
}

/// A file is indexed: it is a regular file, not in a `.git` folder, and not the
/// index database.
pub open spec fn is_scanned(path: Seq<Seq<char>>, is_file: bool) -> bool {
    is_file && !in_git(path) && path != path_parts(index_file())
}

/// Whether the file at `path`, relative to the workspace, is indexed.
pub fn is_indexed(path: &FilePath, is_file: bool) -> (indexed: bool)
    ensures
        indexed == is_scanned(path@, is_file),
{
    if !is_file {
        return false;
    }
    let parts = path.parts();
    let n: usize = parts.len();
    let ghost texts = path@;
    let mut i: usize = 0;
    while n > 0 && i < n - 1
        invariant
            n == parts@.len(),
            i <= n,
            n > 0 ==> i <= n - 1,
            texts == crate::path::part_texts(parts@),
            texts == path@,
            forall|k: int| 0 <= k < i ==> (#[trigger] texts[k]) != ".git"@,
        decreases n - i,
    {
        assert(texts[i as int] == parts@[i as int]@);
        if same_text(parts[i].as_str(), ".git") {
            return false;
        }
        i = i + 1;
    }
    !path.same(&FilePath::new(".traces/index.redb"))
}

/// What a walk found at one place.
pub struct ScannedNode {
    /// The file.
    pub file: FileBase,
    /// It is a regular file, no directory and no link.
    pub is_file: bool,
}

/// The files of the nodes that are indexed.
pub open spec fn scanned_files(nodes: Seq<ScannedNode>) -> Seq<FileBase>
    decreases nodes.len(),
{
    if nodes.len() == 0 {
        Seq::empty()
    } else {
        let before = scanned_files(nodes.drop_last());
        if is_scanned(nodes.last().file@.path, nodes.last().is_file) {
            before.push(nodes.last().file)
        } else {
            before
        }
    }
}

/// The indexed files among what a walk found, in the order of their paths.
pub fn collect_files(nodes: Vec<ScannedNode>) -> (files: SortedByPath<FileBase>)
    ensures
        files@ == sorted_by_path(scanned_files(nodes@)),
{
    let ghost all = nodes@;
    let mut files: Vec<FileBase> = Vec::new();
    assert(all.take(0) =~= Seq::empty());
    for node in it: nodes
        invariant
            it.seq() == all,
            files@ == scanned_files(all.take(it.index())),
    {
        proof {
            let next = all.take(it.index() + 1);
            assert(next.drop_last() =~= all.take(it.index()));
            assert(next.last() == node);
        }
        if is_indexed(node.file.path(), node.is_file) {
            files.push(node.file);
        }
    }
    assert(all.take(all.len() as int) =~= all);
    SortedByPath::sorted(files)
}

/// Nothing in a `.git` folder is indexed, nor the database itself.
pub proof fn law_git_and_database_are_skipped(path: Seq<Seq<char>>, is_file: bool)
    ensures
        in_git(path) ==> !is_scanned(path, is_file),
        !is_scanned(path_parts(index_file()), is_file),
{
}

} // verus!
