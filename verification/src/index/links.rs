//! Which file a link points to.

use vstd::prelude::*;

use super::delta::{file_views, view_texts};
use super::sort::{law_search_is_complete, places, SortedByPath};
use crate::file::{folder_or_empty, FileBase};
use crate::path::{
    extension_of, name_of, path_parts, stem_of, with_extension_of, FilePath,
};
use crate::text::{chars_of, contains_char, same_text, text_between};

verus! {

/// Contents of a [`LinkTarget`].
pub enum TargetView {
    /// A path.
    Path(Seq<char>),
    /// A path and a place in that file.
    PathWithAnchor(Seq<char>, Seq<char>),
    /// A place in the linking file itself.
    AnchorOnly(Seq<char>),
}

impl TargetView {
    /// The path, where there is one.
    pub open spec fn path_text(self) -> Option<Seq<char>> {
        match self {
            TargetView::Path(path) => Some(path),
            TargetView::PathWithAnchor(path, _) => Some(path),
            TargetView::AnchorOnly(_) => None,
        }
    }
}

/// The target of a link, split at its anchor.
#[derive(Debug)]
pub enum LinkTarget {
    /// A path.
    Path(String),
    /// A path and a place in that file.
    PathWithAnchor(String, String),
    /// A place in the linking file itself.
    AnchorOnly(String),
}

impl View for LinkTarget {
    type V = TargetView;

    open spec fn view(&self) -> TargetView {
        match self {
            LinkTarget::Path(path) => TargetView::Path(path@),
            LinkTarget::PathWithAnchor(path, anchor) => TargetView::PathWithAnchor(
                path@,
                anchor@,
            ),
            LinkTarget::AnchorOnly(anchor) => TargetView::AnchorOnly(anchor@),
        }
    }
}

/// The first position from `from` on where `s` holds a `#`; its length without
/// one.
pub open spec fn hash_position(s: Seq<char>, from: int) -> int
    decreases s.len() - from,
{
    if from >= s.len() || s[from] == '#' {
        from
    } else {
        hash_position(s, from + 1)
    }
}

/// A target text split at its first `#`.
pub open spec fn target_of(text: Seq<char>) -> TargetView {
    let at = hash_position(text, 0);
    if at >= text.len() {
        TargetView::Path(text)
    } else if at == 0 {
        TargetView::AnchorOnly(text.skip(1))
    } else {
        TargetView::PathWithAnchor(text.take(at), text.skip(at + 1))
    }
}

impl LinkTarget {
    /// Splits a target text at its first `#`.
    pub fn parse(text: &str) -> (target: Self)
        ensures
            target@ == target_of(text@),
    {
        let chars = chars_of(text);
        let n: usize = chars.len();
        let mut at: usize = 0;
        while at < n && chars[at] != '#'
            invariant
                at <= n,
                n == chars@.len(),
                hash_position(chars@, 0) == hash_position(chars@, at as int),
            decreases n - at,
        {
            at = at + 1;
        }
        if at >= n {
            return LinkTarget::Path(text.to_owned());
        }
        let anchor = text_between(chars.as_slice(), at + 1, n);
        assert(anchor@ =~= text@.skip(at + 1));
        if at == 0 {
            return LinkTarget::AnchorOnly(anchor);
        }
        let path = text_between(chars.as_slice(), 0, at);
        assert(path@ =~= text@.take(at as int));
        LinkTarget::PathWithAnchor(path, anchor)
    }

    /// The path, where there is one.
    pub fn path(&self) -> (path: Option<&str>)
        ensures
            match path {
                Some(text) => self@.path_text() == Some(text@),
                None => self@.path_text() is None,
            },
    {
        match self {
            LinkTarget::Path(path) => Some(path.as_str()),
            LinkTarget::PathWithAnchor(path, _) => Some(path.as_str()),
            LinkTarget::AnchorOnly(_) => None,
        }
    }
}

/// How many leading components two folders share.
pub open spec fn shared_depth(a: Seq<Seq<char>>, b: Seq<Seq<char>>) -> nat
    decreases a.len(),
{
    if a.len() > 0 && b.len() > 0 && a[0] == b[0] {
        1 + shared_depth(a.drop_first(), b.drop_first())
    } else {
        0
    }
}

/// How many steps up and down lead from one folder to the other.
pub open spec fn folder_distance(a: Seq<Seq<char>>, b: Seq<Seq<char>>) -> int {
    a.len() + b.len() - 2 * shared_depth(a, b)
}

/// The folder of a file.
#[derive(Debug)]
pub struct FolderRef {
    folder: FilePath,
}

impl View for FolderRef {
    type V = Seq<Seq<char>>;

    closed spec fn view(&self) -> Seq<Seq<char>> {
        self.folder@
    }
}

proof fn lemma_shared_depth_bound(a: Seq<Seq<char>>, b: Seq<Seq<char>>)
    ensures
        shared_depth(a, b) <= a.len(),
        shared_depth(a, b) <= b.len(),
    decreases a.len(),
{
    if a.len() > 0 && b.len() > 0 && a[0] == b[0] {
        lemma_shared_depth_bound(a.drop_first(), b.drop_first());
    }
}

proof fn lemma_shared_depth_step(a: Seq<Seq<char>>, b: Seq<Seq<char>>, i: int)
    requires
        0 <= i <= a.len(),
        i <= b.len(),
        forall|j: int| 0 <= j < i ==> a[j] == b[j],
    ensures
        shared_depth(a, b) == i + shared_depth(a.skip(i), b.skip(i)),
    decreases i,
{
    if i == 0 {
        assert(a.skip(0) =~= a);
        assert(b.skip(0) =~= b);
    } else {
        let x = a.drop_first();
        let y = b.drop_first();
        assert forall|j: int| 0 <= j < i - 1 implies x[j] == y[j] by {
            assert(x[j] == a[j + 1] && y[j] == b[j + 1]);
        }
        lemma_shared_depth_step(x, y, i - 1);
        assert(x.skip(i - 1) =~= a.skip(i));
        assert(y.skip(i - 1) =~= b.skip(i));
        assert(a[0] == b[0]);
    }
}

impl FolderRef {
    /// The folder of the file at `path`.
    pub fn of(path: &FilePath) -> (folder: Self)
        ensures
            folder@ == folder_or_empty(path@),
    {
        match path.parent() {
            Some(folder) => FolderRef { folder },
            None => FolderRef { folder: FilePath::empty() },
        }
    }

    /// How many steps up and down lead from here to `other`.
    pub fn distance_to(&self, other: &Self) -> (distance: u128)
        ensures
            distance == folder_distance(self@, other@),
    {
        let a = self.folder.parts();
        let b = other.folder.parts();
        let m: usize = a.len();
        let n: usize = b.len();
        let ghost x = self@;
        let ghost y = other@;
        let mut i: usize = 0;
        while i < m && i < n && same_text(a[i].as_str(), b[i].as_str())
            invariant
                i <= m,
                i <= n,
                m == a@.len(),
                n == b@.len(),
                x == crate::path::part_texts(a@),
                y == crate::path::part_texts(b@),
                forall|j: int| 0 <= j < i ==> x[j] == y[j],
            decreases m - i,
        {
            assert(x[i as int] == y[i as int]);
            i = i + 1;
        }
        proof {
            lemma_shared_depth_step(x, y, i as int);
            lemma_shared_depth_bound(x, y);
            if i < m && i < n {
                assert(x.skip(i as int)[0] == x[i as int]);
                assert(y.skip(i as int)[0] == y[i as int]);
            }
        }
        (m - i) as u128 + (n - i) as u128
    }
}

/// A folder is as far from another as that one from it.
pub proof fn law_distance_is_symmetric(a: Seq<Seq<char>>, b: Seq<Seq<char>>)
    ensures
        folder_distance(a, b) == folder_distance(b, a),
    decreases a.len(),
{
    if a.len() > 0 && b.len() > 0 && a[0] == b[0] {
        law_distance_is_symmetric(a.drop_first(), b.drop_first());
    }
}

/// Only a folder itself is no step away.
pub proof fn law_distance_zero_is_same_folder(a: Seq<Seq<char>>, b: Seq<Seq<char>>)
    ensures
        folder_distance(a, b) >= 0,
        folder_distance(a, b) == 0 <==> a == b,
    decreases a.len(),
{
    if a.len() > 0 && b.len() > 0 && a[0] == b[0] {
        law_distance_zero_is_same_folder(a.drop_first(), b.drop_first());
        assert(a =~= seq![a[0]] + a.drop_first());
        assert(b =~= seq![b[0]] + b.drop_first());
    } else if a.len() == 0 && b.len() == 0 {
        assert(a =~= b);
    }
}

proof fn lemma_shared_depth_through(a: Seq<Seq<char>>, b: Seq<Seq<char>>, c: Seq<Seq<char>>)
    ensures
        shared_depth(a, c) >= shared_depth(a, b) || shared_depth(a, c) >= shared_depth(b, c),
    decreases a.len(),
{
    if a.len() > 0 && b.len() > 0 && c.len() > 0 && a[0] == b[0] && b[0] == c[0] {
        lemma_shared_depth_through(a.drop_first(), b.drop_first(), c.drop_first());
    }
}

/// A way by a third folder is no shorter.
pub proof fn law_distance_triangle(a: Seq<Seq<char>>, b: Seq<Seq<char>>, c: Seq<Seq<char>>)
    ensures
        folder_distance(a, c) <= folder_distance(a, b) + folder_distance(b, c),
{
    lemma_shared_depth_through(a, b, c);
    lemma_shared_depth_bound(a, b);
    lemma_shared_depth_bound(b, c);
}

/// The file at `path` has this stem, and this extension where one is asked for.
pub open spec fn is_candidate(
    path: Seq<Seq<char>>,
    stem: Seq<char>,
    extension: Option<Seq<char>>,
) -> bool {
    match name_of(path) {
        None => false,
        Some(name) => stem_of(name) == stem && (extension is None || extension_of(name)
            == extension),
    }
}

/// How far the folders of two files are apart.
pub open spec fn file_distance(from: Seq<Seq<char>>, to: Seq<Seq<char>>) -> int {
    folder_distance(folder_or_empty(from), folder_or_empty(to))
}

/// The file at position `i` is a candidate, and nearer than all others.
pub open spec fn is_nearest(
    paths: Seq<Seq<Seq<char>>>,
    stem: Seq<char>,
    extension: Option<Seq<char>>,
    from: Seq<Seq<char>>,
    i: int,
) -> bool {
    &&& 0 <= i < paths.len()
    &&& is_candidate(paths[i], stem, extension)
    &&& forall|j: int|
        0 <= j < paths.len() && j != i && is_candidate(#[trigger] paths[j], stem, extension)
            ==> file_distance(from, paths[i]) < file_distance(from, paths[j])
}

/// The candidate that is nearer than all others, where there is one.
pub open spec fn nearest(
    paths: Seq<Seq<Seq<char>>>,
    stem: Seq<char>,
    extension: Option<Seq<char>>,
    from: Seq<Seq<char>>,
) -> Option<Seq<Seq<char>>> {
    if exists|i: int| is_nearest(paths, stem, extension, from, i) {
        Some(paths[choose|i: int| is_nearest(paths, stem, extension, from, i)])
    } else {
        None
    }
}

/// The stem of a path, or the text itself where it has no name.
pub open spec fn stem_or(path: Seq<Seq<char>>, text: Seq<char>) -> Seq<char> {
    match name_of(path) {
        Some(name) => stem_of(name),
        None => text,
    }
}

/// The extension of a path.
pub open spec fn path_extension(path: Seq<Seq<char>>) -> Option<Seq<char>> {
    match name_of(path) {
        Some(name) => extension_of(name),
        None => None,
    }
}

/// The file that a bare name means: the nearest with the same stem and
/// extension, else the nearest with the same stem.
pub open spec fn named_file(
    paths: Seq<Seq<Seq<char>>>,
    from: Seq<Seq<char>>,
    text: Seq<char>,
) -> Option<Seq<Seq<char>>> {
    let path = path_parts(text);
    let stem = stem_or(path, text);
    let extension = path_extension(path);
    if extension is Some && nearest(paths, stem, extension, from) is Some {
        nearest(paths, stem, extension, from)
    } else {
        nearest(paths, stem, None, from)
    }
}

/// The file that a link means: the one at the path, else the one at the path
/// with `.md` where it has no extension, else, for a bare name, the nearest
/// file of that name.
pub open spec fn linked_file(
    paths: Seq<Seq<Seq<char>>>,
    from: Seq<Seq<char>>,
    target: TargetView,
) -> Option<Seq<Seq<char>>> {
    match target.path_text() {
        None => None,
        Some(text) => {
            let path = path_parts(text);
            if text.len() == 0 {
                None
            } else if paths.contains(path) {
                Some(path)
            } else if path_extension(path) is None && paths.contains(
                with_extension_of(path, "md"@),
            ) {
                Some(with_extension_of(path, "md"@))
            } else if text.contains('/') {
                None
            } else {
                named_file(paths, from, text)
            }
        },
    }
}

proof fn lemma_nearest(
    paths: Seq<Seq<Seq<char>>>,
    stem: Seq<char>,
    extension: Option<Seq<char>>,
    from: Seq<Seq<char>>,
    i: int,
)
    requires
        is_nearest(paths, stem, extension, from, i),
    ensures
        nearest(paths, stem, extension, from) == Some(paths[i]),
{
    let k = choose|k: int| is_nearest(paths, stem, extension, from, k);
    if k != i {
        assert(file_distance(from, paths[i]) < file_distance(from, paths[k]));
        assert(file_distance(from, paths[k]) < file_distance(from, paths[i]));
    }
}

fn matches_name(path: &FilePath, stem: &str, extension: Option<&str>) -> (found: bool)
    ensures
        found == is_candidate(
            path@,
            stem@,
            match extension {
                Some(text) => Some(text@),
                None => None,
            },
        ),
{
    let same_stem = match path.stem() {
        Some(own) => same_text(own.as_str(), stem),
        None => false,
    };
    if !same_stem {
        return false;
    }
    match extension {
        None => true,
        Some(wanted) => match path.extension() {
            Some(own) => same_text(own.as_str(), wanted),
            None => false,
        },
    }
}

/// Resolves links against the files of a workspace.
pub struct LinkResolver<'a> {
    files: &'a SortedByPath<FileBase>,
}

impl<'a> LinkResolver<'a> {
    /// The paths of the files.
    pub closed spec fn paths(&self) -> Seq<Seq<Seq<char>>> {
        places(self.files@)
    }

    /// How the paths of the files are written.
    pub closed spec fn texts(&self) -> Seq<Seq<char>> {
        view_texts(file_views(self.files@))
    }

    /// A resolver for these files.
    pub fn new(files: &'a SortedByPath<FileBase>) -> (resolver: Self)
        ensures
            resolver.paths() == places(files@),
            resolver.texts() == view_texts(file_views(files@)),
    {
        LinkResolver { files }
    }

    fn get_by_path(&self, path: &FilePath) -> (found: Option<FilePath>)
        ensures
            match found {
                Some(own) => {
                    &&& self.paths().contains(path@)
                    &&& own@ == path@
                    &&& self.texts().contains(own.spec_text())
                },
                None => !self.paths().contains(path@),
            },
    {
        match self.files.binary_search_by_path(path) {
            Ok(at) => {
                assert(self.paths()[at as int] == path@);
                let own = self.files.as_rows()[at].path().copy();
                assert(self.texts()[at as int] == own.spec_text());
                Some(own)
            },
            Err(at) => {
                proof {
                    law_search_is_complete(self.files@, path@, at as int);
                }
                None
            },
        }
    }

    fn nearest_by_basename(&self, stem: &str, from: &FilePath, extension: Option<&str>) -> (found:
        Option<FilePath>)
        ensures
            match found {
                Some(path) => nearest(
                    self.paths(),
                    stem@,
                    match extension {
                        Some(text) => Some(text@),
                        None => None,
                    },
                    from@,
                ) == Some(path@) && self.texts().contains(path.spec_text()),
                None => nearest(
                    self.paths(),
                    stem@,
                    match extension {
                        Some(text) => Some(text@),
                        None => None,
                    },
                    from@,
                ) is None,
            },
    {
        let ghost paths = self.paths();
        let ghost wanted = match extension {
            Some(text) => Some(text@),
            None => None,
        };
        let files = self.files.as_rows();
        let home = FolderRef::of(from);
        let n: usize = files.len();
        let mut best: usize = n;
        let mut shortest: u128 = 0;
        let mut twin: Ghost<int> = Ghost(0);
        let mut tied = false;
        let mut i: usize = 0;
        while i < n
            invariant
                i <= n,
                n == files@.len(),
                paths == places(files@),
                home@ == folder_or_empty(from@),
                wanted == match extension {
                    Some(text) => Some(text@),
                    None => None,
                },
                best == n ==> forall|j: int|
                    0 <= j < i ==> !is_candidate(#[trigger] paths[j], stem@, wanted),
                best == n || best < i,
                best < n ==> {
                    &&& is_candidate(paths[best as int], stem@, wanted)
                    &&& shortest == file_distance(from@, paths[best as int])
                    &&& forall|j: int|
                        0 <= j < i && is_candidate(#[trigger] paths[j], stem@, wanted)
                            ==> file_distance(from@, paths[j]) >= shortest
                    &&& !tied ==> forall|j: int|
                        0 <= j < i && j != best && is_candidate(
                            #[trigger] paths[j],
                            stem@,
                            wanted,
                        ) ==> file_distance(from@, paths[j]) > shortest
                    &&& tied ==> {
                        &&& 0 <= twin@ < i
                        &&& twin@ != best
                        &&& is_candidate(paths[twin@], stem@, wanted)
                        &&& file_distance(from@, paths[twin@]) == shortest
                    }
                },
            decreases n - i,
        {
            let path = files[i].path();
            assert(paths[i as int] == path@);
            if matches_name(path, stem, extension) {
                let distance: u128 = home.distance_to(&FolderRef::of(path));
                if best == n || distance < shortest {
                    best = i;
                    shortest = distance;
                    tied = false;
                } else if distance == shortest {
                    tied = true;
                    twin = Ghost(i as int);
                }
            }
            i = i + 1;
        }
        if best == n {
            assert forall|k: int| !is_nearest(paths, stem@, wanted, from@, k) by {}
            return None;
        }
        if tied {
            assert forall|k: int| !is_nearest(paths, stem@, wanted, from@, k) by {
                if is_nearest(paths, stem@, wanted, from@, k) {
                    assert(file_distance(from@, paths[k]) >= shortest);
                    if k != best {
                        assert(file_distance(from@, paths[k]) < file_distance(
                            from@,
                            paths[best as int],
                        ));
                    } else {
                        assert(file_distance(from@, paths[k]) < file_distance(
                            from@,
                            paths[twin@],
                        ));
                    }
                }
            }
            return None;
        }
        proof {
            assert(is_nearest(paths, stem@, wanted, from@, best as int));
            lemma_nearest(paths, stem@, wanted, from@, best as int);
        }
        let found = files[best].path().copy();
        assert(self.texts()[best as int] == found.spec_text());
        Some(found)
    }

    /// The file that `target` means in a link of the note at `from`, written as
    /// that file is. Where two files of a bare name are equally near it means
    /// none.
    pub fn resolve(&self, from: &FilePath, target: &LinkTarget) -> (found: Option<FilePath>)
        ensures
            match found {
                Some(path) => linked_file(self.paths(), from@, target@) == Some(path@)
                    && self.texts().contains(path.spec_text()),
                None => linked_file(self.paths(), from@, target@) is None,
            },
    {
        let text = match target.path() {
            Some(text) => text,
            None => return None,
        };
        if text.is_empty() {
            return None;
        }
        let path = FilePath::new(text);
        let own = self.get_by_path(&path);
        if own.is_some() {
            return own;
        }
        let extension = path.extension();
        if extension.is_none() {
            proof {
                reveal_strlit("md");
            }
            let note = path.with_extension("md");
            let own = self.get_by_path(&note);
            if own.is_some() {
                return own;
            }
        }
        if contains_char(text, '/') {
            return None;
        }
        let stem = match path.stem() {
            Some(stem) => stem,
            None => text.to_owned(),
        };
        if let Some(wanted) = &extension {
            let found = self.nearest_by_basename(stem.as_str(), from, Some(wanted.as_str()));
            if found.is_some() {
                return found;
            }
        }
        self.nearest_by_basename(stem.as_str(), from, None)
    }
}

/// What a link resolves to is one of the files.
pub proof fn law_links_lead_to_files(
    paths: Seq<Seq<Seq<char>>>,
    from: Seq<Seq<char>>,
    target: TargetView,
)
    ensures
        linked_file(paths, from, target) is Some ==> paths.contains(
            linked_file(paths, from, target).unwrap(),
        ),
{
}

/// A link that is the path of a file leads to that file, from wherever it is.
pub proof fn law_exact_path_wins(
    paths: Seq<Seq<Seq<char>>>,
    from: Seq<Seq<char>>,
    text: Seq<char>,
)
    requires
        text.len() > 0,
        paths.contains(path_parts(text)),
    ensures
        linked_file(paths, from, TargetView::Path(text)) == Some(path_parts(text)),
{
}

/// Where two candidates are equally near and none is nearer, a bare name means
/// no file.
pub proof fn law_ties_mean_no_file(
    paths: Seq<Seq<Seq<char>>>,
    stem: Seq<char>,
    extension: Option<Seq<char>>,
    from: Seq<Seq<char>>,
    i: int,
    j: int,
)
    requires
        0 <= i < j < paths.len(),
        is_candidate(paths[i], stem, extension),
        is_candidate(paths[j], stem, extension),
        file_distance(from, paths[i]) == file_distance(from, paths[j]),
        forall|k: int|
            0 <= k < paths.len() && is_candidate(#[trigger] paths[k], stem, extension)
                ==> file_distance(from, paths[k]) >= file_distance(from, paths[i]),
    ensures
        nearest(paths, stem, extension, from) is None,
{
    assert forall|k: int| !is_nearest(paths, stem, extension, from, k) by {
        if is_nearest(paths, stem, extension, from, k) {
            if k != i {
                assert(file_distance(from, paths[k]) < file_distance(from, paths[i]));
            } else {
                assert(file_distance(from, paths[k]) < file_distance(from, paths[j]));
            }
        }
    }
}

} // verus!
