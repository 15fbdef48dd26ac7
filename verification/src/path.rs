//! Unix paths.
//!
//! A [`FilePath`] holds a path as it was written, and its components. Repeated
//! and trailing separators, and `.` anywhere but at the front of a relative
//! path, say nothing about which file is meant and are no components: two paths
//! name the same place exactly when their components are equal, however they
//! are written. The view of a path is its components.

use vstd::prelude::*;
use vstd::string::*;

use crate::text::{
    chars_of, lemma_text_lt_irreflexive, lemma_text_lt_total, lemma_text_lt_transitive, same_text,
    text_before, text_between, text_lt,
};

verus! {

/// The component of the file system root.
pub open spec fn root_part() -> Seq<char> {
    seq!['/']
}

/// The component of the current directory.
pub open spec fn here_part() -> Seq<char> {
    seq!['.']
}

/// The component of the parent directory.
pub open spec fn up_part() -> Seq<char> {
    seq!['.', '.']
}

/// How many characters stand before the first separator.
pub open spec fn piece_len(s: Seq<char>) -> nat
    decreases s.len(),
{
    if s.len() > 0 && s[0] != '/' {
        1 + piece_len(s.drop_first())
    } else {
        0
    }
}

/// The components of `s`, which follows a separator unless `first`.
pub open spec fn split_parts(s: Seq<char>, first: bool) -> Seq<Seq<char>>
    decreases s.len(),
{
    let n = piece_len(s);
    let piece = s.take(n as int);
    let head = if n > 0 && (first || piece != here_part()) {
        seq![piece]
    } else {
        Seq::empty()
    };
    if n < s.len() {
        head + split_parts(s.skip(n as int + 1), false)
    } else {
        head
    }
}

/// The components of the path written as `s`.
pub open spec fn path_parts(s: Seq<char>) -> Seq<Seq<char>> {
    if s.len() > 0 && s[0] == '/' {
        seq![root_part()] + split_parts(s.skip(1), false)
    } else {
        split_parts(s, true)
    }
}

/// A component that is a name, not a place relative to another.
pub open spec fn is_name(part: Seq<char>) -> bool {
    part != root_part() && part != here_part() && part != up_part()
}

/// Components of one kind stand together: the root first, then `.`, then `..`,
/// then names.
pub open spec fn part_rank(part: Seq<char>) -> int {
    if part == root_part() {
        0
    } else if part == here_part() {
        1
    } else if part == up_part() {
        2
    } else {
        3
    }
}

/// Strict order of components.
pub open spec fn part_lt(a: Seq<char>, b: Seq<char>) -> bool {
    part_rank(a) < part_rank(b) || (part_rank(a) == part_rank(b) && text_lt(a, b))
}

/// Strict order of paths, component by component.
pub open spec fn path_lt(a: Seq<Seq<char>>, b: Seq<Seq<char>>) -> bool
    decreases a.len(),
{
    if b.len() == 0 {
        false
    } else if a.len() == 0 {
        true
    } else if a[0] == b[0] {
        path_lt(a.drop_first(), b.drop_first())
    } else {
        part_lt(a[0], b[0])
    }
}

proof fn lemma_part_lt_irreflexive(a: Seq<char>)
    ensures
        !part_lt(a, a),
{
    lemma_text_lt_irreflexive(a);
}

proof fn lemma_part_lt_transitive(a: Seq<char>, b: Seq<char>, c: Seq<char>)
    requires
        part_lt(a, b),
        part_lt(b, c),
    ensures
        part_lt(a, c),
{
    if text_lt(a, b) && text_lt(b, c) {
        lemma_text_lt_transitive(a, b, c);
    }
}

proof fn lemma_part_lt_total(a: Seq<char>, b: Seq<char>)
    ensures
        a == b || part_lt(a, b) || part_lt(b, a),
{
    lemma_text_lt_total(a, b);
}

/// No path comes before itself.
pub proof fn lemma_path_lt_irreflexive(a: Seq<Seq<char>>)
    ensures
        !path_lt(a, a),
    decreases a.len(),
{
    if a.len() > 0 {
        lemma_path_lt_irreflexive(a.drop_first());
    }
}

/// The order of paths is transitive.
pub proof fn lemma_path_lt_transitive(a: Seq<Seq<char>>, b: Seq<Seq<char>>, c: Seq<Seq<char>>)
    requires
        path_lt(a, b),
        path_lt(b, c),
    ensures
        path_lt(a, c),
    decreases a.len(),
{
    if a.len() > 0 {
        if a[0] == b[0] && b[0] == c[0] {
            lemma_path_lt_transitive(a.drop_first(), b.drop_first(), c.drop_first());
        } else if a[0] != b[0] && b[0] != c[0] {
            lemma_part_lt_transitive(a[0], b[0], c[0]);
            if a[0] == c[0] {
                lemma_part_lt_irreflexive(a[0]);
            }
        }
    }
}

/// Of two different paths one comes before the other.
pub proof fn lemma_path_lt_total(a: Seq<Seq<char>>, b: Seq<Seq<char>>)
    ensures
        a == b || path_lt(a, b) || path_lt(b, a),
    decreases a.len(),
{
    if a.len() == 0 || b.len() == 0 {
        if a.len() == 0 && b.len() == 0 {
            assert(a =~= b);
        }
    } else if a[0] == b[0] {
        lemma_path_lt_total(a.drop_first(), b.drop_first());
        if a.drop_first() == b.drop_first() {
            assert(a =~= seq![a[0]] + a.drop_first());
            assert(b =~= seq![b[0]] + b.drop_first());
        }
    } else {
        lemma_part_lt_total(a[0], b[0]);
    }
}

/// Two paths cannot each come before the other.
pub proof fn lemma_path_lt_asymmetric(a: Seq<Seq<char>>, b: Seq<Seq<char>>)
    requires
        path_lt(a, b),
    ensures
        !path_lt(b, a),
        a != b,
{
    if path_lt(b, a) {
        lemma_path_lt_transitive(a, b, a);
    }
    lemma_path_lt_irreflexive(a);
}

/// The last component, where it is a name.
pub open spec fn name_of(parts: Seq<Seq<char>>) -> Option<Seq<char>> {
    if parts.len() > 0 && is_name(parts.last()) {
        Some(parts.last())
    } else {
        None
    }
}

/// The path without its last component. The root and the empty path have no
/// parent.
pub open spec fn parent_of(parts: Seq<Seq<char>>) -> Option<Seq<Seq<char>>> {
    if parts.len() == 0 || parts.last() == root_part() {
        None
    } else {
        Some(parts.drop_last())
    }
}

/// Position of the last `c` in `s`.
pub open spec fn last_position(s: Seq<char>, c: char) -> Option<int>
    decreases s.len(),
{
    if s.len() == 0 {
        None
    } else if s.last() == c {
        Some(s.len() - 1)
    } else {
        last_position(s.drop_last(), c)
    }
}

/// The name without its extension. A leading dot starts no extension.
pub open spec fn stem_of(name: Seq<char>) -> Seq<char> {
    match last_position(name, '.') {
        Some(at) if at > 0 && name != up_part() => name.take(at),
        _ => name,
    }
}

/// What follows the last dot, unless that dot begins the name.
pub open spec fn extension_of(name: Seq<char>) -> Option<Seq<char>> {
    match last_position(name, '.') {
        Some(at) if at > 0 && name != up_part() => Some(name.skip(at + 1)),
        _ => None,
    }
}

/// The path with the extension of its name replaced. Without a name it stays.
pub open spec fn with_extension_of(parts: Seq<Seq<char>>, extension: Seq<char>) -> Seq<Seq<char>> {
    match name_of(parts) {
        None => parts,
        Some(name) => parts.drop_last().push(extended_name(name, extension)),
    }
}

/// `parts` lies in the folder `folder`, or is that folder.
pub open spec fn is_under(parts: Seq<Seq<char>>, folder: Seq<Seq<char>>) -> bool {
    folder.len() <= parts.len() && parts.take(folder.len() as int) == folder
}

/// The characters of each of `parts`.
pub open spec fn part_texts(parts: Seq<String>) -> Seq<Seq<char>> {
    Seq::new(parts.len(), |i: int| parts[i]@)
}

/// Where the `k`-th component of `s` ends, counted from one; nothing is taken
/// for no component. `s` follows a separator unless `first`.
pub open spec fn split_end(s: Seq<char>, first: bool, k: int) -> int
    decreases s.len(),
{
    let n = piece_len(s) as int;
    let kept = n > 0 && (first || s.take(n) != here_part());
    if k <= 0 {
        0
    } else if (kept && k == 1) || n >= s.len() {
        n
    } else {
        n + 1 + split_end(
            s.skip(n + 1),
            false,
            if kept {
                k - 1
            } else {
                k
            },
        )
    }
}

/// How many characters of the path written as `s` its first `k` components
/// take, with the separators between them.
pub open spec fn parts_end(s: Seq<char>, k: int) -> int {
    if k > 0 && s.len() > 0 && s[0] == '/' {
        1 + split_end(s.skip(1), false, k - 1)
    } else {
        split_end(s, true, k)
    }
}

/// Where the component at `k` begins in the path written as `s`.
pub open spec fn part_start(s: Seq<char>, k: int) -> int {
    parts_end(s, k + 1) - path_parts(s)[k].len()
}

/// The path written as `s` up to the end of its `k`-th component.
pub open spec fn head_text(s: Seq<char>, k: int) -> Seq<char> {
    s.take(parts_end(s, k))
}

/// The path written as `s` from its component at `k` to the end of its last one.
pub open spec fn tail_text(s: Seq<char>, k: int) -> Seq<char> {
    let n = path_parts(s).len() as int;
    if k < n {
        s.subrange(part_start(s, k), parts_end(s, n))
    } else {
        Seq::empty()
    }
}

/// How the parent of the path written as `s` is written: as `s` up to the end of
/// the component before the last. The root and the empty path have none.
pub open spec fn parent_text(s: Seq<char>) -> Option<Seq<char>> {
    match parent_of(path_parts(s)) {
        Some(parent) => Some(head_text(s, parent.len() as int)),
        None => None,
    }
}

/// How the path written as `s` is written as seen from a folder with `k`
/// components that it lies under.
pub open spec fn relative_text(s: Seq<char>, k: int) -> Seq<char> {
    if k == 0 {
        head_text(s, path_parts(s).len() as int)
    } else {
        tail_text(s, k)
    }
}

/// How `name` in the folder written as `s` is written: behind a separator, where
/// the folder is not empty and ends in none.
pub open spec fn joined_text(s: Seq<char>, name: Seq<char>) -> Seq<char> {
    if s.len() == 0 || s.last() == '/' {
        s + name
    } else {
        s + seq!['/'] + name
    }
}

/// How the path written as `s` is written with another extension: its name is
/// replaced and ends it. Without a name it stays.
pub open spec fn with_extension_text(s: Seq<char>, extension: Seq<char>) -> Seq<char> {
    let parts = path_parts(s);
    match name_of(parts) {
        None => s,
        Some(name) => s.take(part_start(s, parts.len() - 1)) + extended_name(name, extension),
    }
}

/// A name with its extension replaced.
pub open spec fn extended_name(name: Seq<char>, extension: Seq<char>) -> Seq<char> {
    if extension.len() == 0 {
        stem_of(name)
    } else {
        stem_of(name) + "."@ + extension
    }
}

/// A text, and the components of the path it writes.
#[derive(Debug)]
struct WrittenPath {
    text: String,
    parts: Vec<String>,
}

/// A path, as it was written and by its components. Both are kept behind one
/// pointer, so that a path takes little room in what holds it.
#[derive(Debug)]
pub struct FilePath {
    written: Box<WrittenPath>,
}

impl View for FilePath {
    type V = Seq<Seq<char>>;

    closed spec fn view(&self) -> Seq<Seq<char>> {
        path_parts(self.written.text@)
    }
}

/// How each path is written.
pub open spec fn path_texts(paths: Seq<FilePath>) -> Seq<Seq<char>> {
    Seq::new(paths.len(), |i: int| paths[i].spec_text())
}

/// The components of a path are those of its text, so paths that are written
/// alike are the same.
pub proof fn law_text_names_path(path: FilePath)
    ensures
        path@ == path_parts(path.spec_text()),
{
}

proof fn lemma_piece_len(s: Seq<char>, n: int)
    requires
        0 <= n <= s.len(),
        forall|i: int| 0 <= i < n ==> s[i] != '/',
        n < s.len() ==> s[n] == '/',
    ensures
        piece_len(s) == n,
    decreases n,
{
    if n > 0 {
        let rest = s.drop_first();
        assert forall|i: int| 0 <= i < n - 1 implies rest[i] != '/' by {
            assert(rest[i] == s[i + 1]);
        }
        lemma_piece_len(rest, n - 1);
    }
}

/// Whether `text` is the single character `c`.
fn is_char(text: &str, c: char) -> (same: bool)
    ensures
        same == (text@ == seq![c]),
{
    let chars = chars_of(text);
    if chars.len() == 1 && chars[0] == c {
        assert(text@ =~= seq![c]);
        true
    } else {
        proof {
            if text@ == seq![c] {
                assert(chars@[0] == c);
            }
        }
        false
    }
}

/// Whether `text` is `..`.
fn is_up(text: &str) -> (same: bool)
    ensures
        same == (text@ == up_part()),
{
    let chars = chars_of(text);
    if chars.len() == 2 && chars[0] == '.' && chars[1] == '.' {
        assert(text@ =~= up_part());
        true
    } else {
        proof {
            if text@ == up_part() {
                assert(chars@[0] == '.' && chars@[1] == '.');
            }
        }
        false
    }
}

fn rank_of(part: &str) -> (rank: u8)
    ensures
        rank == part_rank(part@),
{
    if is_char(part, '/') {
        0
    } else if is_char(part, '.') {
        1
    } else if is_up(part) {
        2
    } else {
        3
    }
}

fn part_before(a: &str, b: &str) -> (before: bool)
    ensures
        before == part_lt(a@, b@),
{
    let left = rank_of(a);
    let right = rank_of(b);
    left < right || (left == right && text_before(a, b))
}

/// Where the last `c` stands in `chars`.
fn find_last(chars: &[char], c: char) -> (at: Option<usize>)
    ensures
        match at {
            Some(i) => last_position(chars@, c) == Some(i as int) && i < chars@.len(),
            None => last_position(chars@, c) is None,
        },
{
    let mut n: usize = chars.len();
    assert(chars@.take(n as int) =~= chars@);
    while n > 0
        invariant
            n <= chars@.len(),
            last_position(chars@, c) == last_position(chars@.take(n as int), c),
        decreases n,
    {
        assert(chars@.take(n as int).last() == chars@[n - 1]);
        assert(chars@.take(n as int).drop_last() =~= chars@.take(n - 1));
        if chars[n - 1] == c {
            return Some(n - 1);
        }
        n = n - 1;
    }
    None
}

/// The position of a name's last dot, where an extension starts there.
fn extension_dot(name: &str) -> (at: Option<usize>)
    ensures
        match at {
            Some(i) => {
                &&& 0 < i < name@.len()
                &&& stem_of(name@) == name@.take(i as int)
                &&& extension_of(name@) == Some(name@.skip(i as int + 1))
            },
            None => stem_of(name@) == name@ && extension_of(name@) is None,
        },
{
    let chars = chars_of(name);
    if is_up(name) {
        return None;
    }
    match find_last(chars.as_slice(), '.') {
        Some(i) => if i > 0 {
            Some(i)
        } else {
            None
        },
        None => None,
    }
}

/// The name without its extension.
pub fn file_stem(name: &str) -> (stem: String)
    ensures
        stem@ == stem_of(name@),
{
    match extension_dot(name) {
        Some(at) => {
            let chars = chars_of(name);
            assert(name@.take(at as int) =~= name@.subrange(0, at as int));
            text_between(chars.as_slice(), 0, at)
        },
        None => name.to_owned(),
    }
}

/// The extension of a name.
pub fn file_extension(name: &str) -> (extension: Option<String>)
    ensures
        match extension {
            Some(text) => extension_of(name@) == Some(text@),
            None => extension_of(name@) is None,
        },
{
    match extension_dot(name) {
        Some(at) => {
            let chars = chars_of(name);
            let end = chars.len();
            assert(name@.skip(at as int + 1) =~= name@.subrange(at as int + 1, end as int));
            Some(text_between(chars.as_slice(), at + 1, end))
        },
        None => None,
    }
}

impl FilePath {
    /// How the path is written.
    pub closed spec fn spec_text(self) -> Seq<char> {
        self.written.text@
    }

    /// The stored components are those of the text.
    #[verifier::type_invariant]
    spec fn holds_parts(self) -> bool {
        part_texts(self.written.parts@) == path_parts(self.written.text@)
    }

    /// The path written as `text`, which is kept as it is.
    pub fn new(text: &str) -> (path: Self)
        ensures
            path@ == path_parts(text@),
            path.spec_text() == text@,
    {
        let chars = chars_of(text);
        let ghost s = chars@;
        let mut parts: Vec<String> = Vec::new();
        let mut pos: usize = 0;
        let mut first = true;
        if chars.len() > 0 && chars[0] == '/' {
            let root = text_between(chars.as_slice(), 0, 1);
            assert(root@ =~= root_part());
            parts.push(root);
            pos = 1;
            first = false;
        }
        assert(s.skip(0) =~= s);
        assert(part_texts(parts@) + split_parts(s.skip(pos as int), first) =~= path_parts(s));
        loop
            invariant_except_break
                part_texts(parts@) + split_parts(s.skip(pos as int), first) == path_parts(s),
            invariant
                s == chars@,
                pos <= s.len(),
                s.len() <= usize::MAX,
            ensures
                part_texts(parts@) == path_parts(s),
            decreases s.len() - pos,
        {
            let ghost rest = s.skip(pos as int);
            let mut end: usize = pos;
            while end < chars.len() && chars[end] != '/'
                invariant
                    s == chars@,
                    pos <= end <= s.len(),
                    forall|i: int| pos <= i < end ==> s[i] != '/',
                decreases s.len() - end,
            {
                end = end + 1;
            }
            proof {
                assert forall|i: int| 0 <= i < end - pos implies rest[i] != '/' by {
                    assert(rest[i] == s[i + pos]);
                }
                lemma_piece_len(rest, end - pos);
                assert(rest.take(end - pos) =~= s.subrange(pos as int, end as int));
            }
            let piece = text_between(chars.as_slice(), pos, end);
            let ghost before = parts@;
            let keep = end > pos && (first || !is_char(piece.as_str(), '.'));
            let ghost head = if keep {
                seq![piece@]
            } else {
                Seq::empty()
            };
            if keep {
                parts.push(piece);
            }
            assert(part_texts(parts@) =~= part_texts(before) + head);
            if end >= chars.len() {
                assert(split_parts(rest, first) == head);
                break;
            }
            assert(rest.skip(end - pos + 1) =~= s.skip(end + 1));
            assert(split_parts(rest, first) == head + split_parts(s.skip(end + 1), false));
            assert(part_texts(before) + (head + split_parts(s.skip(end + 1), false)) =~= (
            part_texts(before) + head) + split_parts(s.skip(end + 1), false));
            pos = end + 1;
            first = false;
        }
        FilePath { written: Box::new(WrittenPath { text: text.to_owned(), parts }) }
    }

    /// The path as it was written.
    pub fn to_text(&self) -> (text: String)
        ensures
            text@ == self.spec_text(),
    {
        self.written.text.clone()
    }

    /// The components.
    pub fn parts(&self) -> (parts: &Vec<String>)
        ensures
            part_texts(parts@) == self@,
    {
        proof {
            use_type_invariant(self);
        }
        &self.written.parts
    }

    /// The same path, written alike.
    pub fn copy(&self) -> (path: Self)
        ensures
            path@ == self@,
            path.spec_text() == self.spec_text(),
    {
        FilePath::new(self.written.text.as_str())
    }

    /// Whether both paths have the same components.
    pub fn same(&self, other: &Self) -> (same: bool)
        ensures
            same == (self@ == other@),
    {
        proof {
            use_type_invariant(self);
            use_type_invariant(other);
        }
        let ghost a = self@;
        let ghost b = other@;
        if self.written.parts.len() != other.written.parts.len() {
            assert(a.len() != b.len());
            return false;
        }
        let mut i: usize = 0;
        while i < self.written.parts.len()
            invariant
                i <= self.written.parts@.len(),
                a == self@,
                b == other@,
                a == part_texts(self.written.parts@),
                b == part_texts(other.written.parts@),
                self.written.parts@.len() == other.written.parts@.len(),
                forall|j: int| 0 <= j < i ==> self.written.parts@[j]@ == other.written.parts@[j]@,
            decreases self.written.parts@.len() - i,
        {
            if !same_text(self.written.parts[i].as_str(), other.written.parts[i].as_str()) {
                assert(a[i as int] != b[i as int]);
                return false;
            }
            i = i + 1;
        }
        assert(a =~= b);
        true
    }

    /// Whether this path comes before `other`.
    pub fn before(&self, other: &Self) -> (before: bool)
        ensures
            before == path_lt(self@, other@),
    {
        proof {
            use_type_invariant(self);
            use_type_invariant(other);
        }
        let mut i: usize = 0;
        assert(self@.skip(0) =~= self@);
        assert(other@.skip(0) =~= other@);
        while i < self.written.parts.len() && i < other.written.parts.len()
            invariant
                i <= self.written.parts@.len(),
                i <= other.written.parts@.len(),
                self@ == part_texts(self.written.parts@),
                other@ == part_texts(other.written.parts@),
                path_lt(self@, other@) == path_lt(self@.skip(i as int), other@.skip(i as int)),
            decreases self.written.parts@.len() - i,
        {
            let ghost a = self@.skip(i as int);
            let ghost b = other@.skip(i as int);
            assert(a[0] == self.written.parts@[i as int]@ && b[0] == other.written.parts@[i as int]@);
            assert(a.drop_first() =~= self@.skip(i + 1));
            assert(b.drop_first() =~= other@.skip(i + 1));
            if !same_text(self.written.parts[i].as_str(), other.written.parts[i].as_str()) {
                return part_before(self.written.parts[i].as_str(), other.written.parts[i].as_str());
            }
            i = i + 1;
        }
        i < other.written.parts.len()
    }

    /// The last component, where it is a name.
    pub fn file_name(&self) -> (name: Option<&str>)
        ensures
            match name {
                Some(text) => name_of(self@) == Some(text@),
                None => name_of(self@) is None,
            },
    {
        proof {
            use_type_invariant(self);
        }
        if self.written.parts.len() == 0 {
            return None;
        }
        let last = self.written.parts[self.written.parts.len() - 1].as_str();
        assert(self@.last() == last@);
        if rank_of(last) == 3 {
            Some(last)
        } else {
            None
        }
    }

    /// The path without its last component, written as this path is.
    pub fn parent(&self) -> (parent: Option<Self>)
        ensures
            match parent {
                Some(path) => {
                    &&& parent_of(self@) == Some(path@)
                    &&& parent_text(self.spec_text()) == Some(path.spec_text())
                },
                None => parent_of(self@) is None && parent_text(self.spec_text()) is None,
            },
    {
        proof {
            use_type_invariant(self);
        }
        if self.written.parts.len() == 0 {
            return None;
        }
        let n: usize = self.written.parts.len() - 1;
        assert(self@.last() == self.written.parts@[n as int]@);
        if is_char(self.written.parts[n].as_str(), '/') {
            return None;
        }
        let chars = chars_of(self.written.text.as_str());
        let end = end_of_parts(&chars, n);
        let text = text_between(chars.as_slice(), 0, end);
        proof {
            assert(text@ =~= head_text(self.written.text@, n as int));
            lemma_head(self.written.text@, n as int);
            assert(self@.take(n as int) =~= self@.drop_last());
        }
        Some(FilePath::new(text.as_str()))
    }

    /// The file name without its extension.
    pub fn stem(&self) -> (stem: Option<String>)
        ensures
            match stem {
                Some(text) => name_of(self@) is Some && text@ == stem_of(name_of(self@).unwrap()),
                None => name_of(self@) is None,
            },
    {
        match self.file_name() {
            Some(name) => Some(file_stem(name)),
            None => None,
        }
    }

    /// The extension of the file name.
    pub fn extension(&self) -> (extension: Option<String>)
        ensures
            match extension {
                Some(text) => name_of(self@) is Some && extension_of(name_of(self@).unwrap())
                    == Some(text@),
                None => name_of(self@) is None || extension_of(name_of(self@).unwrap()) is None,
            },
    {
        match self.file_name() {
            Some(name) => file_extension(name),
            None => None,
        }
    }

    /// The path of `name` in this folder.
    pub(crate) fn join(&self, name: &str) -> (path: Self)
        requires
            is_part(name@),
            name@ != here_part(),
        ensures
            path@ == self@.push(name@),
            path.spec_text() == joined_text(self.spec_text(), name@),
    {
        let chars = chars_of(self.written.text.as_str());
        let mut text = self.written.text.clone();
        if chars.len() > 0 && chars[chars.len() - 1] != '/' {
            text.push('/');
        }
        text.append(name);
        proof {
            assert(text@ =~= joined_text(self.written.text@, name@));
            lemma_join(self.written.text@, name@);
        }
        FilePath::new(text.as_str())
    }

    /// This path with another extension.
    pub fn with_extension(&self, extension: &str) -> (path: Self)
        requires
            !extension@.contains('/'),
        ensures
            path.spec_text() == with_extension_text(self.spec_text(), extension@),
            extension@.len() > 0 ==> path@ == with_extension_of(self@, extension@),
    {
        proof {
            use_type_invariant(self);
        }
        match self.stem() {
            None => self.copy(),
            Some(stem) => {
                let mut name = stem;
                if !extension.is_empty() {
                    name.append(".");
                    name.append(extension);
                }
                let n: usize = self.written.parts.len() - 1;
                let chars = chars_of(self.written.text.as_str());
                let end = end_of_parts(&chars, n + 1);
                let length: usize = chars_of(self.written.parts[n].as_str()).len();
                let ghost s = self.written.text@;
                proof {
                    assert(path_parts(s)[n as int] == self.written.parts@[n as int]@);
                    lemma_start(s, n as int);
                }
                let mut text = text_between(chars.as_slice(), 0, end - length);
                text.append(name.as_str());
                proof {
                    let old_name = self@.last();
                    assert(text@ =~= with_extension_text(s, extension@));
                    if extension@.len() > 0 {
                        law_texts_are_paths(s);
                        lemma_extended_name(old_name, extension@, n as int, self@);
                        lemma_replaced(s, n as int, name@);
                        assert(self@.take(n as int) =~= self@.drop_last());
                    }
                }
                FilePath::new(text.as_str())
            },
        }
    }

    /// Whether this path lies in `folder`, or is that folder.
    pub fn starts_with(&self, folder: &Self) -> (under: bool)
        ensures
            under == is_under(self@, folder@),
    {
        proof {
            use_type_invariant(self);
            use_type_invariant(folder);
        }
        if folder.written.parts.len() > self.written.parts.len() {
            return false;
        }
        let mut i: usize = 0;
        while i < folder.written.parts.len()
            invariant
                i <= folder.written.parts@.len() <= self.written.parts@.len(),
                self@ == part_texts(self.written.parts@),
                folder@ == part_texts(folder.written.parts@),
                forall|j: int| 0 <= j < i ==> self.written.parts@[j]@ == folder.written.parts@[j]@,
            decreases folder.written.parts@.len() - i,
        {
            if !same_text(self.written.parts[i].as_str(), folder.written.parts[i].as_str()) {
                assert(self@.take(folder@.len() as int)[i as int] != folder@[i as int]);
                return false;
            }
            i = i + 1;
        }
        assert(self@.take(folder@.len() as int) =~= folder@);
        true
    }

    /// This path as seen from `root`; the path itself where it does not lie
    /// under `root`.
    pub fn relative_to(&self, root: &Self) -> (relative: Self)
        ensures
            relative@ == if is_under(self@, root@) {
                self@.skip(root@.len() as int)
            } else {
                self@
            },
            relative.spec_text() == if is_under(self@, root@) {
                relative_text(self.spec_text(), root@.len() as int)
            } else {
                self.spec_text()
            },
    {
        proof {
            use_type_invariant(self);
            use_type_invariant(root);
        }
        if !self.starts_with(root) {
            return self.copy();
        }
        let ghost s = self.written.text@;
        let k: usize = root.written.parts.len();
        let n: usize = self.written.parts.len();
        let chars = chars_of(self.written.text.as_str());
        let end = end_of_parts(&chars, n);
        let start: usize = if k == 0 {
            0
        } else if k < n {
            let length: usize = chars_of(self.written.parts[k].as_str()).len();
            proof {
                assert(path_parts(s)[k as int] == self.written.parts@[k as int]@);
                lemma_start(s, k as int);
                lemma_ends_grow(s, k as int + 1, n as int);
            }
            end_of_parts(&chars, k + 1) - length
        } else {
            end
        };
        let text = text_between(chars.as_slice(), start, end);
        proof {
            if k == 0 {
                assert(text@ =~= head_text(s, n as int));
                lemma_head(s, n as int);
                assert(self@.take(n as int) =~= self@.skip(0));
            } else if k < n {
                assert(text@ =~= tail_text(s, k as int));
                lemma_tail(s, k as int);
            } else {
                assert(text@ =~= Seq::empty());
                assert(self@.skip(k as int) =~= Seq::empty());
                assert(path_parts(text@) =~= Seq::empty());
            }
        }
        FilePath::new(text.as_str())
    }

    /// The empty path, which names the root of relative paths.
    pub fn empty() -> (path: Self)
        ensures
            path@ == Seq::<Seq<char>>::empty(),
            path.spec_text() == Seq::<char>::empty(),
    {
        let text = String::new();
        let path = FilePath::new(text.as_str());
        assert(path@ =~= Seq::empty());
        path
    }
}

/// Where the first `k` components of the path written as `chars` end.
fn end_of_parts(chars: &Vec<char>, k: usize) -> (end: usize)
    requires
        k <= path_parts(chars@).len(),
    ensures
        end == parts_end(chars@, k as int),
        end <= chars@.len(),
{
    let ghost s = chars@;
    let mut pos: usize = 0;
    let mut first = true;
    let mut left: usize = k;
    if k > 0 && chars.len() > 0 && chars[0] == '/' {
        pos = 1;
        first = false;
        left = k - 1;
    }
    assert(s.skip(0) =~= s);
    loop
        invariant
            s == chars@,
            pos <= s.len(),
            parts_end(s, k as int) == pos + split_end(s.skip(pos as int), first, left as int),
        decreases s.len() - pos,
    {
        if left == 0 {
            return pos;
        }
        let ghost rest = s.skip(pos as int);
        let mut end: usize = pos;
        while end < chars.len() && chars[end] != '/'
            invariant
                s == chars@,
                pos <= end <= s.len(),
                forall|i: int| pos <= i < end ==> s[i] != '/',
            decreases s.len() - end,
        {
            end = end + 1;
        }
        proof {
            assert forall|i: int| 0 <= i < end - pos implies rest[i] != '/' by {
                assert(rest[i] == s[i + pos]);
            }
            lemma_piece_len(rest, end - pos);
            assert(rest.take(end - pos) =~= s.subrange(pos as int, end as int));
        }
        let piece = text_between(chars.as_slice(), pos, end);
        let kept = end > pos && (first || !is_char(piece.as_str(), '.'));
        if (kept && left == 1) || end >= chars.len() {
            return end;
        }
        assert(rest.skip(end - pos + 1) =~= s.skip(end + 1));
        if kept {
            left = left - 1;
        }
        pos = end + 1;
        first = false;
    }
}

/// The first `k` components of `s` end within it, each further one later, and
/// are all that is written up to there.
proof fn lemma_split_head(s: Seq<char>, first: bool, k: int)
    requires
        0 <= k <= split_parts(s, first).len(),
    ensures
        0 <= split_end(s, first, k) <= s.len(),
        split_parts(s.take(split_end(s, first, k)), first) == split_parts(s, first).take(k),
        k > 0 ==> split_end(s, first, k) >= split_parts(s, first)[k - 1].len(),
        forall|j: int| 0 <= j <= k ==> #[trigger] split_end(s, first, j) <= split_end(s, first, k),
    decreases s.len(),
{
    let n = piece_len(s) as int;
    lemma_piece(s);
    let piece = s.take(n);
    let kept = n > 0 && (first || piece != here_part());
    let e = split_end(s, first, k);
    let all = split_parts(s, first);
    if k == 0 {
        assert(split_parts(s.take(0), first) =~= all.take(0));
    } else if kept && k == 1 {
        let t = s.take(n);
        assert forall|i: int| 0 <= i < n implies t[i] != '/' by {
            if t[i] == '/' {
                assert(piece.contains('/'));
            }
        }
        lemma_piece_len(t, n);
        assert(t.take(n) =~= piece);
        assert(split_parts(t, first) =~= all.take(1));
    } else {
        assert(n < s.len());
        let rest = s.skip(n + 1);
        let left = if kept {
            k - 1
        } else {
            k
        };
        lemma_split_head(rest, false, left);
        let t = s.take(e);
        assert forall|i: int| 0 <= i < n implies t[i] != '/' by {
            if t[i] == '/' {
                assert(piece[i] == '/');
                assert(piece.contains('/'));
            }
        }
        assert(t[n] == s[n]);
        lemma_piece_len(t, n);
        assert(t.take(n) =~= piece);
        assert(t.skip(n + 1) =~= rest.take(e - n - 1));
        assert(split_parts(t, first) =~= all.take(k));
        let more = split_parts(rest, false);
        assert(all[k - 1] == more[left - 1]);
        assert forall|j: int| 0 <= j <= k implies #[trigger] split_end(s, first, j) <= e by {
            if j > 0 && !(kept && j == 1) {
                let fewer = if kept {
                    j - 1
                } else {
                    j
                };
                assert(split_end(rest, false, fewer) <= split_end(rest, false, left));
            }
        }
    }
}

/// What is written from the component at `k` on has the components from there
/// on.
proof fn lemma_split_tail(s: Seq<char>, first: bool, k: int)
    requires
        0 <= k < split_parts(s, first).len(),
    ensures
        ({
            let b = split_end(s, first, k + 1) - split_parts(s, first)[k].len();
            &&& 0 <= b < s.len()
            &&& s[b] != '/'
            &&& split_parts(s.skip(b), true) == split_parts(s, first).skip(k)
            &&& k == 0 && first && s[0] != '/' ==> b == 0
        }),
    decreases s.len(),
{
    let n = piece_len(s) as int;
    lemma_piece(s);
    let piece = s.take(n);
    let kept = n > 0 && (first || piece != here_part());
    let all = split_parts(s, first);
    if kept && k == 0 {
        assert(all[0] == piece);
        assert(s.skip(0) =~= s);
        assert(s[0] == piece[0]);
        if piece[0] == '/' {
            assert(piece.contains('/'));
        }
        assert(split_parts(s, true) =~= all.skip(0));
    } else {
        let rest = s.skip(n + 1);
        let more = split_parts(rest, false);
        let left = if kept {
            k - 1
        } else {
            k
        };
        lemma_split_tail(rest, false, left);
        assert(all[k] == more[left]);
        let b = split_end(s, first, k + 1) - all[k].len();
        assert(s.skip(b) =~= rest.skip(b - n - 1));
        assert(all.skip(k) =~= more.skip(left));
    }
}

/// A component that takes the place of the one at `k`, and all behind it, is
/// the last one.
proof fn lemma_split_replaced(s: Seq<char>, first: bool, k: int, w: Seq<char>)
    requires
        0 <= k < split_parts(s, first).len(),
        is_part(w),
        w != here_part(),
    ensures
        ({
            let b = split_end(s, first, k + 1) - split_parts(s, first)[k].len();
            &&& 0 <= b <= s.len()
            &&& split_parts(s.take(b) + w, first) == split_parts(s, first).take(k).push(w)
        }),
    decreases s.len(),
{
    let n = piece_len(s) as int;
    lemma_piece(s);
    lemma_split_tail(s, first, k);
    let piece = s.take(n);
    let kept = n > 0 && (first || piece != here_part());
    let all = split_parts(s, first);
    let b = split_end(s, first, k + 1) - all[k].len();
    let t = s.take(b) + w;
    if kept && k == 0 {
        assert(t =~= w);
        lemma_single(w, first);
        assert(all.take(0).push(w) =~= seq![w]);
    } else {
        let rest = s.skip(n + 1);
        let left = if kept {
            k - 1
        } else {
            k
        };
        lemma_split_replaced(rest, false, left, w);
        assert(all[k] == split_parts(rest, false)[left]);
        assert forall|i: int| 0 <= i < n implies t[i] != '/' by {
            if t[i] == '/' {
                assert(piece[i] == '/');
                assert(piece.contains('/'));
            }
        }
        assert(t[n] == s[n]);
        lemma_piece_len(t, n);
        assert(t.take(n) =~= piece);
        assert(t.skip(n + 1) =~= rest.take(b - n - 1) + w);
        assert(split_parts(t, first) =~= all.take(k).push(w));
    }
}

/// A text without separators is one component.
proof fn lemma_single(w: Seq<char>, first: bool)
    requires
        is_part(w),
        first || w != here_part(),
    ensures
        split_parts(w, first) == seq![w],
{
    assert forall|i: int| 0 <= i < w.len() implies w[i] != '/' by {
        if w[i] == '/' {
            assert(w.contains('/'));
        }
    }
    lemma_piece_len(w, w.len() as int);
    assert(w.take(w.len() as int) =~= w);
    assert(split_parts(w, first) =~= seq![w]);
}

/// A component that is written behind a separator is added.
proof fn lemma_split_join(s: Seq<char>, first: bool, w: Seq<char>)
    requires
        is_part(w),
        w != here_part(),
        s.len() > 0,
    ensures
        split_parts(
            if s.last() == '/' {
                s + w
            } else {
                s + seq!['/'] + w
            },
            first,
        ) == split_parts(s, first).push(w),
    decreases s.len(),
{
    let t = if s.last() == '/' {
        s + w
    } else {
        s + seq!['/'] + w
    };
    let n = piece_len(s) as int;
    lemma_piece(s);
    let piece = s.take(n);
    let kept = n > 0 && (first || piece != here_part());
    assert forall|i: int| 0 <= i < n implies t[i] != '/' by {
        assert(t[i] == s[i]);
        if s[i] == '/' {
            assert(piece[i] == '/');
            assert(piece.contains('/'));
        }
    }
    if n == s.len() {
        assert(s.last() == piece[n - 1]);
        if s.last() == '/' {
            assert(piece.contains('/'));
        }
    }
    assert(t[n] == '/');
    lemma_piece_len(t, n);
    assert(t.take(n) =~= piece);
    let rest = s.skip(n + 1);
    if n + 1 < s.len() {
        assert(rest.last() == s.last());
        lemma_split_join(rest, false, w);
        assert(t.skip(n + 1) =~= if rest.last() == '/' {
            rest + w
        } else {
            rest + seq!['/'] + w
        });
    } else {
        assert(t.skip(n + 1) =~= w);
        lemma_single(w, false);
        if n < s.len() {
            assert(rest.len() == 0);
            assert(split_parts(rest, false) =~= Seq::empty());
        }
    }
    assert(split_parts(t, first) =~= split_parts(s, first).push(w));
}

proof fn lemma_head(s: Seq<char>, k: int)
    requires
        0 <= k <= path_parts(s).len(),
    ensures
        0 <= parts_end(s, k) <= s.len(),
        path_parts(head_text(s, k)) == path_parts(s).take(k),
{
    if s.len() > 0 && s[0] == '/' {
        if k > 0 {
            lemma_split_head(s.skip(1), false, k - 1);
            let t = head_text(s, k);
            assert(t[0] == '/');
            assert(t.skip(1) =~= s.skip(1).take(parts_end(s, k) - 1));
            assert(path_parts(t) =~= path_parts(s).take(k));
        } else {
            assert(path_parts(s.take(0)) =~= path_parts(s).take(0));
        }
    } else {
        lemma_split_head(s, true, k);
        let t = head_text(s, k);
        if t.len() > 0 {
            assert(t[0] == s[0]);
        }
    }
}

/// Further components end later.
proof fn lemma_ends_grow(s: Seq<char>, j: int, k: int)
    requires
        0 <= j <= k <= path_parts(s).len(),
    ensures
        parts_end(s, j) <= parts_end(s, k),
{
    if s.len() > 0 && s[0] == '/' {
        if k > 0 {
            lemma_split_head(s.skip(1), false, k - 1);
            if j > 0 {
                assert(split_end(s.skip(1), false, j - 1) <= split_end(s.skip(1), false, k - 1));
            }
        }
    } else {
        lemma_split_head(s, true, k);
        assert(split_end(s, true, j) <= split_end(s, true, k));
    }
}

proof fn lemma_start(s: Seq<char>, k: int)
    requires
        0 <= k < path_parts(s).len(),
    ensures
        0 <= part_start(s, k) <= parts_end(s, k + 1) <= s.len(),
{
    lemma_head(s, k + 1);
    if s.len() > 0 && s[0] == '/' {
        if k > 0 {
            lemma_split_head(s.skip(1), false, k);
            assert(path_parts(s)[k] == split_parts(s.skip(1), false)[k - 1]);
        }
    } else {
        lemma_split_head(s, true, k + 1);
    }
}

proof fn lemma_tail(s: Seq<char>, k: int)
    requires
        0 < k < path_parts(s).len(),
    ensures
        path_parts(tail_text(s, k)) == path_parts(s).skip(k),
{
    let n = path_parts(s).len() as int;
    let e = parts_end(s, n);
    let t = head_text(s, n);
    lemma_head(s, n);
    lemma_start(s, k);
    lemma_ends_grow(s, k + 1, n);
    assert(path_parts(s).take(n) =~= path_parts(s));
    lemma_same_ends(s, k + 1);
    let b = part_start(s, k);
    let tail = tail_text(s, k);
    assert(tail =~= t.skip(b));
    if s.len() > 0 && s[0] == '/' {
        lemma_ends_grow(s, 1, n);
        assert(t[0] == '/');
        let rest = t.skip(1);
        lemma_split_tail(rest, false, k - 1);
        assert(path_parts(t)[k] == split_parts(rest, false)[k - 1]);
        assert(tail =~= rest.skip(b - 1));
        assert(tail[0] == rest[b - 1]);
        assert(path_parts(t).skip(k) =~= split_parts(rest, false).skip(k - 1));
    } else {
        if t.len() > 0 {
            assert(t[0] == s[0]);
        }
        lemma_split_tail(t, true, k);
        assert(tail[0] == t[b]);
    }
}

/// Cutting off what follows the last component does not move the others.
proof fn lemma_same_ends(s: Seq<char>, k: int)
    requires
        0 <= k <= path_parts(s).len(),
    ensures
        parts_end(head_text(s, path_parts(s).len() as int), k) == parts_end(s, k),
{
    let n = path_parts(s).len() as int;
    lemma_head(s, n);
    let t = head_text(s, n);
    if s.len() > 0 && s[0] == '/' {
        lemma_ends_grow(s, 1, n);
        assert(t[0] == '/');
        assert(t.skip(1) =~= s.skip(1).take(parts_end(s, n) - 1));
        if k > 0 {
            lemma_split_same_ends(s.skip(1), false, n - 1, k - 1);
        }
    } else {
        if t.len() > 0 {
            assert(t[0] == s[0]);
        }
        lemma_split_same_ends(s, true, n, k);
    }
}

proof fn lemma_split_same_ends(s: Seq<char>, first: bool, m: int, k: int)
    requires
        0 <= k <= m <= split_parts(s, first).len(),
    ensures
        split_end(s.take(split_end(s, first, m)), first, k) == split_end(s, first, k),
    decreases s.len(),
{
    lemma_split_head(s, first, m);
    if k > 0 {
        let n = piece_len(s) as int;
        lemma_piece(s);
        let piece = s.take(n);
        let kept = n > 0 && (first || piece != here_part());
        let e = split_end(s, first, m);
        let t = s.take(e);
        if kept && m == 1 {
            assert forall|i: int| 0 <= i < n implies t[i] != '/' by {
                if t[i] == '/' {
                    assert(piece.contains('/'));
                }
            }
            lemma_piece_len(t, n);
            assert(t.take(n) =~= piece);
        } else {
            let rest = s.skip(n + 1);
            let most = if kept {
                m - 1
            } else {
                m
            };
            lemma_split_head(rest, false, most);
            assert forall|i: int| 0 <= i < n implies t[i] != '/' by {
                if t[i] == '/' {
                    assert(piece[i] == '/');
                    assert(piece.contains('/'));
                }
            }
            assert(t[n] == s[n]);
            lemma_piece_len(t, n);
            assert(t.take(n) =~= piece);
            assert(t.skip(n + 1) =~= rest.take(e - n - 1));
            let left = if kept {
                k - 1
            } else {
                k
            };
            lemma_split_same_ends(rest, false, most, left);
        }
    }
}

proof fn lemma_replaced(s: Seq<char>, k: int, w: Seq<char>)
    requires
        0 <= k < path_parts(s).len(),
        is_part(w),
        w != here_part(),
        path_parts(s)[k] != root_part() || k > 0,
    ensures
        path_parts(s.take(part_start(s, k)) + w) == path_parts(s).take(k).push(w),
{
    lemma_start(s, k);
    let b = part_start(s, k);
    let t = s.take(b) + w;
    if s.len() > 0 && s[0] == '/' {
        let rest = s.skip(1);
        lemma_split_replaced(rest, false, k - 1, w);
        assert(path_parts(s)[k] == split_parts(rest, false)[k - 1]);
        assert(t[0] == '/');
        assert(t.skip(1) =~= rest.take(b - 1) + w);
        assert(path_parts(t) =~= path_parts(s).take(k).push(w));
    } else {
        lemma_split_replaced(s, true, k, w);
        if b > 0 {
            assert(t[0] == s[0]);
        } else {
            assert(t =~= w);
            assert(w[0] != '/') by {
                if w[0] == '/' {
                    assert(w.contains('/'));
                }
            }
        }
    }
}

proof fn lemma_join(s: Seq<char>, w: Seq<char>)
    requires
        is_part(w),
        w != here_part(),
    ensures
        path_parts(joined_text(s, w)) == path_parts(s).push(w),
{
    let t = joined_text(s, w);
    if s.len() == 0 {
        assert(t =~= w);
        assert(w[0] != '/') by {
            if w[0] == '/' {
                assert(w.contains('/'));
            }
        }
        lemma_single(w, true);
        assert(path_parts(s) =~= Seq::empty());
        assert(path_parts(s).push(w) =~= seq![w]);
    } else {
        assert(t[0] == s[0]);
        if s[0] == '/' {
            let rest = s.skip(1);
            if rest.len() == 0 {
                assert(t.skip(1) =~= w);
                lemma_single(w, false);
                assert(split_parts(rest, false) =~= Seq::empty());
            } else {
                assert(rest.last() == s.last());
                lemma_split_join(rest, false, w);
                assert(t.skip(1) =~= if rest.last() == '/' {
                    rest + w
                } else {
                    rest + seq!['/'] + w
                });
            }
            assert(path_parts(t) =~= path_parts(s).push(w));
        } else {
            lemma_split_join(s, true, w);
        }
    }
}

/// A name with another extension is a name.
proof fn lemma_extended_name(
    name: Seq<char>,
    extension: Seq<char>,
    at: int,
    parts: Seq<Seq<char>>,
)
    requires
        is_path(parts),
        0 <= at == parts.len() - 1,
        name == parts[at],
        is_name(name),
        extension.len() > 0,
        !extension.contains('/'),
    ensures
        is_part(extended_name(name, extension)),
        extended_name(name, extension) != here_part(),
{
    reveal_strlit(".");
    assert(is_part(name));
    let stem = stem_of(name);
    let whole = extended_name(name, extension);
    assert(whole.len() >= 2);
    assert(!whole.contains('/')) by {
        if whole.contains('/') {
            let i = choose|i: int| 0 <= i < whole.len() && whole[i] == '/';
            if i < stem.len() {
                lemma_last_position(name, '.');
                assert(name[i] == '/');
                assert(name.contains('/'));
            } else if i > stem.len() {
                assert(extension[i - stem.len() - 1] == '/');
                assert(extension.contains('/'));
            }
        }
    }
}

proof fn lemma_last_position(s: Seq<char>, c: char)
    ensures
        last_position(s, c) matches Some(at) ==> 0 <= at < s.len(),
    decreases s.len(),
{
    if s.len() > 0 && s.last() != c {
        lemma_last_position(s.drop_last(), c);
    }
}

/// A component that can stand behind a separator.
pub open spec fn is_part(part: Seq<char>) -> bool {
    part.len() > 0 && !part.contains('/')
}

/// The components of some path: the root or any component first, then names
/// and parents.
pub open spec fn is_path(parts: Seq<Seq<char>>) -> bool {
    &&& parts.len() > 0 ==> parts[0] == root_part() || is_part(parts[0])
    &&& forall|i: int|
        1 <= i < parts.len() ==> is_part(#[trigger] parts[i]) && parts[i] != here_part()
}

/// Parts that stand behind a separator, or begin a relative path if `first`.
spec fn are_parts(parts: Seq<Seq<char>>, first: bool) -> bool {
    forall|i: int|
        0 <= i < parts.len() ==> is_part(#[trigger] parts[i]) && (parts[i] != here_part() || (first
            && i == 0))
}

proof fn lemma_split_gives_parts(s: Seq<char>, first: bool)
    ensures
        are_parts(split_parts(s, first), first),
    decreases s.len(),
{
    let n = piece_len(s);
    lemma_piece(s);
    let piece = s.take(n as int);
    if n < s.len() {
        lemma_split_gives_parts(s.skip(n as int + 1), false);
    }
    let all = split_parts(s, first);
    let kept = n > 0 && (first || piece != here_part());
    assert forall|i: int| 0 <= i < all.len() implies is_part(#[trigger] all[i]) && (all[i]
        != here_part() || (first && i == 0)) by {
        if kept && i == 0 {
            assert(all[0] == piece);
            assert(!piece.contains('/'));
        } else {
            let rest = split_parts(s.skip(n as int + 1), false);
            let k = if kept {
                i - 1
            } else {
                i
            };
            assert(all[i] == rest[k]);
        }
    }
}

proof fn lemma_piece(s: Seq<char>)
    ensures
        piece_len(s) <= s.len(),
        !s.take(piece_len(s) as int).contains('/'),
        piece_len(s) < s.len() ==> s[piece_len(s) as int] == '/',
    decreases s.len(),
{
    if s.len() > 0 && s[0] != '/' {
        let rest = s.drop_first();
        lemma_piece(rest);
        let n = piece_len(s);
        let piece = s.take(n as int);
        if piece.contains('/') {
            let i = choose|i: int| 0 <= i < piece.len() && piece[i] == '/';
            assert(rest.take(n - 1)[i - 1] == '/');
            assert(rest.take(n - 1).contains('/'));
        }
        if n < s.len() {
            assert(rest[n - 1] == s[n as int]);
        }
    } else {
        assert(s.take(0) =~= Seq::empty());
    }
}

/// Every text is split into the components of a path.
pub proof fn law_texts_are_paths(s: Seq<char>)
    ensures
        is_path(path_parts(s)),
{
    let all = path_parts(s);
    if s.len() > 0 && s[0] == '/' {
        let rest = split_parts(s.skip(1), false);
        lemma_split_gives_parts(s.skip(1), false);
        assert forall|i: int| 1 <= i < all.len() implies is_part(#[trigger] all[i]) && all[i]
            != here_part() by {
            assert(all[i] == rest[i - 1]);
        }
    } else {
        lemma_split_gives_parts(s, true);
    }
}

} // verus!
