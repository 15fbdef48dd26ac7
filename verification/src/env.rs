//! Settings from environment variables.

use vstd::prelude::*;
use vstd::string::*;

use crate::names::has_name_in;
use crate::path::{path_texts, FilePath};
use crate::query::record::string_texts;
use crate::text::{trim, trimmed};

verus! {

/// The characters that part a list of directory names.
pub open spec fn is_name_separator(c: char) -> bool {
    c == ':' || c == ','
}

/// The character that parts a list of paths.
pub open spec fn is_path_separator(c: char) -> bool {
    c == ':'
}

/// The pieces of `s` between separators: colons, and commas where `commas`.
pub open spec fn pieces(s: Seq<char>, commas: bool) -> Seq<Seq<char>>
    decreases s.len(),
{
    if s.len() == 0 {
        seq![Seq::empty()]
    } else {
        let before = pieces(s.drop_last(), commas);
        let c = s.last();
        if is_path_separator(c) || (commas && is_name_separator(c)) {
            before.push(Seq::empty())
        } else {
            before.drop_last().push(before.last().push(c))
        }
    }
}

fn split(text: &str, commas: bool) -> (parts: Vec<String>)
    ensures
        string_texts(parts@) == pieces(text@, commas),
{
    let mut parts: Vec<String> = Vec::new();
    let mut part = String::new();
    proof {
        assert(text@.take(0) =~= Seq::empty());
        assert(string_texts(parts@).push(part@) =~= seq![Seq::empty()]);
    }
    for c in it: text.chars()
        invariant
            it.seq() == text@,
            string_texts(parts@).push(part@) == pieces(text@.take(it.index()), commas),
    {
        let ghost before = string_texts(parts@);
        let ghost piece = part@;
        proof {
            let next = text@.take(it.index() + 1);
            assert(next.drop_last() =~= text@.take(it.index()));
            assert(next.last() == c);
            assert(before.push(piece).drop_last() =~= before);
        }
        if c == ':' || (commas && c == ',') {
            parts.push(part);
            part = String::new();
            assert(string_texts(parts@) =~= before.push(piece));
            assert(part@ =~= Seq::empty());
        } else {
            part.push(c);
        }
    }
    let ghost before = string_texts(parts@);
    let ghost piece = part@;
    parts.push(part);
    assert(text@.take(text@.len() as int) =~= text@);
    assert(string_texts(parts@) =~= before.push(piece));
    parts
}

/// The directories that every scan leaves out.
pub open spec fn default_ignored() -> Seq<Seq<char>> {
    seq![".git"@, "target"@, "node_modules"@, ".traces"@]
}

/// `name` is one of the names that `setting` lists.
pub open spec fn is_listed(setting: Seq<char>, name: Seq<char>) -> bool {
    name.len() > 0 && exists|i: int|
        0 <= i < pieces(setting, true).len() && trimmed(#[trigger] pieces(setting, true)[i])
            == name
}

/// A scan leaves out directories of this name: by default, or because the
/// setting lists it.
pub open spec fn is_ignored(setting: Option<Seq<char>>, name: Seq<char>) -> bool {
    default_ignored().contains(name) || (setting is Some && is_listed(setting.unwrap(), name))
}

/// The names of directories that scans leave out.
#[derive(Debug)]
pub struct IgnoredDirs {
    names: Vec<String>,
}

impl View for IgnoredDirs {
    type V = Set<Seq<char>>;

    closed spec fn view(&self) -> Set<Seq<char>> {
        string_texts(self.names@).to_set()
    }
}

impl IgnoredDirs {
    /// The default names and those that the setting lists, parted by colons or
    /// commas.
    pub fn new(setting: Option<&str>) -> (dirs: Self)
        ensures
            forall|name: Seq<char>| #[trigger]
                dirs@.contains(name) <==> is_ignored(
                    match setting {
                        Some(text) => Some(text@),
                        None => None,
                    },
                    name,
                ),
    {
        let mut names: Vec<String> = Vec::new();
        names.push(".git".to_owned());
        names.push("target".to_owned());
        names.push("node_modules".to_owned());
        names.push(".traces".to_owned());
        assert(string_texts(names@) =~= default_ignored());
        if let Some(text) = setting {
            let parts = split(text, true);
            let ghost all = pieces(text@, true);
            let mut i: usize = 0;
            while i < parts.len()
                invariant
                    i <= parts@.len(),
                    all == string_texts(parts@),
                    forall|name: Seq<char>| #[trigger]
                        string_texts(names@).contains(name) <==> default_ignored().contains(name)
                            || (name.len() > 0 && exists|k: int|
                            0 <= k < i && trimmed(#[trigger] all[k]) == name),
                decreases parts@.len() - i,
            {
                let ghost before = string_texts(names@);
                assert(all[i as int] == parts@[i as int]@);
                let name = trim(parts[i].as_str());
                let ghost added = name@;
                if !name.as_str().is_empty() {
                    names.push(name);
                    proof {
                        let after = string_texts(names@);
                        assert(after =~= before.push(added));
                        assert forall|n: Seq<char>| #[trigger]
                            after.contains(n) <==> before.contains(n) || n == added by {
                            if after.contains(n) {
                                let k = choose|k: int| 0 <= k < after.len() && after[k] == n;
                                if k < before.len() {
                                    assert(before[k] == n);
                                }
                            }
                            if before.contains(n) {
                                let k = choose|k: int| 0 <= k < before.len() && before[k] == n;
                                assert(after[k] == n);
                            }
                            assert(after[before.len() as int] == added);
                        }
                    }
                }
                proof {
                    assert forall|n: Seq<char>| #[trigger]
                        string_texts(names@).contains(n) <==> default_ignored().contains(n) || (
                        n.len() > 0 && exists|k: int|
                            0 <= k < i + 1 && trimmed(#[trigger] all[k]) == n) by {
                        assert(string_texts(names@).contains(n) <==> before.contains(n) || (
                        added.len() > 0 && n == added));
                        if before.contains(n) && !default_ignored().contains(n) {
                            let k = choose|k: int| 0 <= k < i && trimmed(#[trigger] all[k]) == n;
                            assert(0 <= k < i + 1 && trimmed(all[k]) == n);
                        }
                        if n == added {
                            assert(trimmed(all[i as int]) == n);
                        }
                        if n.len() > 0 && exists|k: int|
                            0 <= k < i + 1 && trimmed(#[trigger] all[k]) == n {
                            let k = choose|k: int|
                                0 <= k < i + 1 && trimmed(#[trigger] all[k]) == n;
                            if k < i {
                                assert(0 <= k < i && trimmed(all[k]) == n);
                            }
                        }
                    }
                }
                i = i + 1;
            }
            proof {
                assert forall|n: Seq<char>| #[trigger]
                    string_texts(names@).contains(n) <==> is_ignored(Some(text@), n) by {}
            }
        }
        IgnoredDirs { names }
    }

    /// Whether scans leave out directories of this name.
    pub fn is_ignored_dir(&self, file_name: &str) -> (ignored: bool)
        ensures
            ignored == self@.contains(file_name@),
    {
        has_name_in(&self.names, file_name)
    }
}

/// The directories that `setting` lists, parted by colons, where a search
/// upwards stops. Empty entries do not count.
pub open spec fn ceilings(parts: Seq<Seq<char>>) -> Seq<Seq<char>>
    decreases parts.len(),
{
    if parts.len() == 0 {
        Seq::empty()
    } else {
        let before = ceilings(parts.drop_last());
        if parts.last().len() == 0 {
            before
        } else {
            before.push(parts.last())
        }
    }
}

/// The directories where a search upwards stops.
pub fn ceiling_dirs(setting: &str) -> (dirs: Vec<FilePath>)
    ensures
        path_texts(dirs@) == ceilings(pieces(setting@, false)),
{
    let parts = split(setting, false);
    let ghost all = string_texts(parts@);
    let mut dirs: Vec<FilePath> = Vec::new();
    let mut i: usize = 0;
    proof {
        assert(all.take(0) =~= Seq::empty());
        assert(path_texts(dirs@) =~= Seq::empty());
    }
    while i < parts.len()
        invariant
            i <= parts@.len(),
            all == string_texts(parts@),
            path_texts(dirs@) == ceilings(all.take(i as int)),
        decreases parts@.len() - i,
    {
        let ghost before = path_texts(dirs@);
        proof {
            let next = all.take(i + 1);
            assert(next.drop_last() =~= all.take(i as int));
            assert(next.last() == parts@[i as int]@);
        }
        if !parts[i].as_str().is_empty() {
            let path = FilePath::new(parts[i].as_str());
            let ghost added = path.spec_text();
            dirs.push(path);
            assert(path_texts(dirs@) =~= before.push(added));
        }
        i = i + 1;
    }
    assert(all.take(i as int) =~= all);
    dirs
}

} // verus!
