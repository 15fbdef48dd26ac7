//! What settings, classes and stored states mean.

use vstd::prelude::*;

use crate::classes::{
    descends_in, extends_at, is_child, law_descendants_are_closed, ClassExpansionMode, ClassView,
};
use crate::env::{ceilings, default_ignored, is_ignored, is_listed, pieces};
use crate::store::{companions_of, live_paths, stale_paths, StoredEntry};
use crate::text::trimmed;

verus! {

/// The character parts the names of a setting: a colon, or a comma where commas
/// part too.
pub open spec fn parts_names(c: char, commas: bool) -> bool {
    c == ':' || (c == ',' && commas)
}

/// A setting falls into what stands before a separator and what stands behind it.
/// Without a separator it is one piece.
pub proof fn law_settings_fall_into_pieces(a: Seq<char>, c: char, b: Seq<char>, commas: bool)
    ensures
        parts_names(c, commas) ==> pieces(a + seq![c] + b, commas) == pieces(a, commas) + pieces(
            b,
            commas,
        ),
        (forall|i: int| 0 <= i < b.len() ==> !parts_names(#[trigger] b[i], commas)) ==> pieces(
            b,
            commas,
        ) == seq![b],
    decreases b.len(),
{
    let s = a + seq![c] + b;
    if b.len() == 0 {
        assert(b =~= Seq::empty());
        assert(s.drop_last() =~= a);
        assert(pieces(b, commas) =~= seq![b]);
    } else {
        let front = b.drop_last();
        law_settings_fall_into_pieces(a, c, front, commas);
        assert(s.drop_last() =~= a + seq![c] + front);
        assert(s.last() == b.last());
        lemma_some_piece(front, commas);
        lemma_some_piece(a, commas);
        let x = pieces(a, commas);
        let y = pieces(front, commas);
        assert((x + y).drop_last() =~= x + y.drop_last());
        assert((x + y).last() == y.last());
        if parts_names(c, commas) {
            assert(pieces(s, commas) =~= x + pieces(b, commas));
        }
        if forall|i: int| 0 <= i < b.len() ==> !parts_names(#[trigger] b[i], commas) {
            assert(b[b.len() - 1] == b.last());
            assert forall|i: int| 0 <= i < front.len() implies !parts_names(
                #[trigger] front[i],
                commas,
            ) by {
                assert(front[i] == b[i]);
            }
            assert(y =~= seq![front]);
            assert(front.push(b.last()) =~= b);
            assert(pieces(b, commas) =~= seq![b]);
        }
    }
}

proof fn lemma_some_piece(s: Seq<char>, commas: bool)
    ensures
        pieces(s, commas).len() > 0,
    decreases s.len(),
{
    if s.len() > 0 {
        lemma_some_piece(s.drop_last(), commas);
    }
}

/// A setting lists what stands before a colon or a comma and what stands behind
/// it. Whitespace around a name does not count, and no name is blank.
pub proof fn law_settings_list_names(
    a: Seq<char>,
    c: char,
    b: Seq<char>,
    single: Seq<char>,
    name: Seq<char>,
)
    requires
        c == ':' || c == ',',
        !single.contains(':') && !single.contains(','),
    ensures
        is_listed(a + seq![c] + b, name) <==> is_listed(a, name) || is_listed(b, name),
        is_listed(single, name) <==> name.len() > 0 && trimmed(single) == name,
{
    law_settings_fall_into_pieces(a, c, b, true);
    let x = pieces(a, true);
    let y = pieces(b, true);
    if is_listed(a, name) {
        let i = choose|i: int| 0 <= i < x.len() && trimmed(#[trigger] x[i]) == name;
        assert((x + y)[i] == x[i]);
    }
    if is_listed(b, name) {
        let i = choose|i: int| 0 <= i < y.len() && trimmed(#[trigger] y[i]) == name;
        assert((x + y)[x.len() + i] == y[i]);
    }
    if is_listed(a + seq![c] + b, name) {
        let i = choose|i: int| 0 <= i < (x + y).len() && trimmed(#[trigger] (x + y)[i]) == name;
        if i < x.len() {
            assert(x[i] == (x + y)[i]);
        } else {
            assert(y[i - x.len()] == (x + y)[i]);
        }
    }
    assert forall|i: int| 0 <= i < single.len() implies !parts_names(#[trigger] single[i], true) by {
        assert(single.contains(single[i]));
    }
    law_settings_fall_into_pieces(a, c, single, true);
    assert(pieces(single, true)[0] == single);
}

/// Version control, build output, packages and the index are left out of every
/// scan, other directories only where the setting lists them.
pub proof fn law_directories_left_out(setting: Option<Seq<char>>, name: Seq<char>)
    ensures
        ({
            let by_default = name == seq!['.', 'g', 'i', 't'] || name == seq![
                't',
                'a',
                'r',
                'g',
                'e',
                't',
            ] || name == seq!['n', 'o', 'd', 'e', '_', 'm', 'o', 'd', 'u', 'l', 'e', 's'] || name
                == seq!['.', 't', 'r', 'a', 'c', 'e', 's'];
            match setting {
                Some(names) => is_ignored(setting, name) <==> by_default || is_listed(names, name),
                None => is_ignored(setting, name) <==> by_default,
            }
        }),
{
    reveal_strlit(".git");
    reveal_strlit("target");
    reveal_strlit("node_modules");
    reveal_strlit(".traces");
    assert(".git"@ =~= seq!['.', 'g', 'i', 't']);
    assert("target"@ =~= seq!['t', 'a', 'r', 'g', 'e', 't']);
    assert("node_modules"@ =~= seq!['n', 'o', 'd', 'e', '_', 'm', 'o', 'd', 'u', 'l', 'e', 's']);
    assert(".traces"@ =~= seq!['.', 't', 'r', 'a', 'c', 'e', 's']);
    let defaults = default_ignored();
    assert(defaults[0] == ".git"@);
    assert(defaults[1] == "target"@);
    assert(defaults[2] == "node_modules"@);
    assert(defaults[3] == ".traces"@);
}

/// Of a list of directories all count that are not empty, in their order.
pub proof fn law_empty_ceilings_do_not_count(
    first: Seq<Seq<char>>,
    second: Seq<Seq<char>>,
    one: Seq<char>,
)
    ensures
        ceilings(first + second) == ceilings(first) + ceilings(second),
        one.len() > 0 ==> ceilings(seq![one]) == seq![one],
        one.len() == 0 ==> ceilings(seq![one]) == Seq::<Seq<char>>::empty(),
    decreases second.len(),
{
    assert(seq![one].drop_last() =~= Seq::empty());
    assert(ceilings(seq![one].drop_last()) =~= Seq::empty());
    assert(seq![one].last() == one);
    if second.len() == 0 {
        assert(first + second =~= first);
        assert(ceilings(second) =~= Seq::empty());
    } else {
        law_empty_ceilings_do_not_count(first, second.drop_last(), one);
        assert((first + second).drop_last() =~= first + second.drop_last());
        assert((first + second).last() == second.last());
    }
}

/// An exact query takes in the classes that it names. One with children also
/// takes in each class that extends one of them.
pub proof fn law_exact_classes_and_children(
    exact: ClassExpansionMode,
    children: ClassExpansionMode,
    graph: Seq<ClassView>,
    roots: Seq<Seq<char>>,
    name: Seq<char>,
)
    requires
        exact is Exact,
        children is Children,
    ensures
        exact.takes_in(graph, roots, name) <==> exists|r: int|
            0 <= r < roots.len() && #[trigger] roots[r] == name,
        children.takes_in(graph, roots, name) <==> (exists|r: int|
            0 <= r < roots.len() && #[trigger] roots[r] == name) || exists|i: int, k: int, r: int|
            0 <= i < graph.len() && graph[i].name == name && 0 <= k < graph[i].extends.len() && 0
                <= r < roots.len() && #[trigger] graph[i].extends[k] == #[trigger] roots[r],
{
    if exists|i: int, k: int, r: int|
        0 <= i < graph.len() && graph[i].name == name && 0 <= k < graph[i].extends.len() && 0 <= r
            < roots.len() && #[trigger] graph[i].extends[k] == #[trigger] roots[r] {
        let (i, k, r) = choose|i: int, k: int, r: int|
            0 <= i < graph.len() && graph[i].name == name && 0 <= k < graph[i].extends.len() && 0
                <= r < roots.len() && #[trigger] graph[i].extends[k] == #[trigger] roots[r];
        assert(roots.contains(roots[r]));
        assert(graph[i].extends.contains(roots[r]));
        assert(extends_at(graph, i, name, roots[r]));
        assert(is_child(graph, name, roots[r]));
    }
    if children.takes_in(graph, roots, name) && !roots.contains(name) {
        let parent = choose|parent: Seq<char>|
            roots.contains(parent) && #[trigger] is_child(graph, name, parent);
        let i = choose|i: int| extends_at(graph, i, name, parent);
        let k = choose|k: int| 0 <= k < graph[i].extends.len() && graph[i].extends[k] == parent;
        let r = choose|r: int| 0 <= r < roots.len() && roots[r] == parent;
        assert(graph[i].extends[k] == roots[r]);
    }
}

/// `names` holds `roots` and each class that extends one of its own.
pub open spec fn is_closed_family(
    graph: Seq<ClassView>,
    roots: Seq<Seq<char>>,
    names: Set<Seq<char>>,
) -> bool {
    &&& forall|r: int| 0 <= r < roots.len() ==> names.contains(#[trigger] roots[r])
    &&& forall|i: int, k: int|
        0 <= i < graph.len() && 0 <= k < graph[i].extends.len() && names.contains(
            #[trigger] graph[i].extends[k],
        ) ==> names.contains(graph[i].name)
}

/// The descendants are the smallest family that holds the classes named and each
/// class that extends one of the family.
pub proof fn law_descendants_are_the_family(
    mode: ClassExpansionMode,
    graph: Seq<ClassView>,
    roots: Seq<Seq<char>>,
    names: Set<Seq<char>>,
)
    requires
        mode is Descendants,
        is_closed_family(graph, roots, names),
    ensures
        forall|name: Seq<char>| #[trigger]
            mode.takes_in(graph, roots, name) ==> names.contains(name),
        is_closed_family(
            graph,
            roots,
            Set::new(|name: Seq<char>| mode.takes_in(graph, roots, name)),
        ),
{
    assert forall|name: Seq<char>| #[trigger] mode.takes_in(graph, roots, name) implies names.contains(
        name,
    ) by {
        let n = choose|n: nat| descends_in(graph, roots, name, n);
        lemma_within_family(graph, roots, names, name, n);
    }
    let all = Set::new(|name: Seq<char>| mode.takes_in(graph, roots, name));
    assert forall|r: int| 0 <= r < roots.len() implies all.contains(#[trigger] roots[r]) by {
        assert(descends_in(graph, roots, roots[r], 0));
    }
    assert forall|i: int, k: int|
        0 <= i < graph.len() && 0 <= k < graph[i].extends.len() && all.contains(
            #[trigger] graph[i].extends[k],
        ) implies all.contains(graph[i].name) by {
        let parent = graph[i].extends[k];
        assert(graph[i].extends.contains(parent));
        assert(extends_at(graph, i, graph[i].name, parent));
        assert(is_child(graph, graph[i].name, parent));
        law_descendants_are_closed(graph, roots, graph[i].name, parent);
    }
}

proof fn lemma_within_family(
    graph: Seq<ClassView>,
    roots: Seq<Seq<char>>,
    names: Set<Seq<char>>,
    name: Seq<char>,
    n: nat,
)
    requires
        is_closed_family(graph, roots, names),
        descends_in(graph, roots, name, n),
    ensures
        names.contains(name),
    decreases n,
{
    if n == 0 {
        let r = choose|r: int| 0 <= r < roots.len() && roots[r] == name;
        assert(names.contains(roots[r]));
    } else {
        let parent = choose|parent: Seq<char>| #[trigger]
            is_child(graph, name, parent) && descends_in(graph, roots, parent, (n - 1) as nat);
        lemma_within_family(graph, roots, names, parent, (n - 1) as nat);
        let i = choose|i: int| extends_at(graph, i, name, parent);
        let k = choose|k: int| 0 <= k < graph[i].extends.len() && graph[i].extends[k] == parent;
        assert(names.contains(graph[i].extends[k]));
    }
}

/// Stored entries are sorted out one by one: one that records a path that is still
/// there is live and gives that path, one that records another is stale and gives
/// its own place, and one that records nothing is neither.
pub proof fn law_stored_entries_are_live_or_stale(
    first: Seq<StoredEntry>,
    second: Seq<StoredEntry>,
    one: StoredEntry,
)
    ensures
        live_paths(first + second) == live_paths(first) + live_paths(second),
        stale_paths(first + second) == stale_paths(first) + stale_paths(second),
        match one.recorded {
            Some(path) if one.is_present => {
                &&& live_paths(seq![one]) == seq![path.spec_text()]
                &&& stale_paths(seq![one]) == Seq::<Seq<char>>::empty()
            },
            Some(_) => {
                &&& live_paths(seq![one]) == Seq::<Seq<char>>::empty()
                &&& stale_paths(seq![one]) == seq![one.path.spec_text()]
            },
            None => {
                &&& live_paths(seq![one]) == Seq::<Seq<char>>::empty()
                &&& stale_paths(seq![one]) == Seq::<Seq<char>>::empty()
            },
        },
    decreases second.len(),
{
    let none = Seq::<StoredEntry>::empty();
    assert(seq![one].drop_last() =~= none);
    assert(seq![one].last() == one);
    assert(live_paths(none) =~= Seq::empty());
    assert(stale_paths(none) =~= Seq::empty());
    if second.len() == 0 {
        assert(first + second =~= first);
        assert(live_paths(second) =~= Seq::empty());
        assert(stale_paths(second) =~= Seq::empty());
    } else {
        law_stored_entries_are_live_or_stale(first, second.drop_last(), one);
        assert((first + second).drop_last() =~= first + second.drop_last());
        assert((first + second).last() == second.last());
    }
}

/// Each entry has one companion file for each suffix: its own path with the suffix
/// behind it.
pub proof fn law_companions_have_the_suffix_behind(
    first: Seq<Seq<char>>,
    second: Seq<Seq<char>>,
    one: Seq<char>,
    suffixes: Seq<Seq<char>>,
)
    ensures
        companions_of(first + second, suffixes) == companions_of(first, suffixes) + companions_of(
            second,
            suffixes,
        ),
        companions_of(seq![one], suffixes).len() == suffixes.len(),
        forall|i: int|
            0 <= i < suffixes.len() ==> #[trigger] companions_of(seq![one], suffixes)[i] == one
                + suffixes[i],
    decreases second.len(),
{
    assert(seq![one].drop_last() =~= Seq::empty());
    assert(seq![one].last() == one);
    assert(companions_of(seq![one].drop_last(), suffixes) =~= Seq::empty());
    if second.len() == 0 {
        assert(first + second =~= first);
        assert(companions_of(second, suffixes) =~= Seq::empty());
    } else {
        law_companions_have_the_suffix_behind(first, second.drop_last(), one, suffixes);
        assert((first + second).drop_last() =~= first + second.drop_last());
        assert((first + second).last() == second.last());
        assert(companions_of(first + second, suffixes) =~= companions_of(first, suffixes)
            + companions_of(second, suffixes));
    }
}

} // verus!
