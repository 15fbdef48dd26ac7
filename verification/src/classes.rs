//! Which classes a query for some classes takes in.

use vstd::prelude::*;
use vstd::string::*;

use indexmap::IndexSet;

use crate::names::{has_name_in, in_name_order, sorted_names};
use crate::query::record::string_texts;

verus! {

/// A class and the classes that it extends.
#[derive(Debug)]
pub struct ClassEntry {
    /// The class.
    pub name: String,
    /// The classes that it extends.
    pub extends: Vec<String>,
}

/// Contents of a [`ClassEntry`].
pub struct ClassView {
    /// The class.
    pub name: Seq<char>,
    /// The classes that it extends.
    pub extends: Seq<Seq<char>>,
}

impl View for ClassEntry {
    type V = ClassView;

    open spec fn view(&self) -> ClassView {
        ClassView { name: self.name@, extends: string_texts(self.extends@) }
    }
}

/// The contents of each class.
pub open spec fn class_views(classes: Seq<ClassEntry>) -> Seq<ClassView> {
    Seq::new(classes.len(), |i: int| classes[i]@)
}

/// Class `i` is called `name` and extends `parent`.
pub open spec fn extends_at(
    graph: Seq<ClassView>,
    i: int,
    name: Seq<char>,
    parent: Seq<char>,
) -> bool {
    0 <= i < graph.len() && graph[i].name == name && graph[i].extends.contains(parent)
}

/// `name` extends `parent` directly.
pub open spec fn is_child(graph: Seq<ClassView>, name: Seq<char>, parent: Seq<char>) -> bool {
    exists|i: int| extends_at(graph, i, name, parent)
}

/// `name` is reached from one of `roots` in `n` extensions.
pub open spec fn descends_in(
    graph: Seq<ClassView>,
    roots: Seq<Seq<char>>,
    name: Seq<char>,
    n: nat,
) -> bool
    decreases n,
{
    if n == 0 {
        roots.contains(name)
    } else {
        exists|parent: Seq<char>| #[trigger]
            is_child(graph, name, parent) && descends_in(graph, roots, parent, (n - 1) as nat)
    }
}

/// `name` is one of `roots`, or extends one of them directly or not.
pub open spec fn descends(graph: Seq<ClassView>, roots: Seq<Seq<char>>, name: Seq<char>) -> bool {
    exists|n: nat| descends_in(graph, roots, name, n)
}

/// How far a query for classes goes.
#[derive(Debug)]
pub enum ClassExpansionMode {
    /// Only the classes themselves.
    Exact(Vec<String>),
    /// The classes and those that extend them.
    Children(Vec<String>),
    /// The classes and all that extend them, directly or not.
    Descendants(Vec<String>),
}

impl ClassExpansionMode {
    /// The classes taken in.
    pub open spec fn names(self) -> Seq<Seq<char>> {
        match self {
            ClassExpansionMode::Exact(classes) => string_texts(classes@),
            ClassExpansionMode::Children(classes) => string_texts(classes@),
            ClassExpansionMode::Descendants(classes) => string_texts(classes@),
        }
    }

    /// A query for `roots` in this mode takes in `name`.
    pub open spec fn takes_in(
        self,
        graph: Seq<ClassView>,
        roots: Seq<Seq<char>>,
        name: Seq<char>,
    ) -> bool {
        match self {
            ClassExpansionMode::Exact(_) => roots.contains(name),
            ClassExpansionMode::Children(_) => roots.contains(name) || exists|parent: Seq<char>|
                roots.contains(parent) && #[trigger] is_child(graph, name, parent),
            ClassExpansionMode::Descendants(_) => descends(graph, roots, name),
        }
    }

    /// The classes taken in.
    pub fn classes(&self) -> (classes: &Vec<String>)
        ensures
            string_texts(classes@) == self.names(),
    {
        match self {
            ClassExpansionMode::Exact(classes) => classes,
            ClassExpansionMode::Children(classes) => classes,
            ClassExpansionMode::Descendants(classes) => classes,
        }
    }
}

/// The classes and what they extend.
#[derive(Debug)]
pub struct ClassGraph {
    classes: Vec<ClassEntry>,
}

impl View for ClassGraph {
    type V = Seq<ClassView>;

    closed spec fn view(&self) -> Seq<ClassView> {
        class_views(self.classes@)
    }
}

/// A set of `indexmap`, which keeps the order in which values came.
#[verifier::external_type_specification]
#[verifier::external_body]
#[verifier::reject_recursive_types(T)]
#[verifier::reject_recursive_types(S)]
pub struct ExIndexSet<T, S>(IndexSet<T, S>);

/// The names in a set, in the order in which they came.
pub uninterp spec fn names_in(names: IndexSet<String>) -> Seq<Seq<char>>;

/// `IndexSet::new`. The set is empty.
#[verifier::external_body]
fn empty_set() -> (names: IndexSet<String>)
    ensures
        names_in(names) == Seq::<Seq<char>>::empty(),
{
    IndexSet::new()
}

/// `IndexSet::insert`. A name that is there already changes nothing; another is
/// added at the end.
#[verifier::external_body]
fn insert_name(names: &mut IndexSet<String>, name: String) -> (added: bool)
    ensures
        added == !names_in(*old(names)).contains(name@),
        names_in(*final(names)) == if names_in(*old(names)).contains(name@) {
            names_in(*old(names))
        } else {
            names_in(*old(names)).push(name@)
        },
{
    names.insert(name)
}

/// `IndexSet::contains`.
#[verifier::external_body]
fn has_name(names: &IndexSet<String>, name: &str) -> (found: bool)
    ensures
        found == names_in(*names).contains(name@),
{
    names.contains(name)
}

/// `IndexSet::into_iter`. The names come in the order of the set.
#[verifier::external_body]
fn into_names(names: IndexSet<String>) -> (list: Vec<String>)
    ensures
        string_texts(list@) == names_in(names),
{
    names.into_iter().collect()
}

/// The set of the given names.
fn set_of(classes: &Vec<String>) -> (names: IndexSet<String>)
    ensures
        forall|x: Seq<char>| #[trigger]
            names_in(names).contains(x) <==> string_texts(classes@).contains(x),
{
    let ghost all = string_texts(classes@);
    let mut names = empty_set();
    let mut i: usize = 0;
    assert(all.take(0) =~= Seq::empty());
    while i < classes.len()
        invariant
            i <= classes@.len(),
            all == string_texts(classes@),
            forall|x: Seq<char>| #[trigger]
                names_in(names).contains(x) <==> all.take(i as int).contains(x),
        decreases classes@.len() - i,
    {
        let ghost before = names_in(names);
        let ghost name = all[i as int];
        insert_name(&mut names, classes[i].clone());
        proof {
            let next = all.take(i + 1);
            assert(next =~= all.take(i as int).push(name));
            assert forall|x: Seq<char>| #[trigger]
                names_in(names).contains(x) <==> next.contains(x) by {
                lemma_push_contains(before, name, x);
                lemma_push_contains(all.take(i as int), name, x);
            }
        }
        i = i + 1;
    }
    assert(all.take(i as int) =~= all);
    names
}

proof fn lemma_push_contains(names: Seq<Seq<char>>, name: Seq<char>, x: Seq<char>)
    ensures
        names.push(name).contains(x) <==> names.contains(x) || x == name,
{
    let more = names.push(name);
    if names.contains(x) {
        let i = choose|i: int| 0 <= i < names.len() && names[i] == x;
        assert(more[i] == x);
    }
    if x == name {
        assert(more[names.len() as int] == x);
    }
    if more.contains(x) {
        let i = choose|i: int| 0 <= i < more.len() && more[i] == x;
        if i < names.len() {
            assert(names[i] == x);
        }
    }
}

/// How many of the first `n` classes are not among `names`.
spec fn unseen(graph: Seq<ClassView>, names: Seq<Seq<char>>, n: int) -> nat
    decreases n,
{
    if n <= 0 {
        0
    } else {
        unseen(graph, names, n - 1) + if names.contains(graph[n - 1].name) {
            0nat
        } else {
            1nat
        }
    }
}

proof fn lemma_unseen_grows_less(
    graph: Seq<ClassView>,
    names: Seq<Seq<char>>,
    more: Seq<Seq<char>>,
    n: int,
    at: int,
)
    requires
        0 <= n <= graph.len(),
        forall|x: Seq<char>| #[trigger] names.contains(x) ==> more.contains(x),
    ensures
        unseen(graph, more, n) <= unseen(graph, names, n),
        0 <= at < n && !names.contains(graph[at].name) && more.contains(graph[at].name) ==> unseen(
            graph,
            more,
            n,
        ) < unseen(graph, names, n),
    decreases n,
{
    if n > 0 {
        lemma_unseen_grows_less(graph, names, more, n - 1, at);
        assert(names.contains(graph[n - 1].name) ==> more.contains(graph[n - 1].name));
    }
}

proof fn lemma_child_descends(
    graph: Seq<ClassView>,
    roots: Seq<Seq<char>>,
    name: Seq<char>,
    parent: Seq<char>,
)
    requires
        is_child(graph, name, parent),
        descends(graph, roots, parent),
    ensures
        descends(graph, roots, name),
{
    let n = choose|n: nat| descends_in(graph, roots, parent, n);
    assert(is_child(graph, name, parent) && descends_in(graph, roots, parent, n));
    assert(descends_in(graph, roots, name, n + 1));
}

proof fn lemma_closed_holds_descendants(
    graph: Seq<ClassView>,
    roots: Seq<Seq<char>>,
    found: Seq<Seq<char>>,
    name: Seq<char>,
    n: nat,
)
    requires
        forall|x: Seq<char>| #[trigger] roots.contains(x) ==> found.contains(x),
        forall|x: Seq<char>, parent: Seq<char>| #[trigger]
            is_child(graph, x, parent) && found.contains(parent) ==> found.contains(x),
        descends_in(graph, roots, name, n),
    ensures
        found.contains(name),
    decreases n,
{
    if n > 0 {
        let parent = choose|parent: Seq<char>| #[trigger]
            is_child(graph, name, parent) && descends_in(graph, roots, parent, (n - 1) as nat);
        lemma_closed_holds_descendants(graph, roots, found, parent, (n - 1) as nat);
    }
}

impl ClassGraph {
    /// These classes.
    pub fn new(classes: Vec<ClassEntry>) -> (graph: Self)
        ensures
            graph@ == class_views(classes@),
    {
        ClassGraph { classes }
    }

    /// The classes that extend `parent` directly.
    fn add_children(&self, parent: &str, names: &mut IndexSet<String>)
        ensures
            forall|x: Seq<char>| #[trigger]
                names_in(*final(names)).contains(x) <==> names_in(*old(names)).contains(x)
                    || is_child(self@, x, parent@),
    {
        let ghost graph = self@;
        let ghost start = names_in(*names);
        let mut i: usize = 0;
        while i < self.classes.len()
            invariant
                i <= self.classes@.len(),
                graph == class_views(self.classes@),
                forall|x: Seq<char>| #[trigger]
                    names_in(*names).contains(x) <==> start.contains(x) || exists|k: int|
                        0 <= k < i && extends_at(graph, k, x, parent@),
            decreases self.classes@.len() - i,
        {
            let ghost before = names_in(*names);
            assert(graph[i as int] == self.classes@[i as int]@);
            let hit = has_name_in(&self.classes[i].extends, parent);
            if hit {
                insert_name(names, self.classes[i].name.clone());
            }
            proof {
                assert forall|x: Seq<char>| #[trigger]
                    names_in(*names).contains(x) <==> start.contains(x) || exists|k: int|
                    0 <= k < i + 1 && extends_at(graph, k, x, parent@) by {
                    lemma_push_contains(before, graph[i as int].name, x);
                    assert(names_in(*names).contains(x) <==> before.contains(x) || (hit && x
                        == graph[i as int].name));
                    if before.contains(x) && !start.contains(x) {
                        let k = choose|k: int| 0 <= k < i && extends_at(graph, k, x, parent@);
                        assert(0 <= k < i + 1 && extends_at(graph, k, x, parent@));
                    }
                    if hit && x == graph[i as int].name {
                        assert(extends_at(graph, i as int, x, parent@));
                    }
                    if exists|k: int| 0 <= k < i + 1 && extends_at(graph, k, x, parent@) {
                        let k = choose|k: int| 0 <= k < i + 1 && extends_at(graph, k, x, parent@);
                        if k < i {
                            assert(0 <= k < i && extends_at(graph, k, x, parent@));
                        }
                    }
                }
            }
            i = i + 1;
        }
        proof {
            assert forall|x: Seq<char>| #[trigger]
                names_in(*names).contains(x) <==> start.contains(x) || is_child(
                graph,
                x,
                parent@,
            ) by {
                if is_child(graph, x, parent@) {
                    let k = choose|k: int| extends_at(graph, k, x, parent@);
                    assert(0 <= k < i && extends_at(graph, k, x, parent@));
                }
            }
        }
    }

    /// The first class that is not found though it extends one that is.
    fn next_descendant(&self, found: &IndexSet<String>) -> (next: Option<usize>)
        ensures
            match next {
                Some(at) => at < self@.len() && !names_in(*found).contains(
                    self@[at as int].name,
                ) && exists|parent: Seq<char>|
                    names_in(*found).contains(parent) && #[trigger] is_child(
                        self@,
                        self@[at as int].name,
                        parent,
                    ),
                None => forall|x: Seq<char>, parent: Seq<char>| #[trigger]
                    is_child(self@, x, parent) && names_in(*found).contains(parent)
                        ==> names_in(*found).contains(x),
            },
    {
        let ghost graph = self@;
        let ghost names = names_in(*found);
        let mut i: usize = 0;
        while i < self.classes.len()
            invariant
                i <= self.classes@.len(),
                graph == class_views(self.classes@),
                graph == self@,
                names == names_in(*found),
                forall|k: int|
                    0 <= k < i ==> names.contains((#[trigger] graph[k]).name) || forall|parent:
                        Seq<char>|
                        #![trigger graph[k].extends.contains(parent)]
                        graph[k].extends.contains(parent) ==> !names.contains(parent),
            decreases self.classes@.len() - i,
        {
            let entry = &self.classes[i];
            assert(graph[i as int] == entry@);
            if !has_name(found, entry.name.as_str()) {
                let mut j: usize = 0;
                while j < entry.extends.len()
                    invariant
                        j <= entry.extends@.len(),
                        i < self.classes@.len(),
                        graph == class_views(self.classes@),
                        graph == self@,
                        names == names_in(*found),
                        graph[i as int] == entry@,
                        !names.contains(entry@.name),
                        forall|k: int|
                            0 <= k < j ==> !names.contains(#[trigger] entry@.extends[k]),
                    decreases entry.extends@.len() - j,
                {
                    assert(entry@.extends[j as int] == entry.extends@[j as int]@);
                    if has_name(found, entry.extends[j].as_str()) {
                        proof {
                            let parent = entry@.extends[j as int];
                            assert(graph[i as int].extends.contains(parent));
                            assert(extends_at(graph, i as int, graph[i as int].name, parent));
                            assert(is_child(graph, graph[i as int].name, parent));
                        }
                        return Some(i);
                    }
                    j = j + 1;
                }
                assert forall|parent: Seq<char>|
                    #![trigger graph[i as int].extends.contains(parent)]
                    graph[i as int].extends.contains(parent) implies !names.contains(parent) by {
                    let k = choose|k: int|
                        0 <= k < entry@.extends.len() && entry@.extends[k] == parent;
                    assert(!names.contains(entry@.extends[k]));
                }
            }
            i = i + 1;
        }
        proof {
            assert forall|x: Seq<char>, parent: Seq<char>| #[trigger]
                is_child(graph, x, parent) && names.contains(parent) implies names.contains(x) by {
                let k = choose|k: int| extends_at(graph, k, x, parent);
                assert(graph[k].extends.contains(parent));
            }
        }
        None
    }

    /// The classes and all that extend them, directly or not.
    fn matches(&self, classes: &Vec<String>) -> (found: IndexSet<String>)
        ensures
            forall|x: Seq<char>| #[trigger]
                names_in(found).contains(x) <==> descends(
                    self@,
                    string_texts(classes@),
                    x,
                ),
    {
        let ghost graph = self@;
        let ghost roots = string_texts(classes@);
        let n: usize = self.classes.len();
        let mut found = set_of(classes);
        proof {
            assert forall|x: Seq<char>| #[trigger] names_in(found).contains(x) implies descends(
                graph,
                roots,
                x,
            ) by {
                assert(descends_in(graph, roots, x, 0));
            }
        }
        loop
            invariant
                graph == self@,
                graph.len() == n,
                roots == string_texts(classes@),
                    forall|x: Seq<char>| #[trigger]
                    roots.contains(x) ==> names_in(found).contains(x),
                forall|x: Seq<char>| #[trigger]
                    names_in(found).contains(x) ==> descends(graph, roots, x),
            ensures
                forall|x: Seq<char>, parent: Seq<char>| #[trigger]
                    is_child(graph, x, parent) && names_in(found).contains(parent)
                        ==> names_in(found).contains(x),
            decreases unseen(graph, names_in(found), n as int),
        {
            let ghost before = names_in(found);
            match self.next_descendant(&found) {
                None => {
                    break ;
                },
                Some(at) => {
                    let ghost name = graph[at as int].name;
                    assert(graph[at as int] == self.classes@[at as int]@);
                    insert_name(&mut found, self.classes[at].name.clone());
                    proof {
                        let parent = choose|parent: Seq<char>|
                            before.contains(parent) && #[trigger] is_child(graph, name, parent);
                        lemma_child_descends(graph, roots, name, parent);
                        assert forall|x: Seq<char>| #[trigger]
                            names_in(found).contains(x) <==> before.contains(x) || x == name by {
                            lemma_push_contains(before, name, x);
                        }
                        lemma_unseen_grows_less(
                            graph,
                            before,
                            names_in(found),
                            n as int,
                            at as int,
                        );
                    }
                },
            }
        }
        proof {
            let names = names_in(found);
            assert forall|x: Seq<char>| #[trigger] names.contains(x) <==> descends(
                graph,
                roots,
                x,
            ) by {
                if descends(graph, roots, x) {
                    let k = choose|k: nat| descends_in(graph, roots, x, k);
                    lemma_closed_holds_descendants(graph, roots, names, x, k);
                }
            }
        }
        found
    }

    /// Sets `mode` to the classes that a query for `classes` takes in.
    pub fn expand(&self, classes: &Vec<String>, mode: &mut ClassExpansionMode)
        ensures
            in_name_order(final(mode).names()),
            forall|x: Seq<char>| #[trigger]
                final(mode).names().contains(x) <==> old(mode).takes_in(
                    self@,
                    string_texts(classes@),
                    x,
                ),
            *old(mode) is Exact <==> *final(mode) is Exact,
            *old(mode) is Children <==> *final(mode) is Children,
    {
        let ghost graph = self@;
        let ghost roots = string_texts(classes@);
        let mut expanded = set_of(classes);
        match mode {
            ClassExpansionMode::Exact(_) => {
                *mode = ClassExpansionMode::Exact(sorted_names(&into_names(expanded)));
            },
            ClassExpansionMode::Children(_) => {
                let mut i: usize = 0;
                while i < classes.len()
                    invariant
                        i <= classes@.len(),
                        graph == self@,
                        roots == string_texts(classes@),
                        forall|x: Seq<char>| #[trigger]
                            names_in(expanded).contains(x) <==> roots.contains(x)
                                || exists|k: int|
                                0 <= k < i && is_child(graph, x, #[trigger] roots[k]),
                    decreases classes@.len() - i,
                {
                    let ghost before = names_in(expanded);
                    assert(roots[i as int] == classes@[i as int]@);
                    self.add_children(classes[i].as_str(), &mut expanded);
                    proof {
                        assert forall|x: Seq<char>| #[trigger]
                            names_in(expanded).contains(x) <==> roots.contains(x)
                            || exists|k: int|
                            0 <= k < i + 1 && is_child(graph, x, #[trigger] roots[k]) by {
                            if before.contains(x) && !roots.contains(x) {
                                let k = choose|k: int|
                                    0 <= k < i && is_child(graph, x, #[trigger] roots[k]);
                                assert(0 <= k < i + 1 && is_child(graph, x, roots[k]));
                            }
                            if exists|k: int|
                                0 <= k < i + 1 && is_child(graph, x, #[trigger] roots[k]) {
                                let k = choose|k: int|
                                    0 <= k < i + 1 && is_child(graph, x, #[trigger] roots[k]);
                                if k < i {
                                    assert(0 <= k < i && is_child(graph, x, roots[k]));
                                    assert(before.contains(x));
                                }
                            }
                        }
                    }
                    i = i + 1;
                }
                proof {
                    assert forall|x: Seq<char>| #[trigger]
                        names_in(expanded).contains(x) <==> roots.contains(x)
                        || exists|parent: Seq<char>|
                        roots.contains(parent) && #[trigger] is_child(graph, x, parent) by {
                        if exists|parent: Seq<char>|
                            roots.contains(parent) && #[trigger] is_child(graph, x, parent) {
                            let parent = choose|parent: Seq<char>|
                                roots.contains(parent) && #[trigger] is_child(graph, x, parent);
                            let k = choose|k: int| 0 <= k < roots.len() && roots[k] == parent;
                            assert(0 <= k < i && is_child(graph, x, roots[k]));
                        }
                        if exists|k: int| 0 <= k < i && is_child(graph, x, #[trigger] roots[k]) {
                            let k = choose|k: int|
                                0 <= k < i && is_child(graph, x, #[trigger] roots[k]);
                            assert(roots.contains(roots[k]));
                        }
                    }
                }
                *mode = ClassExpansionMode::Children(sorted_names(&into_names(expanded)));
            },
            ClassExpansionMode::Descendants(_) => {
                let found = self.matches(classes);
                *mode = ClassExpansionMode::Descendants(sorted_names(&into_names(found)));
            },
        }
    }
}

/// Each wider mode takes in all that a narrower one does.
pub proof fn law_modes_are_incremental(
    graph: Seq<ClassView>,
    roots: Seq<Seq<char>>,
    name: Seq<char>,
    exact: ClassExpansionMode,
    children: ClassExpansionMode,
    descendants: ClassExpansionMode,
)
    requires
        exact is Exact,
        children is Children,
        descendants is Descendants,
    ensures
        exact.takes_in(graph, roots, name) ==> children.takes_in(graph, roots, name),
        children.takes_in(graph, roots, name) ==> descendants.takes_in(graph, roots, name),
{
    if roots.contains(name) {
        assert(descends_in(graph, roots, name, 0));
    } else if children.takes_in(graph, roots, name) {
        let parent = choose|parent: Seq<char>|
            roots.contains(parent) && #[trigger] is_child(graph, name, parent);
        assert(descends_in(graph, roots, parent, 0));
        lemma_child_descends(graph, roots, name, parent);
    }
}

/// What extends a descendant is a descendant.
pub proof fn law_descendants_are_closed(
    graph: Seq<ClassView>,
    roots: Seq<Seq<char>>,
    name: Seq<char>,
    parent: Seq<char>,
)
    requires
        is_child(graph, name, parent),
        descends(graph, roots, parent),
    ensures
        descends(graph, roots, name),
{
    lemma_child_descends(graph, roots, name, parent);
}

} // verus!
