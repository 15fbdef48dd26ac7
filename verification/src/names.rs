//! Sorted lists of names, each name once.

use vstd::prelude::*;

use crate::query::record::string_texts;
use crate::text::{
    lemma_text_lt_irreflexive, lemma_text_lt_total, lemma_text_lt_transitive, same_text,
    text_before, text_lt,
};

verus! {

/// Each name comes before all that follow it.
pub open spec fn in_name_order(names: Seq<Seq<char>>) -> bool {
    forall|i: int, j: int|
        0 <= i < j < names.len() ==> text_lt(#[trigger] names[i], #[trigger] names[j])
}

proof fn lemma_insert_name(names: Seq<Seq<char>>, name: Seq<char>, at: int)
    requires
        in_name_order(names),
        0 <= at <= names.len(),
        forall|i: int| 0 <= i < at ==> text_lt(#[trigger] names[i], name),
        at < names.len() ==> text_lt(name, names[at]),
    ensures
        in_name_order(names.insert(at, name)),
        forall|n: Seq<char>| #[trigger]
            names.insert(at, name).contains(n) <==> names.contains(n) || n == name,
{
    let all = names.insert(at, name);
    assert forall|i: int, j: int| 0 <= i < j < all.len() implies text_lt(
        #[trigger] all[i],
        #[trigger] all[j],
    ) by {
        if j < at {
            assert(all[i] == names[i] && all[j] == names[j]);
        } else if j == at {
            assert(all[i] == names[i]);
        } else {
            assert(all[j] == names[j - 1]);
            if i < at {
                assert(all[i] == names[i]);
            } else if i > at {
                assert(all[i] == names[i - 1]);
            } else if j - 1 > at {
                lemma_text_lt_transitive(name, names[at], names[j - 1]);
            }
        }
    }
    assert forall|n: Seq<char>| #[trigger] all.contains(n) <==> names.contains(n) || n == name by {
        if all.contains(n) {
            let i = choose|i: int| 0 <= i < all.len() && all[i] == n;
            if i < at {
                assert(names[i] == n);
            } else if i > at {
                assert(names[i - 1] == n);
            }
        }
        if names.contains(n) {
            let i = choose|i: int| 0 <= i < names.len() && names[i] == n;
            if i < at {
                assert(all[i] == n);
            } else {
                assert(all[i + 1] == n);
            }
        }
        assert(all[at] == name);
    }
}

/// Whether `name` is one of `names`.
pub(crate) fn has_name_in(names: &Vec<String>, name: &str) -> (found: bool)
    ensures
        found == string_texts(names@).contains(name@),
{
    let mut i: usize = 0;
    while i < names.len()
        invariant
            i <= names@.len(),
            forall|k: int| 0 <= k < i ==> (#[trigger] string_texts(names@)[k]) != name@,
        decreases names@.len() - i,
    {
        if same_text(names[i].as_str(), name) {
            assert(string_texts(names@)[i as int] == name@);
            return true;
        }
        i = i + 1;
    }
    false
}

/// Adds a name, unless it is there.
pub fn add_name(names: &mut Vec<String>, name: String)
    requires
        in_name_order(string_texts(old(names)@)),
    ensures
        in_name_order(string_texts(final(names)@)),
        forall|n: Seq<char>| #[trigger]
            string_texts(final(names)@).contains(n) <==> string_texts(old(names)@).contains(n) || n
                == name@,
        final(names)@.len() >= old(names)@.len(),
{
    let ghost before = string_texts(names@);
    let mut at: usize = 0;
    while at < names.len() && text_before(names[at].as_str(), name.as_str())
        invariant
            at <= names@.len(),
            before == string_texts(names@),
            forall|i: int| 0 <= i < at ==> text_lt(#[trigger] before[i], name@),
        decreases names@.len() - at,
    {
        assert(before[at as int] == names@[at as int]@);
        at = at + 1;
    }
    if at < names.len() && same_text(names[at].as_str(), name.as_str()) {
        assert(before[at as int] == name@);
        return;
    }
    proof {
        if at < names@.len() {
            assert(before[at as int] == names@[at as int]@);
            lemma_text_lt_total(before[at as int], name@);
        }
        lemma_insert_name(before, name@, at as int);
    }
    let ghost added = name@;
    names.insert(at, name);
    assert(string_texts(names@) =~= before.insert(at as int, added));
}

/// The names in order, each once.
pub fn sorted_names(names: &Vec<String>) -> (sorted: Vec<String>)
    ensures
        in_name_order(string_texts(sorted@)),
        forall|n: Seq<char>| #[trigger]
            string_texts(sorted@).contains(n) <==> string_texts(names@).contains(n),
{
    let ghost all = string_texts(names@);
    let mut sorted: Vec<String> = Vec::new();
    let mut i: usize = 0;
    while i < names.len()
        invariant
            i <= names@.len(),
            all == string_texts(names@),
            in_name_order(string_texts(sorted@)),
            forall|n: Seq<char>| #[trigger]
                string_texts(sorted@).contains(n) <==> exists|k: int|
                    0 <= k < i && #[trigger] all[k] == n,
        decreases names@.len() - i,
    {
        let ghost before = string_texts(sorted@);
        assert(all[i as int] == names@[i as int]@);
        add_name(&mut sorted, names[i].clone());
        proof {
            assert forall|n: Seq<char>| #[trigger]
                string_texts(sorted@).contains(n) <==> exists|k: int|
                0 <= k < i + 1 && #[trigger] all[k] == n by {
                if before.contains(n) {
                    let k = choose|k: int| 0 <= k < i && #[trigger] all[k] == n;
                    assert(0 <= k < i + 1 && all[k] == n);
                }
                if exists|k: int| 0 <= k < i + 1 && #[trigger] all[k] == n {
                    let k = choose|k: int| 0 <= k < i + 1 && #[trigger] all[k] == n;
                    if k < i {
                        assert(before.contains(n));
                    }
                }
            }
        }
        i = i + 1;
    }
    sorted
}

/// Two ordered lists of the same names are the same.
pub proof fn law_names_determine_order(a: Seq<Seq<char>>, b: Seq<Seq<char>>)
    requires
        in_name_order(a),
        in_name_order(b),
        forall|n: Seq<char>| #[trigger] a.contains(n) <==> b.contains(n),
    ensures
        a == b,
    decreases a.len(),
{
    if a.len() == 0 {
        if b.len() > 0 {
            assert(b.contains(b[0]));
            assert(a.contains(b[0]));
        }
        assert(a =~= b);
    } else {
        assert(a.contains(a[0]));
        assert(b.contains(a[0]));
        let i = choose|i: int| 0 <= i < b.len() && b[i] == a[0];
        assert(b.contains(b[0]));
        assert(a.contains(b[0]));
        let j = choose|j: int| 0 <= j < a.len() && a[j] == b[0];
        if i > 0 {
            assert(text_lt(b[0], b[i]));
            if j > 0 {
                assert(text_lt(a[0], a[j]));
                lemma_text_lt_transitive(a[0], b[0], a[0]);
            }
            lemma_text_lt_irreflexive(a[0]);
        }
        assert(a[0] == b[0]);
        let x = a.drop_first();
        let y = b.drop_first();
        assert forall|n: Seq<char>| #[trigger] x.contains(n) <==> y.contains(n) by {
            lemma_text_lt_irreflexive(n);
            if x.contains(n) {
                let k = choose|k: int| 0 <= k < x.len() && x[k] == n;
                assert(a[k + 1] == n);
                assert(text_lt(a[0], a[k + 1]));
                assert(a.contains(n));
                assert(b.contains(n));
                let m = choose|m: int| 0 <= m < b.len() && b[m] == n;
                assert(y[m - 1] == n);
            }
            if y.contains(n) {
                let k = choose|k: int| 0 <= k < y.len() && y[k] == n;
                assert(b[k + 1] == n);
                assert(text_lt(b[0], b[k + 1]));
                assert(b.contains(n));
                assert(a.contains(n));
                let m = choose|m: int| 0 <= m < a.len() && a[m] == n;
                assert(x[m - 1] == n);
            }
        }
        assert forall|m: int, n: int| 0 <= m < n < x.len() implies text_lt(
            #[trigger] x[m],
            #[trigger] x[n],
        ) by {
            assert(x[m] == a[m + 1] && x[n] == a[n + 1]);
        }
        assert forall|m: int, n: int| 0 <= m < n < y.len() implies text_lt(
            #[trigger] y[m],
            #[trigger] y[n],
        ) by {
            assert(y[m] == b[m + 1] && y[n] == b[n + 1]);
        }
        law_names_determine_order(x, y);
        assert(a =~= seq![a[0]] + x);
        assert(b =~= seq![b[0]] + y);
    }
}

} // verus!
