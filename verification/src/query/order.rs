//! Stable ordering of rows by their keys.

use vstd::prelude::*;

use super::sort::{
    is_of_kind, key_order, law_order_is_antisymmetric, law_order_is_transitive, sort_key_order,
    ValueKind,
};
use crate::note::value::{FieldValue, ValueView};
use crate::number::Order;

verus! {

/// Two ordered series of positions as one. Of two that compare alike the one
/// from `a` comes first.
pub open spec fn merged(a: Seq<int>, b: Seq<int>, keys: Seq<ValueView>, descending: bool) -> Seq<int>
    decreases a.len() + b.len(),
{
    if a.len() == 0 {
        b
    } else if b.len() == 0 {
        a
    } else if key_order(keys[a[0]], keys[b[0]], descending) == Order::Greater {
        seq![b[0]] + merged(a, b.drop_first(), keys, descending)
    } else {
        seq![a[0]] + merged(a.drop_first(), b, keys, descending)
    }
}

/// The positions from `lo` up to `hi` in the order of their keys.
pub open spec fn ordered_range(keys: Seq<ValueView>, lo: int, hi: int, descending: bool) -> Seq<int>
    decreases hi - lo,
{
    if hi <= lo {
        Seq::empty()
    } else if hi == lo + 1 {
        seq![lo]
    } else {
        let mid = lo + (hi - lo) / 2;
        merged(
            ordered_range(keys, lo, mid, descending),
            ordered_range(keys, mid, hi, descending),
            keys,
            descending,
        )
    }
}

/// All positions in the order of their keys.
pub open spec fn ordered_positions(keys: Seq<ValueView>, descending: bool) -> Seq<int> {
    ordered_range(keys, 0, keys.len() as int, descending)
}

/// The contents of each key.
pub open spec fn key_views(keys: Seq<FieldValue>) -> Seq<ValueView> {
    Seq::new(keys.len(), |i: int| keys[i].contents())
}

/// The positions as integers.
pub open spec fn as_ints(positions: Seq<usize>) -> Seq<int> {
    Seq::new(positions.len(), |i: int| positions[i] as int)
}

fn merge(a: &Vec<usize>, b: &Vec<usize>, keys: &Vec<FieldValue>, descending: bool) -> (all: Vec<
    usize,
>)
    requires
        forall|i: int| 0 <= i < a@.len() ==> (#[trigger] a@[i]) < keys@.len(),
        forall|i: int| 0 <= i < b@.len() ==> (#[trigger] b@[i]) < keys@.len(),
    ensures
        as_ints(all@) == merged(as_ints(a@), as_ints(b@), key_views(keys@), descending),
        forall|i: int| 0 <= i < all@.len() ==> (#[trigger] all@[i]) < keys@.len(),
{
    let ghost x = as_ints(a@);
    let ghost y = as_ints(b@);
    let ghost k = key_views(keys@);
    let ghost whole = merged(x, y, k, descending);
    let mut all: Vec<usize> = Vec::new();
    let mut i: usize = 0;
    let mut j: usize = 0;
    proof {
        assert(x.skip(0) =~= x);
        assert(y.skip(0) =~= y);
        assert(as_ints(all@) + whole =~= whole);
    }
    while i < a.len() || j < b.len()
        invariant
            forall|n: int| 0 <= n < a@.len() ==> (#[trigger] a@[n]) < keys@.len(),
            forall|n: int| 0 <= n < b@.len() ==> (#[trigger] b@[n]) < keys@.len(),
            forall|n: int| 0 <= n < all@.len() ==> (#[trigger] all@[n]) < keys@.len(),
            x == as_ints(a@),
            y == as_ints(b@),
            k == key_views(keys@),
            i <= a@.len(),
            j <= b@.len(),
            as_ints(all@) + merged(x.skip(i as int), y.skip(j as int), k, descending) == whole,
        decreases a@.len() - i + b@.len() - j,
    {
        let ghost p = x.skip(i as int);
        let ghost q = y.skip(j as int);
        let ghost before = all@;
        let from_right = if i >= a.len() {
            true
        } else if j >= b.len() {
            false
        } else {
            assert(p[0] == a@[i as int] && q[0] == b@[j as int]);
            matches!(
                sort_key_order(&keys[a[i]], &keys[b[j]], descending),
                Order::Greater
            )
        };
        proof {
            if i < a@.len() {
                assert(p.drop_first() =~= x.skip(i + 1));
            }
            if j < b@.len() {
                assert(q.drop_first() =~= y.skip(j + 1));
            }
        }
        if from_right {
            all.push(b[j]);
            proof {
                let rest = merged(p, q.drop_first(), k, descending);
                assert(merged(p, q, k, descending) =~= seq![q[0]] + rest) by {
                    if p.len() == 0 {
                        assert(q =~= seq![q[0]] + q.drop_first());
                    }
                }
                assert(as_ints(all@) =~= as_ints(before).push(q[0]));
                assert(as_ints(before) + (seq![q[0]] + rest) =~= as_ints(all@) + rest);
            }
            j = j + 1;
        } else {
            all.push(a[i]);
            proof {
                let rest = merged(p.drop_first(), q, k, descending);
                assert(merged(p, q, k, descending) =~= seq![p[0]] + rest) by {
                    if q.len() == 0 {
                        assert(p =~= seq![p[0]] + p.drop_first());
                        if p.drop_first().len() == 0 {
                            assert(q =~= p.drop_first());
                        }
                    }
                }
                assert(as_ints(all@) =~= as_ints(before).push(p[0]));
                assert(as_ints(before) + (seq![p[0]] + rest) =~= as_ints(all@) + rest);
            }
            i = i + 1;
        }
    }
    assert(merged(x.skip(i as int), y.skip(j as int), k, descending) =~= Seq::empty());
    assert(as_ints(all@) + Seq::<int>::empty() =~= as_ints(all@));
    all
}

fn order_range(keys: &Vec<FieldValue>, lo: usize, hi: usize, descending: bool) -> (positions: Vec<
    usize,
>)
    requires
        lo <= hi <= keys@.len(),
    ensures
        as_ints(positions@) == ordered_range(
            key_views(keys@),
            lo as int,
            hi as int,
            descending,
        ),
        forall|i: int| 0 <= i < positions@.len() ==> (#[trigger] positions@[i]) < keys@.len(),
    decreases hi - lo,
{
    let mut positions: Vec<usize> = Vec::new();
    if lo == hi {
        assert(as_ints(positions@) =~= Seq::empty());
        return positions;
    }
    if hi - lo == 1 {
        positions.push(lo);
        assert(as_ints(positions@) =~= seq![lo as int]);
        return positions;
    }
    let mid: usize = lo + (hi - lo) / 2;
    let left = order_range(keys, lo, mid, descending);
    let right = order_range(keys, mid, hi, descending);
    merge(&left, &right, keys, descending)
}

/// The positions of `keys` in the order of the keys; keys that compare alike
/// stay in order.
pub fn order_positions(keys: &Vec<FieldValue>, descending: bool) -> (positions: Vec<usize>)
    ensures
        as_ints(positions@) == ordered_positions(key_views(keys@), descending),
        forall|i: int| 0 <= i < positions@.len() ==> (#[trigger] positions@[i]) < keys@.len(),
{
    order_range(keys, 0, keys.len(), descending)
}

/// Every position from `lo` up to `hi` stands in `positions` exactly as often
/// as its length allows.
pub open spec fn covers(positions: Seq<int>, lo: int, hi: int) -> bool {
    &&& positions.len() == hi - lo
    &&& forall|p: int| lo <= p < hi <==> #[trigger] positions.contains(p)
}

proof fn lemma_merged_contents(a: Seq<int>, b: Seq<int>, keys: Seq<ValueView>, descending: bool)
    ensures
        merged(a, b, keys, descending).len() == a.len() + b.len(),
        forall|p: int| #[trigger]
            merged(a, b, keys, descending).contains(p) <==> a.contains(p) || b.contains(p),
    decreases a.len() + b.len(),
{
    let all = merged(a, b, keys, descending);
    if a.len() > 0 && b.len() > 0 {
        if key_order(keys[a[0]], keys[b[0]], descending) == Order::Greater {
            let rest = merged(a, b.drop_first(), keys, descending);
            lemma_merged_contents(a, b.drop_first(), keys, descending);
            assert forall|p: int| #[trigger] all.contains(p) <==> a.contains(p) || b.contains(p) by {
                lemma_front(all, b[0], rest, p);
                lemma_front(b, b[0], b.drop_first(), p);
            }
        } else {
            let rest = merged(a.drop_first(), b, keys, descending);
            lemma_merged_contents(a.drop_first(), b, keys, descending);
            assert forall|p: int| #[trigger] all.contains(p) <==> a.contains(p) || b.contains(p) by {
                lemma_front(all, a[0], rest, p);
                lemma_front(a, a[0], a.drop_first(), p);
            }
        }
    }
}

proof fn lemma_front(all: Seq<int>, first: int, rest: Seq<int>, p: int)
    requires
        all =~= seq![first] + rest,
    ensures
        all.contains(p) <==> p == first || rest.contains(p),
{
    if all.contains(p) {
        let i = choose|i: int| 0 <= i < all.len() && all[i] == p;
        if i > 0 {
            assert(rest[i - 1] == p);
        }
    }
    if rest.contains(p) {
        let i = choose|i: int| 0 <= i < rest.len() && rest[i] == p;
        assert(all[i + 1] == p);
    }
    assert(all[0] == first);
}

/// Ordering neither loses nor repeats a position.
pub proof fn law_ordering_covers(keys: Seq<ValueView>, lo: int, hi: int, descending: bool)
    requires
        lo <= hi,
    ensures
        covers(ordered_range(keys, lo, hi, descending), lo, hi),
    decreases hi - lo,
{
    let all = ordered_range(keys, lo, hi, descending);
    if hi == lo + 1 {
        assert(all[0] == lo);
    } else if hi > lo + 1 {
        let mid = lo + (hi - lo) / 2;
        law_ordering_covers(keys, lo, mid, descending);
        law_ordering_covers(keys, mid, hi, descending);
        let left = ordered_range(keys, lo, mid, descending);
        let right = ordered_range(keys, mid, hi, descending);
        lemma_merged_contents(left, right, keys, descending);
        assert forall|p: int| lo <= p < hi <==> #[trigger] all.contains(p) by {
            assert(all.contains(p) <==> left.contains(p) || right.contains(p));
        }
    }
}

/// Position `p` belongs before position `q`: its key is smaller, or compares
/// alike and stood before.
pub open spec fn belongs_before(keys: Seq<ValueView>, p: int, q: int, descending: bool) -> bool {
    ||| key_order(keys[p], keys[q], descending) == Order::Less
    ||| key_order(keys[p], keys[q], descending) == Order::Equal && p < q
}

/// Each position belongs before every later one.
pub open spec fn in_order(positions: Seq<int>, keys: Seq<ValueView>, descending: bool) -> bool {
    forall|i: int, j: int|
        0 <= i < j < positions.len() ==> belongs_before(
            keys,
            #[trigger] positions[i],
            #[trigger] positions[j],
            descending,
        )
}

/// All keys are null or of one comparable kind.
pub open spec fn comparable(keys: Seq<ValueView>, kind: ValueKind) -> bool {
    forall|i: int| 0 <= i < keys.len() ==> is_of_kind(#[trigger] keys[i], kind)
}

proof fn lemma_before_transitive(
    keys: Seq<ValueView>,
    kind: ValueKind,
    p: int,
    q: int,
    r: int,
    descending: bool,
)
    requires
        comparable(keys, kind),
        0 <= p < keys.len(),
        0 <= q < keys.len(),
        0 <= r < keys.len(),
        belongs_before(keys, p, q, descending),
        key_order(keys[q], keys[r], descending) != Order::Greater,
        key_order(keys[q], keys[r], descending) == Order::Equal ==> q < r || key_order(
            keys[p],
            keys[q],
            descending,
        ) == Order::Less,
    ensures
        belongs_before(keys, p, r, descending),
{
    law_order_is_transitive(keys[p], keys[q], keys[r], kind, descending);
    law_order_is_antisymmetric(keys[p], keys[q], descending);
    law_order_is_antisymmetric(keys[q], keys[r], descending);
    law_order_is_antisymmetric(keys[p], keys[r], descending);
    if key_order(keys[p], keys[r], descending) == Order::Equal {
        law_order_is_transitive(keys[r], keys[p], keys[q], kind, descending);
        law_order_is_transitive(keys[q], keys[r], keys[p], kind, descending);
    }
}

proof fn lemma_merged_in_order(
    a: Seq<int>,
    b: Seq<int>,
    keys: Seq<ValueView>,
    kind: ValueKind,
    descending: bool,
)
    requires
        comparable(keys, kind),
        in_order(a, keys, descending),
        in_order(b, keys, descending),
        forall|i: int| 0 <= i < a.len() ==> 0 <= #[trigger] a[i] < keys.len(),
        forall|i: int| 0 <= i < b.len() ==> 0 <= #[trigger] b[i] < keys.len(),
        forall|i: int, j: int|
            0 <= i < a.len() && 0 <= j < b.len() ==> #[trigger] a[i] < #[trigger] b[j],
    ensures
        in_order(merged(a, b, keys, descending), keys, descending),
    decreases a.len() + b.len(),
{
    let all = merged(a, b, keys, descending);
    if a.len() > 0 && b.len() > 0 {
        let from_b = key_order(keys[a[0]], keys[b[0]], descending) == Order::Greater;
        let x = if from_b {
            a
        } else {
            a.drop_first()
        };
        let y = if from_b {
            b.drop_first()
        } else {
            b
        };
        let first = if from_b {
            b[0]
        } else {
            a[0]
        };
        assert(in_order(x, keys, descending)) by {
            assert forall|i: int, j: int| 0 <= i < j < x.len() implies belongs_before(
                keys,
                #[trigger] x[i],
                #[trigger] x[j],
                descending,
            ) by {
                if !from_b {
                    assert(x[i] == a[i + 1] && x[j] == a[j + 1]);
                }
            }
        }
        assert(in_order(y, keys, descending)) by {
            assert forall|i: int, j: int| 0 <= i < j < y.len() implies belongs_before(
                keys,
                #[trigger] y[i],
                #[trigger] y[j],
                descending,
            ) by {
                if from_b {
                    assert(y[i] == b[i + 1] && y[j] == b[j + 1]);
                }
            }
        }
        assert forall|i: int| 0 <= i < x.len() implies 0 <= #[trigger] x[i] < keys.len() by {
            if !from_b {
                assert(x[i] == a[i + 1]);
            }
        }
        assert forall|i: int| 0 <= i < y.len() implies 0 <= #[trigger] y[i] < keys.len() by {
            if from_b {
                assert(y[i] == b[i + 1]);
            }
        }
        assert forall|i: int, j: int| 0 <= i < x.len() && 0 <= j < y.len() implies #[trigger] x[i]
            < #[trigger] y[j] by {
            if from_b {
                assert(y[j] == b[j + 1]);
            } else {
                assert(x[i] == a[i + 1]);
            }
        }
        lemma_merged_in_order(x, y, keys, kind, descending);
        lemma_merged_contents(x, y, keys, descending);
        let rest = merged(x, y, keys, descending);
        assert(all =~= seq![first] + rest);
        assert forall|q: int| #[trigger] rest.contains(q) implies belongs_before(
            keys,
            first,
            q,
            descending,
        ) by {
            lemma_first_before(a, b, keys, kind, descending, q);
        }
        assert forall|i: int, j: int| 0 <= i < j < all.len() implies belongs_before(
            keys,
            #[trigger] all[i],
            #[trigger] all[j],
            descending,
        ) by {
            assert(all[j] == rest[j - 1]);
            if i == 0 {
                assert(rest.contains(all[j]));
            } else {
                assert(all[i] == rest[i - 1]);
            }
        }
    }
}

/// What a merge takes first belongs before all that is left.
proof fn lemma_first_before(
    a: Seq<int>,
    b: Seq<int>,
    keys: Seq<ValueView>,
    kind: ValueKind,
    descending: bool,
    q: int,
)
    requires
        a.len() > 0,
        b.len() > 0,
        comparable(keys, kind),
        in_order(a, keys, descending),
        in_order(b, keys, descending),
        forall|i: int| 0 <= i < a.len() ==> 0 <= #[trigger] a[i] < keys.len(),
        forall|i: int| 0 <= i < b.len() ==> 0 <= #[trigger] b[i] < keys.len(),
        forall|i: int, j: int|
            0 <= i < a.len() && 0 <= j < b.len() ==> #[trigger] a[i] < #[trigger] b[j],
        if key_order(keys[a[0]], keys[b[0]], descending) == Order::Greater {
            a.contains(q) || b.drop_first().contains(q)
        } else {
            a.drop_first().contains(q) || b.contains(q)
        },
    ensures
        ({
            let first = if key_order(keys[a[0]], keys[b[0]], descending) == Order::Greater {
                b[0]
            } else {
                a[0]
            };
            belongs_before(keys, first, q, descending)
        }),
{
    let from_b = key_order(keys[a[0]], keys[b[0]], descending) == Order::Greater;
    law_order_is_antisymmetric(keys[a[0]], keys[b[0]], descending);
    if from_b {
        if a.contains(q) {
            let i = choose|i: int| 0 <= i < a.len() && a[i] == q;
            if i > 0 {
                assert(belongs_before(keys, a[0], a[i], descending));
                lemma_before_transitive(keys, kind, b[0], a[0], q, descending);
            }
        } else {
            let i = choose|i: int|
                0 <= i < b.drop_first().len() && b.drop_first()[i] == q;
            assert(b[i + 1] == q);
            assert(belongs_before(keys, b[0], b[i + 1], descending));
        }
    } else {
        if a.drop_first().contains(q) {
            let i = choose|i: int|
                0 <= i < a.drop_first().len() && a.drop_first()[i] == q;
            assert(a[i + 1] == q);
            assert(belongs_before(keys, a[0], a[i + 1], descending));
        } else {
            let i = choose|i: int| 0 <= i < b.len() && b[i] == q;
            assert(a[0] < b[0]);
            assert(a[0] < b[i]);
            assert(belongs_before(keys, a[0], b[0], descending));
            if i > 0 {
                assert(belongs_before(keys, b[0], b[i], descending));
                lemma_range_order(keys, kind, a[0], b[0], q, descending);
            }
        }
    }
}

proof fn lemma_range_order(
    keys: Seq<ValueView>,
    kind: ValueKind,
    p: int,
    q: int,
    r: int,
    descending: bool,
)
    requires
        comparable(keys, kind),
        0 <= p < keys.len(),
        0 <= q < keys.len(),
        0 <= r < keys.len(),
        key_order(keys[p], keys[q], descending) != Order::Greater,
        key_order(keys[q], keys[r], descending) != Order::Greater,
        p < r,
    ensures
        belongs_before(keys, p, r, descending),
{
    law_order_is_transitive(keys[p], keys[q], keys[r], kind, descending);
}

/// Where all keys are null or of one comparable kind, rows come out sorted,
/// and those with equal keys keep their order.
pub proof fn law_ordering_is_stable(
    keys: Seq<ValueView>,
    kind: ValueKind,
    lo: int,
    hi: int,
    descending: bool,
)
    requires
        comparable(keys, kind),
        0 <= lo <= hi <= keys.len(),
    ensures
        in_order(ordered_range(keys, lo, hi, descending), keys, descending),
    decreases hi - lo,
{
    if hi > lo + 1 {
        let mid = lo + (hi - lo) / 2;
        law_ordering_is_stable(keys, kind, lo, mid, descending);
        law_ordering_is_stable(keys, kind, mid, hi, descending);
        law_ordering_covers(keys, lo, mid, descending);
        law_ordering_covers(keys, mid, hi, descending);
        let left = ordered_range(keys, lo, mid, descending);
        let right = ordered_range(keys, mid, hi, descending);
        assert forall|i: int| 0 <= i < left.len() implies 0 <= #[trigger] left[i] < keys.len() by {
            assert(left.contains(left[i]));
        }
        assert forall|i: int| 0 <= i < right.len() implies 0 <= #[trigger] right[i]
            < keys.len() by {
            assert(right.contains(right[i]));
        }
        assert forall|i: int, j: int| 0 <= i < left.len() && 0 <= j < right.len() implies
        #[trigger] left[i] < #[trigger] right[j] by {
            assert(left.contains(left[i]));
            assert(right.contains(right[j]));
        }
        lemma_merged_in_order(left, right, keys, kind, descending);
    }
}

} // verus!
