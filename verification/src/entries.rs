//! Entries of objects, by key.

use vstd::prelude::*;

use crate::text::{lemma_text_lt_total, lemma_text_lt_transitive, text_lt};

verus! {

/// `entries` with `key` set to `value`, in the order of keys.
pub open spec fn with_entry<V>(
    entries: Seq<(Seq<char>, V)>,
    key: Seq<char>,
    value: V,
) -> Seq<(Seq<char>, V)>
    decreases entries.len(),
{
    if entries.len() == 0 {
        seq![(key, value)]
    } else if entries.last().0 == key {
        entries.drop_last().push((key, value))
    } else if text_lt(entries.last().0, key) {
        entries.push((key, value))
    } else {
        with_entry(entries.drop_last(), key, value).push(entries.last())
    }
}

/// The keys stand in strictly increasing order.
pub open spec fn keys_sorted<V>(entries: Seq<(Seq<char>, V)>) -> bool {
    forall|i: int, j: int|
        0 <= i < j < entries.len() ==> text_lt(
            (#[trigger] entries[i]).0,
            (#[trigger] entries[j]).0,
        )
}

/// What `entries` holds under `key`.
pub open spec fn entry_for<V>(entries: Seq<(Seq<char>, V)>, key: Seq<char>) -> Option<
    V,
>
    decreases entries.len(),
{
    if entries.len() == 0 {
        None
    } else if entries.last().0 == key {
        Some(entries.last().1)
    } else {
        entry_for(entries.drop_last(), key)
    }
}

proof fn lemma_keys_below<V>(
    entries: Seq<(Seq<char>, V)>,
    key: Seq<char>,
    value: V,
    bound: Seq<char>,
)
    requires
        keys_sorted(entries),
        text_lt(key, bound),
        forall|i: int| 0 <= i < entries.len() ==> text_lt((#[trigger] entries[i]).0, bound),
    ensures
        forall|i: int|
            0 <= i < with_entry(entries, key, value).len() ==> text_lt(
                (#[trigger] with_entry(entries, key, value)[i]).0,
                bound,
            ),
    decreases entries.len(),
{
    if entries.len() > 0 {
        let front = entries.drop_last();
        assert forall|i: int| 0 <= i < front.len() implies text_lt(
            (#[trigger] front[i]).0,
            bound,
        ) by {
            assert(front[i] == entries[i]);
        }
        assert(keys_sorted(front)) by {
            assert forall|i: int, j: int| 0 <= i < j < front.len() implies text_lt(
                (#[trigger] front[i]).0,
                (#[trigger] front[j]).0,
            ) by {
                assert(front[i] == entries[i] && front[j] == entries[j]);
            }
        }
        lemma_keys_below(front, key, value, bound);
        assert(text_lt(entries[entries.len() - 1].0, bound));
        let with = with_entry(entries, key, value);
        let inner = with_entry(front, key, value);
        assert forall|i: int| 0 <= i < with.len() implies text_lt((#[trigger] with[i]).0, bound) by {
            if entries.last().0 != key && !text_lt(entries.last().0, key) {
                if i < inner.len() {
                    assert(with[i] == inner[i]);
                }
            } else if i < front.len() {
                assert(with[i] == entries[i]);
            }
        }
    }
}

/// Setting an entry keeps the keys in order and changes what is held under
/// that key alone.
pub proof fn law_with_entry<V>(
    entries: Seq<(Seq<char>, V)>,
    key: Seq<char>,
    value: V,
    other: Seq<char>,
)
    requires
        keys_sorted(entries),
    ensures
        keys_sorted(with_entry(entries, key, value)),
        entry_for(with_entry(entries, key, value), key) == Some(value),
        other != key ==> entry_for(with_entry(entries, key, value), other) == entry_for(
            entries,
            other,
        ),
    decreases entries.len(),
{
    let with = with_entry(entries, key, value);
    if entries.len() == 0 {
        assert(with.drop_last() =~= entries);
    } else {
        let front = entries.drop_last();
        let last = entries.last();
        assert(keys_sorted(front)) by {
            assert forall|i: int, j: int| 0 <= i < j < front.len() implies text_lt(
                (#[trigger] front[i]).0,
                (#[trigger] front[j]).0,
            ) by {
                assert(front[i] == entries[i] && front[j] == entries[j]);
            }
        }
        law_with_entry(front, key, value, other);
        assert forall|i: int| 0 <= i < front.len() implies text_lt(
            (#[trigger] front[i]).0,
            last.0,
        ) by {
            assert(front[i] == entries[i]);
            assert(entries[entries.len() - 1] == last);
        }
        if last.0 == key {
            assert(with.drop_last() =~= front);
        } else if text_lt(last.0, key) {
            assert(with.drop_last() =~= entries);
            assert forall|i: int, j: int| 0 <= i < j < with.len() implies text_lt(
                (#[trigger] with[i]).0,
                (#[trigger] with[j]).0,
            ) by {
                if j == entries.len() && i < front.len() {
                    assert(with[i] == front[i]);
                    lemma_text_lt_transitive(with[i].0, last.0, key);
                } else if j < entries.len() {
                    assert(with[i] == entries[i] && with[j] == entries[j]);
                }
            }
        } else {
            lemma_text_lt_total(last.0, key);
            lemma_keys_below(front, key, value, last.0);
            let inner = with_entry(front, key, value);
            assert(with.drop_last() =~= inner);
            assert forall|i: int, j: int| 0 <= i < j < with.len() implies text_lt(
                (#[trigger] with[i]).0,
                (#[trigger] with[j]).0,
            ) by {
                assert(with[i] == inner[i]);
                if j < inner.len() {
                    assert(with[j] == inner[j]);
                } else {
                    assert(with_entry(front, key, value)[i].0 == inner[i].0);
                }
            }
        }
    }
}

} // verus!
