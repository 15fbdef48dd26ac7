//! What the frontmatter of a note gives.

use vstd::prelude::*;

use super::texts::{
    is_all_space, is_tight, law_trimmed_texts_are_tight, law_trimming_takes_whitespace_alone,
};
use crate::entries::{entry_for, keys_sorted, law_with_entry};
use crate::field::value::{law_objects_are_sorted, object_of, DataView};
use crate::field::yaml::{scalar_text, yaml_document, YamlView};
use crate::note::metadata::{fields_of_frontmatter, fields_of_mapping, FieldSource, FieldView};
use crate::note::structure::wikilink_of;
use crate::note::value::{
    law_yaml_objects_are_sorted, object_of_yaml, starts_with_date, value_of_yaml, values_of_yaml,
    ValueView,
};
use crate::number::{number_for, NumberView};
use crate::text::{is_digit, lemma_text_lt_irreflexive, text_lt};

verus! {

/// Nulls, booleans and numbers stay what they are. A number beyond doubles is
/// missing. A tag does not count.
pub proof fn law_plain_yaml_values_stay(b: bool, number: NumberView, text: Seq<char>, inner: YamlView)
    ensures
        value_of_yaml(YamlView::Null) == ValueView::Null,
        value_of_yaml(YamlView::Bool(b)) == ValueView::Bool(b),
        value_of_yaml(YamlView::Number(Some(number), text)) == ValueView::Number(number),
        value_of_yaml(YamlView::Number(None, text)) == ValueView::Null,
        value_of_yaml(YamlView::Tagged(Box::new(inner))) == value_of_yaml(inner),
{
}

/// A text between whitespace: nothing between is a missing value, a wikilink is a
/// link, a day is a date, and all else is the text, whitespace included.
pub proof fn law_yaml_texts(left: Seq<char>, core: Seq<char>, right: Seq<char>)
    requires
        is_all_space(left),
        is_all_space(right),
        is_tight(core),
    ensures
        ({
            let text = left + core + right;
            let value = value_of_yaml(YamlView::String(text));
            let is_day = core.len() >= 10 && core[4] == '-' && core[7] == '-' && forall|i: int|
                0 <= i < 10 && i != 4 && i != 7 ==> '0' <= #[trigger] core[i] && core[i] <= '9';
            &&& core.len() == 0 ==> value == ValueView::Null
            &&& core.len() > 0 && wikilink_of(core) is Some ==> value == ValueView::Link(
                wikilink_of(core).unwrap(),
            )
            &&& core.len() > 0 && wikilink_of(core) is None && is_day ==> value == ValueView::Date(
                text,
            )
            &&& core.len() > 0 && wikilink_of(core) is None && !is_day ==> value
                == ValueView::String(text)
        }),
{
    law_trimming_takes_whitespace_alone(left, core, right);
    if core.len() >= 10 {
        let is_day = core[4] == '-' && core[7] == '-' && forall|i: int|
            0 <= i < 10 && i != 4 && i != 7 ==> '0' <= #[trigger] core[i] && core[i] <= '9';
        if starts_with_date(core) {
            assert forall|i: int| 0 <= i < 10 && i != 4 && i != 7 implies '0' <= #[trigger] core[i]
                && core[i] <= '9' by {
                assert(i == 0 || i == 1 || i == 2 || i == 3 || i == 5 || i == 6 || i == 8 || i
                    == 9);
            }
            assert(is_day);
        } else if is_day {
            assert(is_digit(core[0]) && is_digit(core[1]) && is_digit(core[2]) && is_digit(core[3]));
            assert(is_digit(core[5]) && is_digit(core[6]) && is_digit(core[8]) && is_digit(core[9]));
        }
    }
}

/// A sequence gives a list of as many values, each that of the item in its place.
pub proof fn law_yaml_sequences_go_item_by_item(items: Seq<YamlView>)
    ensures
        value_of_yaml(YamlView::Sequence(items)) is List,
        value_of_yaml(YamlView::Sequence(items))->List_0.len() == items.len(),
        forall|i: int|
            0 <= i < items.len() ==> #[trigger] value_of_yaml(YamlView::Sequence(items))->List_0[i]
                == value_of_yaml(items[i]),
{
    lemma_values(items);
}

proof fn lemma_values(items: Seq<YamlView>)
    ensures
        values_of_yaml(items).len() == items.len(),
        forall|i: int|
            0 <= i < items.len() ==> #[trigger] values_of_yaml(items)[i] == value_of_yaml(items[i]),
    decreases items.len(),
{
    if items.len() > 0 {
        lemma_values(items.drop_last());
    }
}

/// A key is written as it stands; a boolean by its name. A null, a sequence, a
/// mapping and a tagged value are no keys.
pub proof fn law_keys_are_texts(key: YamlView)
    ensures
        match key {
            YamlView::String(text) => scalar_text(key) == Some(text),
            YamlView::Number(_, text) => scalar_text(key) == Some(text),
            YamlView::Bool(b) => scalar_text(key) == Some(
                if b {
                    seq!['t', 'r', 'u', 'e']
                } else {
                    seq!['f', 'a', 'l', 's', 'e']
                },
            ),
            _ => scalar_text(key) is None,
        },
{
    reveal_strlit("true");
    reveal_strlit("false");
    assert("true"@ =~= seq!['t', 'r', 'u', 'e']);
    assert("false"@ =~= seq!['f', 'a', 'l', 's', 'e']);
}

/// Entry `i` is the last with this key.
pub open spec fn is_last_for(entries: Seq<(YamlView, YamlView)>, key: Seq<char>, i: int) -> bool {
    &&& 0 <= i < entries.len()
    &&& scalar_text(entries[i].0) == Some(key)
    &&& forall|j: int| i < j < entries.len() ==> scalar_text((#[trigger] entries[j]).0) != Some(key)
}

proof fn lemma_entry_is_there<V>(entries: Seq<(Seq<char>, V)>, key: Seq<char>, value: V)
    requires
        keys_sorted(entries),
    ensures
        entries.contains((key, value)) <==> entry_for(entries, key) == Some(value),
    decreases entries.len(),
{
    if entries.len() > 0 {
        let front = entries.drop_last();
        let last = entries.last();
        assert(keys_sorted(front)) by {
            assert forall|i: int, j: int| 0 <= i < j < front.len() implies text_lt(
                (#[trigger] front[i]).0,
                (#[trigger] front[j]).0,
            ) by {
                assert(front[i] == entries[i] && front[j] == entries[j]);
            }
        }
        lemma_entry_is_there(front, key, value);
        if entries.contains((key, value)) {
            let i = choose|i: int| 0 <= i < entries.len() && entries[i] == (key, value);
            if i < front.len() {
                assert(front[i] == (key, value));
                assert(front.contains((key, value)));
                assert(text_lt(entries[i].0, entries[entries.len() - 1].0));
                if last.0 == key {
                    lemma_text_lt_irreflexive(key);
                }
            }
        }
        if entry_for(entries, key) == Some(value) {
            if last.0 == key {
                assert(entries[entries.len() - 1] == (key, value));
            } else {
                let i = choose|i: int| 0 <= i < front.len() && front[i] == (key, value);
                assert(entries[i] == (key, value));
            }
        }
    }
}

/// A mapping gives an object whose keys stand in the order of a dictionary. It
/// holds under each key what the last entry with that key says, and nothing else.
pub proof fn law_later_yaml_entries_win(
    entries: Seq<(YamlView, YamlView)>,
    key: Seq<char>,
    value: ValueView,
)
    ensures
        value_of_yaml(YamlView::Mapping(entries)) is Object,
        keys_sorted(value_of_yaml(YamlView::Mapping(entries))->Object_0),
        value_of_yaml(YamlView::Mapping(entries))->Object_0.contains((key, value)) <==> exists|i: int|
            #[trigger] is_last_for(entries, key, i) && value == value_of_yaml(entries[i].1),
{
    law_yaml_objects_are_sorted(entries);
    lemma_entry_is_there(object_of_yaml(entries), key, value);
    lemma_last_yaml_entry(entries, key);
    if exists|i: int| #[trigger] is_last_for(entries, key, i) {
        let i = choose|i: int| #[trigger] is_last_for(entries, key, i);
        assert forall|k: int| #[trigger] is_last_for(entries, key, k) implies k == i by {
            if k < i {
                assert(scalar_text(entries[i].0) != Some(key));
            } else if i < k {
                assert(scalar_text(entries[k].0) != Some(key));
            }
        }
    }
}

proof fn lemma_last_yaml_entry(entries: Seq<(YamlView, YamlView)>, key: Seq<char>)
    ensures
        forall|i: int| #[trigger]
            is_last_for(entries, key, i) ==> entry_for(object_of_yaml(entries), key) == Some(
                value_of_yaml(entries[i].1),
            ),
        entry_for(object_of_yaml(entries), key) is Some ==> exists|i: int| #[trigger]
            is_last_for(entries, key, i),
    decreases entries.len(),
{
    if entries.len() > 0 {
        let front = entries.drop_last();
        let n = entries.len() - 1;
        lemma_last_yaml_entry(front, key);
        law_yaml_objects_are_sorted(front);
        let before = object_of_yaml(front);
        match scalar_text(entries.last().0) {
            Some(own) => {
                law_with_entry(before, own, value_of_yaml(entries.last().1), key);
            },
            None => {},
        }
        if scalar_text(entries[n].0) == Some(key) {
            assert(is_last_for(entries, key, n));
            assert forall|i: int| #[trigger] is_last_for(entries, key, i) implies i == n by {
                if i < n {
                    assert(scalar_text(entries[n].0) != Some(key));
                }
            }
        } else {
            assert forall|i: int| #[trigger] is_last_for(entries, key, i) implies is_last_for(
                front,
                key,
                i,
            ) && front[i] == entries[i] by {
                assert forall|j: int| i < j < front.len() implies scalar_text(
                    (#[trigger] front[j]).0,
                ) != Some(key) by {
                    assert(front[j] == entries[j]);
                }
            }
            assert(entry_for(object_of_yaml(entries), key) == entry_for(before, key));
            if entry_for(before, key) is Some {
                let i = choose|i: int| #[trigger] is_last_for(front, key, i);
                assert(front[i] == entries[i]);
                assert forall|j: int| i < j < entries.len() implies scalar_text(
                    (#[trigger] entries[j]).0,
                ) != Some(key) by {
                    if j < n {
                        assert(front[j] == entries[j]);
                    }
                }
                assert(is_last_for(entries, key, i));
            }
        }
    }
}

/// Entry `i` is the last under this key.
pub open spec fn is_last_under(entries: Seq<(Seq<char>, DataView)>, key: Seq<char>, i: int) -> bool {
    &&& 0 <= i < entries.len()
    &&& entries[i].0 == key
    &&& forall|j: int| i < j < entries.len() ==> (#[trigger] entries[j]).0 != key
}

/// An object that entries are put into one by one holds under each key what was
/// put there last, and nothing else.
pub proof fn law_later_entries_win(
    entries: Seq<(Seq<char>, DataView)>,
    key: Seq<char>,
    value: DataView,
)
    ensures
        keys_sorted(object_of(entries)),
        object_of(entries).contains((key, value)) <==> exists|i: int|
            #[trigger] is_last_under(entries, key, i) && value == entries[i].1,
{
    law_objects_are_sorted(entries);
    lemma_entry_is_there(object_of(entries), key, value);
    lemma_last_entry(entries, key);
    if exists|i: int| #[trigger] is_last_under(entries, key, i) {
        let i = choose|i: int| #[trigger] is_last_under(entries, key, i);
        assert forall|k: int| #[trigger] is_last_under(entries, key, k) implies k == i by {
            if k < i {
                assert(entries[i].0 != key);
            } else if i < k {
                assert(entries[k].0 != key);
            }
        }
    }
}

proof fn lemma_last_entry(entries: Seq<(Seq<char>, DataView)>, key: Seq<char>)
    ensures
        forall|i: int| #[trigger]
            is_last_under(entries, key, i) ==> entry_for(object_of(entries), key) == Some(
                entries[i].1,
            ),
        entry_for(object_of(entries), key) is Some ==> exists|i: int| #[trigger]
            is_last_under(entries, key, i),
    decreases entries.len(),
{
    if entries.len() > 0 {
        let front = entries.drop_last();
        let n = entries.len() - 1;
        lemma_last_entry(front, key);
        law_objects_are_sorted(front);
        let before = object_of(front);
        law_with_entry(before, entries.last().0, entries.last().1, key);
        if entries[n].0 == key {
            assert(is_last_under(entries, key, n));
            assert forall|i: int| #[trigger] is_last_under(entries, key, i) implies i == n by {
                if i < n {
                    assert(entries[n].0 != key);
                }
            }
        } else {
            assert forall|i: int| #[trigger] is_last_under(entries, key, i) implies is_last_under(
                front,
                key,
                i,
            ) && front[i] == entries[i] by {
                assert forall|j: int| i < j < front.len() implies (#[trigger] front[j]).0
                    != key by {
                    assert(front[j] == entries[j]);
                }
            }
            if entry_for(before, key) is Some {
                let i = choose|i: int| #[trigger] is_last_under(front, key, i);
                assert(front[i] == entries[i]);
                assert forall|j: int| i < j < entries.len() implies (#[trigger] entries[j]).0
                    != key by {
                    if j < n {
                        assert(front[j] == entries[j]);
                    }
                }
                assert(is_last_under(entries, key, i));
            }
        }
    }
}

/// The fields of a mapping stand in the order of its entries: those of what comes
/// first, then those of what follows. One entry is one field, named by its key, or
/// none where its key is no text.
pub proof fn law_fields_go_entry_by_entry(
    first: Seq<(YamlView, YamlView)>,
    second: Seq<(YamlView, YamlView)>,
    key: YamlView,
    value: YamlView,
)
    ensures
        fields_of_mapping(first + second) == fields_of_mapping(first) + fields_of_mapping(second),
        fields_of_mapping(seq![(key, value)]) == match scalar_text(key) {
            Some(name) => seq![
                FieldView {
                    key: name,
                    value: value_of_yaml(value),
                    source: FieldSource::Frontmatter,
                },
            ],
            None => Seq::empty(),
        },
    decreases second.len(),
{
    let one = seq![(key, value)];
    assert(one.drop_last() =~= Seq::empty());
    assert(fields_of_mapping(one.drop_last()) =~= Seq::empty());
    if second.len() == 0 {
        assert(first + second =~= first);
        assert(fields_of_mapping(second) =~= Seq::empty());
    } else {
        law_fields_go_entry_by_entry(first, second.drop_last(), key, value);
        assert((first + second).drop_last() =~= first + second.drop_last());
        assert((first + second).last() == second.last());
    }
}

/// Frontmatter that is blank, cannot be read or is no mapping gives no field; a
/// mapping gives its fields.
pub proof fn law_frontmatter_is_a_mapping(raw: Seq<char>)
    ensures
        is_all_space(raw) ==> fields_of_frontmatter(raw).len() == 0,
        !is_all_space(raw) ==> match yaml_document(raw) {
            Some(YamlView::Mapping(entries)) => fields_of_frontmatter(raw) == fields_of_mapping(
                entries,
            ),
            _ => fields_of_frontmatter(raw).len() == 0,
        },
{
    law_trimmed_texts_are_tight(raw);
}

/// The number of a word is what the first entry for that word says.
pub proof fn law_the_first_number_counts(
    entries: Seq<(Seq<char>, NumberView)>,
    word: Seq<char>,
)
    ensures
        match number_for(entries, word) {
            Some(number) => exists|i: int|
                0 <= i < entries.len() && #[trigger] entries[i] == (word, number) && forall|j: int|
                    0 <= j < i ==> (#[trigger] entries[j]).0 != word,
            None => forall|i: int| 0 <= i < entries.len() ==> (#[trigger] entries[i]).0 != word,
        },
    decreases entries.len(),
{
    if entries.len() > 0 {
        let rest = entries.drop_first();
        if entries[0].0 == word {
            assert(entries[0] == (word, number_for(entries, word).unwrap()));
        } else {
            law_the_first_number_counts(rest, word);
            match number_for(rest, word) {
                Some(number) => {
                    let i = choose|i: int|
                        0 <= i < rest.len() && #[trigger] rest[i] == (word, number) && forall|j: int|
                            0 <= j < i ==> (#[trigger] rest[j]).0 != word;
                    assert(entries[i + 1] == (word, number));
                    assert forall|j: int| 0 <= j < i + 1 implies (#[trigger] entries[j]).0
                        != word by {
                        if j > 0 {
                            assert(entries[j] == rest[j - 1]);
                        }
                    }
                },
                None => {
                    assert forall|i: int| 0 <= i < entries.len() implies (#[trigger] entries[i]).0
                        != word by {
                        if i > 0 {
                            assert(entries[i] == rest[i - 1]);
                        }
                    }
                },
            }
        }
    }
}

} // verus!
