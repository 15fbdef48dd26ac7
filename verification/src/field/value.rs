//! Values of TOML, JSON and YAML documents.

use vstd::prelude::*;
use vstd::string::*;

use crate::entries::{keys_sorted, law_with_entry, with_entry};
use crate::number::{whole_bits, Number, SIGN};
use crate::text::{same_text, text_before};

verus! {

/// Contents of a [`FieldValue`].
pub enum DataView {
    /// Empty or missing.
    Null,
    /// A boolean.
    Bool(bool),
    /// A whole number.
    Int(i64),
    /// A floating-point number, by the bits of the double.
    Float(u64),
    /// Text.
    String(Seq<char>),
    /// An ordered list.
    List(Seq<DataView>),
    /// An object, by key.
    Object(Seq<(Seq<char>, DataView)>),
}

/// A value of a document.
#[derive(Debug)]
pub enum FieldValue {
    /// Empty or missing.
    Null,
    /// A boolean.
    Bool(bool),
    /// A whole number.
    Int(i64),
    /// A floating-point number, by the bits of the double.
    Float(u64),
    /// Text.
    String(String),
    /// An ordered list.
    List(Vec<FieldValue>),
    /// An object: entries in the order of their keys, no key twice.
    Object(Vec<(String, FieldValue)>),
}

/// The contents of each value.
pub open spec fn data_views(values: Seq<FieldValue>) -> Seq<DataView>
    decreases values,
{
    if values.len() == 0 {
        Seq::empty()
    } else {
        data_views(values.drop_last()).push(values.last().contents())
    }
}

/// The contents of each entry.
pub open spec fn data_entries(entries: Seq<(String, FieldValue)>) -> Seq<(Seq<char>, DataView)>
    decreases entries,
{
    if entries.len() == 0 {
        Seq::empty()
    } else {
        data_entries(entries.drop_last()).push((entries.last().0@, entries.last().1.contents()))
    }
}

/// The entries set one after the other: by key, and of two with one key the
/// later.
pub open spec fn object_of(entries: Seq<(Seq<char>, DataView)>) -> Seq<(Seq<char>, DataView)>
    decreases entries.len(),
{
    if entries.len() == 0 {
        Seq::empty()
    } else {
        with_entry(object_of(entries.drop_last()), entries.last().0, entries.last().1)
    }
}

/// The largest whole number.
pub open spec fn max_int() -> int {
    0x7fff_ffff_ffff_ffff
}

/// The bits of the double nearest to the whole number `n`.
pub open spec fn int_bits(n: i64) -> int {
    if n < 0 {
        SIGN + whole_bits((-n) as nat)
    } else {
        whole_bits(n as nat)
    }
}

/// Sets `key` to `value`, keeping the keys in order.
fn set_entry(entries: &mut Vec<(String, FieldValue)>, key: String, value: FieldValue)
    ensures
        data_entries(final(entries)@) == with_entry(
            data_entries(old(entries)@),
            key@,
            value.contents(),
        ),
    decreases old(entries)@.len(),
{
    let ghost before = entries@;
    match entries.pop() {
        None => {
            entries.push((key, value));
            assert(before =~= Seq::empty());
            assert(entries@.drop_last() =~= Seq::empty());
        },
        Some(last) => {
            assert(before.drop_last() =~= entries@);
            let ghost front = entries@;
            assert(data_entries(before).drop_last() =~= data_entries(front));
            if same_text(last.0.as_str(), key.as_str()) {
                entries.push((key, value));
                assert(entries@.drop_last() =~= front);
            } else if text_before(last.0.as_str(), key.as_str()) {
                entries.push(last);
                assert(entries@ =~= before);
                entries.push((key, value));
                assert(entries@.drop_last() =~= before);
            } else {
                set_entry(entries, key, value);
                let ghost inner = entries@;
                entries.push(last);
                assert(entries@.drop_last() =~= inner);
            }
        },
    }
}

impl FieldValue {
    /// The contents of this value.
    pub open spec fn contents(self) -> DataView
        decreases self,
    {
        match self {
            FieldValue::Null => DataView::Null,
            FieldValue::Bool(b) => DataView::Bool(b),
            FieldValue::Int(n) => DataView::Int(n),
            FieldValue::Float(bits) => DataView::Float(bits),
            FieldValue::String(s) => DataView::String(s@),
            FieldValue::List(items) => DataView::List(data_views(items@)),
            FieldValue::Object(entries) => DataView::Object(data_entries(entries@)),
        }
    }

    /// The value of an unsigned number. One that is too large counts as the
    /// largest.
    pub fn from_unsigned(n: u64) -> (value: Self)
        ensures
            value.contents() == DataView::Int(
                if n as int <= max_int() {
                    n as i64
                } else {
                    i64::MAX
                },
            ),
    {
        if n <= 0x7fff_ffff_ffff_ffff {
            FieldValue::Int(n as i64)
        } else {
            FieldValue::Int(i64::MAX)
        }
    }

    /// The object of entries, of which the later of two with one key counts.
    pub fn object(entries: Vec<(String, FieldValue)>) -> (value: Self)
        ensures
            value.contents() == DataView::Object(object_of(data_entries(entries@))),
    {
        let ghost all = entries@;
        let ghost views = data_entries(all);
        let mut sorted: Vec<(String, FieldValue)> = Vec::new();
        proof {
            lemma_data_entries(all);
            assert(views.take(0) =~= Seq::empty());
        }
        for entry in it: entries
            invariant
                it.seq() == all,
                views.len() == all.len(),
                forall|i: int|
                    0 <= i < all.len() ==> (#[trigger] views[i]) == (
                        all[i].0@,
                        all[i].1.contents(),
                    ),
                data_entries(sorted@) == object_of(views.take(it.index())),
        {
            proof {
                let next = views.take(it.index() + 1);
                assert(next.drop_last() =~= views.take(it.index()));
                assert(next.last() == views[it.index() as int]);
            }
            set_entry(&mut sorted, entry.0, entry.1);
        }
        assert(views.take(views.len() as int) =~= views);
        FieldValue::Object(sorted)
    }

    /// The bits of the double, for a number. A whole number is rounded to the
    /// nearest.
    pub fn as_f64(&self) -> (bits: Option<u64>)
        ensures
            match self.contents() {
                DataView::Float(own) => bits == Some(own),
                DataView::Int(n) => bits matches Some(found) && found == int_bits(n),
                _ => bits is None,
            },
    {
        match self {
            FieldValue::Float(bits) => Some(*bits),
            FieldValue::Int(n) => {
                let whole: i64 = *n;
                if whole >= 0 {
                    Some(Number::from_u64(whole as u64).bits())
                } else {
                    let size: u64 = if whole == i64::MIN {
                        0x8000_0000_0000_0000
                    } else {
                        (-whole) as u64
                    };
                    let bits: u64 = Number::from_u64(size).bits();
                    Some(SIGN + bits)
                }
            },
            _ => None,
        }
    }
}

/// The contents of entries, one by one.
proof fn lemma_data_entries(entries: Seq<(String, FieldValue)>)
    ensures
        data_entries(entries).len() == entries.len(),
        forall|i: int|
            0 <= i < entries.len() ==> (#[trigger] data_entries(entries)[i]) == (
                entries[i].0@,
                entries[i].1.contents(),
            ),
    decreases entries.len(),
{
    if entries.len() > 0 {
        lemma_data_entries(entries.drop_last());
        assert forall|i: int| 0 <= i < entries.len() implies (#[trigger] data_entries(entries)[i])
            == (entries[i].0@, entries[i].1.contents()) by {
            if i < entries.len() - 1 {
                assert(data_entries(entries.drop_last())[i] == (
                    entries.drop_last()[i].0@,
                    entries.drop_last()[i].1.contents(),
                ));
            }
        }
    }
}

/// Objects have their keys in order.
pub proof fn law_objects_are_sorted(entries: Seq<(Seq<char>, DataView)>)
    ensures
        keys_sorted(object_of(entries)),
    decreases entries.len(),
{
    if entries.len() > 0 {
        law_objects_are_sorted(entries.drop_last());
        law_with_entry(
            object_of(entries.drop_last()),
            entries.last().0,
            entries.last().1,
            entries.last().0,
        );
    }
}

} // verus!
