//! Typed metadata values.

use vstd::prelude::*;
use vstd::string::*;

use super::structure::{wikilink_of, Outlink, OutlinkView};
use crate::entries::{keys_sorted, law_with_entry, with_entry};
use crate::field::yaml::{
    lemma_yaml_entry_views, lemma_yaml_views, scalar_text, yaml_entry_views, yaml_scalar_to_string,
    yaml_views, YamlValue, YamlView,
};
use crate::number::{number_order, Number, NumberView, Order};
use crate::text::{
    chars_of, is_digit, same_text, text_before, trim, trimmed,
};

verus! {

/// Contents of a [`FieldValue`].
pub enum ValueView {
    /// Empty or missing.
    Null,
    /// A boolean.
    Bool(bool),
    /// A number.
    Number(NumberView),
    /// Plain text.
    String(Seq<char>),
    /// Text that begins with an ISO date.
    Date(Seq<char>),
    /// Text of a duration.
    Duration(Seq<char>),
    /// A link.
    Link(OutlinkView),
    /// An ordered list.
    List(Seq<ValueView>),
    /// An object, by key.
    Object(Seq<(Seq<char>, ValueView)>),
}

/// A typed metadata value.
#[derive(Debug)]
pub enum FieldValue {
    /// Empty or missing.
    Null,
    /// A boolean.
    Bool(bool),
    /// A number.
    Number(Number),
    /// Plain text.
    String(String),
    /// Text that begins with an ISO date.
    Date(String),
    /// Text of a duration.
    Duration(String),
    /// A link.
    Link(Outlink),
    /// An ordered list.
    List(Vec<FieldValue>),
    /// An object: entries in the order of their keys, no key twice.
    Object(Vec<(String, FieldValue)>),
}

/// The contents of each value.
pub open spec fn value_views(values: Seq<FieldValue>) -> Seq<ValueView>
    decreases values,
{
    if values.len() == 0 {
        Seq::empty()
    } else {
        value_views(values.drop_last()).push(values.last().contents())
    }
}

/// The contents of each entry.
pub open spec fn entry_views(entries: Seq<(String, FieldValue)>) -> Seq<(Seq<char>, ValueView)>
    decreases entries,
{
    if entries.len() == 0 {
        Seq::empty()
    } else {
        entry_views(entries.drop_last()).push((entries.last().0@, entries.last().1.contents()))
    }
}

impl FieldValue {
    /// The contents of this value.
    pub open spec fn contents(self) -> ValueView
        decreases self,
    {
        match self {
            FieldValue::Null => ValueView::Null,
            FieldValue::Bool(b) => ValueView::Bool(b),
            FieldValue::Number(n) => ValueView::Number(n@),
            FieldValue::String(s) => ValueView::String(s@),
            FieldValue::Date(s) => ValueView::Date(s@),
            FieldValue::Duration(s) => ValueView::Duration(s@),
            FieldValue::Link(link) => ValueView::Link(link@),
            FieldValue::List(items) => ValueView::List(value_views(items@)),
            FieldValue::Object(entries) => ValueView::Object(entry_views(entries@)),
        }
    }
}

/// The contents of values, one by one.
pub proof fn lemma_value_views(values: Seq<FieldValue>)
    ensures
        value_views(values).len() == values.len(),
        forall|i: int|
            0 <= i < values.len() ==> (#[trigger] value_views(values)[i]) == values[i].contents(),
    decreases values.len(),
{
    if values.len() > 0 {
        lemma_value_views(values.drop_last());
        assert forall|i: int| 0 <= i < values.len() implies (#[trigger] value_views(values)[i])
            == values[i].contents() by {
            if i < values.len() - 1 {
                assert(value_views(values.drop_last())[i] == values.drop_last()[i].contents());
            }
        }
    }
}

/// The contents of entries, one by one.
pub proof fn lemma_entry_views(entries: Seq<(String, FieldValue)>)
    ensures
        entry_views(entries).len() == entries.len(),
        forall|i: int|
            0 <= i < entries.len() ==> (#[trigger] entry_views(entries)[i]) == (
                entries[i].0@,
                entries[i].1.contents(),
            ),
    decreases entries.len(),
{
    if entries.len() > 0 {
        lemma_entry_views(entries.drop_last());
        assert forall|i: int| 0 <= i < entries.len() implies (#[trigger] entry_views(entries)[i])
            == (entries[i].0@, entries[i].1.contents()) by {
            if i < entries.len() - 1 {
                assert(entry_views(entries.drop_last())[i] == (
                    entries.drop_last()[i].0@,
                    entries.drop_last()[i].1.contents(),
                ));
            }
        }
    }
}

/// The text of a string, date or duration.
pub open spec fn value_text(value: ValueView) -> Option<Seq<char>> {
    match value {
        ValueView::String(s) => Some(s),
        ValueView::Date(s) => Some(s),
        ValueView::Duration(s) => Some(s),
        _ => None,
    }
}

/// Two values are of one kind and equal. Numbers are equal as numbers.
pub open spec fn values_equal(a: ValueView, b: ValueView) -> bool
    decreases a,
{
    match (a, b) {
        (ValueView::Null, ValueView::Null) => true,
        (ValueView::Bool(x), ValueView::Bool(y)) => x == y,
        (ValueView::Number(x), ValueView::Number(y)) => number_order(x.bits, y.bits) == Some(
            Order::Equal,
        ),
        (ValueView::String(x), ValueView::String(y)) => x == y,
        (ValueView::Date(x), ValueView::Date(y)) => x == y,
        (ValueView::Duration(x), ValueView::Duration(y)) => x == y,
        (ValueView::Link(x), ValueView::Link(y)) => x == y,
        (ValueView::List(x), ValueView::List(y)) => all_equal(x, y),
        (ValueView::Object(x), ValueView::Object(y)) => entries_equal(x, y),
        _ => false,
    }
}

/// Two lists of values are equal, item by item.
pub open spec fn all_equal(a: Seq<ValueView>, b: Seq<ValueView>) -> bool
    decreases a,
{
    if a.len() == 0 || b.len() == 0 {
        a.len() == b.len()
    } else {
        values_equal(a.last(), b.last()) && all_equal(a.drop_last(), b.drop_last())
    }
}

/// Two objects are equal, entry by entry.
pub open spec fn entries_equal(a: Seq<(Seq<char>, ValueView)>, b: Seq<(Seq<char>, ValueView)>) -> bool
    decreases a,
{
    if a.len() == 0 || b.len() == 0 {
        a.len() == b.len()
    } else {
        a.last().0 == b.last().0 && values_equal(a.last().1, b.last().1) && entries_equal(
            a.drop_last(),
            b.drop_last(),
        )
    }
}

/// `s` begins with a date in the form `YYYY-MM-DD`.
pub open spec fn starts_with_date(s: Seq<char>) -> bool {
    &&& s.len() >= 10
    &&& is_digit(s[0]) && is_digit(s[1]) && is_digit(s[2]) && is_digit(s[3])
    &&& s[4] == '-'
    &&& is_digit(s[5]) && is_digit(s[6])
    &&& s[7] == '-'
    &&& is_digit(s[8]) && is_digit(s[9])
}

/// The metadata value of a YAML value. Text that is all of a wikilink is a
/// link.
pub open spec fn value_of_yaml(value: YamlView) -> ValueView
    decreases value,
{
    match value {
        YamlView::Null => ValueView::Null,
        YamlView::Bool(b) => ValueView::Bool(b),
        YamlView::Number(Some(number), _) => ValueView::Number(number),
        YamlView::Number(None, _) => ValueView::Null,
        YamlView::String(s) => if trimmed(s).len() == 0 {
            ValueView::Null
        } else if let Some(link) = wikilink_of(trimmed(s)) {
            ValueView::Link(link)
        } else if starts_with_date(trimmed(s)) {
            ValueView::Date(s)
        } else {
            ValueView::String(s)
        },
        YamlView::Sequence(items) => ValueView::List(values_of_yaml(items)),
        YamlView::Mapping(entries) => ValueView::Object(object_of_yaml(entries)),
        YamlView::Tagged(inner) => value_of_yaml(*inner),
    }
}

/// The metadata values of YAML values.
pub open spec fn values_of_yaml(items: Seq<YamlView>) -> Seq<ValueView>
    decreases items,
{
    if items.len() == 0 {
        Seq::empty()
    } else {
        values_of_yaml(items.drop_last()).push(value_of_yaml(items.last()))
    }
}

/// The object of YAML entries. Entries whose key is no scalar are left out; of
/// two entries with one key the later counts.
pub open spec fn object_of_yaml(entries: Seq<(YamlView, YamlView)>) -> Seq<(Seq<char>, ValueView)>
    decreases entries,
{
    if entries.len() == 0 {
        Seq::empty()
    } else {
        let before = object_of_yaml(entries.drop_last());
        match scalar_text(entries.last().0) {
            Some(key) => with_entry(before, key, value_of_yaml(entries.last().1)),
            None => before,
        }
    }
}

/// Objects read from YAML have their keys in order.
pub proof fn law_yaml_objects_are_sorted(entries: Seq<(YamlView, YamlView)>)
    ensures
        keys_sorted(object_of_yaml(entries)),
    decreases entries.len(),
{
    if entries.len() > 0 {
        law_yaml_objects_are_sorted(entries.drop_last());
        match scalar_text(entries.last().0) {
            Some(key) => {
                law_with_entry(
                    object_of_yaml(entries.drop_last()),
                    key,
                    value_of_yaml(entries.last().1),
                    key,
                );
            },
            None => {},
        }
    }
}

fn digits_at(chars: &Vec<char>, from: usize, to: usize) -> (all: bool)
    requires
        from <= to <= chars@.len(),
    ensures
        all == forall|i: int| from <= i < to ==> is_digit(#[trigger] chars@[i]),
{
    let mut i: usize = from;
    while i < to
        invariant
            from <= i <= to <= chars@.len(),
            forall|j: int| from <= j < i ==> is_digit(#[trigger] chars@[j]),
        decreases to - i,
    {
        let c: char = chars[i];
        if !('0' <= c && c <= '9') {
            assert(!is_digit(chars@[i as int]));
            return false;
        }
        i = i + 1;
    }
    true
}

/// Whether `s` begins with a date in the form `YYYY-MM-DD`.
pub fn is_iso_date(s: &str) -> (date: bool)
    ensures
        date == starts_with_date(s@),
{
    let chars = chars_of(s);
    chars.len() >= 10 && digits_at(&chars, 0, 4) && chars[4] == '-' && digits_at(&chars, 5, 7)
        && chars[7] == '-' && digits_at(&chars, 8, 10)
}

/// Sets `key` to `value`, keeping the keys in order.
fn set_entry(entries: &mut Vec<(String, FieldValue)>, key: String, value: FieldValue)
    ensures
        entry_views(final(entries)@) == with_entry(
            entry_views(old(entries)@),
            key@,
            value.contents(),
        ),
    decreases old(entries)@.len(),
{
    let ghost before = entries@;
    match entries.pop() {
        None => {
            entries.push((key, value));
            assert(before =~= Seq::empty());
            assert(entries@.drop_last() =~= Seq::empty());
        },
        Some(last) => {
            assert(before.drop_last() =~= entries@);
            if same_text(last.0.as_str(), key.as_str()) {
                let ghost front = entries@;
                entries.push((key, value));
                assert(entries@.drop_last() =~= front);
                assert(entry_views(entries@) =~= with_entry(
                    entry_views(before),
                    key@,
                    value.contents(),
                )) by {
                    assert(entry_views(before).drop_last() =~= entry_views(front));
                }
            } else if text_before(last.0.as_str(), key.as_str()) {
                entries.push(last);
                assert(entries@ =~= before);
                entries.push((key, value));
                assert(entries@.drop_last() =~= before);
            } else {
                let ghost front = entries@;
                set_entry(entries, key, value);
                let ghost inner = entries@;
                entries.push(last);
                assert(entries@.drop_last() =~= inner);
                assert(entry_views(before).drop_last() =~= entry_views(front));
            }
        },
    }
}

impl FieldValue {
    /// Whether this is the null value.
    pub fn is_null(&self) -> (null: bool)
        ensures
            null == (self.contents() == ValueView::Null),
    {
        matches!(self, FieldValue::Null)
    }

    /// The text of a string, date or duration.
    pub fn as_str(&self) -> (text: Option<&str>)
        ensures
            match text {
                Some(found) => value_text(self.contents()) == Some(found@),
                None => value_text(self.contents()) is None,
            },
    {
        match self {
            FieldValue::String(s) => Some(s.as_str()),
            FieldValue::Date(s) => Some(s.as_str()),
            FieldValue::Duration(s) => Some(s.as_str()),
            _ => None,
        }
    }

    /// The metadata value of a YAML value.
    pub fn from_yaml(value: &YamlValue) -> (converted: Self)
        ensures
            converted.contents() == value_of_yaml(value.contents()),
        decreases value,
    {
        match value {
            YamlValue::Null => FieldValue::Null,
            YamlValue::Bool(b) => FieldValue::Bool(*b),
            YamlValue::Number(double, _) => match double {
                Some(number) => FieldValue::Number(number.copy()),
                None => FieldValue::Null,
            },
            YamlValue::String(s) => {
                let core = trim(s.as_str());
                if core.as_str().is_empty() {
                    FieldValue::Null
                } else if let Some(link) = Outlink::from_wikilink(core.as_str()) {
                    FieldValue::Link(link)
                } else if is_iso_date(core.as_str()) {
                    FieldValue::Date(s.clone())
                } else {
                    FieldValue::String(s.clone())
                }
            },
            YamlValue::Sequence(items) => {
                assert(decreases_to!(value => items));
                assert(decreases_to!(items => items@));
                let mut list: Vec<FieldValue> = Vec::new();
                let ghost views = yaml_views(items@);
                proof {
                    lemma_yaml_views(items@);
                    assert(views.take(0) =~= Seq::empty());
                }
                let mut i: usize = 0;
                while i < items.len()
                    invariant
                        decreases_to!(value => items@),
                        i <= items@.len(),
                        views == yaml_views(items@),
                        views.len() == items@.len(),
                        forall|k: int|
                            0 <= k < items@.len() ==> (#[trigger] views[k])
                                == items@[k].contents(),
                        value_views(list@) == values_of_yaml(views.take(i as int)),
                    decreases items@.len() - i,
                {
                    assert(decreases_to!(items@ => items@[i as int]));
                    let ghost before = list@;
                    let item = FieldValue::from_yaml(&items[i]);
                    list.push(item);
                    proof {
                        assert(list@.drop_last() =~= before);
                        let next = views.take(i + 1);
                        assert(next.drop_last() =~= views.take(i as int));
                        assert(next.last() == views[i as int]);
                    }
                    i = i + 1;
                }
                assert(views.take(i as int) =~= views);
                FieldValue::List(list)
            },
            YamlValue::Mapping(entries) => {
                assert(decreases_to!(value => entries));
                assert(decreases_to!(entries => entries@));
                let mut object: Vec<(String, FieldValue)> = Vec::new();
                let ghost views = yaml_entry_views(entries@);
                proof {
                    lemma_yaml_entry_views(entries@);
                    assert(views.take(0) =~= Seq::empty());
                }
                let mut i: usize = 0;
                while i < entries.len()
                    invariant
                        decreases_to!(value => entries@),
                        i <= entries@.len(),
                        views == yaml_entry_views(entries@),
                        views.len() == entries@.len(),
                        forall|k: int|
                            0 <= k < entries@.len() ==> (#[trigger] views[k]) == (
                                entries@[k].0.contents(),
                                entries@[k].1.contents(),
                            ),
                        entry_views(object@) == object_of_yaml(views.take(i as int)),
                    decreases entries@.len() - i,
                {
                    assert(decreases_to!(entries@ => entries@[i as int]));
                    assert(decreases_to!(entries@[i as int] => entries@[i as int].1));
                    proof {
                        let next = views.take(i + 1);
                        assert(next.drop_last() =~= views.take(i as int));
                        assert(next.last() == views[i as int]);
                    }
                    if let Some(key) = yaml_scalar_to_string(&entries[i].0) {
                        let item = FieldValue::from_yaml(&entries[i].1);
                        set_entry(&mut object, key, item);
                    }
                    i = i + 1;
                }
                assert(views.take(i as int) =~= views);
                FieldValue::Object(object)
            },
            YamlValue::Tagged(inner) => FieldValue::from_yaml(inner),
        }
    }

    /// A value with the same contents.
    pub fn copy(&self) -> (value: Self)
        ensures
            value.contents() == self.contents(),
        decreases self,
    {
        match self {
            FieldValue::Null => FieldValue::Null,
            FieldValue::Bool(b) => FieldValue::Bool(*b),
            FieldValue::Number(n) => FieldValue::Number(n.copy()),
            FieldValue::String(s) => FieldValue::String(s.clone()),
            FieldValue::Date(s) => FieldValue::Date(s.clone()),
            FieldValue::Duration(s) => FieldValue::Duration(s.clone()),
            FieldValue::Link(link) => FieldValue::Link(link.copy()),
            FieldValue::List(items) => {
                assert(decreases_to!(self => items));
                assert(decreases_to!(items => items@));
                let mut list: Vec<FieldValue> = Vec::new();
                assert(items@.take(0) =~= Seq::empty());
                let mut i: usize = 0;
                while i < items.len()
                    invariant
                        decreases_to!(self => items@),
                        i <= items@.len(),
                        value_views(list@) == value_views(items@.take(i as int)),
                    decreases items@.len() - i,
                {
                    assert(decreases_to!(items@ => items@[i as int]));
                    let ghost before = list@;
                    let item = items[i].copy();
                    list.push(item);
                    proof {
                        assert(list@.drop_last() =~= before);
                        assert(items@.take(i + 1).drop_last() =~= items@.take(i as int));
                    }
                    i = i + 1;
                }
                assert(items@.take(i as int) =~= items@);
                FieldValue::List(list)
            },
            FieldValue::Object(entries) => {
                assert(decreases_to!(self => entries));
                assert(decreases_to!(entries => entries@));
                let mut object: Vec<(String, FieldValue)> = Vec::new();
                assert(entries@.take(0) =~= Seq::empty());
                let mut i: usize = 0;
                while i < entries.len()
                    invariant
                        decreases_to!(self => entries@),
                        i <= entries@.len(),
                        entry_views(object@) == entry_views(entries@.take(i as int)),
                    decreases entries@.len() - i,
                {
                    assert(decreases_to!(entries@ => entries@[i as int]));
                    assert(decreases_to!(entries@[i as int] => entries@[i as int].1));
                    let ghost before = object@;
                    let item = entries[i].1.copy();
                    object.push((entries[i].0.clone(), item));
                    proof {
                        assert(object@.drop_last() =~= before);
                        assert(entries@.take(i + 1).drop_last() =~= entries@.take(i as int));
                    }
                    i = i + 1;
                }
                assert(entries@.take(i as int) =~= entries@);
                FieldValue::Object(object)
            },
        }
    }

    /// Whether both values are of one kind and equal.
    pub fn equals(&self, other: &Self) -> (equal: bool)
        ensures
            equal == values_equal(self.contents(), other.contents()),
        decreases self,
    {
        match (self, other) {
            (FieldValue::Null, FieldValue::Null) => true,
            (FieldValue::Bool(x), FieldValue::Bool(y)) => *x == *y,
            (FieldValue::Number(x), FieldValue::Number(y)) => matches!(
                x.compare(y),
                Some(Order::Equal)
            ),
            (FieldValue::String(x), FieldValue::String(y)) => same_text(x.as_str(), y.as_str()),
            (FieldValue::Date(x), FieldValue::Date(y)) => same_text(x.as_str(), y.as_str()),
            (FieldValue::Duration(x), FieldValue::Duration(y)) => same_text(
                x.as_str(),
                y.as_str(),
            ),
            (FieldValue::Link(x), FieldValue::Link(y)) => x.same(y),
            (FieldValue::List(x), FieldValue::List(y)) => {
                assert(decreases_to!(self => x));
                assert(decreases_to!(x => x@));
                assert(x@.take(x@.len() as int) =~= x@);
                assert(y@.take(y@.len() as int) =~= y@);
                Self::all_equal(x, y, x.len(), y.len())
            },
            (FieldValue::Object(x), FieldValue::Object(y)) => {
                assert(decreases_to!(self => x));
                assert(decreases_to!(x => x@));
                assert(x@.take(x@.len() as int) =~= x@);
                assert(y@.take(y@.len() as int) =~= y@);
                Self::entries_equal(x, y, x.len(), y.len())
            },
            _ => false,
        }
    }

    fn all_equal(a: &Vec<FieldValue>, b: &Vec<FieldValue>, n: usize, m: usize) -> (equal: bool)
        requires
            n <= a@.len(),
            m <= b@.len(),
        ensures
            equal == all_equal(value_views(a@.take(n as int)), value_views(b@.take(m as int))),
        decreases a@, n,
    {
        let ghost x = a@.take(n as int);
        let ghost y = b@.take(m as int);
        proof {
            lemma_value_views(x);
            lemma_value_views(y);
        }
        if n == 0 || m == 0 {
            return n == m;
        }
        assert(x.drop_last() =~= a@.take(n - 1));
        assert(y.drop_last() =~= b@.take(m - 1));
        assert(value_views(x).drop_last() =~= value_views(x.drop_last()));
        assert(value_views(y).drop_last() =~= value_views(y.drop_last()));
        assert(decreases_to!(a@ => a@[n - 1]));
        a[n - 1].equals(&b[m - 1]) && Self::all_equal(a, b, n - 1, m - 1)
    }

    fn entries_equal(
        a: &Vec<(String, FieldValue)>,
        b: &Vec<(String, FieldValue)>,
        n: usize,
        m: usize,
    ) -> (equal: bool)
        requires
            n <= a@.len(),
            m <= b@.len(),
        ensures
            equal == entries_equal(
                entry_views(a@.take(n as int)),
                entry_views(b@.take(m as int)),
            ),
        decreases a@, n,
    {
        let ghost x = a@.take(n as int);
        let ghost y = b@.take(m as int);
        proof {
            lemma_entry_views(x);
            lemma_entry_views(y);
        }
        if n == 0 || m == 0 {
            return n == m;
        }
        assert(x.drop_last() =~= a@.take(n - 1));
        assert(y.drop_last() =~= b@.take(m - 1));
        assert(entry_views(x).drop_last() =~= entry_views(x.drop_last()));
        assert(entry_views(y).drop_last() =~= entry_views(y.drop_last()));
        assert(decreases_to!(a@ => a@[n - 1]));
        assert(decreases_to!(a@[n - 1] => a@[n - 1].1));
        same_text(a[n - 1].0.as_str(), b[m - 1].0.as_str()) && a[n - 1].1.equals(&b[m - 1].1)
            && Self::entries_equal(a, b, n - 1, m - 1)
    }
}

} // verus!
