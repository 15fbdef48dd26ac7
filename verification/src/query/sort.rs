//! Equality and order of resolved values.

use vstd::prelude::*;

use crate::note::value::{value_text, values_equal, FieldValue, ValueView};
use crate::number::{number_order, Order};
use crate::text::{
    compare_texts, lemma_text_lt_irreflexive, lemma_text_lt_total, lemma_text_lt_transitive,
    text_lt, text_order,
};

verus! {

/// Sort direction.
#[derive(Copy, Clone, Debug, PartialEq, Eq, Structural)]
pub enum SortOrder {
    /// Smallest first.
    Ascending,
    /// Largest first.
    Descending,
}

impl Default for SortOrder {
    fn default() -> (order: Self)
        ensures
            order == SortOrder::Ascending,
    {
        SortOrder::Ascending
    }
}

impl SortOrder {
    /// Whether the largest comes first.
    pub fn is_descending(self) -> (descending: bool)
        ensures
            descending == (self == SortOrder::Descending),
    {
        matches!(self, SortOrder::Descending)
    }
}

/// How two values of one comparable kind stand to each other: numbers by
/// magnitude, texts by code point, `false` before `true`.
pub open spec fn value_order(a: ValueView, b: ValueView) -> Option<Order> {
    match (a, b) {
        (ValueView::Number(x), ValueView::Number(y)) => number_order(x.bits, y.bits),
        (ValueView::Bool(x), ValueView::Bool(y)) => Some(
            if x == y {
                Order::Equal
            } else if y {
                Order::Less
            } else {
                Order::Greater
            },
        ),
        _ => match (value_text(a), value_text(b)) {
            (Some(x), Some(y)) => Some(text_order(x, y)),
            _ => None,
        },
    }
}

/// Two values are equal under a filter: of one kind and equal, or of equal
/// text.
pub open spec fn same_value(a: ValueView, b: ValueView) -> bool {
    values_equal(a, b) || value_order(a, b) == Some(Order::Equal)
}

/// The order that sorting goes by: null before everything, values that cannot
/// be compared alike.
pub open spec fn ascending_order(a: ValueView, b: ValueView) -> Order {
    match (a, b) {
        (ValueView::Null, ValueView::Null) => Order::Equal,
        (ValueView::Null, _) => Order::Less,
        (_, ValueView::Null) => Order::Greater,
        _ => match value_order(a, b) {
            Some(order) => order,
            None => Order::Equal,
        },
    }
}

/// [`ascending_order`], turned round where `descending`.
pub open spec fn key_order(a: ValueView, b: ValueView, descending: bool) -> Order {
    if descending {
        ascending_order(a, b).reversed()
    } else {
        ascending_order(a, b)
    }
}

/// Compares two resolved values.
pub fn compare_field_values(a: &FieldValue, b: &FieldValue) -> (order: Option<Order>)
    ensures
        order == value_order(a.contents(), b.contents()),
{
    match (a, b) {
        (FieldValue::Number(x), FieldValue::Number(y)) => x.compare(y),
        (FieldValue::Bool(x), FieldValue::Bool(y)) => Some(
            if *x == *y {
                Order::Equal
            } else if *y {
                Order::Less
            } else {
                Order::Greater
            },
        ),
        _ => match (a.as_str(), b.as_str()) {
            (Some(x), Some(y)) => Some(compare_texts(x, y)),
            _ => None,
        },
    }
}

/// Whether two resolved values are equal under a filter.
pub fn fields_equal(a: &FieldValue, b: &FieldValue) -> (equal: bool)
    ensures
        equal == same_value(a.contents(), b.contents()),
{
    a.equals(b) || matches!(compare_field_values(a, b), Some(Order::Equal))
}

/// Compares two resolved values for sorting.
pub fn sort_key_order(a: &FieldValue, b: &FieldValue, descending: bool) -> (order: Order)
    ensures
        order == key_order(a.contents(), b.contents(), descending),
{
    let order = match (a, b) {
        (FieldValue::Null, FieldValue::Null) => Order::Equal,
        (FieldValue::Null, _) => Order::Less,
        (_, FieldValue::Null) => Order::Greater,
        _ => match compare_field_values(a, b) {
            Some(order) => order,
            None => Order::Equal,
        },
    };
    if descending {
        order.reverse()
    } else {
        order
    }
}

/// Kinds of values within which sorting finds an order.
pub enum ValueKind {
    /// Numbers.
    Number,
    /// Booleans.
    Bool,
    /// Strings, dates and durations.
    Text,
}

/// `value` is null or of the kind `kind`, and comparable.
pub open spec fn is_of_kind(value: ValueView, kind: ValueKind) -> bool {
    match (kind, value) {
        (_, ValueView::Null) => true,
        (ValueKind::Number, ValueView::Number(number)) => !crate::number::is_nan(number.bits),
        (ValueKind::Bool, ValueView::Bool(_)) => true,
        (ValueKind::Text, _) => value_text(value) is Some,
        _ => false,
    }
}

/// Turning the comparison round turns its result round.
pub proof fn law_order_is_antisymmetric(a: ValueView, b: ValueView, descending: bool)
    ensures
        key_order(a, b, descending) == key_order(b, a, descending).reversed(),
{
    match (value_text(a), value_text(b)) {
        (Some(x), Some(y)) => {
            lemma_text_lt_total(x, y);
            lemma_text_lt_irreflexive(x);
            if text_lt(x, y) && text_lt(y, x) {
                lemma_text_lt_transitive(x, y, x);
            }
        },
        _ => {},
    }
}

/// Within one kind, "not after" is transitive.
pub proof fn law_order_is_transitive(
    a: ValueView,
    b: ValueView,
    c: ValueView,
    kind: ValueKind,
    descending: bool,
)
    requires
        is_of_kind(a, kind),
        is_of_kind(b, kind),
        is_of_kind(c, kind),
        key_order(a, b, descending) != Order::Greater,
        key_order(b, c, descending) != Order::Greater,
    ensures
        key_order(a, c, descending) != Order::Greater,
{
    match (value_text(a), value_text(b), value_text(c)) {
        (Some(x), Some(y), Some(z)) => {
            lemma_text_lt_total(x, y);
            lemma_text_lt_total(y, z);
            lemma_text_lt_total(x, z);
            lemma_text_lt_irreflexive(x);
            lemma_text_lt_irreflexive(y);
            lemma_text_lt_irreflexive(z);
            if text_lt(x, y) && text_lt(y, z) {
                lemma_text_lt_transitive(x, y, z);
            }
            if text_lt(z, y) && text_lt(y, x) {
                lemma_text_lt_transitive(z, y, x);
            }
            if text_lt(x, z) && text_lt(z, x) {
                lemma_text_lt_transitive(x, z, x);
            }
            if text_lt(x, y) && text_lt(y, x) {
                lemma_text_lt_transitive(x, y, x);
            }
            if text_lt(z, y) && text_lt(y, z) {
                lemma_text_lt_transitive(z, y, z);
            }
        },
        _ => {},
    }
}

} // verus!
