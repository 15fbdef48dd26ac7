//! Texts, numbers and values in order.

use std::cmp::Ordering;

use vstd::prelude::*;
use vstd::std_specs::cmp::{PartialEqSpec, PartialOrdSpec};

use crate::duration::value::{DurationSeconds, DurationValue};
use crate::field::value::int_bits;
use crate::note::value::{value_text, values_equal, ValueView};
use crate::number::{number_order, rounded_quotient, scaled_up, whole_bits, Order, UNIT};
use crate::query::operators::{op_holds, CompareOp};
use crate::query::sort::key_order;
use crate::text::{
    lemma_text_lt_irreflexive, lemma_text_lt_total, lemma_text_lt_transitive, text_lt, text_order,
};

verus! {

/// `a` comes before `b` by what stands at `k`: up to there they agree, and
/// there `a` ends or has the smaller character.
pub open spec fn before_at(a: Seq<char>, b: Seq<char>, k: int) -> bool {
    &&& 0 <= k <= a.len()
    &&& k < b.len()
    &&& forall|j: int| 0 <= j < k ==> a[j] == b[j]
    &&& k == a.len() || (a[k] as int) < (b[k] as int)
}

/// `a` comes before `b` in a dictionary.
pub open spec fn comes_before(a: Seq<char>, b: Seq<char>) -> bool {
    exists|k: int| before_at(a, b, k)
}

proof fn lemma_place_of_difference(a: Seq<char>, b: Seq<char>) -> (k: int)
    requires
        text_lt(a, b),
    ensures
        before_at(a, b, k),
    decreases a.len(),
{
    if a.len() > 0 && a[0] == b[0] {
        let x = a.drop_first();
        let y = b.drop_first();
        let k = lemma_place_of_difference(x, y);
        assert forall|j: int| 0 <= j < k + 1 implies a[j] == b[j] by {
            if j > 0 {
                assert(x[j - 1] == y[j - 1]);
            }
        }
        if k < x.len() {
            assert(x[k] == a[k + 1] && y[k] == b[k + 1]);
        }
        k + 1
    } else {
        0
    }
}

proof fn lemma_difference_orders(a: Seq<char>, b: Seq<char>, k: int)
    requires
        before_at(a, b, k),
    ensures
        text_lt(a, b),
    decreases k,
{
    if k > 0 {
        let x = a.drop_first();
        let y = b.drop_first();
        assert(a[0] == b[0]);
        assert forall|j: int| 0 <= j < k - 1 implies x[j] == y[j] by {
            assert(a[j + 1] == b[j + 1]);
        }
        lemma_difference_orders(x, y, k - 1);
    }
}

/// Texts are ordered as in a dictionary: by the first character in which they
/// differ, and a text comes after each of its beginnings.
pub proof fn law_texts_are_in_dictionary_order(a: Seq<char>, b: Seq<char>)
    ensures
        text_lt(a, b) <==> comes_before(a, b),
        text_order(a, b) == Order::Less <==> comes_before(a, b),
        text_order(a, b) == Order::Greater <==> comes_before(b, a),
        text_order(a, b) == Order::Equal <==> a == b,
{
    lemma_both_ways(a, b);
    lemma_both_ways(b, a);
    lemma_text_lt_total(a, b);
    lemma_text_lt_irreflexive(a);
    if text_lt(a, b) && text_lt(b, a) {
        lemma_text_lt_transitive(a, b, a);
    }
}

proof fn lemma_both_ways(a: Seq<char>, b: Seq<char>)
    ensures
        text_lt(a, b) <==> comes_before(a, b),
{
    if text_lt(a, b) {
        let k = lemma_place_of_difference(a, b);
        assert(before_at(a, b, k));
    }
    if comes_before(a, b) {
        let k = choose|k: int| before_at(a, b, k);
        lemma_difference_orders(a, b, k);
    }
}

/// The value is a string, a date or a duration with this text.
pub open spec fn holds_text(value: ValueView, text: Seq<char>) -> bool {
    ||| value == ValueView::String(text)
    ||| value == ValueView::Date(text)
    ||| value == ValueView::Duration(text)
}

/// Strings, dates and durations are compared by their texts: `<` holds exactly
/// where the text of the field comes first in a dictionary, `>` where that of
/// the literal does, `==` where both are one text.
pub proof fn law_texts_compare(field: ValueView, literal: ValueView, x: Seq<char>, y: Seq<char>)
    requires
        holds_text(field, x),
        holds_text(literal, y),
    ensures
        op_holds(CompareOp::Lt, field, literal) <==> comes_before(x, y),
        op_holds(CompareOp::Gt, field, literal) <==> comes_before(y, x),
        op_holds(CompareOp::Le, field, literal) <==> comes_before(x, y) || x == y,
        op_holds(CompareOp::Ge, field, literal) <==> comes_before(y, x) || x == y,
        op_holds(CompareOp::Eq, field, literal) <==> x == y,
        op_holds(CompareOp::Ne, field, literal) <==> x != y,
{
    law_texts_are_in_dictionary_order(x, y);
}

/// `false` is smaller than `true`.
pub proof fn law_booleans_compare(x: bool, y: bool)
    ensures
        op_holds(CompareOp::Lt, ValueView::Bool(x), ValueView::Bool(y)) <==> !x && y,
        op_holds(CompareOp::Gt, ValueView::Bool(x), ValueView::Bool(y)) <==> x && !y,
        op_holds(CompareOp::Le, ValueView::Bool(x), ValueView::Bool(y)) <==> !x || y,
        op_holds(CompareOp::Ge, ValueView::Bool(x), ValueView::Bool(y)) <==> x || !y,
        op_holds(CompareOp::Eq, ValueView::Bool(x), ValueView::Bool(y)) <==> x == y,
        op_holds(CompareOp::Ne, ValueView::Bool(x), ValueView::Bool(y)) <==> x != y,
{
}

/// The bits of a double with the sign bit set.
pub open spec fn has_sign(bits: u64) -> bool {
    bits >= 0x8000_0000_0000_0000
}

/// The bits of no number: the exponent is full, and the fraction is not zero.
pub open spec fn is_no_number(bits: u64) -> bool {
    ||| 0x7ff0_0000_0000_0000 < bits < 0x8000_0000_0000_0000
    ||| 0xfff0_0000_0000_0000 < bits
}

/// `a` is the double of a smaller number than `b`: without signs the smaller
/// bits, with both signs the larger bits, and a number with a sign before one
/// without, unless both are zero.
pub open spec fn is_smaller_double(a: u64, b: u64) -> bool {
    match (has_sign(a), has_sign(b)) {
        (false, false) => a < b,
        (true, true) => b < a,
        (true, false) => !(a == 0x8000_0000_0000_0000 && b == 0),
        (false, true) => false,
    }
}

/// Doubles are ordered as the numbers they stand for. What stands for no number
/// is neither smaller nor larger than anything, nor equal to itself.
pub proof fn law_doubles_are_in_order(a: u64, b: u64)
    ensures
        is_no_number(a) || is_no_number(b) <==> number_order(a, b) is None,
        !is_no_number(a) && !is_no_number(b) ==> {
            &&& number_order(a, b) == Some(Order::Less) <==> is_smaller_double(a, b)
            &&& number_order(a, b) == Some(Order::Greater) <==> is_smaller_double(b, a)
        },
{
}

/// Numbers are compared as numbers, whatever they are shown as.
pub proof fn law_numbers_compare(field: ValueView, literal: ValueView)
    requires
        field is Number,
        literal is Number,
    ensures
        ({
            let a = field->Number_0.bits;
            let b = literal->Number_0.bits;
            if is_no_number(a) || is_no_number(b) {
                &&& op_holds(CompareOp::Ne, field, literal)
                &&& !op_holds(CompareOp::Eq, field, literal)
                &&& !op_holds(CompareOp::Lt, field, literal)
                &&& !op_holds(CompareOp::Gt, field, literal)
                &&& !op_holds(CompareOp::Le, field, literal)
                &&& !op_holds(CompareOp::Ge, field, literal)
            } else {
                &&& op_holds(CompareOp::Lt, field, literal) <==> is_smaller_double(a, b)
                &&& op_holds(CompareOp::Gt, field, literal) <==> is_smaller_double(b, a)
                &&& op_holds(CompareOp::Le, field, literal) <==> !is_smaller_double(b, a)
                &&& op_holds(CompareOp::Ge, field, literal) <==> !is_smaller_double(a, b)
                &&& op_holds(CompareOp::Eq, field, literal) <==> !is_smaller_double(a, b)
                    && !is_smaller_double(b, a)
                &&& op_holds(CompareOp::Ne, field, literal) <==> is_smaller_double(a, b)
                    || is_smaller_double(b, a)
            }
        }),
{
    law_doubles_are_in_order(field->Number_0.bits, literal->Number_0.bits);
}

proof fn lemma_scaled(m: nat, x: int)
    requires
        0 < m < 2 * UNIT,
    ensures
        UNIT <= scaled_up(m, x).0 < 2 * UNIT,
        scaled_up(m, x).1 <= x,
        m < UNIT ==> scaled_up(m, x).1 < x,
    decreases 2 * UNIT - m,
{
    if m < UNIT {
        lemma_scaled(2 * m, x - 1);
    }
}

proof fn lemma_scaled_grows(m: nat, n: nat, x: int)
    requires
        0 < m < n < 2 * UNIT,
    ensures
        scaled_up(m, x).1 * UNIT + scaled_up(m, x).0 < scaled_up(n, x).1 * UNIT + scaled_up(n, x).0,
    decreases 2 * UNIT - m,
{
    lemma_scaled(m, x);
    lemma_scaled(n, x);
    if n < UNIT {
        lemma_scaled_grows(2 * m, 2 * n, x - 1);
    } else if m < UNIT {
        let e = scaled_up(m, x).1;
        assert(e * UNIT <= (x - 1) * UNIT) by (nonlinear_arith)
            requires
                e <= x - 1,
        ;
        assert((x - 1) * UNIT == x * UNIT - UNIT) by (nonlinear_arith);
    }
}

proof fn lemma_scaled_one()
    ensures
        scaled_up(1, 1075) == (UNIT as nat, 1023int),
{
    reveal_with_fuel(scaled_up, 54);
}

/// The doubles of whole numbers are in the order of those numbers, as long as a
/// double holds each of them exactly.
pub proof fn law_whole_numbers_are_in_order(m: nat, n: nat)
    requires
        m < n < 9_007_199_254_740_992,
    ensures
        0 <= whole_bits(m) < whole_bits(n) < 0x7ff0_0000_0000_0000,
        number_order(whole_bits(m) as u64, whole_bits(n) as u64) == Some(Order::Less),
{
    lemma_scaled_one();
    lemma_scaled(n, 1075);
    if n > 1 {
        lemma_scaled_grows(1, n, 1075);
    }
    if m > 0 {
        if m > 1 {
            lemma_scaled_grows(1, m, 1075);
        }
        lemma_scaled_grows(m, n, 1075);
    }
}

/// The operators go together on all values: each of `<` and `>` is the other
/// turned round, `<=` and `>=` add equality, and of values that can be ordered
/// exactly one of `<`, `==` and `>` holds.
pub proof fn law_operators_go_together(a: ValueView, b: ValueView)
    ensures
        op_holds(CompareOp::Lt, a, b) <==> op_holds(CompareOp::Gt, b, a),
        op_holds(CompareOp::Le, a, b) <==> op_holds(CompareOp::Ge, b, a),
        op_holds(CompareOp::Lt, a, b) ==> op_holds(CompareOp::Le, a, b) && !op_holds(
            CompareOp::Ge,
            a,
            b,
        ) && op_holds(CompareOp::Ne, a, b),
        op_holds(CompareOp::Gt, a, b) ==> op_holds(CompareOp::Ge, a, b) && !op_holds(
            CompareOp::Le,
            a,
            b,
        ) && op_holds(CompareOp::Ne, a, b),
        op_holds(CompareOp::Le, a, b) ==> op_holds(CompareOp::Lt, a, b) || op_holds(
            CompareOp::Eq,
            a,
            b,
        ),
        op_holds(CompareOp::Ge, a, b) ==> op_holds(CompareOp::Gt, a, b) || op_holds(
            CompareOp::Eq,
            a,
            b,
        ),
        op_holds(CompareOp::Le, a, b) && op_holds(CompareOp::Ge, a, b) ==> op_holds(
            CompareOp::Eq,
            a,
            b,
        ),
        op_holds(CompareOp::Ne, a, b) <==> !op_holds(CompareOp::Eq, a, b),
{
    match (value_text(a), value_text(b)) {
        (Some(x), Some(y)) => {
            law_texts_are_in_dictionary_order(x, y);
            law_texts_are_in_dictionary_order(y, x);
        },
        _ => {},
    }
}

/// Only values of one sort can be ordered or equal: two numbers, two booleans,
/// two texts. Links, lists and objects have no order, and a missing field is
/// equal to null alone.
pub proof fn law_values_of_two_sorts_differ(a: ValueView, b: ValueView, x: Seq<char>)
    requires
        ({
            ||| a is Null && !(b is Null)
            ||| a is Bool && !(b is Bool)
            ||| a is Number && !(b is Number)
            ||| holds_text(a, x) && !(b is String || b is Date || b is Duration)
            ||| a is Link && !(b is Link)
            ||| a is List && !(b is List)
            ||| a is Object && !(b is Object)
        }),
    ensures
        op_holds(CompareOp::Ne, a, b),
        op_holds(CompareOp::Ne, b, a),
        !op_holds(CompareOp::Lt, a, b),
        !op_holds(CompareOp::Le, a, b),
        !op_holds(CompareOp::Gt, a, b),
        !op_holds(CompareOp::Ge, a, b),
{
}

/// Null is equal to null, links are equal where all of their parts are, and
/// none of these, nor lists and objects, is smaller or larger than another.
pub proof fn law_unordered_sorts(a: ValueView, b: ValueView)
    requires
        (a is Null && b is Null) || (a is Link && b is Link) || (a is List && b is List) || (
        a is Object && b is Object),
    ensures
        !op_holds(CompareOp::Lt, a, b),
        !op_holds(CompareOp::Le, a, b),
        !op_holds(CompareOp::Gt, a, b),
        !op_holds(CompareOp::Ge, a, b),
        a is Null || a is Link ==> (op_holds(CompareOp::Eq, a, b) <==> a == b),
{
}

/// Two lists are equal exactly where they are as long and equal at each place.
pub proof fn law_lists_are_equal_item_by_item(a: Seq<ValueView>, b: Seq<ValueView>)
    ensures
        values_equal(ValueView::List(a), ValueView::List(b)) <==> a.len() == b.len() && forall|
            i: int,
        |
            0 <= i < a.len() ==> values_equal(#[trigger] a[i], b[i]),
    decreases a.len(),
{
    if a.len() > 0 && b.len() > 0 {
        let x = a.drop_last();
        let y = b.drop_last();
        law_lists_are_equal_item_by_item(x, y);
        if a.len() == b.len() {
            if forall|i: int| 0 <= i < a.len() ==> values_equal(#[trigger] a[i], b[i]) {
                assert forall|i: int| 0 <= i < x.len() implies values_equal(
                    #[trigger] x[i],
                    y[i],
                ) by {
                    assert(values_equal(a[i], b[i]));
                }
                assert(values_equal(a[a.len() - 1], b[a.len() - 1]));
            }
            if values_equal(ValueView::List(a), ValueView::List(b)) {
                assert forall|i: int| 0 <= i < a.len() implies values_equal(
                    #[trigger] a[i],
                    b[i],
                ) by {
                    if i < x.len() {
                        assert(values_equal(x[i], y[i]));
                    }
                }
            }
        } else {
            assert(x.len() != y.len());
        }
    }
}

/// Two objects are equal exactly where they have the same keys in order, with
/// equal values.
pub proof fn law_objects_are_equal_entry_by_entry(
    a: Seq<(Seq<char>, ValueView)>,
    b: Seq<(Seq<char>, ValueView)>,
)
    ensures
        values_equal(ValueView::Object(a), ValueView::Object(b)) <==> a.len() == b.len() && forall|
            i: int,
        |
            0 <= i < a.len() ==> (#[trigger] a[i]).0 == b[i].0 && values_equal(a[i].1, b[i].1),
    decreases a.len(),
{
    if a.len() > 0 && b.len() > 0 {
        let x = a.drop_last();
        let y = b.drop_last();
        law_objects_are_equal_entry_by_entry(x, y);
        if a.len() == b.len() {
            if forall|i: int|
                0 <= i < a.len() ==> (#[trigger] a[i]).0 == b[i].0 && values_equal(
                    a[i].1,
                    b[i].1,
                ) {
                assert forall|i: int| 0 <= i < x.len() implies (#[trigger] x[i]).0 == y[i].0
                    && values_equal(x[i].1, y[i].1) by {
                    assert(a[i].0 == b[i].0);
                }
                assert(a[a.len() - 1].0 == b[a.len() - 1].0);
            }
            if values_equal(ValueView::Object(a), ValueView::Object(b)) {
                assert forall|i: int| 0 <= i < a.len() implies (#[trigger] a[i]).0 == b[i].0
                    && values_equal(a[i].1, b[i].1) by {
                    if i < x.len() {
                        assert(x[i].0 == y[i].0);
                    }
                }
            }
        } else {
            assert(x.len() != y.len());
        }
    }
}

/// Sort keys that are texts come in dictionary order, the other way round where
/// the largest comes first.
pub proof fn law_texts_are_sorted_by_dictionary(
    a: ValueView,
    b: ValueView,
    x: Seq<char>,
    y: Seq<char>,
)
    requires
        holds_text(a, x),
        holds_text(b, y),
    ensures
        key_order(a, b, false) == Order::Less <==> comes_before(x, y),
        key_order(a, b, false) == Order::Greater <==> comes_before(y, x),
        key_order(a, b, false) == Order::Equal <==> x == y,
        key_order(a, b, true) == Order::Less <==> comes_before(y, x),
        key_order(a, b, true) == Order::Greater <==> comes_before(x, y),
        key_order(a, b, true) == Order::Equal <==> x == y,
{
    law_texts_are_in_dictionary_order(x, y);
}

/// Sorting goes by what filters go by: of two keys that are there, the one that
/// is `<` comes first, or last where the largest comes first. Keys that no
/// filter orders are alike.
pub proof fn law_sorting_agrees_with_filters(a: ValueView, b: ValueView)
    requires
        !(a is Null),
        !(b is Null),
    ensures
        key_order(a, b, false) == Order::Less <==> op_holds(CompareOp::Lt, a, b),
        key_order(a, b, false) == Order::Greater <==> op_holds(CompareOp::Gt, a, b),
        key_order(a, b, true) == Order::Less <==> op_holds(CompareOp::Gt, a, b),
        key_order(a, b, true) == Order::Greater <==> op_holds(CompareOp::Lt, a, b),
{
}

/// A missing key comes before all others, and after them where the largest
/// comes first.
pub proof fn law_missing_keys_are_smallest(a: ValueView, b: ValueView)
    requires
        a is Null,
    ensures
        key_order(a, b, false) == if b is Null {
            Order::Equal
        } else {
            Order::Less
        },
        key_order(a, b, true) == if b is Null {
            Order::Equal
        } else {
            Order::Greater
        },
        key_order(b, a, false) == if b is Null {
            Order::Equal
        } else {
            Order::Greater
        },
        key_order(b, a, true) == if b is Null {
            Order::Equal
        } else {
            Order::Less
        },
{
}

/// `a` comes before `b` among all doubles: without signs by the bits, with both
/// signs by the bits the other way round, and with a sign before without, zeros
/// too.
pub open spec fn is_earlier_double(a: u64, b: u64) -> bool {
    match (has_sign(a), has_sign(b)) {
        (false, false) => a < b,
        (true, true) => b < a,
        (true, false) => true,
        (false, true) => false,
    }
}

/// Durations are ordered by their seconds, whatever they are written as, and two
/// are equal where their seconds are the same double.
pub proof fn law_durations_are_ordered_by_seconds(a: DurationValue, b: DurationValue)
    ensures
        ({
            let x = a.spec_seconds().spec_bits();
            let y = b.spec_seconds().spec_bits();
            &&& a.partial_cmp_spec(&b) == Some(Ordering::Less) <==> is_earlier_double(x, y)
            &&& a.partial_cmp_spec(&b) == Some(Ordering::Greater) <==> is_earlier_double(y, x)
            &&& a.partial_cmp_spec(&b) == Some(Ordering::Equal) <==> x == y
            &&& a.eq_spec(&b) <==> x == y
        }),
{
}

/// Seconds are ordered as doubles, and two are equal where they are the same
/// double.
pub proof fn law_seconds_are_ordered_as_doubles(a: DurationSeconds, b: DurationSeconds)
    ensures
        ({
            let x = a.spec_bits();
            let y = b.spec_bits();
            &&& a.partial_cmp_spec(&b) == Some(Ordering::Less) <==> is_earlier_double(x, y)
            &&& a.partial_cmp_spec(&b) == Some(Ordering::Greater) <==> is_earlier_double(y, x)
            &&& a.partial_cmp_spec(&b) == Some(Ordering::Equal) <==> x == y
            &&& a.eq_spec(&b) <==> x == y
        }),
{
}

/// A whole number below zero is the double of that number without its sign, with a
/// sign.
pub proof fn law_signed_whole_numbers(n: i64)
    ensures
        n >= 0 ==> int_bits(n) == whole_bits(n as nat),
        n < 0 ==> int_bits(n) == 0x8000_0000_0000_0000 + whole_bits((-n) as nat),
{
}

/// A quotient is rounded to the nearest whole number, and to the even one where
/// two are as near.
pub proof fn law_quotients_are_rounded_to_the_nearest(n: nat, d: nat)
    requires
        d > 0,
    ensures
        ({
            let q = rounded_quotient(n, d);
            &&& 2 * (q * d) <= 2 * n + d
            &&& 2 * n <= 2 * (q * d) + d
            &&& (2 * (q * d) == 2 * n + d || 2 * n == 2 * (q * d) + d) ==> q % 2 == 0
        }),
{
    let q = n / d;
    let r = n % d;
    assert(n == q * d + r && 0 <= r < d) by (nonlinear_arith)
        requires
            d > 0,
            q == n / d,
            r == n % d,
    ;
    assert((q + 1) * d == q * d + d) by (nonlinear_arith);
}

} // verus!
