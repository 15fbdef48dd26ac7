//! Double-precision numbers as plain values.
//!
//! A [`Number`] holds the 64 bits of an IEEE 754 double together with the text
//! it is shown as. Equality and order are decided on the bits, so no
//! floating-point arithmetic is needed to filter or sort by a number.

use vstd::arithmetic::power2::{lemma2_to64, lemma2_to64_rest, lemma_pow2_unfold, pow2};
use num_traits::ToPrimitive;
use vstd::prelude::*;

use crate::text::{decimal, decimal_text, same_text};

verus! {

/// Weight of the sign bit.
pub const SIGN: u64 = 0x8000_0000_0000_0000;

/// Bits of positive infinity. Larger magnitudes are not numbers.
pub const INFINITY: u64 = 0x7ff0_0000_0000_0000;

/// Weight of the lowest exponent bit: two to the power of 52.
pub const UNIT: u64 = 0x0010_0000_0000_0000;

/// The bits without the sign.
pub open spec fn magnitude(bits: u64) -> int {
    (bits % SIGN) as int
}

/// The bits stand for no number at all.
pub open spec fn is_nan(bits: u64) -> bool {
    magnitude(bits) > INFINITY
}

/// The bits stand for a finite number.
pub open spec fn is_finite(bits: u64) -> bool {
    magnitude(bits) < INFINITY
}

/// An integer that orders finite numbers and infinities as their values are
/// ordered. Both zeros have the same rank.
pub open spec fn rank(bits: u64) -> int {
    if bits < SIGN {
        magnitude(bits)
    } else {
        -magnitude(bits)
    }
}

/// An integer that orders all bit patterns totally: as by [`rank`], with
/// negative zero just below positive zero and not-a-number at either end.
pub open spec fn total_rank(bits: u64) -> int {
    if bits < SIGN {
        magnitude(bits)
    } else {
        -1 - magnitude(bits)
    }
}

/// How one value stands to another.
#[derive(Copy, Clone, Debug, PartialEq, Eq, Structural)]
pub enum Order {
    /// It comes before.
    Less,
    /// Neither comes before the other.
    Equal,
    /// It comes after.
    Greater,
}

impl Order {
    /// The order of the same two values, taken the other way round.
    pub open spec fn reversed(self) -> Self {
        match self {
            Order::Less => Order::Greater,
            Order::Equal => Order::Equal,
            Order::Greater => Order::Less,
        }
    }

    /// The order of the same two values, taken the other way round.
    pub fn reverse(self) -> (order: Self)
        ensures
            order == self.reversed(),
    {
        match self {
            Order::Less => Order::Greater,
            Order::Equal => Order::Equal,
            Order::Greater => Order::Less,
        }
    }
}

/// The order of two integers.
pub open spec fn int_order(a: int, b: int) -> Order {
    if a < b {
        Order::Less
    } else if a == b {
        Order::Equal
    } else {
        Order::Greater
    }
}

/// How `a` compares to `b` as numbers; nothing where either is not a number.
pub open spec fn number_order(a: u64, b: u64) -> Option<Order> {
    if is_nan(a) || is_nan(b) {
        None
    } else {
        Some(int_order(rank(a), rank(b)))
    }
}

/// Doubles are equal in the total order only where their bits are.
pub proof fn law_total_order_is_equality(a: u64, b: u64)
    ensures
        total_rank(a) == total_rank(b) <==> a == b,
{
}

/// `m` doubled until it reaches [`UNIT`], with the exponent lowered as often.
pub open spec fn scaled_up(m: nat, exponent: int) -> (nat, int)
    decreases 2 * UNIT - m,
{
    if 0 < m < UNIT {
        scaled_up(2 * m, exponent - 1)
    } else {
        (m, exponent)
    }
}

/// Smallest power of two by which `n` must be divided to fit in 53 bits.
pub open spec fn excess(n: nat) -> nat
    decreases n,
{
    if n < 2 * UNIT {
        1
    } else {
        2 * excess(n / 2)
    }
}

/// How often [`excess`] doubles.
pub open spec fn excess_exponent(n: nat) -> nat
    decreases n,
{
    if n < 2 * UNIT {
        0
    } else {
        1 + excess_exponent(n / 2)
    }
}

/// `n / d` rounded to the nearest integer, ties to the even one.
pub open spec fn rounded_quotient(n: nat, d: nat) -> nat {
    let q = n / d;
    let r = n % d;
    if 2 * r > d || (2 * r == d && q % 2 == 1) {
        q + 1
    } else {
        q
    }
}

/// The bits of the double nearest to the whole number `n`, ties to even.
pub open spec fn whole_bits(n: nat) -> int {
    if n == 0 {
        0
    } else if n < 2 * UNIT {
        let (m, exponent) = scaled_up(n, 1075);
        exponent * UNIT + m - UNIT
    } else {
        (1075 + excess_exponent(n)) * UNIT + rounded_quotient(n, excess(n)) - UNIT
    }
}

/// Contents of a [`Number`].
pub struct NumberView {
    /// The bits of the double.
    pub bits: u64,
    /// The text it is shown as.
    pub text: Seq<char>,
}

/// A double-precision number and the text it is shown as.
#[derive(Debug)]
pub struct Number {
    bits: u64,
    text: String,
}

impl View for Number {
    type V = NumberView;

    closed spec fn view(&self) -> NumberView {
        NumberView { bits: self.bits, text: self.text@ }
    }
}

/// What the double nearest to `n` is shown as.
pub uninterp spec fn double_text(n: u64) -> Seq<char>;

/// Turns `n` into the double nearest to it with `num_traits::ToPrimitive`, which
/// always has one for a `u64`, and shows it with `to_string`. The text is a
/// function of `n`.
#[verifier::external_body]
fn show_double(n: u64) -> (text: String)
    ensures
        text@ == double_text(n),
{
    n.to_f64().map(|double| double.to_string()).unwrap_or_default()
}

/// What a count is shown as: its digits, as long as a double holds it exactly,
/// else what the nearest double is shown as.
pub open spec fn count_text(n: u64) -> Seq<char> {
    if n <= 2 * UNIT {
        decimal(n as nat)
    } else {
        double_text(n)
    }
}

impl Number {
    /// Pairs the bits of a double with the text it is shown as.
    pub fn new(bits: u64, text: String) -> (number: Self)
        ensures
            number@ == (NumberView { bits, text: text@ }),
    {
        Number { bits, text }
    }

    /// The double nearest to `n`, shown as that double is.
    pub fn from_u64(n: u64) -> (number: Self)
        ensures
            number@.bits == whole_bits(n as nat),
            number@.bits < SIGN,
            number@.text == count_text(n),
    {
        let text = if n <= 2 * UNIT {
            decimal_text(n)
        } else {
            show_double(n)
        };
        if n == 0 {
            return Number { bits: 0, text };
        }
        if n < 2 * UNIT {
            let mut m: u64 = n;
            let mut exponent: u64 = 1075;
            proof {
                lemma2_to64();
                lemma2_to64_rest();
            }
            while m < UNIT
                invariant
                    0 < m < 2 * UNIT,
                    1023 <= exponent <= 1075,
                    pow2((1075 - exponent) as nat) <= m,
                    scaled_up(m as nat, exponent as int) == scaled_up(n as nat, 1075),
                    pow2(52) == UNIT,
                decreases 2 * UNIT - m,
            {
                proof {
                    lemma_pow2_unfold((1076 - exponent) as nat);
                }
                m = 2 * m;
                exponent = exponent - 1;
            }
            return Number { bits: exponent * UNIT + (m - UNIT), text };
        }
        let (divisor, steps) = halvings(n);
        let q: u64 = n / divisor;
        let r: u64 = n % divisor;
        proof {
            lemma_excess_bounds(n as nat);
            assert(UNIT <= q < 2 * UNIT) by (nonlinear_arith)
                requires
                    q == n / divisor,
                    divisor > 0,
                    UNIT * divisor <= n < 2 * UNIT * divisor,
            ;
            assert(divisor <= 4095);
            assert(r < divisor);
        }
        let rounded: u64 = if 2 * r > divisor || (2 * r == divisor && q % 2 == 1) {
            q + 1
        } else {
            q
        };
        Number { bits: (1075 + steps) * UNIT + (rounded - UNIT), text }
    }

    /// The bits of the double.
    pub fn bits(&self) -> (bits: u64)
        ensures
            bits == self@.bits,
    {
        self.bits
    }

    /// The text the number is shown as.
    pub fn text(&self) -> (text: &str)
        ensures
            text@ == self@.text,
    {
        self.text.as_str()
    }

    /// How this number compares to `other`.
    pub fn compare(&self, other: &Self) -> (order: Option<Order>)
        ensures
            order == number_order(self@.bits, other@.bits),
    {
        compare_bits(self.bits, other.bits)
    }

    /// A number with the same bits and text.
    pub fn copy(&self) -> (number: Self)
        ensures
            number@ == self@,
    {
        Number { bits: self.bits, text: self.text.clone() }
    }
}

/// Doublings that bring `n` down to 53 bits: their product and their count.
fn halvings(n: u64) -> (result: (u64, u64))
    ensures
        result.0 == excess(n as nat),
        result.1 == excess_exponent(n as nat),
        result.0 * UNIT <= n || result.0 == 1,
        2 * result.1 <= result.0,
    decreases n,
{
    if n < 2 * UNIT {
        (1, 0)
    } else {
        let (divisor, steps) = halvings(n / 2);
        proof {
            lemma_excess_bounds((n / 2) as nat);
        }
        (2 * divisor, steps + 1)
    }
}

proof fn lemma_excess_bounds(n: nat)
    ensures
        1 <= excess(n),
        n < 2 * UNIT * excess(n),
        n >= UNIT ==> UNIT * excess(n) <= n,
        5 * excess_exponent(n) <= excess(n) + 8,
        n >= 2 * UNIT ==> excess(n) >= 2,
    decreases n,
{
    if n >= 2 * UNIT {
        lemma_excess_bounds(n / 2);
        if n < 16 * UNIT {
            reveal_with_fuel(excess, 4);
            reveal_with_fuel(excess_exponent, 4);
        } else {
            lemma_excess_bounds(n / 4);
            assert(n / 2 / 2 == n / 4);
            assert(n / 4 / 2 == n / 8);
            lemma_excess_bounds(n / 8);
        }
    }
}

fn is_negative(bits: u64) -> (negative: bool)
    ensures
        negative == (bits >= SIGN),
{
    bits >= SIGN
}

/// How two doubles compare, given their bits.
pub fn compare_bits(a: u64, b: u64) -> (order: Option<Order>)
    ensures
        order == number_order(a, b),
{
    let left: u64 = a % SIGN;
    let right: u64 = b % SIGN;
    if left > INFINITY || right > INFINITY {
        return None;
    }
    if is_negative(a) && is_negative(b) {
        Some(compare_whole(right, left))
    } else if is_negative(a) {
        if left == 0 && right == 0 {
            Some(Order::Equal)
        } else {
            Some(Order::Less)
        }
    } else if is_negative(b) {
        if left == 0 && right == 0 {
            Some(Order::Equal)
        } else {
            Some(Order::Greater)
        }
    } else {
        Some(compare_whole(left, right))
    }
}

fn compare_whole(a: u64, b: u64) -> (order: Order)
    ensures
        order == int_order(a as int, b as int),
{
    if a < b {
        Order::Less
    } else if a == b {
        Order::Equal
    } else {
        Order::Greater
    }
}

/// How two bit patterns stand in the total order of doubles.
pub fn compare_total(a: u64, b: u64) -> (order: Order)
    ensures
        order == int_order(total_rank(a), total_rank(b)),
{
    if is_negative(a) && is_negative(b) {
        compare_whole(b, a)
    } else if is_negative(a) {
        Order::Less
    } else if is_negative(b) {
        Order::Greater
    } else {
        compare_whole(a, b)
    }
}

/// The words of a text that read as numbers, with the numbers they read as.
///
/// Reading a number from text is floating-point work, so it is done where the
/// text comes from and handed in as a table.
#[derive(Debug)]
pub struct NumberWords {
    entries: Vec<(String, Number)>,
}

/// What the first entry for `word` holds.
pub open spec fn number_for(entries: Seq<(Seq<char>, NumberView)>, word: Seq<char>) -> Option<
    NumberView,
>
    decreases entries.len(),
{
    if entries.len() == 0 {
        None
    } else if entries[0].0 == word {
        Some(entries[0].1)
    } else {
        number_for(entries.drop_first(), word)
    }
}

impl View for NumberWords {
    type V = Seq<(Seq<char>, NumberView)>;

    closed spec fn view(&self) -> Seq<(Seq<char>, NumberView)> {
        Seq::new(self.entries@.len(), |i: int| (self.entries@[i].0@, self.entries@[i].1@))
    }
}

impl NumberWords {
    /// A table without entries.
    pub fn new() -> (table: Self)
        ensures
            table@.len() == 0,
    {
        NumberWords { entries: Vec::new() }
    }

    /// Records that `word` reads as `number`.
    pub fn insert(&mut self, word: String, number: Number)
        ensures
            final(self)@ == old(self)@.push((word@, number@)),
    {
        self.entries.push((word, number));
        assert(self@ =~= old(self)@.push((word@, number@)));
    }

    /// The number that `word` reads as.
    pub fn find(&self, word: &str) -> (number: Option<Number>)
        ensures
            match number {
                Some(found) => number_for(self@, word@) == Some(found@),
                None => number_for(self@, word@) is None,
            },
    {
        let mut i: usize = 0;
        assert(self@.skip(0) =~= self@);
        while i < self.entries.len()
            invariant
                i <= self.entries@.len(),
                self@.len() == self.entries@.len(),
                number_for(self@, word@) == number_for(self@.skip(i as int), word@),
            decreases self.entries@.len() - i,
        {
            assert(self@.skip(i as int)[0] == self@[i as int]);
            assert(self@.skip(i as int).drop_first() =~= self@.skip(i + 1));
            if same_text(self.entries[i].0.as_str(), word) {
                return Some(self.entries[i].1.copy());
            }
            i = i + 1;
        }
        None
    }
}

} // verus!
