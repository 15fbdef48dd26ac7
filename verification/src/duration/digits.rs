//! Decimal digit strings as numbers.

use vstd::arithmetic::power2::{lemma_pow2_pos, lemma_pow2_unfold, pow2};
use vstd::prelude::*;

use crate::number::Order;
use crate::text::{all_digits, chars_of, decimal, decimal_text, digit_char, is_digit};

verus! {

/// The number that the digit `c` stands for.
pub open spec fn digit_value(c: char) -> int {
    (c as int) - ('0' as int)
}

/// The number that a string of digits stands for.
pub open spec fn digits_value(s: Seq<char>) -> int
    decreases s.len(),
{
    if s.len() == 0 {
        0
    } else {
        10 * digits_value(s.drop_last()) + digit_value(s.last())
    }
}

/// The smallest whole number that rounds to an infinite double: two to the
/// power of 1024 less two to the power of 970.
pub open spec fn double_limit() -> int {
    (18014398509481983 * pow2(970)) as int
}

/// Ten to the power of `n`.
pub open spec fn pow10(n: nat) -> nat
    decreases n,
{
    if n == 0 {
        1
    } else {
        10 * pow10((n - 1) as nat)
    }
}

/// Writing a number in decimal and reading it back gives the number.
pub proof fn lemma_decimal_value(n: nat)
    ensures
        all_digits(decimal(n)),
        decimal(n).len() > 0,
        digits_value(decimal(n)) == n,
    decreases n,
{
    reveal_with_fuel(digits_value, 2);
    if n < 10 {
        assert(decimal(n).drop_last() =~= Seq::<char>::empty());
    } else {
        lemma_decimal_value(n / 10);
        assert(decimal(n).drop_last() =~= decimal(n / 10));
        assert forall|i: int| 0 <= i < decimal(n).len() implies is_digit(#[trigger] decimal(n)[i]) by {
            if i < decimal(n / 10).len() {
                assert(decimal(n)[i] == decimal(n / 10)[i]);
            }
        }
    }
}

proof fn lemma_value_bounds(s: Seq<char>)
    requires
        all_digits(s),
    ensures
        0 <= digits_value(s) < pow10(s.len()),
        s.len() > 0 && s[0] != '0' ==> digits_value(s) >= pow10((s.len() - 1) as nat),
    decreases s.len(),
{
    if s.len() > 0 {
        let front = s.drop_last();
        assert(is_digit(s.last()));
        assert(all_digits(front)) by {
            assert forall|i: int| 0 <= i < front.len() implies is_digit(#[trigger] front[i]) by {
                assert(front[i] == s[i]);
            }
        }
        lemma_value_bounds(front);
        if front.len() > 0 {
            assert(front[0] == s[0]);
            assert(pow10((s.len() - 1) as nat) == 10 * pow10((front.len() - 1) as nat));
        } else {
            assert(front =~= Seq::<char>::empty());
        }
    }
}

proof fn lemma_pow10_grows(a: nat, b: nat)
    requires
        a <= b,
    ensures
        pow10(a) <= pow10(b),
    decreases b,
{
    if a < b {
        lemma_pow10_grows(a, (b - 1) as nat);
    }
}

proof fn lemma_pow10_below_pow2(k: nat)
    ensures
        pow10(3 * k) <= pow2(10 * k),
    decreases k,
{
    if k == 0 {
        lemma_pow2_pos(0);
    } else {
        lemma_pow10_below_pow2((k - 1) as nat);
        reveal_with_fuel(pow10, 4);
        assert(pow10(3 * k) == 1000 * pow10((3 * (k - 1)) as nat));
        let n = 10 * k;
        lemma_pow2_unfold(n);
        lemma_pow2_unfold((n - 1) as nat);
        lemma_pow2_unfold((n - 2) as nat);
        lemma_pow2_unfold((n - 3) as nat);
        lemma_pow2_unfold((n - 4) as nat);
        lemma_pow2_unfold((n - 5) as nat);
        lemma_pow2_unfold((n - 6) as nat);
        lemma_pow2_unfold((n - 7) as nat);
        lemma_pow2_unfold((n - 8) as nat);
        lemma_pow2_unfold((n - 9) as nat);
        assert(pow2(n) == 1024 * pow2((10 * (k - 1)) as nat));
    }
}

proof fn lemma_leading_zeros(s: Seq<char>, k: int)
    requires
        0 <= k <= s.len(),
        forall|i: int| 0 <= i < k ==> s[i] == '0',
    ensures
        digits_value(s) == digits_value(s.skip(k)),
    decreases s.len(),
{
    if k == s.len() {
        assert(s.skip(k) =~= Seq::<char>::empty());
        if s.len() > 0 {
            lemma_leading_zeros(s.drop_last(), s.len() - 1);
            assert(s.drop_last().skip(s.len() - 1) =~= Seq::<char>::empty());
        }
    } else {
        lemma_leading_zeros(s.drop_last(), k);
        assert(s.skip(k).drop_last() =~= s.drop_last().skip(k));
        assert(s.skip(k).last() == s.last());
    }
}

/// The digits of twice the number that the first `n` of `digits` stand for,
/// plus `carry`.
fn doubled(digits: &Vec<char>, n: usize, carry: u8) -> (twice: Vec<char>)
    requires
        n <= digits@.len(),
        all_digits(digits@),
        carry <= 1,
    ensures
        all_digits(twice@),
        digits_value(twice@) == 2 * digits_value(digits@.take(n as int)) + carry,
    decreases n,
{
    if n == 0 {
        let mut twice: Vec<char> = Vec::new();
        assert(digits@.take(0) =~= Seq::<char>::empty());
        if carry == 1 {
            twice.push('1');
            assert(twice@.drop_last() =~= Seq::<char>::empty());
            reveal_with_fuel(digits_value, 2);
        }
        twice
    } else {
        let c: char = digits[n - 1];
        assert(is_digit(digits@[n - 1]));
        let sum: u8 = 2 * (c as u8 - 48) + carry;
        let mut twice = doubled(digits, n - 1, sum / 10);
        let ghost before = twice@;
        twice.push((sum % 10 + 48) as char);
        proof {
            assert(twice@.drop_last() =~= before);
            assert(digits@.take(n as int).drop_last() =~= digits@.take(n - 1));
            assert forall|i: int| 0 <= i < twice@.len() implies is_digit(#[trigger] twice@[i]) by {
                if i < before.len() {
                    assert(twice@[i] == before[i]);
                }
            }
        }
        twice
    }
}

/// The digits of [`double_limit`].
fn limit_digits() -> (digits: Vec<char>)
    ensures
        all_digits(digits@),
        digits_value(digits@) == double_limit(),
{
    let mut digits = chars_of(decimal_text(18014398509481983).as_str());
    proof {
        lemma_decimal_value(18014398509481983);
        vstd::arithmetic::power2::lemma2_to64();
    }
    let mut k: u64 = 0;
    while k < 970
        invariant
            k <= 970,
            all_digits(digits@),
            digits_value(digits@) == 18014398509481983 * pow2(k as nat),
        decreases 970 - k,
    {
        let n = digits.len();
        proof {
            lemma_pow2_unfold((k + 1) as nat);
            assert(digits@.take(n as int) =~= digits@);
        }
        digits = doubled(&digits, n, 0);
        k = k + 1;
    }
    digits
}

fn leading_zeros(digits: &[char]) -> (k: usize)
    ensures
        k <= digits@.len(),
        digits_value(digits@) == digits_value(digits@.skip(k as int)),
        k < digits@.len() ==> digits@[k as int] != '0',
{
    let mut k: usize = 0;
    while k < digits.len() && digits[k] == '0'
        invariant
            k <= digits@.len(),
            forall|i: int| 0 <= i < k ==> digits@[i] == '0',
        decreases digits@.len() - k,
    {
        k = k + 1;
    }
    proof {
        lemma_leading_zeros(digits@, k as int);
    }
    k
}

/// Whether the whole number written as `whole` is too large for a double.
pub fn is_beyond_double(whole: &[char]) -> (beyond: bool)
    requires
        all_digits(whole@),
    ensures
        beyond == (digits_value(whole@) >= double_limit()),
{
    let from = leading_zeros(whole);
    let ghost a = whole@.skip(from as int);
    let width: usize = whole.len() - from;
    proof {
        assert forall|i: int| 0 <= i < a.len() implies is_digit(#[trigger] a[i]) by {
            assert(a[i] == whole@[i + from]);
        }
        lemma_value_bounds(a);
    }
    if width <= 291 {
        proof {
            lemma_pow10_grows(width as nat, 291);
            lemma_pow10_below_pow2(97);
        }
        return false;
    }
    let limit = limit_digits();
    let limit_from = leading_zeros(limit.as_slice());
    let limit_width: usize = limit.len() - limit_from;
    let ghost b = limit@.skip(limit_from as int);
    proof {
        assert forall|i: int| 0 <= i < b.len() implies is_digit(#[trigger] b[i]) by {
            assert(b[i] == limit@[i + limit_from]);
        }
        lemma_value_bounds(b);
        if width < limit_width {
            lemma_pow10_grows(width as nat, (limit_width - 1) as nat);
        }
        if limit_width < width {
            lemma_pow10_grows(limit_width as nat, (width - 1) as nat);
        }
    }
    if width != limit_width {
        return width > limit_width;
    }
    let mut order = Order::Equal;
    let mut i: usize = 0;
    while i < width
        invariant
            i <= width,
            width == a.len(),
            width == b.len(),
            from + width == whole@.len(),
            limit_from + width == limit@.len(),
            from + width <= usize::MAX,
            limit_from + width <= usize::MAX,
            a == whole@.skip(from as int),
            b == limit@.skip(limit_from as int),
            all_digits(a),
            all_digits(b),
            order == crate::number::int_order(
                digits_value(a.take(i as int)),
                digits_value(b.take(i as int)),
            ),
        decreases width - i,
    {
        let x: char = whole[from + i];
        let y: char = limit[limit_from + i];
        proof {
            assert(a[i as int] == x && b[i as int] == y);
            assert(a.take(i + 1).drop_last() =~= a.take(i as int));
            assert(b.take(i + 1).drop_last() =~= b.take(i as int));
        }
        if let Order::Equal = order {
            if x < y {
                order = Order::Less;
            } else if x > y {
                order = Order::Greater;
            }
        }
        i = i + 1;
    }
    assert(a.take(i as int) =~= a);
    assert(b.take(i as int) =~= b);
    match order {
        Order::Less => false,
        _ => true,
    }
}

} // verus!
