//! Scores: products of letter frequencies, held exactly.
//!
//! A frequency can be as large as five times the number of candidates, and a
//! score is the product of five of them. No machine integer holds such a
//! product for every list that fits in memory, so a score is kept as a wide
//! unsigned number of eleven 32-bit digits.

use vstd::prelude::*;

verus! {

/// Number of 32-bit digits in a score.
pub const DIGITS: usize = 11;

/// The base of the digits: 2^32.
pub const BASE: u128 = 0x1_0000_0000;

/// The largest factor that a score is multiplied by: five times 2^64, which
/// no letter frequency of a list in memory exceeds.
pub const MAX_FACTOR: u128 = 0x5_0000_0000_0000_0000;

/// `BASE` to the power `k`: the weight of the digit at position `k`.
pub open spec fn weight(k: nat) -> nat
    decreases k,
{
    if k == 0 {
        1
    } else {
        BASE as nat * weight((k - 1) as nat)
    }
}

/// The number that the digits stand for, the lowest digit first.
pub open spec fn digits_value(digits: Seq<u32>) -> nat
    decreases digits.len(),
{
    if digits.len() == 0 {
        0
    } else {
        digits_value(digits.drop_last()) + digits.last() as nat * weight(
            (digits.len() - 1) as nat,
        )
    }
}

/// `MAX_FACTOR` to the power `k`: the largest product of `k` factors.
pub open spec fn max_product(k: nat) -> nat
    decreases k,
{
    if k == 0 {
        1
    } else {
        MAX_FACTOR as nat * max_product((k - 1) as nat)
    }
}

/// A non-negative whole number below 2^352, which is `weight(11)`.
#[derive(Clone, Copy, Debug)]
pub struct Score {
    digits: [u32; 11],
}

impl View for Score {
    type V = nat;

    closed spec fn view(&self) -> nat {
        digits_value(self.digits@)
    }
}

proof fn lemma_value_below_weight(digits: Seq<u32>)
    ensures
        digits_value(digits) < weight(digits.len()),
    decreases digits.len(),
{
    if digits.len() > 0 {
        let w = weight((digits.len() - 1) as nat);
        lemma_value_below_weight(digits.drop_last());
        assert(digits.last() as nat * w <= (BASE - 1) * w) by (nonlinear_arith)
            requires
                digits.last() as nat <= BASE - 1,
        ;
        assert((BASE - 1) * w + w == BASE as nat * w) by (nonlinear_arith);
    }
}

proof fn lemma_value_of_prefix(digits: Seq<u32>, i: int)
    requires
        0 <= i < digits.len(),
    ensures
        digits_value(digits.take(i + 1)) == digits_value(digits.take(i)) + digits[i] as nat
            * weight(i as nat),
{
    assert(digits.take(i + 1).drop_last() =~= digits.take(i));
}

/// The highest digit in which two numbers differ decides which is larger.
proof fn lemma_top_difference_decides(a: Seq<u32>, b: Seq<u32>, i: int)
    requires
        a.len() == b.len(),
        0 <= i < a.len(),
        forall|k: int| i < k < a.len() ==> a[k] == b[k],
        a[i] < b[i],
    ensures
        digits_value(a) < digits_value(b),
    decreases a.len(),
{
    let w = weight((a.len() - 1) as nat);
    if i == a.len() - 1 {
        lemma_value_below_weight(a.drop_last());
        assert(a[i] as nat * w + w <= b[i] as nat * w) by (nonlinear_arith)
            requires
                a[i] as nat + 1 <= b[i] as nat,
        ;
    } else {
        lemma_top_difference_decides(a.drop_last(), b.drop_last(), i);
    }
}

/// A digit that is not zero makes the number at least as large as its weight.
proof fn lemma_digit_weighs(digits: Seq<u32>, i: int)
    requires
        0 <= i < digits.len(),
        digits[i] != 0,
    ensures
        digits_value(digits) >= weight(i as nat),
    decreases digits.len(),
{
    let w = weight((digits.len() - 1) as nat);
    if i == digits.len() - 1 {
        assert(digits[i] as nat * w >= w) by (nonlinear_arith)
            requires
                digits[i] as nat >= 1,
        ;
    } else {
        lemma_digit_weighs(digits.drop_last(), i);
    }
}

/// Digits that are zero from position `n` upwards add nothing to the number.
proof fn lemma_high_zeros(digits: Seq<u32>, n: int)
    requires
        0 <= n <= digits.len(),
        forall|k: int| n <= k < digits.len() ==> digits[k] == 0,
    ensures
        digits_value(digits) == digits_value(digits.take(n)),
    decreases digits.len(),
{
    if n == digits.len() {
        assert(digits.take(n) =~= digits);
    } else {
        lemma_high_zeros(digits.drop_last(), n);
        assert(digits.drop_last().take(n) =~= digits.take(n));
        assert(digits.last() as nat * weight((digits.len() - 1) as nat) == 0) by (nonlinear_arith)
            requires
                digits.last() == 0,
        ;
    }
}

/// Five factors, none above `MAX_FACTOR`, have a product below `weight(11)`.
pub proof fn lemma_max_product_fits()
    ensures
        max_product(5) < weight(DIGITS as nat),
{
    reveal_with_fuel(max_product, 6);
    reveal_with_fuel(weight, 12);
}

/// A product of at most `k` factors times one more factor is a product of at
/// most `k + 1` factors.
pub proof fn lemma_max_product_grows(value: nat, factor: nat, k: nat)
    requires
        value <= max_product(k),
        factor <= MAX_FACTOR,
    ensures
        value * factor <= max_product(k + 1),
{
    assert(value * factor <= max_product(k) * MAX_FACTOR as nat) by (nonlinear_arith)
        requires
            value <= max_product(k),
            factor <= MAX_FACTOR,
    ;
    assert(max_product(k) * MAX_FACTOR as nat == MAX_FACTOR as nat * max_product(k))
        by (nonlinear_arith);
}

/// The largest product of factors does not shrink with their number.
pub proof fn lemma_max_product_is_monotonic(j: nat, k: nat)
    requires
        j <= k,
    ensures
        1 <= max_product(j) <= max_product(k),
    decreases k,
{
    if k == 0 {
    } else if j == k {
        lemma_max_product_is_monotonic(0, (k - 1) as nat);
        assert(MAX_FACTOR as nat * max_product((k - 1) as nat) >= 1) by (nonlinear_arith)
            requires
                max_product((k - 1) as nat) >= 1,
        ;
    } else {
        lemma_max_product_is_monotonic(j, (k - 1) as nat);
        assert(MAX_FACTOR as nat * max_product((k - 1) as nat) >= max_product((k - 1) as nat))
            by (nonlinear_arith);
    }
}

impl Score {
    /// The score one: the product of no factors.
    pub fn one() -> (score: Score)
        ensures
            score@ == 1,
    {
        let score = Score { digits: [1, 0, 0, 0, 0, 0, 0, 0, 0, 0, 0] };
        proof {
            assert(digits_value(score.digits@.take(0)) == 0);
            lemma_value_of_prefix(score.digits@, 0);
            lemma_high_zeros(score.digits@, 1);
        }
        score
    }

    /// The score times `factor`.
    pub fn times(&self, factor: u128) -> (product: Score)
        requires
            factor <= MAX_FACTOR,
            self@ * factor < weight(DIGITS as nat),
        ensures
            product@ == self@ * factor,
    {
        let mut digits: [u32; 11] = [0; 11];
        let mut carry: u128 = 0;
        let mut i: usize = 0;
        proof {
            assert(digits_value(digits@.take(0)) == 0);
            assert(digits_value(self.digits@.take(0)) == 0);
            assert(0 * factor == 0) by (nonlinear_arith);
        }
        while i < DIGITS
            invariant
                i <= DIGITS,
                factor <= MAX_FACTOR,
                carry <= MAX_FACTOR,
                digits_value(digits@.take(i as int)) + carry * weight(i as nat) == digits_value(
                    self.digits@.take(i as int),
                ) * factor,
            decreases DIGITS - i,
        {
            let digit: u128 = self.digits[i] as u128;
            assert(digit * factor <= (BASE - 1) * MAX_FACTOR) by (nonlinear_arith)
                requires
                    digit <= BASE - 1,
                    factor <= MAX_FACTOR,
            ;
            let total: u128 = digit * factor + carry;
            let low: u32 = (total % BASE) as u32;
            let high: u128 = total / BASE;
            proof {
                let w = weight(i as nat);
                let done = digits_value(digits@.take(i as int));
                let read = digits_value(self.digits@.take(i as int));
                assert(digits@.update(i as int, low).take(i as int) =~= digits@.take(i as int));
                lemma_value_of_prefix(digits@.update(i as int, low), i as int);
                lemma_value_of_prefix(self.digits@, i as int);
                assert(low as nat + BASE as nat * high as nat == digit as nat * factor as nat
                    + carry as nat);
                assert(done + low as nat * w + high as nat * (BASE as nat * w) == (read
                    + digit as nat * w) * factor as nat) by (nonlinear_arith)
                    requires
                        done + carry as nat * w == read * factor as nat,
                        low as nat + BASE as nat * high as nat == digit as nat * factor as nat
                            + carry as nat,
                ;
            }
            digits[i] = low;
            carry = high;
            i += 1;
        }
        proof {
            assert(digits@.take(DIGITS as int) =~= digits@);
            assert(self.digits@.take(DIGITS as int) =~= self.digits@);
            assert(carry == 0) by (nonlinear_arith)
                requires
                    digits_value(digits@) + carry * weight(DIGITS as nat) < weight(DIGITS as nat),
            ;
        }
        Score { digits }
    }

    /// Whether this score is larger than `other`.
    pub fn exceeds(&self, other: &Score) -> (larger: bool)
        ensures
            larger == (self@ > other@),
    {
        let mut i: usize = DIGITS;
        while i > 0
            invariant
                i <= DIGITS,
                forall|k: int| i <= k < DIGITS ==> self.digits@[k] == other.digits@[k],
            decreases i,
        {
            i -= 1;
            if self.digits[i] != other.digits[i] {
                proof {
                    if self.digits@[i as int] < other.digits@[i as int] {
                        lemma_top_difference_decides(self.digits@, other.digits@, i as int);
                    } else {
                        lemma_top_difference_decides(other.digits@, self.digits@, i as int);
                    }
                }
                return self.digits[i] > other.digits[i];
            }
        }
        assert(self.digits@ =~= other.digits@);
        false
    }

    /// The score as a `u128`, if it is small enough to be one.
    pub fn to_u128(&self) -> (small: Option<u128>)
        ensures
            small is Some <==> self@ <= u128::MAX,
            small matches Some(v) ==> v == self@,
    {
        let mut i: usize = DIGITS;
        while i > 4
            invariant
                4 <= i <= DIGITS,
                forall|k: int| i <= k < DIGITS ==> self.digits@[k] == 0,
            decreases i,
        {
            i -= 1;
            if self.digits[i] != 0 {
                proof {
                    lemma_digit_weighs(self.digits@, i as int);
                    lemma_weight_is_monotonic(4, i as nat);
                    reveal_with_fuel(weight, 5);
                }
                return None;
            }
        }
        proof {
            let d = self.digits@;
            lemma_high_zeros(d, 4);
            assert(digits_value(d.take(0)) == 0);
            assert(d.take(4).take(0) =~= d.take(0));
            assert(d.take(4).take(1) =~= d.take(1));
            assert(d.take(4).take(2) =~= d.take(2));
            assert(d.take(4).take(3) =~= d.take(3));
            lemma_value_of_prefix(d, 0);
            lemma_value_of_prefix(d, 1);
            lemma_value_of_prefix(d, 2);
            lemma_value_of_prefix(d, 3);
            reveal_with_fuel(weight, 5);
        }
        let d0: u128 = self.digits[0] as u128;
        let d1: u128 = self.digits[1] as u128;
        let d2: u128 = self.digits[2] as u128;
        let d3: u128 = self.digits[3] as u128;
        Some(d0 + d1 * 0x1_0000_0000 + d2 * 0x1_0000_0000_0000_0000 + d3 * 0x1_0000_0000_0000_0000_0000_0000)
    }
}

proof fn lemma_weight_is_monotonic(j: nat, k: nat)
    requires
        j <= k,
    ensures
        1 <= weight(j) <= weight(k),
    decreases k,
{
    if k == 0 {
    } else if j == k {
        lemma_weight_is_monotonic(0, (k - 1) as nat);
        assert(BASE as nat * weight((k - 1) as nat) >= 1) by (nonlinear_arith)
            requires
                weight((k - 1) as nat) >= 1,
        ;
    } else {
        lemma_weight_is_monotonic(j, (k - 1) as nat);
        assert(BASE as nat * weight((k - 1) as nat) >= weight((k - 1) as nat))
            by (nonlinear_arith);
    }
}

} // verus!
