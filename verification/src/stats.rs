//! A running summary of whole numbers: the least, the greatest, the mean and
//! the variance of what was seen, kept without keeping the numbers.

use vstd::prelude::*;

verus! {

/// The sum of the numbers.
pub open spec fn total(values: Seq<i32>) -> int
    decreases values.len(),
{
    if values.len() == 0 {
        0
    } else {
        total(values.drop_last()) + values.last()
    }
}

/// The sum of the squares of the numbers.
pub open spec fn total_of_squares(values: Seq<i32>) -> int
    decreases values.len(),
{
    if values.len() == 0 {
        0
    } else {
        total_of_squares(values.drop_last()) + values.last() * values.last()
    }
}

/// The least of the numbers (of no numbers, the greatest `i32`).
pub open spec fn least(values: Seq<i32>) -> int
    decreases values.len(),
{
    if values.len() == 0 {
        i32::MAX as int
    } else if values.last() < least(values.drop_last()) {
        values.last() as int
    } else {
        least(values.drop_last())
    }
}

/// The greatest of the numbers (of no numbers, the least `i32`).
pub open spec fn greatest(values: Seq<i32>) -> int
    decreases values.len(),
{
    if values.len() == 0 {
        i32::MIN as int
    } else if values.last() > greatest(values.drop_last()) {
        values.last() as int
    } else {
        greatest(values.drop_last())
    }
}

/// The sum, over the numbers, of the square of `scale` times the number less
/// `shift`.
pub open spec fn total_of_squared_offsets(values: Seq<i32>, scale: int, shift: int) -> int
    decreases values.len(),
{
    if values.len() == 0 {
        0
    } else {
        total_of_squared_offsets(values.drop_last(), scale, shift) + (scale * values.last()
            - shift) * (scale * values.last() - shift)
    }
}

/// A quotient of two whole numbers.
#[derive(Clone, Copy, PartialEq, Eq, Structural, Debug)]
pub struct Fraction {
    pub numerator: i128,
    pub denominator: i128,
}

/// The summary. Its view is the sequence of the numbers that were added.
pub struct Stats {
    count: u32,
    min: i32,
    max: i32,
    sum: i64,
    sum_of_squares: u128,
    seen: Ghost<Seq<i32>>,
}

impl View for Stats {
    type V = Seq<i32>;

    closed spec fn view(&self) -> Seq<i32> {
        self.seen@
    }
}

impl Default for Stats {
    fn default() -> (stats: Stats)
        ensures
            stats@ == Seq::<i32>::empty(),
    {
        Stats::new()
    }
}

/// The sums of `i32` numbers stay within what their number allows.
pub proof fn lemma_totals_bounded(values: Seq<i32>)
    ensures
        -0x8000_0000 * values.len() <= total(values) <= 0x8000_0000 * values.len(),
        0 <= total_of_squares(values) <= 0x4000_0000_0000_0000 * values.len(),
        i32::MIN <= least(values) <= i32::MAX,
        i32::MIN <= greatest(values) <= i32::MAX,
    decreases values.len(),
{
    if values.len() > 0 {
        lemma_totals_bounded(values.drop_last());
        let x = values.last() as int;
        assert(0 <= x * x <= 0x4000_0000_0000_0000) by (nonlinear_arith)
            requires
                -0x8000_0000 <= x <= 0x8000_0000,
        ;
    }
}

impl Stats {
    #[verifier::type_invariant]
    spec fn consistent(self) -> bool {
        &&& self.count == self.seen@.len()
        &&& self.sum == total(self.seen@)
        &&& self.sum_of_squares == total_of_squares(self.seen@)
        &&& self.count > 0 ==> self.min == least(self.seen@) && self.max == greatest(self.seen@)
    }

    /// The summary of no numbers.
    pub fn new() -> (stats: Stats)
        ensures
            stats@ == Seq::<i32>::empty(),
    {
        Stats { count: 0, min: 0, max: 0, sum: 0, sum_of_squares: 0, seen: Ghost(Seq::empty()) }
    }

    /// How many numbers were added.
    pub fn len(&self) -> (count: u32)
        ensures
            count == self@.len(),
    {
        proof {
            use_type_invariant(self);
        }
        self.count
    }

    /// Adds a number.
    pub fn add(&mut self, x: i32)
        requires
            old(self)@.len() < u32::MAX,
        ensures
            final(self)@ == old(self)@.push(x),
    {
        proof {
            use_type_invariant(&*self);
            lemma_totals_bounded(self.seen@);
            assert(self.seen@.push(x).drop_last() =~= self.seen@);
            assert(self.seen@.push(x).last() == x);
            if self.count == 0 {
                assert(least(self.seen@) == i32::MAX);
                assert(greatest(self.seen@) == i32::MIN);
            }
            assert(0 <= x * x <= 0x4000_0000_0000_0000) by (nonlinear_arith)
                requires
                    -0x8000_0000 <= x <= 0x8000_0000,
            ;
        }
        let min: i32 = if self.count == 0 || x < self.min {
            x
        } else {
            self.min
        };
        let max: i32 = if self.count == 0 || x > self.max {
            x
        } else {
            self.max
        };
        let square: i64 = (x as i64) * (x as i64);
        *self = Stats {
            count: self.count + 1,
            min,
            max,
            sum: self.sum + x as i64,
            sum_of_squares: self.sum_of_squares + square as u128,
            seen: Ghost(self.seen@.push(x)),
        };
    }

    /// The least of the numbers, if there is any.
    pub fn min(&self) -> (min: Option<i32>)
        ensures
            min == if self@.len() == 0 {
                None
            } else {
                Some(least(self@) as i32)
            },
            i32::MIN <= least(self@) <= i32::MAX,
    {
        proof {
            use_type_invariant(self);
            lemma_totals_bounded(self.seen@);
        }
        if self.count == 0 {
            None
        } else {
            Some(self.min)
        }
    }

    /// The greatest of the numbers, if there is any.
    pub fn max(&self) -> (max: Option<i32>)
        ensures
            max == if self@.len() == 0 {
                None
            } else {
                Some(greatest(self@) as i32)
            },
            i32::MIN <= greatest(self@) <= i32::MAX,
    {
        proof {
            use_type_invariant(self);
            lemma_totals_bounded(self.seen@);
        }
        if self.count == 0 {
            None
        } else {
            Some(self.max)
        }
    }

    /// The mean of the numbers, if there is any: their sum over their number.
    pub fn mean(&self) -> (mean: Option<Fraction>)
        ensures
            match mean {
                Some(mean) => self@.len() > 0 && mean.numerator == total(self@)
                    && mean.denominator == self@.len(),
                None => self@.len() == 0,
            },
    {
        proof {
            use_type_invariant(self);
        }
        if self.count == 0 {
            None
        } else {
            Some(Fraction { numerator: self.sum as i128, denominator: self.count as i128 })
        }
    }

    /// The variance of the numbers as a population, if there is any: the mean
    /// of their squares less the square of their mean, as one quotient.
    pub fn var(&self) -> (var: Option<Fraction>)
        ensures
            match var {
                Some(var) => self@.len() > 0 && var.numerator == self@.len() * total_of_squares(
                    self@,
                ) - total(self@) * total(self@) && var.denominator == self@.len() * self@.len(),
                None => self@.len() == 0,
            },
    {
        proof {
            use_type_invariant(self);
            lemma_totals_bounded(self.seen@);
        }
        if self.count == 0 {
            None
        } else {
            let count: i128 = self.count as i128;
            let sum: i128 = self.sum as i128;
            let squares: i128 = self.sum_of_squares as i128;
            proof {
                assert(0 < count <= 0xffff_ffff);
                assert(-0x8000_0000 * 0x1_0000_0000 <= sum <= 0x8000_0000 * 0x1_0000_0000);
                assert(0 <= squares <= 0x4000_0000_0000_0000 * 0x1_0000_0000);
                assert(0 <= count * squares <= 0x1_0000_0000 * (0x4000_0000_0000_0000
                    * 0x1_0000_0000)) by (nonlinear_arith)
                    requires
                        0 <= count <= 0x1_0000_0000,
                        0 <= squares <= 0x4000_0000_0000_0000 * 0x1_0000_0000,
                ;
                assert(0 <= sum * sum <= (0x8000_0000 * 0x1_0000_0000) * (0x8000_0000
                    * 0x1_0000_0000)) by (nonlinear_arith)
                    requires
                        -0x8000_0000 * 0x1_0000_0000 <= sum <= 0x8000_0000 * 0x1_0000_0000,
                ;
                assert(0 < count * count <= 0x1_0000_0000 * 0x1_0000_0000) by (nonlinear_arith)
                    requires
                        0 < count <= 0x1_0000_0000,
                ;
            }
            Some(Fraction { numerator: count * squares - sum * sum, denominator: count * count })
        }
    }
}

/// The least of some numbers is one of them and above none of them; the
/// greatest is one of them and below none of them.
pub proof fn lemma_least_and_greatest(values: Seq<i32>)
    requires
        values.len() > 0,
    ensures
        exists|i: int| 0 <= i < values.len() && values[i] == least(values),
        forall|i: int| 0 <= i < values.len() ==> least(values) <= #[trigger] values[i],
        exists|i: int| 0 <= i < values.len() && values[i] == greatest(values),
        forall|i: int| 0 <= i < values.len() ==> greatest(values) >= #[trigger] values[i],
    decreases values.len(),
{
    let rest = values.drop_last();
    let end = values.len() - 1;
    if rest.len() == 0 {
        assert(least(rest) == i32::MAX);
        assert(greatest(rest) == i32::MIN);
        assert(values[end] == least(values));
        assert(values[end] == greatest(values));
    } else {
        lemma_least_and_greatest(rest);
        let low = choose|i: int| 0 <= i < rest.len() && rest[i] == least(rest);
        let high = choose|i: int| 0 <= i < rest.len() && rest[i] == greatest(rest);
        assert(values[low] == rest[low]);
        assert(values[high] == rest[high]);
        assert(values[end] == values.last());
        assert(values[if values.last() < least(rest) {
            end
        } else {
            low
        }] == least(values));
        assert(values[if values.last() > greatest(rest) {
            end
        } else {
            high
        }] == greatest(values));
        assert forall|i: int| 0 <= i < values.len() implies least(values) <= #[trigger] values[i]
            && greatest(values) >= values[i] by {
            if i < end {
                assert(rest[i] == values[i]);
            }
        }
    }
}

/// The summary of a single number: it is the least, the greatest and the
/// mean, and the variance is nothing.
pub proof fn lemma_single_value(value: i32)
    ensures
        least(seq![value]) == value,
        greatest(seq![value]) == value,
        total(seq![value]) == value,
        1 * total_of_squares(seq![value]) - total(seq![value]) * total(seq![value]) == 0,
{
    let values = seq![value];
    assert(values.drop_last() =~= Seq::<i32>::empty());
    assert(values.last() == value);
    assert(least(values.drop_last()) == i32::MAX);
    assert(greatest(values.drop_last()) == i32::MIN);
    assert(total(values.drop_last()) == 0);
    assert(total_of_squares(values.drop_last()) == 0);
}

/// How the squared offsets add up: by the squares, the sum and the number of
/// the numbers.
pub proof fn lemma_squared_offsets(values: Seq<i32>, scale: int, shift: int)
    ensures
        total_of_squared_offsets(values, scale, shift) == scale * scale * total_of_squares(values)
            - 2 * scale * shift * total(values) + values.len() * shift * shift,
    decreases values.len(),
{
    if values.len() > 0 {
        let rest = values.drop_last();
        let x = values.last() as int;
        let q = total_of_squares(rest);
        let t = total(rest);
        let n = rest.len() as int;
        lemma_squared_offsets(rest, scale, shift);
        let aa = scale * scale;
        let ab = 2 * scale * shift;
        let bb = shift * shift;
        let d = scale * x - shift;
        assert(d * d == aa * (x * x) - ab * x + bb) by (nonlinear_arith)
            requires
                aa == scale * scale,
                ab == 2 * scale * shift,
                bb == shift * shift,
                d == scale * x - shift,
        ;
        assert(aa * (q + x * x) == aa * q + aa * (x * x)) by (nonlinear_arith);
        assert(ab * (t + x) == ab * t + ab * x) by (nonlinear_arith);
        assert((n + 1) * shift * shift == n * shift * shift + bb) by (nonlinear_arith)
            requires
                bb == shift * shift,
        ;
    } else {
        assert(scale * scale * 0 - 2 * scale * shift * 0 + 0 * shift * shift == 0)
            by (nonlinear_arith);
    }
}

/// The variance that the summary gives is the mean of the squared distances
/// from the mean: with `n` numbers of sum `s`, `n` times its numerator is the
/// sum of the squares of `n * x - s`. So it is never negative.
pub proof fn lemma_variance_is_mean_squared_distance(values: Seq<i32>)
    ensures
        values.len() * (values.len() * total_of_squares(values) - total(values) * total(values))
            == total_of_squared_offsets(values, values.len() as int, total(values)),
        values.len() * total_of_squares(values) - total(values) * total(values) >= 0,
{
    let n = values.len() as int;
    let s = total(values);
    let q = total_of_squares(values);
    lemma_squared_offsets(values, n, s);
    assert(n * (n * q - s * s) == n * n * q - 2 * n * s * s + n * s * s) by (nonlinear_arith);
    lemma_squared_offsets_non_negative(values, n, s);
    if n > 0 {
        assert(n * q - s * s >= 0) by (nonlinear_arith)
            requires
                n > 0,
                n * (n * q - s * s) >= 0,
        ;
    }
}

/// A sum of squares is not negative.
pub proof fn lemma_squared_offsets_non_negative(values: Seq<i32>, scale: int, shift: int)
    ensures
        total_of_squared_offsets(values, scale, shift) >= 0,
    decreases values.len(),
{
    if values.len() > 0 {
        lemma_squared_offsets_non_negative(values.drop_last(), scale, shift);
        let d = scale * values.last() - shift;
        assert(d * d >= 0) by (nonlinear_arith);
    }
}

/// Taking one number out takes it out of the sums.
pub proof fn lemma_totals_remove(values: Seq<i32>, i: int)
    requires
        0 <= i < values.len(),
    ensures
        total(values) == total(values.remove(i)) + values[i],
        total_of_squares(values) == total_of_squares(values.remove(i)) + values[i] * values[i],
    decreases values.len(),
{
    if i == values.len() - 1 {
        assert(values.remove(i) =~= values.drop_last());
    } else {
        assert(values.remove(i).drop_last() =~= values.drop_last().remove(i));
        assert(values.remove(i).last() == values.last());
        lemma_totals_remove(values.drop_last(), i);
    }
}

/// Sequences of the same numbers have the same members.
pub proof fn lemma_same_members(values: Seq<i32>, others: Seq<i32>, x: i32)
    requires
        values.to_multiset() == others.to_multiset(),
        others.contains(x),
    ensures
        values.contains(x),
{
    values.to_multiset_ensures();
    others.to_multiset_ensures();
    assert(others.to_multiset().count(x) > 0);
    assert(values.to_multiset().count(x) > 0);
}

/// The order of the numbers does not matter to the summary: the same
/// numbers, each as often, give the same count, sums, least and greatest.
pub proof fn lemma_order_independent(values: Seq<i32>, others: Seq<i32>)
    requires
        values.to_multiset() == others.to_multiset(),
    ensures
        values.len() == others.len(),
        total(values) == total(others),
        total_of_squares(values) == total_of_squares(others),
        least(values) == least(others),
        greatest(values) == greatest(others),
    decreases others.len(),
{
    broadcast use vstd::seq_lib::to_multiset_build, vstd::seq_lib::to_multiset_remove;

    values.to_multiset_ensures();
    others.to_multiset_ensures();
    if others.len() > 0 {
        let x = others.last();
        assert(others.contains(x)) by {
            assert(others[others.len() - 1] == x);
        }
        lemma_same_members(values, others, x);
        let i = choose|i: int| 0 <= i < values.len() && values[i] == x;
        assert(others =~= others.drop_last().push(x));
        assert(others.drop_last().to_multiset() =~= others.to_multiset().remove(x));
        lemma_order_independent(values.remove(i), others.drop_last());
        lemma_totals_remove(values, i);
        lemma_least_and_greatest(values);
        lemma_least_and_greatest(others);
        let low = choose|k: int| 0 <= k < values.len() && values[k] == least(values);
        let high = choose|k: int| 0 <= k < values.len() && values[k] == greatest(values);
        let other_low = choose|k: int| 0 <= k < others.len() && others[k] == least(others);
        let other_high = choose|k: int| 0 <= k < others.len() && others[k] == greatest(others);
        lemma_same_members(others, values, values[low]);
        lemma_same_members(others, values, values[high]);
        lemma_same_members(values, others, others[other_low]);
        lemma_same_members(values, others, others[other_high]);
    } else {
        assert(values.len() == 0);
    }
}

} // verus!
