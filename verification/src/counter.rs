//! A monotone 64-bit event counter.

use vstd::prelude::*;
use crate::saturating_sum;

verus! {

/// Sum of a sequence of increments, as an unbounded integer.
pub open spec fn sum_of(s: Seq<u64>) -> int
    decreases s.len(),
{
    if s.len() == 0 {
        0
    } else {
        sum_of(s.drop_last()) + s.last()
    }
}

/// The counter value reached by applying a sequence of increments, in order,
/// to a fresh counter.
pub open spec fn counter_after(s: Seq<u64>) -> u64
    decreases s.len(),
{
    if s.len() == 0 {
        0u64
    } else {
        saturating_sum(counter_after(s.drop_last()), s.last())
    }
}

/// A non-negative 64-bit accumulator. It starts at zero and never decreases:
/// additions saturate at `u64::MAX` instead of wrapping. Reads return the
/// whole current total; there is no torn state to observe.
pub struct Counter {
    value: u64,
}

impl Counter {
    /// The current total, as seen by contracts.
    pub closed spec fn spec_value(&self) -> u64 {
        self.value
    }

    /// A fresh counter reads zero before any increment.
    pub fn new() -> (c: Counter)
        ensures
            c.spec_value() == 0,
    {
        Counter { value: 0 }
    }

    /// Adds `by` to the total, saturating at `u64::MAX`. The total never
    /// decreases.
    pub fn increment(&mut self, by: u64)
        ensures
            final(self).spec_value() == saturating_sum(old(self).spec_value(), by),
            final(self).spec_value() >= old(self).spec_value(),
    {
        self.value = if self.value <= u64::MAX - by {
            self.value + by
        } else {
            u64::MAX
        };
    }

    /// Returns the current total.
    pub fn value(&self) -> (v: u64)
        ensures
            v == self.spec_value(),
    {
        self.value
    }
}

/// Law: as long as the mathematical sum of the increments fits in 64 bits,
/// a counter that started at zero and received the increments `s`, in order,
/// reads exactly `sum_of(s)`.
pub proof fn lemma_counter_totals(s: Seq<u64>)
    requires
        sum_of(s) <= u64::MAX,
    ensures
        counter_after(s) == sum_of(s),
    decreases s.len(),
{
    if s.len() > 0 {
        assert(sum_of(s.drop_last()) >= 0) by {
            lemma_sum_of_nonneg(s.drop_last());
        }
        lemma_counter_totals(s.drop_last());
    }
}

/// The sum of unsigned increments is never negative.
pub proof fn lemma_sum_of_nonneg(s: Seq<u64>)
    ensures
        sum_of(s) >= 0,
    decreases s.len(),
{
    if s.len() > 0 {
        lemma_sum_of_nonneg(s.drop_last());
    }
}

/// Replacing one element changes the sum by the difference of the elements.
pub proof fn lemma_sum_of_update(s: Seq<u64>, i: int, x: u64)
    requires
        0 <= i < s.len(),
    ensures
        sum_of(s.update(i, x)) == sum_of(s) - s[i] + x,
    decreases s.len(),
{
    if i == s.len() - 1 {
        assert(s.update(i, x).drop_last() =~= s.drop_last());
    } else {
        assert(s.update(i, x).drop_last() =~= s.drop_last().update(i, x));
        lemma_sum_of_update(s.drop_last(), i, x);
    }
}

/// Each element is at most the sum of the whole sequence.
pub proof fn lemma_sum_of_element_bound(s: Seq<u64>, i: int)
    requires
        0 <= i < s.len(),
    ensures
        s[i] <= sum_of(s),
    decreases s.len(),
{
    if i == s.len() - 1 {
        lemma_sum_of_nonneg(s.drop_last());
    } else {
        lemma_sum_of_element_bound(s.drop_last(), i);
    }
}

/// A sequence of zeroes sums to zero.
pub proof fn lemma_sum_of_all_zero(s: Seq<u64>)
    requires
        forall|j: int| 0 <= j < s.len() ==> s[j] == 0,
    ensures
        sum_of(s) == 0,
    decreases s.len(),
{
    if s.len() > 0 {
        lemma_sum_of_all_zero(s.drop_last());
    }
}

/// The sum of a prefix never exceeds the sum of the whole sequence.
pub proof fn lemma_sum_of_take_bound(s: Seq<u64>, i: int)
    requires
        0 <= i <= s.len(),
    ensures
        sum_of(s.take(i)) <= sum_of(s),
    decreases s.len() - i,
{
    if i == s.len() {
        assert(s.take(i) =~= s);
    } else {
        assert(s.take(i + 1).drop_last() =~= s.take(i));
        assert(s.take(i + 1).last() == s[i]);
        lemma_sum_of_take_bound(s, i + 1);
    }
}

} // verus!
