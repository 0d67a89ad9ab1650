//! The smallest and the largest of the readings seen so far.

use vstd::prelude::*;
use crate::number::{INFINITY, NEG_INFINITY, less, greater, is_nan, rank, less_than, greater_than};

verus! {

/// The range of the readings seen so far, each by its bit pattern.
///
/// Before any reading has been seen, `min` is positive infinity and `max` is
/// negative infinity: the range is empty.
#[derive(Debug, Clone, Copy, PartialEq, Eq)]
pub struct MinMaxValue {
    pub min: u32,
    pub max: u32,
}

impl MinMaxValue {
    /// The empty range.
    pub open spec fn empty() -> MinMaxValue {
        MinMaxValue { min: INFINITY, max: NEG_INFINITY }
    }

    /// Whether this is the empty range.
    pub open spec fn is_empty(self) -> bool {
        self.min == INFINITY && self.max == NEG_INFINITY
    }

    /// The range after one more reading: `value` replaces `max` where it is
    /// greater, and `min` where it is less. A NaN changes nothing.
    pub open spec fn with(self, value: u32) -> MinMaxValue {
        MinMaxValue {
            min: if less(value, self.min) { value } else { self.min },
            max: if greater(value, self.max) { value } else { self.max },
        }
    }

    /// The range after the readings `values`, in order, starting from `self`.
    pub open spec fn with_all(self, values: Seq<u32>) -> MinMaxValue
        decreases values.len(),
    {
        if values.len() == 0 {
            self
        } else {
            self.with_all(values.drop_last()).with(values.last())
        }
    }

    /// Takes `value` into the range.
    pub fn insert(&mut self, value: u32)
        ensures
            *final(self) == old(self).with(value),
    {
        if greater_than(value, self.max) {
            self.max = value;
        }
        if less_than(value, self.min) {
            self.min = value;
        }
    }

    /// Tells whether no reading has been taken in: the range is still the
    /// empty one.
    pub fn has_none(&self) -> (r: bool)
        ensures
            r == self.is_empty(),
    {
        self.min == INFINITY && self.max == NEG_INFINITY
    }
}

impl Default for MinMaxValue {
    fn default() -> (r: Self)
        ensures
            r == MinMaxValue::empty(),
    {
        MinMaxValue { min: INFINITY, max: NEG_INFINITY }
    }
}

/// Whether some reading in `values` is a number.
pub open spec fn has_number(values: Seq<u32>) -> bool {
    exists|i: int| 0 <= i < values.len() && !is_nan(#[trigger] values[i])
}

/// After any readings, taken in from the empty range: where none of them is a
/// number the range is still empty, and the other way round. Otherwise `min`
/// is one of the readings and no reading is less than it, and `max` is one of
/// the readings and no reading is greater than it.
pub proof fn lemma_range_is_exact(values: Seq<u32>)
    ensures
        MinMaxValue::empty().with_all(values).is_empty() <==> !has_number(values),
        has_number(values) ==> {
            let r = MinMaxValue::empty().with_all(values);
            &&& exists|i: int| 0 <= i < values.len() && #[trigger] values[i] == r.min
            &&& exists|i: int| 0 <= i < values.len() && #[trigger] values[i] == r.max
            &&& !is_nan(r.min)
            &&& !is_nan(r.max)
            &&& forall|i: int|
                0 <= i < values.len() && !is_nan(#[trigger] values[i]) ==> rank(r.min) <= rank(
                    values[i],
                ) <= rank(r.max)
        },
    decreases values.len(),
{
    if values.len() > 0 {
        let head = values.drop_last();
        let v = values.last();
        lemma_range_is_exact(head);
        let before = MinMaxValue::empty().with_all(head);
        let r = MinMaxValue::empty().with_all(values);
        assert(r == before.with(v));
        if has_number(head) {
            let i = choose|i: int| 0 <= i < head.len() && !is_nan(#[trigger] head[i]);
            assert(values[i] == head[i]);
            let a = choose|i: int| 0 <= i < head.len() && #[trigger] head[i] == before.min;
            let b = choose|i: int| 0 <= i < head.len() && #[trigger] head[i] == before.max;
            assert(values[a] == head[a]);
            assert(values[b] == head[b]);
            assert(values[values.len() - 1] == v);
            assert forall|i: int| 0 <= i < values.len() && !is_nan(#[trigger] values[i]) implies rank(
                r.min,
            ) <= rank(values[i]) <= rank(r.max) by {
                if i < head.len() {
                    assert(values[i] == head[i]);
                }
            }
        } else {
            assert(before.is_empty());
            if is_nan(v) {
                assert forall|i: int| 0 <= i < values.len() implies is_nan(#[trigger] values[i]) by {
                    if i < head.len() {
                        assert(values[i] == head[i]);
                    }
                }
            } else {
                assert(values[values.len() - 1] == v);
                assert forall|i: int| 0 <= i < values.len() && !is_nan(#[trigger] values[i]) implies rank(
                    r.min,
                ) <= rank(values[i]) <= rank(r.max) by {
                    if i < head.len() {
                        assert(values[i] == head[i]);
                    }
                }
            }
        }
    }
}

} // verus!
