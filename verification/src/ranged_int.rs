//! An integer that is held inside an inclusive range: arithmetic on it
//! saturates at the ends of the range and never wraps.

use vstd::prelude::*;

verus! {

/// `v` held inside `[min, max]`.
pub open spec fn clamp(v: int, min: int, max: int) -> int {
    if v > max {
        max
    } else if v < min {
        min
    } else {
        v
    }
}

/// What adding `other` to a value `v` of the range `[min, max]` gives.
pub open spec fn add_model(v: int, min: int, max: int, other: int) -> int {
    clamp(v + other, min, max)
}

/// What subtracting `other` from a value `v` of the range `[min, max]`
/// gives. The smallest `i32` has no negation, so subtracting it counts as
/// adding without limit.
pub open spec fn sub_model(v: int, min: int, max: int, other: int) -> int {
    if other == i32::MIN {
        max
    } else {
        clamp(v - other, min, max)
    }
}

/// Half of `sum`, rounded towards zero.
pub open spec fn half_towards_zero(sum: int) -> int {
    if sum >= 0 {
        sum / 2
    } else {
        -((-sum) / 2)
    }
}

#[derive(Copy, Clone, Debug)]
pub struct RangedInt {
    val: i32,
    _min: i32,
    _max: i32,
}

impl RangedInt {
    #[verifier::type_invariant]
    spec fn inv(self) -> bool {
        self._min <= self.val <= self._max
    }

    /// The value held.
    pub closed spec fn value_spec(self) -> int {
        self.val as int
    }

    /// The lower end of the range.
    pub closed spec fn min_spec(self) -> int {
        self._min as int
    }

    /// The upper end of the range.
    pub closed spec fn max_spec(self) -> int {
        self._max as int
    }

    /// Two ranged integers with the same value and the same range are the
    /// same.
    pub proof fn lemma_same_value_same_range(self, other: RangedInt)
        requires
            self.value_spec() == other.value_spec(),
            self.min_spec() == other.min_spec(),
            self.max_spec() == other.max_spec(),
        ensures
            self == other,
    {
    }

    pub fn new(value: i32, min: i32, max: i32) -> (r: RangedInt)
        requires
            min <= max,
            min <= value,
            value <= max,
        ensures
            r.value_spec() == value,
            r.min_spec() == min,
            r.max_spec() == max,
    {
        RangedInt { val: value, _min: min, _max: max }
    }

    /// A value of the range `[min, max]` that starts at `min`.
    pub fn new_min(min: i32, max: i32) -> (r: RangedInt)
        requires
            min <= max,
        ensures
            r.value_spec() == min,
            r.min_spec() == min,
            r.max_spec() == max,
    {
        RangedInt { val: min, _min: min, _max: max }
    }

    /// A value of the range `[min, max]` that starts at `max`.
    pub fn new_max(min: i32, max: i32) -> (r: RangedInt)
        requires
            min <= max,
        ensures
            r.value_spec() == max,
            r.min_spec() == min,
            r.max_spec() == max,
    {
        RangedInt { val: max, _min: min, _max: max }
    }

    pub fn set(&mut self, n: i32)
        requires
            old(self).min_spec() <= n,
            n <= old(self).max_spec(),
        ensures
            final(self).value_spec() == n,
            final(self).min_spec() == old(self).min_spec(),
            final(self).max_spec() == old(self).max_spec(),
    {
        self.val = n;
    }

    /// The value held. It always lies inside the range.
    pub fn value(&self) -> (v: i32)
        ensures
            v == self.value_spec(),
            self.min_spec() <= v <= self.max_spec(),
    {
        proof {
            use_type_invariant(self);
        }
        self.val
    }

    pub fn min(&self) -> (v: i32)
        ensures
            v == self.min_spec(),
            v <= self.max_spec(),
    {
        proof {
            use_type_invariant(self);
        }
        self._min
    }

    pub fn max(&self) -> (v: i32)
        ensures
            v == self.max_spec(),
            self.min_spec() <= v,
    {
        proof {
            use_type_invariant(self);
        }
        self._max
    }

    pub fn is_min(&self) -> (b: bool)
        ensures
            b == (self.value_spec() == self.min_spec()),
    {
        self.val == self._min
    }

    pub fn is_max(&self) -> (b: bool)
        ensures
            b == (self.value_spec() == self.max_spec()),
    {
        self.val == self._max
    }

    pub fn set_to_min(&mut self)
        ensures
            final(self).value_spec() == old(self).min_spec(),
            final(self).min_spec() == old(self).min_spec(),
            final(self).max_spec() == old(self).max_spec(),
    {
        proof {
            use_type_invariant(&*self);
        }
        self.val = self._min;
    }

    pub fn set_to_max(&mut self)
        ensures
            final(self).value_spec() == old(self).max_spec(),
            final(self).min_spec() == old(self).min_spec(),
            final(self).max_spec() == old(self).max_spec(),
    {
        proof {
            use_type_invariant(&*self);
        }
        self.val = self._max;
    }

    /// The midpoint of the range, rounded towards zero.
    pub fn middle(&self) -> (m: i32)
        ensures
            m == half_towards_zero(self.min_spec() + self.max_spec()),
    {
        let sum: i64 = self._min as i64 + self._max as i64;
        let half: i64 = if sum >= 0 {
            sum / 2
        } else {
            -((-sum) / 2)
        };
        half as i32
    }

    /// The value after `other` was added, held inside the range.
    pub fn plus(self, other: i32) -> (r: RangedInt)
        ensures
            r.value_spec() == add_model(
                self.value_spec(),
                self.min_spec(),
                self.max_spec(),
                other as int,
            ),
            r.min_spec() == self.min_spec(),
            r.max_spec() == self.max_spec(),
    {
        proof {
            use_type_invariant(self);
        }
        match self.val.checked_add(other) {
            Some(v) => {
                let new_val = if v > self._max {
                    self._max
                } else if v < self._min {
                    self._min
                } else {
                    v
                };
                RangedInt::new(new_val, self._min, self._max)
            },
            None => {
                if other > 0 {
                    RangedInt::new(self._max, self._min, self._max)
                } else {
                    RangedInt::new(self._min, self._min, self._max)
                }
            },
        }
    }

    /// The value after `other` was subtracted, held inside the range.
    pub fn minus(self, other: i32) -> (r: RangedInt)
        ensures
            r.value_spec() == sub_model(
                self.value_spec(),
                self.min_spec(),
                self.max_spec(),
                other as int,
            ),
            r.min_spec() == self.min_spec(),
            r.max_spec() == self.max_spec(),
    {
        proof {
            use_type_invariant(self);
        }
        if other == i32::MIN {
            RangedInt::new(self._max, self._min, self._max)
        } else {
            self.plus(-other)
        }
    }
}

impl PartialEq for RangedInt {
    fn eq(&self, other: &RangedInt) -> (r: bool) {
        self.val == other.val && self._min == other._min && self._max == other._max
    }
}

impl Eq for RangedInt {

}

impl vstd::std_specs::cmp::PartialEqSpecImpl for RangedInt {
    open spec fn obeys_eq_spec() -> bool {
        true
    }

    open spec fn eq_spec(&self, other: &RangedInt) -> bool {
        self.value_spec() == other.value_spec() && self.min_spec() == other.min_spec()
            && self.max_spec() == other.max_spec()
    }
}

impl core::ops::Add<i32> for RangedInt {
    type Output = RangedInt;

    fn add(self, other: i32) -> (r: RangedInt)
        ensures
            r.value_spec() == add_model(
                self.value_spec(),
                self.min_spec(),
                self.max_spec(),
                other as int,
            ),
            r.min_spec() == self.min_spec(),
            r.max_spec() == self.max_spec(),
    {
        proof {
            use_type_invariant(self);
        }
        self.plus(other)
    }
}

impl vstd::std_specs::ops::AddSpecImpl<i32> for RangedInt {
    open spec fn obeys_add_spec() -> bool {
        true
    }

    open spec fn add_req(self, other: i32) -> bool {
        true
    }

    closed spec fn add_spec(self, other: i32) -> RangedInt {
        RangedInt {
            val: add_model(self.val as int, self._min as int, self._max as int, other as int) as i32,
            _min: self._min,
            _max: self._max,
        }
    }
}

impl core::ops::Sub<i32> for RangedInt {
    type Output = RangedInt;

    fn sub(self, other: i32) -> (r: RangedInt)
        ensures
            r.value_spec() == sub_model(
                self.value_spec(),
                self.min_spec(),
                self.max_spec(),
                other as int,
            ),
            r.min_spec() == self.min_spec(),
            r.max_spec() == self.max_spec(),
    {
        proof {
            use_type_invariant(self);
        }
        self.minus(other)
    }
}

impl vstd::std_specs::ops::SubSpecImpl<i32> for RangedInt {
    open spec fn obeys_sub_spec() -> bool {
        true
    }

    open spec fn sub_req(self, other: i32) -> bool {
        true
    }

    closed spec fn sub_spec(self, other: i32) -> RangedInt {
        RangedInt {
            val: sub_model(self.val as int, self._min as int, self._max as int, other as int) as i32,
            _min: self._min,
            _max: self._max,
        }
    }
}

impl core::ops::AddAssign<i32> for RangedInt {
    fn add_assign(&mut self, other: i32)
        ensures
            final(self).value_spec() == add_model(
                old(self).value_spec(),
                old(self).min_spec(),
                old(self).max_spec(),
                other as int,
            ),
            final(self).min_spec() == old(self).min_spec(),
            final(self).max_spec() == old(self).max_spec(),
    {
        *self = self.plus(other);
    }
}

impl core::ops::SubAssign<i32> for RangedInt {
    fn sub_assign(&mut self, other: i32)
        ensures
            final(self).value_spec() == sub_model(
                old(self).value_spec(),
                old(self).min_spec(),
                old(self).max_spec(),
                other as int,
            ),
            final(self).min_spec() == old(self).min_spec(),
            final(self).max_spec() == old(self).max_spec(),
    {
        *self = self.minus(other);
    }
}

} // verus!
