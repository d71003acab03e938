use rand::Rng;
use vstd::prelude::*;

verus! {

/// Fixed-point unit: a stored value of `SCALE` stands for 1.0.
pub const SCALE: i64 = 1_000_000;

/// The value `x` held in `i64`, saturated at the type's bounds.
pub open spec fn saturate(x: int) -> i64 {
    if x < i64::MIN {
        i64::MIN
    } else if x > i64::MAX {
        i64::MAX
    } else {
        x as i64
    }
}

/// Absolute value, as a mathematical integer.
pub open spec fn abs(x: int) -> int {
    if x < 0 {
        -x
    } else {
        x
    }
}

/// A scalar together with the half-width of its perturbation band.
#[derive(Clone, Copy, Debug, PartialEq, Eq, Structural)]
pub struct Param {
    /// Working value.
    pub val: i64,
    /// Half-width of the uniform perturbation band; 0 keeps the value fixed.
    pub var: i64,
}

impl Param {
    /// `q` keeps the band of `self` and its value lies within it.
    pub open spec fn admits(self, q: Param) -> bool {
        &&& q.var == self.var
        &&& self.val - abs(self.var as int) <= q.val <= self.val + abs(self.var as int)
    }

    pub fn set(val: i64, var: i64) -> (r: Param)
        ensures
            r.val == val,
            r.var == var,
    {
        Param { val, var }
    }

    /// The parameter moved by `offset`, which must lie within the band;
    /// the value saturates at the bounds of `i64`.
    pub fn perturb(&self, offset: i128) -> (r: Param)
        requires
            -abs(self.var as int) <= offset <= abs(self.var as int),
        ensures
            r.var == self.var,
            r.val == saturate(self.val + offset),
            self.admits(r),
    {
        let x: i128 = self.val as i128 + offset;
        let v: i64 = if x < i64::MIN as i128 {
            i64::MIN
        } else if x > i64::MAX as i128 {
            i64::MAX
        } else {
            x as i64
        };
        Param { val: v, var: self.var }
    }

    /// A fresh parameter whose value is drawn uniformly from the band
    /// `[val - |var|, val + |var|]`; with `var == 0` the parameter itself.
    pub fn randomize(&self) -> (r: Param)
        ensures
            self.admits(r),
            self.var == 0 ==> r == *self,
    {
        if self.var == 0 {
            *self
        } else {
            let half: i128 = if self.var < 0 {
                -(self.var as i128)
            } else {
                self.var as i128
            };
            let d = uniform_offset(half);
            self.perturb(d)
        }
    }
}

/// Relies on rand's `Rng::gen_range` over `thread_rng()`: an inclusive,
/// non-empty range yields a value inside it.
#[verifier::external_body]
fn uniform_offset(half: i128) -> (r: i128)
    requires
        half >= 0,
    ensures
        -half <= r <= half,
{
    rand::thread_rng().gen_range(-half..=half)
}

} // verus!
