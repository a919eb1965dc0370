use vstd::prelude::*;

verus! {

/// A value that the rectified linear unit can be applied to.
pub trait ReluValue: Sized {
    /// Whether `r` is `max(0, x)` of `self`, element by element, in the
    /// shape of `self`.
    spec fn is_relu(&self, r: &Self) -> bool;

    fn relu(&self) -> (r: Self)
        ensures
            self.is_relu(&r),
    ;
}

/// `max(0, x)` of one element.
pub open spec fn relu_of(x: i64) -> i64 {
    if x < 0 {
        0
    } else {
        x
    }
}

impl ReluValue for i64 {
    open spec fn is_relu(&self, r: &i64) -> bool {
        *r == relu_of(*self)
    }

    fn relu(&self) -> (r: i64) {
        if *self < 0 {
            0
        } else {
            *self
        }
    }
}

/// Applies the rectified linear unit function element-wise: `y = max(0, x)`.
#[derive(Clone, Copy, Debug, Default)]
pub struct ReLU {}

impl ReLU {
    /// Creates the module; it has no configuration.
    pub fn new() -> (r: Self)
        ensures
            r == (ReLU {}),
    {
        ReLU {}
    }

    /// Applies the forward pass on the input; the output has the input's shape.
    pub fn forward<T: ReluValue>(&self, input: &T) -> (r: T)
        ensures
            input.is_relu(&r),
    {
        input.relu()
    }
}

} // verus!
