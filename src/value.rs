use vstd::prelude::*;

verus! {

/// A value that gradients are made of: a tensor of some backend, or a scalar.
///
/// The engine never looks inside a value. It sums two gradients that reach
/// the same node, asks the value of the terminal node for the seed gradient
/// (the identity element of differentiation, "ones" in the value's shape), and
/// copies a gradient where it hands one out.
pub trait GradValue: Sized {
    /// The sum of two gradients.
    spec fn spec_add(self, other: Self) -> Self;

    /// The seed gradient for a node holding this value.
    spec fn spec_ones(self) -> Self;

    fn add(&self, other: &Self) -> (r: Self)
        ensures
            r == self.spec_add(*other),
    ;

    fn ones_like(&self) -> (r: Self)
        ensures
            r == self.spec_ones(),
    ;

    /// A copy of this value.
    fn duplicate(&self) -> (r: Self)
        ensures
            r == *self,
    ;
}

} // verus!
