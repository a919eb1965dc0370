use vstd::prelude::*;

verus! {

/// The backward form of a recorded operation: its local derivative rule.
///
/// An operation captures what its rule needs (the values of its inputs, an
/// intermediate activation) when it is recorded. Given the accumulated gradient
/// of its output, it returns one gradient contribution per input, in the order
/// of the inputs it was recorded with.
pub trait BackwardRecordedOps<T>: Sized {
    /// The contributions for the inputs, given the gradient of the output.
    spec fn spec_step(&self, grad: T) -> Vec<T>;

    fn backward_step(&self, grad: &T) -> (r: Vec<T>)
        ensures
            r@ == self.spec_step(*grad)@,
    ;
}

/// The forward form of a recorded operation, as it is attached to the node it
/// produced. The graph converter asks it, once, for its backward form.
pub trait ForwardRecordedOps<T, B: BackwardRecordedOps<T>> {
    /// The backward form of this operation.
    fn to_backward(&self) -> B;
}

/// What the traversal reads of an operation that produced an input of
/// another: its creation order and the identities of its own parents.
pub trait RecordedOpsParent {
    spec fn spec_order(&self) -> usize;

    spec fn spec_parents(&self) -> Seq<usize>;

    fn order(&self) -> (r: usize)
        ensures
            r == self.spec_order(),
    ;

    /// The identity of the node the operation produced, which is its order.
    fn id(&self) -> (r: usize)
        ensures
            r == self.spec_order(),
    ;

    fn backward_parents(&self) -> (r: Vec<usize>)
        ensures
            r@ == self.spec_parents(),
    ;
}

/// The states that a unary operation's rule reads: its input and its output.
#[derive(Clone, Debug)]
pub struct UnaryOpsNodeState<In, Out> {
    pub input: In,
    pub output: Out,
}

impl<In, Out> UnaryOpsNodeState<In, Out> {
    pub fn new(input: In, output: Out) -> (r: Self)
        ensures
            r.input == input,
            r.output == output,
    {
        UnaryOpsNodeState { input, output }
    }
}

/// The states that a binary operation's rule reads: both inputs and its output.
#[derive(Clone, Debug)]
pub struct BinaryOpsNodeState<Lhs, Rhs, Out> {
    pub left: Lhs,
    pub right: Rhs,
    pub output: Out,
}

impl<Lhs, Rhs, Out> BinaryOpsNodeState<Lhs, Rhs, Out> {
    pub fn new(left: Lhs, right: Rhs, output: Out) -> (r: Self)
        ensures
            r.left == left,
            r.right == right,
            r.output == output,
    {
        BinaryOpsNodeState { left, right, output }
    }
}

} // verus!
