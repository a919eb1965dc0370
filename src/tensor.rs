use vstd::prelude::*;
use crate::nn::{ReluValue, relu_of};

verus! {

/// The number of elements of a tensor of shape `shape`.
pub open spec fn shape_size(shape: Seq<usize>) -> int
    decreases shape.len(),
{
    if shape.len() == 0 {
        1
    } else {
        shape_size(shape.drop_last()) * shape.last()
    }
}

proof fn lemma_shape_size_nonneg(shape: Seq<usize>)
    ensures
        shape_size(shape) >= 0,
    decreases shape.len(),
{
    if shape.len() > 0 {
        lemma_shape_size_nonneg(shape.drop_last());
        vstd::arithmetic::mul::lemma_mul_nonnegative(shape_size(shape.drop_last()), shape.last() as int);
    }
}

/// With no zero dimension, a shape has at least as many elements as any prefix of it.
proof fn lemma_prefix_le(shape: Seq<usize>, j: int)
    requires
        0 <= j <= shape.len(),
        forall|k: int| 0 <= k < shape.len() ==> #[trigger] shape[k] >= 1,
    ensures
        shape_size(shape.subrange(0, j)) <= shape_size(shape),
    decreases shape.len(),
{
    lemma_shape_size_nonneg(shape);
    if j < shape.len() {
        let d = shape.drop_last();
        assert(d.subrange(0, j) =~= shape.subrange(0, j));
        lemma_prefix_le(d, j);
        lemma_shape_size_nonneg(d);
        let a = shape_size(d);
        let b = shape.last() as int;
        assert(a <= a * b) by (nonlinear_arith)
            requires
                a >= 0,
                b >= 1,
        ;
    } else {
        assert(shape.subrange(0, j) =~= shape);
    }
}

/// A shape with a zero dimension has no elements.
proof fn lemma_zero_dim(shape: Seq<usize>, k: int)
    requires
        0 <= k < shape.len(),
        shape[k] == 0,
    ensures
        shape_size(shape) == 0,
    decreases shape.len(),
{
    let a = shape_size(shape.drop_last());
    let b = shape.last() as int;
    if k < shape.len() - 1 {
        lemma_zero_dim(shape.drop_last(), k);
        assert(a * b == 0) by (nonlinear_arith)
            requires
                a == 0,
        ;
    } else {
        assert(a * b == 0) by (nonlinear_arith)
            requires
                b == 0,
        ;
    }
}

/// The number of elements of a tensor of shape `shape`, where it fits in a `usize`.
pub fn num_elements(shape: &Vec<usize>) -> (r: Option<usize>)
    ensures
        r is Some <==> shape_size(shape@) <= usize::MAX,
        r is Some ==> r->Some_0 == shape_size(shape@),
{
    let mut z: usize = 0;
    while z < shape.len()
        invariant
            z <= shape@.len(),
            forall|k: int| 0 <= k < z ==> #[trigger] shape@[k] >= 1,
        decreases shape@.len() - z,
    {
        if shape[z] == 0 {
            proof {
                lemma_zero_dim(shape@, z as int);
            }
            return Some(0);
        }
        z = z + 1;
    }
    let mut n: usize = 1;
    let mut i: usize = 0;
    assert(shape@.subrange(0, 0) =~= Seq::<usize>::empty());
    while i < shape.len()
        invariant
            i <= shape@.len(),
            forall|k: int| 0 <= k < shape@.len() ==> #[trigger] shape@[k] >= 1,
            n == shape_size(shape@.subrange(0, i as int)),
        decreases shape@.len() - i,
    {
        assert(shape@.subrange(0, i + 1).drop_last() =~= shape@.subrange(0, i as int));
        match n.checked_mul(shape[i]) {
            Some(m) => {
                n = m;
            },
            None => {
                proof {
                    lemma_prefix_le(shape@, i + 1);
                }
                return None;
            },
        }
        i = i + 1;
    }
    assert(shape@.subrange(0, shape@.len() as int) =~= shape@);
    Some(n)
}

/// The elements of a tensor, in row-major order, with its shape.
#[derive(Debug, PartialEq)]
pub struct TensorData<E> {
    value: Vec<E>,
    shape: Vec<usize>,
}

impl<E> TensorData<E> {
    /// The elements, in row-major order.
    pub closed spec fn elements(&self) -> Seq<E> {
        self.value@
    }

    /// The shape.
    pub closed spec fn dims(&self) -> Seq<usize> {
        self.shape@
    }

    /// As many elements as the shape has room for.
    pub closed spec fn wf(&self) -> bool {
        self.value@.len() == shape_size(self.shape@)
    }

    /// The tensor of shape `shape` with elements `value`; none where their
    /// numbers differ.
    pub fn new(value: Vec<E>, shape: Vec<usize>) -> (r: Option<Self>)
        ensures
            r is Some <==> value@.len() == shape_size(shape@),
            r is Some ==> r->Some_0.wf() && r->Some_0.elements() == value@ && r->Some_0.dims() == shape@,
    {
        let len = value.len();
        match num_elements(&shape) {
            Some(n) => {
                if n == len {
                    Some(TensorData { value, shape })
                } else {
                    None
                }
            },
            None => {
                None
            },
        }
    }

    /// The same elements under the shape `shape`; none where it does not
    /// hold as many.
    pub fn reshape(self, shape: Vec<usize>) -> (r: Option<Self>)
        requires
            self.wf(),
        ensures
            r is Some <==> shape_size(shape@) == shape_size(self.dims()),
            r is Some ==> r->Some_0.wf() && r->Some_0.elements() == self.elements() && r->Some_0.dims() == shape@,
    {
        TensorData::new(self.value, shape)
    }

    /// The shape.
    pub fn shape(&self) -> (r: &Vec<usize>)
        ensures
            r@ == self.dims(),
    {
        &self.shape
    }
}

impl ReluValue for TensorData<i64> {
    closed spec fn is_relu(&self, r: &TensorData<i64>) -> bool {
        &&& r.shape@ == self.shape@
        &&& r.value@ == self.value@.map_values(|x: i64| relu_of(x))
    }

    fn relu(&self) -> (r: TensorData<i64>) {
        let mut value: Vec<i64> = Vec::new();
        let mut i: usize = 0;
        while i < self.value.len()
            invariant
                i <= self.value@.len(),
                value@ == self.value@.subrange(0, i as int).map_values(|x: i64| relu_of(x)),
            decreases self.value@.len() - i,
        {
            value.push(self.value[i].relu());
            i = i + 1;
            assert(value@ =~= self.value@.subrange(0, i as int).map_values(|x: i64| relu_of(x)));
        }
        assert(self.value@.subrange(0, i as int) =~= self.value@);
        let mut shape: Vec<usize> = Vec::new();
        let mut j: usize = 0;
        while j < self.shape.len()
            invariant
                j <= self.shape@.len(),
                shape@ == self.shape@.subrange(0, j as int),
            decreases self.shape@.len() - j,
        {
            shape.push(self.shape[j]);
            j = j + 1;
            assert(shape@ =~= self.shape@.subrange(0, j as int));
        }
        assert(shape@ =~= self.shape@);
        TensorData { value, shape }
    }
}

impl TensorData<i64> {
    /// `r` is `max(0, x)` of `self`, element by element, with the same shape.
    pub proof fn relu_keeps_shape(&self, r: &TensorData<i64>)
        requires
            self.is_relu(r),
        ensures
            r.dims() == self.dims(),
            r.elements() == self.elements().map_values(|x: i64| relu_of(x)),
    {
    }
}

} // verus!
