use vstd::prelude::*;

pub mod value;
pub mod grads;
pub mod ops;
pub mod converter;
pub mod tape;
pub mod nn;
pub mod logger;
pub mod param;
pub mod tensor;
pub mod optim;

verus! {

} // verus!
