use vstd::prelude::*;

pub mod binding;
pub mod commitments;
pub mod dense;
pub mod eq;
pub mod identity;
pub mod random;
pub mod scalar;
pub mod tensor;

verus! {

} // verus!
