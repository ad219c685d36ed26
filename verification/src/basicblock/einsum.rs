//! Sums of products of tensors, written as an equation over their dimensions.
use vstd::prelude::*;

verus! {

/// An operation such as `"ij,jk->ik"`: the letters before the arrow name the dimensions of each
/// input, those after it the dimensions of the output, and the output sums over the others.
#[derive(Debug)]
pub struct Einsum {
    pub equation: String,
}

} // verus!
