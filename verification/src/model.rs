//! The tensors of models: how they are stored, made and read off.
use vstd::prelude::*;

pub mod bench;
pub mod decode;
pub mod gpt2;
pub mod llama;
pub mod meaning;
pub mod nanogpt;
pub mod random;
pub mod stored;
pub mod tensor;

verus! {

} // verus!
