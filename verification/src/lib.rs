//! Attention residuals: a layer reads a learned mixture of the outputs of the layers
//! before it, in place of their plain sum.
//!
//! - [`AttnRes`] attends over the outputs of all layers.
//! - [`BlockAttnRes`] sums the outputs within blocks of layers and attends over the
//!   sums, one layer at a time ([`BlockAttnRes::step`]) or from all outputs at once
//!   ([`BlockAttnRes::forward`]).
//! - [`depth_attend`] is attention over depth with a given query.
//!
//! The tensors are those of burn. [`array`] says what the contracts state of them,
//! and [`tensor`] what they take for granted of burn. [`laws`] holds what is proved
//! of block attention as a whole, and [`locality`] that positions do not mix. [`formula`]
//! has the formulas of one position; [`rowwise`] shows that every position follows them
//! in the arithmetic of its element type, and [`exact`] what they give where nothing is
//! rounded. [`fused`] and [`launch`] divide the same work into chunks of layers,
//! [`fused_block`] takes a step of block attention on that path, [`backward`] is the
//! gradient of attention over depth, and [`graph`] its place among recorded operations.
//!
//! What single results hold is written out in four places: [`elements`] has every element
//! of a result from the elements of the operands, [`keeping`] the shape and the place of a
//! result, [`chunks`] the fused path chunk by chunk, and [`streams`] what a step of block
//! attention reads and leaves, and when an operation is defined.
pub mod array;
pub mod backward;
pub mod block;
pub mod chunks;
pub mod depth;
pub mod elements;
pub mod exact;
pub mod formula;
pub mod fused;
pub mod fused_block;
pub mod graph;
pub mod keeping;
pub mod launch;
pub mod laws;
pub mod locality;
pub mod online;
mod place;
pub mod positions;
pub mod rowwise;
pub mod score;
pub mod streams;
pub mod tensor;

pub use backward::depth_attend_backward_tensor;
pub use block::{BlockAttnRes, BlockAttnState};
pub use depth::{depth_attend, depth_attend_tensor_ad, stack_ad, AttnRes};
pub use fused::{depth_attend_cuda, merge_cuda, source_score_cuda};
pub use graph::depth_attend_autodiff;
pub use score::source_score;
pub use tensor::Tensor;
