//! Evaluation engine of keyframed animation curves: the layout of a curve's
//! sample table and the pipeline of effects that rewrites parts of it.
//!
//! Both are generic over the sample type: the caller supplies the easing of
//! each slot and the effects, and the library decides which slot gets which
//! value, in which order, and which effect sections run.

pub mod fx;
pub mod table;
