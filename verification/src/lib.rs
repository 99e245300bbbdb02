//! A typed-value pipeline engine: a closed set of numeric value kinds, each with
//! its own validity rule, flows through an ordered sequence of transformation
//! stages, and the run stops at the first stage that fails.
//!
//! The library has three layers. The values ([`FlameType`]) are angles,
//! vectors, bounded numbers, integers and truth values. A stage
//! ([`Transform`]) turns a value into a new one or fails; [`IdentityTransform`]
//! and [`ScaleTransform`] are the two stages that come with the library. A
//! [`Pipeline`] owns a list of stages and runs them in order on one value.
//! [`FlameIR`] is an append-only record for the front end of a compiler.
//!
//! Numbers are IEEE 754 binary64 numbers, held by their bit patterns
//! ([`Real`]). Every operation on them is carried out on integers: a finite
//! number is counted in units of 2^-1074, in which every one of them is
//! whole, and results that need rounding are rounded to nearest, ties to
//! even.

pub mod convert;
pub mod decimal;
pub mod digits;
pub mod error;
pub mod euclid;
pub mod fields;
pub mod ir;
pub mod multiply;
pub mod number;
pub mod pipeline;
pub mod remainder;
pub mod rounding;
pub mod text;
pub mod transform;
pub mod value;

pub use crate::error::FlameError;
pub use crate::ir::FlameIR;
pub use crate::number::Real;
pub use crate::pipeline::Pipeline;
pub use crate::transform::{IdentityTransform, ScaleTransform, Transform};
pub use crate::value::FlameType;
