//! Associative memories over bit-parallel codes: a self-organising context
//! map driven by covariance-weighted selection, and a context space that
//! learns bit-level rewriting rules for geometric transformations.

pub mod diffspace;
pub mod bits;
pub mod context;
pub mod context_space;
mod draw;
pub mod fraction;
pub mod information;
pub mod line_shift;
pub mod luma_image;
pub mod rule;
pub mod transformation;
pub mod transformations;

pub use diffspace::bitvector::BitVector;
pub use context::Context;
pub use context_space::ContextSpace;
pub use fraction::Fraction;
pub use information::{Information, InformationError};
pub use luma_image::LumaImage;
pub use rule::Rule;
pub use transformation::Transformation;
pub use transformations::build_transformations;
