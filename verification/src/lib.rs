//! An N-dimensional generalization of a region quadtree: a tree with 2^N
//! children per node, where N is the number of dimensions. A quadtree is the
//! two-dimensional case, an octree the three-dimensional case.
//!
//! Region geometry is kept in exact dyadic fixed-point form: every center
//! coordinate and half-extent is an `i64` numerator interpreted at a
//! power-of-two scale (the represented value is `numerator / 2^scale`), so
//! halving a region during division is exact and every geometric contract is
//! provable arithmetic rather than floating-point approximation.

mod dyadic;
mod errors;
pub mod tpntree;

pub use dyadic::SCALE_LIMIT;
pub use errors::TpnTreeError;
