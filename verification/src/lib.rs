//! A multi-resolution spatial index over a bounded n-dimensional domain,
//! accumulating a kernel-weighted density estimate from a stream of points.
//!
//! The pyramid owns one layer per resolution level, from a single root bin
//! covering the whole domain down to a `2^L`-per-axis grid. Each finer bin is
//! linked under *every* coarser bin whose support region contains it, so the
//! node graph is a lattice (a DAG with multiple parents), not a tree. Point
//! insertion walks that lattice level by level and deposits a linear-kernel
//! contribution into every bin whose support region contains the point.
//!
//! All arithmetic is exact: coordinates are integers (callers pick the unit),
//! bin positions are rationals stored as numerators over a per-layer common
//! denominator, and accumulated values are fixed-point with scale
//! [`WEIGHT_ONE`], saturating at [`VAL_CAP`].

use vstd::prelude::*;

mod math;
mod node;
mod layer;
mod pyramid;
mod laws;

pub use pyramid::Pyramid;
pub use pyramid::params_ok;
pub use pyramid::supported_params;
pub use pyramid::norm;
pub use pyramid::norm_sq_spec;
pub use pyramid::same_shape;
pub use pyramid::same_structure;
pub use laws::cleared;
pub use laws::obs_eq;
pub use laws::lemma_layer_shape;
pub use laws::lemma_clear_idempotent;
pub use laws::lemma_walk_ignores_values;
pub use laws::lemma_norm_symmetric;
pub use laws::lemma_norm_self_zero;

pub use pyramid::max_levels;
pub use pyramid::ext_num;
pub use pyramid::node_pos_num;
pub use pyramid::grid_digit;

pub use layer::Layer;
pub use layer::diff_layer;
pub use layer::layer_den;

pub use math::pow2;
pub use math::pow_nat;
pub use math::log2;
pub use math::is_pow2;

pub use node::Node;
pub use node::inside_spec;
pub use node::weight_spec;
pub use node::sat_add_val;

verus! {

/// Fixed-point scale of kernel weights and accumulated bin values: a point
/// sitting exactly on a bin's position contributes `WEIGHT_ONE` to that bin.
pub const WEIGHT_ONE: i64 = 1048576;

/// Accumulated bin values saturate here instead of overflowing.
pub const VAL_CAP: i64 = 1099511627776;

/// The squared-distance accumulator of `norm` saturates here.
pub const NORM_CAP: i128 = 85070591730234615865843651857942052864;

/// Largest magnitude allowed for a domain limit.
pub const LIM_MAX: i64 = 1099511627776;

/// Largest per-axis bin count (a power of two); keeps the finest grid's node
/// count within the address space on every supported word size.
pub const NB_MAX: usize = 128;

/// Largest per-layer denominator: `NB_MAX + 1`.
pub const DEN_MAX: i64 = 129;

/// Largest number of axes supported.
pub const DIM_MAX: usize = 4;

} // verus!
