//! The discrete core of a Monte Carlo path tracer: how the bounding volume
//! hierarchy is split and walked, how a flat scene picks its nearest hit,
//! when a light path stops, and how a mesh's index buffer becomes triangles.
//!
//! Geometry and radiance are the caller's. They reach this crate as plain
//! values and closures: an order key per axis for each primitive's bound,
//! an order key for each hit distance, a test of a ray against a bound and
//! a test of a ray against a primitive.

mod agreement;
mod bvh;
mod mesh;
mod order;
mod path;
mod scene;

pub use agreement::{
    least_distance, lemma_built_hierarchy_agrees_with_scan, lemma_hierarchy_agrees_with_scan,
    lemma_merged_bounds_keep_hits, lemma_scan_is_least,
};
pub use bvh::{
    index_range, lemma_leaves_in_range, lemma_median_split_height, two_to, Bvh, BvhNode,
};
pub use mesh::{mesh_triangles, vertex_fits};
pub use order::{indexes_into, precedes, separated, sort_on_axis, sorted_on_axis, split_on_axis};
pub use path::{next_bounce, trace_step, Bounce, Radiance, MAX_BOUNCE, MAX_DEPTH};
pub use scene::{answers, distance, nearer, scan, total, Hit, Scene};
