//! A spatial index over fixed-point 3-D coordinates.
//!
//! An [`Octree`](octree::Octree) organizes a set of point indices into a
//! bounded hierarchy of cubical regions: each region either stores point
//! indices directly (a leaf) or owns exactly eight child regions, one per
//! octant.  On top of that hierarchy the crate offers triangulated geometry
//! emission for every leaf cube, a node count, and sphere range queries.

mod geom;
mod laws;
mod octree;

pub use geom::{
    clamp_i64, cube_bounded, cube_dist_sq, cube_touches_sphere, clamped, dist_sq, in_cube,
    in_sphere, sphere_covers_cube, Vec3, COORD_LIMIT, GRAY, LEAF_SIZE, UNIT,
};
pub use laws::{
    build_model, halvable, indices_of, lemma_build_deterministic,
    lemma_build_stores_each_insert_once, lemma_count_recurrence, lemma_emission_length,
    lemma_emission_length_unsubdivided, lemma_insert_adds_index, lemma_insert_model_wf,
    lemma_insert_routes_into_cubes, lemma_query_complete, lemma_query_finds_stored_point,
    lemma_query_is_filter, lemma_routing_containment, stored_in_cubes,
};
pub use octree::{
    child_index_of, count, cube_scalars, emission, empty_leaf, hits, insert_model, leaf_count,
    octant_center, point_at, points_of, query_model, wf, NodeState, Octree, StateView, TreeView,
};
