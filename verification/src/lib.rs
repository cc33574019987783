//! An approximate gravitational N-body engine built on the Barnes-Hut method.
//!
//! Bodies are organized into an adaptive spatial quadtree so that far-away
//! clusters of mass can be treated as single aggregate point-masses. The crate
//! provides the arena-backed quadtree, quadrant classification, bottom-up
//! center-of-mass aggregation, an opening-angle force evaluator, and the
//! per-step simulation loop. All coordinates, masses and configuration values
//! are fixed-point integers; the choice of scale is left to the caller.

mod arena;
mod geom;
mod num;
mod quadtree;
mod simulation;
mod treemath;

pub use arena::Arena;
pub use geom::{Quadrant, Rect, Vec2, in_rect, quadrant_rect, root_rect, child_center_x, child_center_y};
pub use num::{clamp_i64, div_trunc, sqrt_floor};
pub use quadtree::{
    depth_bounded, preorder_rects, ContinueTraverse, ElementKey, NodeKey, Positioned, Quadtree,
    QuadtreeChild, QuadtreeError, QuadtreeNode, QuadtreeVisitor, RectCollector, TreeData,
    EXTENT_LIMIT, MAX_DEPTH,
};
pub use simulation::{
    Body, Pseudobody, QuadtreeBody, Rgba, Simulation, BODY_LIMIT, GRAV_LIMIT, MASS_SUM_LIMIT,
    SOFT_LIMIT, THETA_LIMIT, THETA_ONE,
};
