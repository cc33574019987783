//! The N-body simulation: bodies, the positional proxies stored in the
//! quadtree, bottom-up pseudobody aggregation, the opening-angle force
//! evaluator, and the per-step loop.
//!
//! All quantities are fixed-point integers. Masses are nonnegative `i64`
//! values whose total is bounded by `MASS_SUM_LIMIT`; positions live within
//! the tree's root extent; the opening-angle threshold is measured in units
//! of `THETA_ONE`.

use vstd::prelude::*;

use crate::arena::Arena;
use crate::geom::{in_rect, Vec2};
use crate::num::{clamp_i64, div_trunc, sqrt_floor};
use crate::quadtree::{
    blocks_ok,
    block_ok,
    spec_insert,
    is_leaf,
    is_twig,
    leaf_elem,
    node_geom_ok,
    node_of,
    slot_full,
    tree_wf,
    twig_block,
    Positioned,
    Quadtree,
    QuadtreeChild,
    QuadtreeError,
    QuadtreeNode,
    TreeData,
};
use crate::treemath::{
    lemma_all_reachable,
    lemma_sum_range_congruent,
    lemma_region_nested,
    lemma_root_elems_complete,
    lemma_subtree_elems_nodup,
    lemma_sum_bounded,
    lemma_sum_complete,
    lemma_sum_concat,
    subtree_elems,
    sum_over,
    sum_range,
};

verus! {

/// Bound on the sum of all body masses.
pub const MASS_SUM_LIMIT: i64 = 0x4_0000_0000_0000;

/// Bound on the number of bodies.
pub const BODY_LIMIT: usize = 0x10_0000;

/// Bound on the gravitational constant.
pub const GRAV_LIMIT: i64 = 0x100_0000_0000;

/// Bound on the softening term (added to squared distances).
pub const SOFT_LIMIT: i64 = 0x1000_0000_0000_0000;

/// Bound on the opening-angle threshold.
pub const THETA_LIMIT: i64 = 0x100_0000_0000;

/// Fixed-point scale of the opening-angle threshold: a threshold of
/// `THETA_ONE` means "approximate when the region size is smaller than the
/// distance".
pub const THETA_ONE: i64 = 65536;

/// A display color, carried through for the renderer.
#[derive(Clone, Copy, Debug, PartialEq, Eq, Structural)]
pub struct Rgba {
    pub r: u8,
    pub g: u8,
    pub b: u8,
    pub a: u8,
}

/// A simulated body. `radius` and `color` are render-only attributes.
#[derive(Clone, Copy, Debug)]
pub struct Body {
    pub position: Vec2,
    pub velocity: Vec2,
    pub mass: i64,
    pub radius: i64,
    pub color: Rgba,
}

impl Body {
    /// A body from its attributes.
    pub fn new(position: Vec2, velocity: Vec2, mass: i64, radius: i64, color: Rgba) -> (r: Body)
        ensures
            r.position == position,
            r.velocity == velocity,
            r.mass == mass,
            r.radius == radius,
            r.color == color,
    {
        Body { position, velocity, mass, radius, color }
    }

    /// The body's display color.
    pub fn color(&self) -> (r: Rgba)
        ensures
            r == self.color,
    {
        self.color
    }

    /// The body's display radius.
    pub fn radius(&self) -> (r: i64)
        ensures
            r == self.radius,
    {
        self.radius
    }
}

/// Aggregate point-mass standing in for a subtree: total mass and
/// mass-weighted centroid.
#[derive(Clone, Copy, Debug, PartialEq, Eq, Structural)]
pub struct Pseudobody {
    pub position: Vec2,
    pub mass: i64,
}

impl Pseudobody {
    /// A pseudobody from centroid and mass.
    pub fn new(position: Vec2, mass: i64) -> (r: Pseudobody)
        ensures
            r.position == position,
            r.mass == mass,
    {
        Pseudobody { position, mass }
    }
}

impl Default for Pseudobody {
    /// The empty aggregate: mass zero at the origin. Never used as a force
    /// source without checking `mass > 0`.
    fn default() -> (r: Pseudobody)
        ensures
            r == (Pseudobody { position: Vec2 { x: 0, y: 0 }, mass: 0 }),
    {
        Pseudobody { position: Vec2 { x: 0, y: 0 }, mass: 0 }
    }
}

impl TreeData for Pseudobody {
    open spec fn spec_empty_value() -> Pseudobody {
        Pseudobody { position: Vec2 { x: 0, y: 0 }, mass: 0 }
    }

    fn empty_value() -> (r: Pseudobody) {
        Pseudobody { position: Vec2 { x: 0, y: 0 }, mass: 0 }
    }
}

/// The lightweight positional proxy the tree stores for a body: the body's
/// position at rebuild time and the handle of the body it stands for.
#[derive(Clone, Copy, Debug, PartialEq, Eq, Structural)]
pub struct QuadtreeBody {
    pub position: Vec2,
    pub body_key: usize,
}

impl Positioned for QuadtreeBody {
    open spec fn spec_position(&self) -> Vec2 {
        self.position
    }

    fn position(&self) -> (r: Vec2) {
        self.position
    }
}

/// The mass of proxy element `e`, read through its body handle.
pub open spec fn mass_fn(es: Seq<QuadtreeBody>, ms: Seq<i64>) -> spec_fn(int) -> int {
    |e: int| ms[es[e].body_key as int] as int
}

/// Validity of a mass table for a set of proxies: every handle resolves,
/// masses are nonnegative, and they total at most `MASS_SUM_LIMIT`.
pub open spec fn masses_ok(es: Seq<QuadtreeBody>, ms: Seq<i64>) -> bool {
    &&& forall|e: int| 0 <= e < es.len() ==> (#[trigger] es[e].body_key as int) < ms.len()
    &&& forall|k: int| 0 <= k < ms.len() ==> 0 <= #[trigger] ms[k]
    &&& sum_range(es.len() as int, mass_fn(es, ms)) <= MASS_SUM_LIMIT as int
}

/// The aggregate of the subtree at slot `i`: total mass, centroid x,
/// centroid y. A leaf aggregates to its body's own mass and position; a twig
/// sums its children's masses and takes the mass-weighted average of their
/// centroids, truncated toward zero; anything empty aggregates to mass zero
/// at the origin, contributing nothing to its parent.
pub open spec fn spec_agg(
    ns: Seq<Option<QuadtreeNode<Pseudobody>>>,
    es: Seq<QuadtreeBody>,
    ms: Seq<i64>,
    i: int,
) -> (int, int, int)
    decreases ns.len() - i
        when blocks_ok(ns) && 0 <= i < ns.len()
{
    if is_twig(ns, i) {
        let b = twig_block(ns, i);
        let a0 = spec_agg(ns, es, ms, b);
        let a1 = spec_agg(ns, es, ms, b + 1);
        let a2 = spec_agg(ns, es, ms, b + 2);
        let a3 = spec_agg(ns, es, ms, b + 3);
        let m = a0.0 + a1.0 + a2.0 + a3.0;
        if m <= 0 {
            (0, 0, 0)
        } else {
            (
                m,
                div_trunc(a0.0 * a0.1 + a1.0 * a1.1 + a2.0 * a2.1 + a3.0 * a3.1, m),
                div_trunc(a0.0 * a0.2 + a1.0 * a1.2 + a2.0 * a2.2 + a3.0 * a3.2, m),
            )
        }
    } else if is_leaf(ns, i) {
        let e = leaf_elem(ns, i);
        (ms[es[e].body_key as int] as int, es[e].position.x as int, es[e].position.y as int)
    } else {
        (0, 0, 0)
    }
}

/// Truncated division of a weighted sum stays within the weight range.
proof fn lemma_div_trunc_bound(w: int, m: int, x: int)
    requires
        m > 0,
        x >= 0,
        -(m * x) <= w <= m * x,
    ensures
        -x <= div_trunc(w, m) <= x,
{
    if w >= 0 {
        assert(w / m <= x) by (nonlinear_arith)
            requires
                m > 0,
                w <= m * x,
                w >= 0,
        ;
        assert(w / m >= 0) by (nonlinear_arith)
            requires
                m > 0,
                w >= 0,
        ;
    } else {
        assert((-w) / m <= x) by (nonlinear_arith)
            requires
                m > 0,
                -w <= m * x,
                -w >= 0,
        ;
        assert((-w) / m >= 0) by (nonlinear_arith)
            requires
                m > 0,
                -w >= 0,
        ;
    }
}

/// Product bound for a nonnegative weight and a bounded coordinate.
proof fn lemma_prod_bound(m: int, x: int, mm: int, xx: int)
    requires
        0 <= m <= mm,
        -xx <= x <= xx,
        0 <= xx,
    ensures
        -(mm * xx) <= m * x <= mm * xx,
{
    assert(-(mm * xx) <= m * x <= mm * xx) by (nonlinear_arith)
        requires
            0 <= m <= mm,
            -xx <= x <= xx,
            0 <= xx,
    ;
}

/// A stored element's position lies within the root extent.
proof fn lemma_elem_in_bounds(
    ns: Seq<Option<QuadtreeNode<Pseudobody>>>,
    es: Seq<QuadtreeBody>,
    ext0: int,
    l: int,
)
    requires
        tree_wf(ns, es, ext0),
        is_leaf(ns, l),
    ensures
        0 <= leaf_elem(ns, l) < es.len(),
        -ext0 <= es[leaf_elem(ns, l)].position.x as int <= ext0,
        -ext0 <= es[leaf_elem(ns, l)].position.y as int <= ext0,
{
    assert(slot_full(ns, l));
    assert(node_geom_ok(ns, es, ext0, l));
    let e = leaf_elem(ns, l);
    let p = es[e].spec_position();
    assert(in_rect(node_of(ns, l).region@, p));
    lemma_all_reachable(ns, l);
    assert(slot_full(ns, 0)) by {
        if l == 0 {
        } else {
            crate::treemath::lemma_sub_child(ns, 0, l);
        }
    }
    lemma_region_nested(ns, es, ext0, 0, l, p);
    assert(node_of(ns, 0).region@ == crate::geom::root_rect(ext0));
}

/// Aggregate masses are the sums of the member bodies' masses, bounded by
/// the mass budget, and aggregate centroids stay within the root extent.
pub proof fn lemma_agg_mass(
    ns: Seq<Option<QuadtreeNode<Pseudobody>>>,
    es: Seq<QuadtreeBody>,
    ms: Seq<i64>,
    ext0: int,
    i: int,
)
    requires
        tree_wf(ns, es, ext0),
        masses_ok(es, ms),
        0 < ext0,
        0 <= i < ns.len(),
    ensures
        spec_agg(ns, es, ms, i).0 == sum_over(subtree_elems(ns, i), mass_fn(es, ms)),
        0 <= spec_agg(ns, es, ms, i).0 <= MASS_SUM_LIMIT as int,
        -ext0 <= spec_agg(ns, es, ms, i).1 <= ext0,
        -ext0 <= spec_agg(ns, es, ms, i).2 <= ext0,
    decreases ns.len() - i,
{
    lemma_subtree_elems_nodup(ns, es, ext0, i);
    lemma_sum_bounded(subtree_elems(ns, i), es.len() as int, mass_fn(es, ms));
    if is_twig(ns, i) {
        let b = twig_block(ns, i);
        assert(block_ok(ns, i));
        lemma_agg_mass(ns, es, ms, ext0, b);
        lemma_agg_mass(ns, es, ms, ext0, b + 1);
        lemma_agg_mass(ns, es, ms, ext0, b + 2);
        lemma_agg_mass(ns, es, ms, ext0, b + 3);
        let a0 = spec_agg(ns, es, ms, b);
        let a1 = spec_agg(ns, es, ms, b + 1);
        let a2 = spec_agg(ns, es, ms, b + 2);
        let a3 = spec_agg(ns, es, ms, b + 3);
        let d0 = subtree_elems(ns, b);
        let d1 = subtree_elems(ns, b + 1);
        let d2 = subtree_elems(ns, b + 2);
        let d3 = subtree_elems(ns, b + 3);
        let f = mass_fn(es, ms);
        lemma_sum_concat(d0, d1, f);
        lemma_sum_concat(d0 + d1, d2, f);
        lemma_sum_concat(d0 + d1 + d2, d3, f);
        assert(subtree_elems(ns, i) == d0 + d1 + d2 + d3);
        let m = a0.0 + a1.0 + a2.0 + a3.0;
        if m > 0 {
            let w = a0.0 * a0.1 + a1.0 * a1.1 + a2.0 * a2.1 + a3.0 * a3.1;
            assert(a0.0 * a0.1 <= a0.0 * ext0 && -(a0.0 * ext0) <= a0.0 * a0.1)
                by (nonlinear_arith)
                requires
                    a0.0 >= 0,
                    -ext0 <= a0.1 <= ext0,
            ;
            assert(a1.0 * a1.1 <= a1.0 * ext0 && -(a1.0 * ext0) <= a1.0 * a1.1)
                by (nonlinear_arith)
                requires
                    a1.0 >= 0,
                    -ext0 <= a1.1 <= ext0,
            ;
            assert(a2.0 * a2.1 <= a2.0 * ext0 && -(a2.0 * ext0) <= a2.0 * a2.1)
                by (nonlinear_arith)
                requires
                    a2.0 >= 0,
                    -ext0 <= a2.1 <= ext0,
            ;
            assert(a3.0 * a3.1 <= a3.0 * ext0 && -(a3.0 * ext0) <= a3.0 * a3.1)
                by (nonlinear_arith)
                requires
                    a3.0 >= 0,
                    -ext0 <= a3.1 <= ext0,
            ;
            assert((a0.0 + a1.0 + a2.0 + a3.0) * ext0 == a0.0 * ext0 + a1.0 * ext0 + a2.0 * ext0
                + a3.0 * ext0) by (nonlinear_arith);
            lemma_div_trunc_bound(w, m, ext0);
            let wy = a0.0 * a0.2 + a1.0 * a1.2 + a2.0 * a2.2 + a3.0 * a3.2;
            assert(a0.0 * a0.2 <= a0.0 * ext0 && -(a0.0 * ext0) <= a0.0 * a0.2)
                by (nonlinear_arith)
                requires
                    a0.0 >= 0,
                    -ext0 <= a0.2 <= ext0,
            ;
            assert(a1.0 * a1.2 <= a1.0 * ext0 && -(a1.0 * ext0) <= a1.0 * a1.2)
                by (nonlinear_arith)
                requires
                    a1.0 >= 0,
                    -ext0 <= a1.2 <= ext0,
            ;
            assert(a2.0 * a2.2 <= a2.0 * ext0 && -(a2.0 * ext0) <= a2.0 * a2.2)
                by (nonlinear_arith)
                requires
                    a2.0 >= 0,
                    -ext0 <= a2.2 <= ext0,
            ;
            assert(a3.0 * a3.2 <= a3.0 * ext0 && -(a3.0 * ext0) <= a3.0 * a3.2)
                by (nonlinear_arith)
                requires
                    a3.0 >= 0,
                    -ext0 <= a3.2 <= ext0,
            ;
            lemma_div_trunc_bound(wy, m, ext0);
        }
    } else if is_leaf(ns, i) {
        let e = leaf_elem(ns, i);
        assert(subtree_elems(ns, i) == seq![e]);
        assert(seq![e].drop_last() =~= Seq::<int>::empty());
        assert(sum_over(seq![e].drop_last(), mass_fn(es, ms)) == 0);
        lemma_elem_in_bounds(ns, es, ext0, i);
    } else {
        assert(subtree_elems(ns, i) == Seq::<int>::empty());
    }
}

/// Mass conservation: the root aggregate's mass is exactly the sum of all
/// inserted bodies' masses, and every twig's aggregate mass is exactly the
/// sum of its four children's aggregate masses.
pub proof fn lemma_mass_conservation(
    ns: Seq<Option<QuadtreeNode<Pseudobody>>>,
    es: Seq<QuadtreeBody>,
    ms: Seq<i64>,
    ext0: int,
)
    requires
        tree_wf(ns, es, ext0),
        masses_ok(es, ms),
        0 < ext0,
    ensures
        spec_agg(ns, es, ms, 0).0 == sum_range(es.len() as int, mass_fn(es, ms)),
        forall|i: int|
            is_twig(ns, i) ==> #[trigger] spec_agg(ns, es, ms, i).0 == spec_agg(
                ns,
                es,
                ms,
                twig_block(ns, i),
            ).0 + spec_agg(ns, es, ms, twig_block(ns, i) + 1).0 + spec_agg(
                ns,
                es,
                ms,
                twig_block(ns, i) + 2,
            ).0 + spec_agg(ns, es, ms, twig_block(ns, i) + 3).0,
{
    lemma_subtree_elems_nodup(ns, es, ext0, 0);
    lemma_root_elems_complete(ns, es, ext0);
    let s = subtree_elems(ns, 0);
    assert forall|j: int| 0 <= j < s.len() implies 0 <= #[trigger] s[j] < es.len() by {}
    lemma_sum_complete(s, es.len() as int, mass_fn(es, ms));
    lemma_agg_mass(ns, es, ms, ext0, 0);
    assert forall|i: int| is_twig(ns, i) implies #[trigger] spec_agg(ns, es, ms, i).0
        == spec_agg(ns, es, ms, twig_block(ns, i)).0 + spec_agg(
        ns,
        es,
        ms,
        twig_block(ns, i) + 1,
    ).0 + spec_agg(ns, es, ms, twig_block(ns, i) + 2).0 + spec_agg(
        ns,
        es,
        ms,
        twig_block(ns, i) + 3,
    ).0 by {
        let b = twig_block(ns, i);
        assert(block_ok(ns, i));
        lemma_agg_mass(ns, es, ms, ext0, b);
        lemma_agg_mass(ns, es, ms, ext0, b + 1);
        lemma_agg_mass(ns, es, ms, ext0, b + 2);
        lemma_agg_mass(ns, es, ms, ext0, b + 3);
    }
}

/// Centroid correctness: a twig's aggregate centroid is exactly the
/// mass-weighted average of its children's aggregate centroids (truncated
/// toward zero), and an all-empty subtree aggregates to mass zero,
/// contributing nothing to its parent's sums.
pub proof fn lemma_centroid_correctness(
    ns: Seq<Option<QuadtreeNode<Pseudobody>>>,
    es: Seq<QuadtreeBody>,
    ms: Seq<i64>,
    ext0: int,
    i: int,
)
    requires
        tree_wf(ns, es, ext0),
        masses_ok(es, ms),
        0 < ext0,
        is_twig(ns, i),
    ensures
        ({
            let b = twig_block(ns, i);
            let a0 = spec_agg(ns, es, ms, b);
            let a1 = spec_agg(ns, es, ms, b + 1);
            let a2 = spec_agg(ns, es, ms, b + 2);
            let a3 = spec_agg(ns, es, ms, b + 3);
            let m = a0.0 + a1.0 + a2.0 + a3.0;
            &&& (m > 0 ==> spec_agg(ns, es, ms, i) == (
                m,
                div_trunc(a0.0 * a0.1 + a1.0 * a1.1 + a2.0 * a2.1 + a3.0 * a3.1, m),
                div_trunc(a0.0 * a0.2 + a1.0 * a1.2 + a2.0 * a2.2 + a3.0 * a3.2, m),
            ))
            &&& (m == 0 ==> spec_agg(ns, es, ms, i) == (0int, 0int, 0int))
            &&& (subtree_elems(ns, i).len() == 0 ==> spec_agg(ns, es, ms, i) == (
                0int,
                0int,
                0int,
            ))
        }),
{
    let b = twig_block(ns, i);
    assert(block_ok(ns, i));
    lemma_agg_mass(ns, es, ms, ext0, i);
    lemma_agg_mass(ns, es, ms, ext0, b);
    lemma_agg_mass(ns, es, ms, ext0, b + 1);
    lemma_agg_mass(ns, es, ms, ext0, b + 2);
    lemma_agg_mass(ns, es, ms, ext0, b + 3);
    let d0 = subtree_elems(ns, b);
    let d1 = subtree_elems(ns, b + 1);
    let d2 = subtree_elems(ns, b + 2);
    let d3 = subtree_elems(ns, b + 3);
    let f = mass_fn(es, ms);
    lemma_sum_concat(d0, d1, f);
    lemma_sum_concat(d0 + d1, d2, f);
    lemma_sum_concat(d0 + d1 + d2, d3, f);
    assert(subtree_elems(ns, i) == d0 + d1 + d2 + d3);
}

} // verus!

verus! {

/// The node in slot `t` stores exactly its subtree's aggregate.
pub open spec fn agg_stored(
    ns: Seq<Option<QuadtreeNode<Pseudobody>>>,
    es: Seq<QuadtreeBody>,
    ms: Seq<i64>,
    t: int,
) -> bool {
    &&& node_of(ns, t).data.mass as int == spec_agg(ns, es, ms, t).0
    &&& node_of(ns, t).data.position.x as int == spec_agg(ns, es, ms, t).1
    &&& node_of(ns, t).data.position.y as int == spec_agg(ns, es, ms, t).2
}

/// Every twig stores its subtree's aggregate: the state the aggregator
/// establishes and the force evaluator requires.
pub open spec fn aggregated(
    ns: Seq<Option<QuadtreeNode<Pseudobody>>>,
    es: Seq<QuadtreeBody>,
    ms: Seq<i64>,
) -> bool {
    forall|i: int| #[trigger] is_twig(ns, i) ==> agg_stored(ns, es, ms, i)
}

/// Aggregates only depend on the tree's shape, not on stored payloads.
proof fn lemma_same_shape_agg(
    ns1: Seq<Option<QuadtreeNode<Pseudobody>>>,
    ns2: Seq<Option<QuadtreeNode<Pseudobody>>>,
    es: Seq<QuadtreeBody>,
    ms: Seq<i64>,
    i: int,
)
    requires
        blocks_ok(ns1),
        crate::quadtree::same_shape(ns1, ns2),
        0 <= i < ns1.len(),
    ensures
        spec_agg(ns2, es, ms, i) == spec_agg(ns1, es, ms, i),
    decreases ns1.len() - i,
{
    assert(blocks_ok(ns2)) by {
        assert forall|t: int| is_twig(ns2, t) implies block_ok(ns2, t) by {
            assert(crate::quadtree::shape_eq_at(ns1, ns2, t));
            assert(is_twig(ns1, t));
            assert(block_ok(ns1, t));
        }
    }
    assert(crate::quadtree::shape_eq_at(ns1, ns2, i));
    if is_twig(ns1, i) {
        let b = twig_block(ns1, i);
        assert(block_ok(ns1, i));
        lemma_same_shape_agg(ns1, ns2, es, ms, b);
        lemma_same_shape_agg(ns1, ns2, es, ms, b + 1);
        lemma_same_shape_agg(ns1, ns2, es, ms, b + 2);
        lemma_same_shape_agg(ns1, ns2, es, ms, b + 3);
    }
}

impl Quadtree<QuadtreeBody, Pseudobody> {
    /// Read the aggregate of the child subtree at slot `c`: nothing for an
    /// empty slot, the body's own mass and position for a leaf, and the
    /// stored pseudobody for a twig (already final, since the aggregator
    /// works bottom-up).
    fn child_agg(&self, c: usize, masses: &Vec<i64>) -> (r: (i64, i64, i64))
        requires
            self.inv(),
            masses_ok(self.elements_view(), masses@),
            c < self.nodes_view().len(),
            is_twig(self.nodes_view(), c as int) ==> agg_stored(
                self.nodes_view(),
                self.elements_view(),
                masses@,
                c as int,
            ),
        ensures
            ({
                let a = spec_agg(self.nodes_view(), self.elements_view(), masses@, c as int);
                &&& r.0 as int == a.0
                &&& r.1 as int == a.1
                &&& r.2 as int == a.2
                &&& 0 <= r.0 <= MASS_SUM_LIMIT
                &&& -self.spec_extent() <= r.1 as int <= self.spec_extent()
                &&& -self.spec_extent() <= r.2 as int <= self.spec_extent()
            }),
    {
        proof {
            lemma_agg_mass(
                self.nodes_view(),
                self.elements_view(),
                masses@,
                self.spec_extent(),
                c as int,
            );
        }
        let node_opt = *self.nodes().get(c);
        match node_opt {
            None => (0, 0, 0),
            Some(node) => match node.child_key {
                QuadtreeChild::Element(ek) => {
                    proof {
                        assert(is_leaf(self.nodes_view(), c as int));
                        assert(node_geom_ok(
                            self.nodes_view(),
                            self.elements_view(),
                            self.spec_extent(),
                            c as int,
                        ));
                        assert((self.elements_view()[ek.0 as int].body_key as int)
                            < masses@.len());
                    }
                    let qb = *self.elements().get(ek.0);
                    let m = *vstd::slice::slice_index_get(masses.as_slice(), qb.body_key);
                    (m, qb.position.x, qb.position.y)
                },
                QuadtreeChild::Node(_) => {
                    (node.data.mass, node.data.position.x, node.data.position.y)
                },
            },
        }
    }

    /// Bottom-up pseudobody aggregation: after this runs, every twig's
    /// payload holds the total mass of the bodies in its subtree and their
    /// mass-weighted centroid (`spec_agg`), computed with a zero-mass guard
    /// so empty children contribute nothing and no division by zero mass can
    /// occur. The tree's shape is untouched. Must be rerun after each
    /// rebuild and before any force query.
    pub fn compute_aggregates(&mut self, masses: &Vec<i64>)
        requires
            old(self).inv(),
            masses_ok(old(self).elements_view(), masses@),
        ensures
            final(self).inv(),
            final(self).spec_extent() == old(self).spec_extent(),
            final(self).elements_view() == old(self).elements_view(),
            crate::quadtree::same_shape(old(self).nodes_view(), final(self).nodes_view()),
            aggregated(final(self).nodes_view(), final(self).elements_view(), masses@),
    {
        let ghost ns0 = self.nodes_view();
        let ghost es0 = self.elements_view();
        let ghost ext0 = self.spec_extent();
        let ghost ms = masses@;
        let n = self.nodes().len();
        let mut j: usize = n;
        proof {
            assert forall|i: int| 0 <= i < ns0.len() implies #[trigger] crate::quadtree::shape_eq_at(
                ns0,
                ns0,
                i,
            ) by {}
        }
        while j > 0
            invariant
                self.inv(),
                self.spec_extent() == ext0,
                self.elements_view() == es0,
                masses_ok(es0, ms),
                ms == masses@,
                crate::quadtree::same_shape(ns0, self.nodes_view()),
                n == self.nodes_view().len(),
                j <= n,
                forall|t: int|
                    j <= t < n && #[trigger] is_twig(self.nodes_view(), t) ==> agg_stored(
                        self.nodes_view(),
                        es0,
                        ms,
                        t,
                    ),
            decreases j,
        {
            j = j - 1;
            let node_opt = *self.nodes().get(j);
            match node_opt {
                Some(node) => match node.child_key {
                    QuadtreeChild::Node(bk) => {
                        proof {
                            assert(is_twig(self.nodes_view(), j as int));
                            assert(block_ok(self.nodes_view(), j as int));
                        }
                        let b = bk.0;
                        let a0 = self.child_agg(b, masses);
                        let a1 = self.child_agg(b + 1, masses);
                        let a2 = self.child_agg(b + 2, masses);
                        let a3 = self.child_agg(b + 3, masses);
                        let m = a0.0 + a1.0 + a2.0 + a3.0;
                        let ghost ns_at = self.nodes_view();
                        let data: Pseudobody;
                        if m <= 0 {
                            data = Pseudobody::new(Vec2::new(0, 0), 0);
                        } else {
                            proof {
                                lemma_agg_mass(ns_at, es0, ms, ext0, j as int);
                                let mm = MASS_SUM_LIMIT as int;
                                let xx = crate::quadtree::EXTENT_LIMIT as int;
                                lemma_prod_bound(a0.0 as int, a0.1 as int, mm, xx);
                                lemma_prod_bound(a1.0 as int, a1.1 as int, mm, xx);
                                lemma_prod_bound(a2.0 as int, a2.1 as int, mm, xx);
                                lemma_prod_bound(a3.0 as int, a3.1 as int, mm, xx);
                                lemma_prod_bound(a0.0 as int, a0.2 as int, mm, xx);
                                lemma_prod_bound(a1.0 as int, a1.2 as int, mm, xx);
                                lemma_prod_bound(a2.0 as int, a2.2 as int, mm, xx);
                                lemma_prod_bound(a3.0 as int, a3.2 as int, mm, xx);
                            }
                            let wsx = (a0.0 as i128) * (a0.1 as i128) + (a1.0 as i128) * (
                            a1.1 as i128) + (a2.0 as i128) * (a2.1 as i128) + (a3.0 as i128) * (
                            a3.1 as i128);
                            let wsy = (a0.0 as i128) * (a0.2 as i128) + (a1.0 as i128) * (
                            a1.2 as i128) + (a2.0 as i128) * (a2.2 as i128) + (a3.0 as i128) * (
                            a3.2 as i128);
                            let cx = crate::num::div_trunc_i128(wsx, m as i128);
                            let cy = crate::num::div_trunc_i128(wsy, m as i128);
                            data = Pseudobody::new(Vec2::new(cx as i64, cy as i64), m);
                        }
                        self.set_node_data(j, data);
                        proof {
                            let ns_new = self.nodes_view();
                            assert forall|i: int|
                                0 <= i < ns_at.len() implies #[trigger] crate::quadtree::shape_eq_at(
                                ns_at,
                                ns_new,
                                i,
                            ) by {}
                            assert(crate::quadtree::same_shape(ns_at, ns_new));
                            assert forall|i: int|
                                0 <= i < ns0.len() implies #[trigger] crate::quadtree::shape_eq_at(
                                ns0,
                                ns_new,
                                i,
                            ) by {
                                assert(crate::quadtree::shape_eq_at(ns0, ns_at, i));
                                assert(crate::quadtree::shape_eq_at(ns_at, ns_new, i));
                            }
                            assert forall|t: int| 0 <= t < n implies spec_agg(ns_new, es0, ms, t)
                                == spec_agg(ns_at, es0, ms, t) by {
                                lemma_same_shape_agg(ns_at, ns_new, es0, ms, t);
                            }
                            assert forall|t: int|
                                j <= t < n && #[trigger] is_twig(ns_new, t) implies agg_stored(
                                ns_new,
                                es0,
                                ms,
                                t,
                            ) by {
                                if t == j as int {
                                    assert(spec_agg(ns_at, es0, ms, t) == spec_agg(
                                        ns_new,
                                        es0,
                                        ms,
                                        t,
                                    ));
                                } else {
                                    assert(is_twig(ns_at, t)) by {
                                        assert(crate::quadtree::shape_eq_at(ns_at, ns_new, t));
                                    }
                                    assert(agg_stored(ns_at, es0, ms, t));
                                    assert(node_of(ns_new, t).data == node_of(ns_at, t).data);
                                }
                            }
                        }
                    },
                    QuadtreeChild::Element(_) => {
                        proof {
                            assert forall|t: int|
                                j <= t < n && #[trigger] is_twig(self.nodes_view(), t) implies
                                agg_stored(self.nodes_view(), es0, ms, t) by {}
                        }
                    },
                },
                None => {
                    proof {
                        assert forall|t: int|
                            j <= t < n && #[trigger] is_twig(self.nodes_view(), t) implies
                            agg_stored(self.nodes_view(), es0, ms, t) by {}
                    }
                },
            }
        }
    }
}

} // verus!

verus! {

/// Square bound.
proof fn lemma_sq_bound(x: int, xx: int)
    requires
        -xx <= x <= xx,
        0 <= xx,
    ensures
        0 <= x * x <= xx * xx,
{
    assert(0 <= x * x <= xx * xx) by (nonlinear_arith)
        requires
            -xx <= x <= xx,
            0 <= xx,
    ;
}

/// The square root of a positive number is at least one.
proof fn lemma_sqrt_pos(n: int)
    requires
        n >= 1,
    ensures
        sqrt_floor(n) >= 1,
{
    crate::num::lemma_sqrt_floor(n);
    let s = sqrt_floor(n);
    if s == 0 {
        assert(n < (s + 1) * (s + 1));
        assert((0 + 1) * (0 + 1) == 1);
    }
}

/// The square root of a number below a square is below the root.
proof fn lemma_sqrt_below(n: int, bound: int)
    requires
        0 <= n,
        0 < bound,
        n < bound * bound,
    ensures
        sqrt_floor(n) < bound,
{
    crate::num::lemma_sqrt_floor(n);
    let s = sqrt_floor(n);
    if s >= bound {
        assert(bound * bound <= s * s) by (nonlinear_arith)
            requires
                0 < bound <= s,
        ;
    }
}

/// The gravitational acceleration a source point-mass `m` at `(sx, sy)`
/// exerts on a target at `(tx, ty)`: an inverse-square law with a softening
/// term `soft` added to the squared distance (so coincident points produce a
/// finite value), in units scaled by `grav`, truncated toward zero and
/// clamped into `i64` per axis.
pub open spec fn accel_term(
    m: int,
    sx: int,
    sy: int,
    tx: int,
    ty: int,
    soft: int,
    grav: int,
) -> (int, int) {
    let dx = sx - tx;
    let dy = sy - ty;
    let dsq = dx * dx + dy * dy;
    let den = (dsq + soft) * sqrt_floor(dsq + soft);
    (clamp_i64(div_trunc(grav * m * dx, den)), clamp_i64(div_trunc(grav * m * dy, den)))
}

/// The opening test: a region of size `s` at squared distance `dsq` may be
/// approximated by its aggregate when `s / d < theta / THETA_ONE`, with `d`
/// the floor square root of `dsq`.
pub open spec fn approximable(s: int, dsq: int, theta: int) -> bool {
    s * (THETA_ONE as int) < theta * sqrt_floor(dsq)
}

/// The acceleration on the body `tkey` at `(tx, ty)` contributed by the
/// subtree at slot `i`: a leaf of another body contributes its pairwise
/// term, the target's own leaf contributes nothing, and a twig contributes
/// either its aggregate's term (when the opening test allows and its mass is
/// positive — an empty aggregate is never used as a source) or the sum over
/// its four children. As usual for this approximation, an aggregate used as
/// a source may include the target's own mass; with a vanishing threshold no
/// aggregate is ever used and the self-term is always excluded.
pub open spec fn spec_force(
    ns: Seq<Option<QuadtreeNode<Pseudobody>>>,
    es: Seq<QuadtreeBody>,
    ms: Seq<i64>,
    i: int,
    tkey: int,
    tx: int,
    ty: int,
    theta: int,
    soft: int,
    grav: int,
) -> (int, int)
    decreases ns.len() - i
        when blocks_ok(ns) && 0 <= i < ns.len()
{
    if is_twig(ns, i) {
        let a = spec_agg(ns, es, ms, i);
        let dsq = (a.1 - tx) * (a.1 - tx) + (a.2 - ty) * (a.2 - ty);
        if approximable(node_of(ns, i).extent as int, dsq, theta) {
            if a.0 > 0 {
                accel_term(a.0, a.1, a.2, tx, ty, soft, grav)
            } else {
                (0, 0)
            }
        } else {
            let b = twig_block(ns, i);
            let f0 = spec_force(ns, es, ms, b, tkey, tx, ty, theta, soft, grav);
            let f1 = spec_force(ns, es, ms, b + 1, tkey, tx, ty, theta, soft, grav);
            let f2 = spec_force(ns, es, ms, b + 2, tkey, tx, ty, theta, soft, grav);
            let f3 = spec_force(ns, es, ms, b + 3, tkey, tx, ty, theta, soft, grav);
            (f0.0 + f1.0 + f2.0 + f3.0, f0.1 + f1.1 + f2.1 + f3.1)
        }
    } else if is_leaf(ns, i) {
        let e = leaf_elem(ns, i);
        if es[e].body_key as int == tkey {
            (0, 0)
        } else {
            accel_term(
                ms[es[e].body_key as int] as int,
                es[e].position.x as int,
                es[e].position.y as int,
                tx,
                ty,
                soft,
                grav,
            )
        }
    } else {
        (0, 0)
    }
}

/// Per-axis force contributions are bounded per member body (each term is
/// clamped into `i64`).
pub proof fn lemma_force_bound(
    ns: Seq<Option<QuadtreeNode<Pseudobody>>>,
    es: Seq<QuadtreeBody>,
    ms: Seq<i64>,
    ext0: int,
    i: int,
    tkey: int,
    tx: int,
    ty: int,
    theta: int,
    soft: int,
    grav: int,
)
    requires
        tree_wf(ns, es, ext0),
        masses_ok(es, ms),
        0 < ext0,
        0 <= i < ns.len(),
    ensures
        ({
            let f = spec_force(ns, es, ms, i, tkey, tx, ty, theta, soft, grav);
            let cap = 0x8000_0000_0000_0000 * subtree_elems(ns, i).len();
            -cap <= f.0 <= cap && -cap <= f.1 <= cap
        }),
    decreases ns.len() - i,
{
    let f = spec_force(ns, es, ms, i, tkey, tx, ty, theta, soft, grav);
    let len = subtree_elems(ns, i).len() as int;
    assert(0x8000_0000_0000_0000 * len >= 0) by (nonlinear_arith)
        requires
            len >= 0,
    ;
    if is_twig(ns, i) {
        let a = spec_agg(ns, es, ms, i);
        let dsq = (a.1 - tx) * (a.1 - tx) + (a.2 - ty) * (a.2 - ty);
        let b = twig_block(ns, i);
        assert(block_ok(ns, i));
        if approximable(node_of(ns, i).extent as int, dsq, theta) {
            if a.0 > 0 {
                lemma_agg_mass(ns, es, ms, ext0, i);
                if subtree_elems(ns, i).len() == 0 {
                    assert(subtree_elems(ns, i) =~= Seq::<int>::empty());
                    assert(sum_over(subtree_elems(ns, i), mass_fn(es, ms)) == 0);
                }
                assert(len >= 1);
                assert(0x8000_0000_0000_0000 * len >= 0x8000_0000_0000_0000) by (nonlinear_arith)
                    requires
                        len >= 1,
                ;
            }
        } else {
            lemma_force_bound(ns, es, ms, ext0, b, tkey, tx, ty, theta, soft, grav);
            lemma_force_bound(ns, es, ms, ext0, b + 1, tkey, tx, ty, theta, soft, grav);
            lemma_force_bound(ns, es, ms, ext0, b + 2, tkey, tx, ty, theta, soft, grav);
            lemma_force_bound(ns, es, ms, ext0, b + 3, tkey, tx, ty, theta, soft, grav);
            let d0 = subtree_elems(ns, b);
            let d1 = subtree_elems(ns, b + 1);
            let d2 = subtree_elems(ns, b + 2);
            let d3 = subtree_elems(ns, b + 3);
            assert(subtree_elems(ns, i) == d0 + d1 + d2 + d3);
            assert(subtree_elems(ns, i).len() == d0.len() + d1.len() + d2.len() + d3.len());
            assert(0x8000_0000_0000_0000 * len == 0x8000_0000_0000_0000 * (d0.len() as int)
                + 0x8000_0000_0000_0000 * (d1.len() as int) + 0x8000_0000_0000_0000 * (
            d2.len() as int) + 0x8000_0000_0000_0000 * (d3.len() as int)) by (nonlinear_arith)
                requires
                    len == d0.len() + d1.len() + d2.len() + d3.len(),
            ;
        }
    } else if is_leaf(ns, i) {
        assert(subtree_elems(ns, i) == seq![leaf_elem(ns, i)]);
        assert(len == 1);
    } else {
        assert(subtree_elems(ns, i) == Seq::<int>::empty());
    }
}

/// The pairwise acceleration term of the sources, as per-element weights
/// over the x axis.
pub open spec fn pair_accel_x(
    es: Seq<QuadtreeBody>,
    ms: Seq<i64>,
    tkey: int,
    tx: int,
    ty: int,
    soft: int,
    grav: int,
) -> spec_fn(int) -> int {
    |e: int|
        if es[e].body_key as int == tkey {
            0
        } else {
            accel_term(
                ms[es[e].body_key as int] as int,
                es[e].position.x as int,
                es[e].position.y as int,
                tx,
                ty,
                soft,
                grav,
            ).0
        }
}

/// The pairwise acceleration term of the sources, as per-element weights
/// over the y axis.
pub open spec fn pair_accel_y(
    es: Seq<QuadtreeBody>,
    ms: Seq<i64>,
    tkey: int,
    tx: int,
    ty: int,
    soft: int,
    grav: int,
) -> spec_fn(int) -> int {
    |e: int|
        if es[e].body_key as int == tkey {
            0
        } else {
            accel_term(
                ms[es[e].body_key as int] as int,
                es[e].position.x as int,
                es[e].position.y as int,
                tx,
                ty,
                soft,
                grav,
            ).1
        }
}

/// Opening-angle threshold, vanishing limit: with a zero threshold no
/// subtree is ever approximated, so the evaluator recurses to individual
/// leaves and computes exactly the direct pairwise sum over all stored
/// bodies other than the target.
pub proof fn lemma_theta_zero_brute_force(
    ns: Seq<Option<QuadtreeNode<Pseudobody>>>,
    es: Seq<QuadtreeBody>,
    ms: Seq<i64>,
    ext0: int,
    i: int,
    tkey: int,
    tx: int,
    ty: int,
    soft: int,
    grav: int,
)
    requires
        tree_wf(ns, es, ext0),
        masses_ok(es, ms),
        0 < ext0,
        0 <= i < ns.len(),
    ensures
        spec_force(ns, es, ms, i, tkey, tx, ty, 0, soft, grav).0 == sum_over(
            subtree_elems(ns, i),
            pair_accel_x(es, ms, tkey, tx, ty, soft, grav),
        ),
        spec_force(ns, es, ms, i, tkey, tx, ty, 0, soft, grav).1 == sum_over(
            subtree_elems(ns, i),
            pair_accel_y(es, ms, tkey, tx, ty, soft, grav),
        ),
    decreases ns.len() - i,
{
    let fx = pair_accel_x(es, ms, tkey, tx, ty, soft, grav);
    let fy = pair_accel_y(es, ms, tkey, tx, ty, soft, grav);
    if is_twig(ns, i) {
        let a = spec_agg(ns, es, ms, i);
        let dsq = (a.1 - tx) * (a.1 - tx) + (a.2 - ty) * (a.2 - ty);
        let s = node_of(ns, i).extent as int;
        assert(slot_full(ns, i));
        assert(node_geom_ok(ns, es, ext0, i));
        assert(s >= 0);
        crate::num::lemma_sqrt_floor(dsq);
        assert(!approximable(s, dsq, 0)) by {
            assert(s * (THETA_ONE as int) >= 0) by (nonlinear_arith)
                requires
                    s >= 0,
            ;
        }
        let b = twig_block(ns, i);
        assert(block_ok(ns, i));
        lemma_theta_zero_brute_force(ns, es, ms, ext0, b, tkey, tx, ty, soft, grav);
        lemma_theta_zero_brute_force(ns, es, ms, ext0, b + 1, tkey, tx, ty, soft, grav);
        lemma_theta_zero_brute_force(ns, es, ms, ext0, b + 2, tkey, tx, ty, soft, grav);
        lemma_theta_zero_brute_force(ns, es, ms, ext0, b + 3, tkey, tx, ty, soft, grav);
        let d0 = subtree_elems(ns, b);
        let d1 = subtree_elems(ns, b + 1);
        let d2 = subtree_elems(ns, b + 2);
        let d3 = subtree_elems(ns, b + 3);
        lemma_sum_concat(d0, d1, fx);
        lemma_sum_concat(d0 + d1, d2, fx);
        lemma_sum_concat(d0 + d1 + d2, d3, fx);
        lemma_sum_concat(d0, d1, fy);
        lemma_sum_concat(d0 + d1, d2, fy);
        lemma_sum_concat(d0 + d1 + d2, d3, fy);
        assert(subtree_elems(ns, i) == d0 + d1 + d2 + d3);
    } else if is_leaf(ns, i) {
        let e = leaf_elem(ns, i);
        assert(subtree_elems(ns, i) == seq![e]);
        assert(seq![e].drop_last() =~= Seq::<int>::empty());
        assert(sum_over(seq![e].drop_last(), fx) == 0);
        assert(sum_over(seq![e].drop_last(), fy) == 0);
    } else {
        assert(subtree_elems(ns, i) == Seq::<int>::empty());
    }
}

/// Opening-angle threshold, vanishing limit, stated at the root: with a
/// zero threshold the total equals the direct pairwise summation over every
/// stored body.
pub proof fn lemma_theta_zero_total(
    ns: Seq<Option<QuadtreeNode<Pseudobody>>>,
    es: Seq<QuadtreeBody>,
    ms: Seq<i64>,
    ext0: int,
    tkey: int,
    tx: int,
    ty: int,
    soft: int,
    grav: int,
)
    requires
        tree_wf(ns, es, ext0),
        masses_ok(es, ms),
        0 < ext0,
    ensures
        spec_force(ns, es, ms, 0, tkey, tx, ty, 0, soft, grav).0 == sum_range(
            es.len() as int,
            pair_accel_x(es, ms, tkey, tx, ty, soft, grav),
        ),
        spec_force(ns, es, ms, 0, tkey, tx, ty, 0, soft, grav).1 == sum_range(
            es.len() as int,
            pair_accel_y(es, ms, tkey, tx, ty, soft, grav),
        ),
{
    lemma_theta_zero_brute_force(ns, es, ms, ext0, 0, tkey, tx, ty, soft, grav);
    lemma_subtree_elems_nodup(ns, es, ext0, 0);
    lemma_root_elems_complete(ns, es, ext0);
    let s = subtree_elems(ns, 0);
    lemma_sum_complete(s, es.len() as int, pair_accel_x(es, ms, tkey, tx, ty, soft, grav));
    lemma_sum_complete(s, es.len() as int, pair_accel_y(es, ms, tkey, tx, ty, soft, grav));
}

/// Opening-angle threshold, diverging limit: the opening test is monotone
/// in the threshold, and as soon as the root itself passes it (which any
/// sufficiently large threshold makes happen whenever the target is at
/// positive distance from the root centroid), the evaluator uses the root
/// aggregate alone for the whole force.
pub proof fn lemma_theta_large_root_aggregate(
    ns: Seq<Option<QuadtreeNode<Pseudobody>>>,
    es: Seq<QuadtreeBody>,
    ms: Seq<i64>,
    ext0: int,
    tkey: int,
    tx: int,
    ty: int,
    theta1: int,
    theta2: int,
    soft: int,
    grav: int,
)
    requires
        tree_wf(ns, es, ext0),
        masses_ok(es, ms),
        0 < ext0,
        is_twig(ns, 0),
        0 <= theta1 <= theta2,
    ensures
        ({
            let a = spec_agg(ns, es, ms, 0);
            let dsq = (a.1 - tx) * (a.1 - tx) + (a.2 - ty) * (a.2 - ty);
            &&& (approximable(node_of(ns, 0).extent as int, dsq, theta1) ==> approximable(
                node_of(ns, 0).extent as int,
                dsq,
                theta2,
            ))
            &&& (approximable(node_of(ns, 0).extent as int, dsq, theta2) ==> spec_force(
                ns,
                es,
                ms,
                0,
                tkey,
                tx,
                ty,
                theta2,
                soft,
                grav,
            ) == (if a.0 > 0 {
                accel_term(a.0, a.1, a.2, tx, ty, soft, grav)
            } else {
                (0int, 0int)
            }))
        }),
{
    let a = spec_agg(ns, es, ms, 0);
    let dsq = (a.1 - tx) * (a.1 - tx) + (a.2 - ty) * (a.2 - ty);
    crate::num::lemma_sqrt_floor(dsq);
    assert(theta1 * sqrt_floor(dsq) <= theta2 * sqrt_floor(dsq)) by (nonlinear_arith)
        requires
            0 <= theta1 <= theta2,
            0 <= sqrt_floor(dsq),
    ;
}

} // verus!

verus! {

/// Compute one pairwise (or aggregate) acceleration term.
fn accel_pair(m: i64, sx: i64, sy: i64, tx: i64, ty: i64, softening: i64, gravity: i64) -> (r: (
    i64,
    i64,
))
    requires
        0 <= m <= MASS_SUM_LIMIT,
        -crate::quadtree::EXTENT_LIMIT <= sx <= crate::quadtree::EXTENT_LIMIT,
        -crate::quadtree::EXTENT_LIMIT <= sy <= crate::quadtree::EXTENT_LIMIT,
        -crate::quadtree::EXTENT_LIMIT <= tx <= crate::quadtree::EXTENT_LIMIT,
        -crate::quadtree::EXTENT_LIMIT <= ty <= crate::quadtree::EXTENT_LIMIT,
        1 <= softening <= SOFT_LIMIT,
        0 <= gravity <= GRAV_LIMIT,
    ensures
        ({
            let t = accel_term(
                m as int,
                sx as int,
                sy as int,
                tx as int,
                ty as int,
                softening as int,
                gravity as int,
            );
            r.0 as int == t.0 && r.1 as int == t.1
        }),
{
    let dx: i64 = sx - tx;
    let dy: i64 = sy - ty;
    proof {
        lemma_sq_bound(dx as int, 0x2_0000_0000);
        lemma_sq_bound(dy as int, 0x2_0000_0000);
    }
    let dsq: i128 = (dx as i128) * (dx as i128) + (dy as i128) * (dy as i128);
    let base: i128 = dsq + softening as i128;
    let root_u: u128 = crate::num::isqrt_u128(base as u128);
    proof {
        lemma_sqrt_pos(base as int);
        assert(base < 0x10_0000_0000_0000_0000);
        lemma_sqrt_below(base as int, 0x40_0000_0000);
        assert(base * (root_u as i128) > 0) by (nonlinear_arith)
            requires
                base >= 1,
                root_u as i128 >= 1,
        ;
        assert(base * (root_u as i128) < 0x400_0000_0000_0000_0000_0000_0000) by (
        nonlinear_arith)
            requires
                0 < base < 0x10_0000_0000_0000_0000,
                0 < root_u as i128,
                (root_u as i128) < 0x40_0000_0000,
        ;
        lemma_prod_bound(gravity as int, m as int, GRAV_LIMIT as int, MASS_SUM_LIMIT as int);
        assert((gravity as int) * (m as int) >= 0) by (nonlinear_arith)
            requires
                gravity as int >= 0,
                m as int >= 0,
        ;
        lemma_prod_bound(
            (gravity as int) * (m as int),
            dx as int,
            0x40000000000000000000000,
            0x2_0000_0000,
        );
        lemma_prod_bound(
            (gravity as int) * (m as int),
            dy as int,
            0x40000000000000000000000,
            0x2_0000_0000,
        );
    }
    let root: i128 = root_u as i128;
    let den: i128 = base * root;
    let num_x: i128 = (gravity as i128) * (m as i128) * (dx as i128);
    let num_y: i128 = (gravity as i128) * (m as i128) * (dy as i128);
    let fx = crate::num::clamp_i128_to_i64(crate::num::div_trunc_i128(num_x, den));
    let fy = crate::num::clamp_i128_to_i64(crate::num::div_trunc_i128(num_y, den));
    (fx, fy)
}

impl Quadtree<QuadtreeBody, Pseudobody> {
    /// The force walk from slot `i`, accumulating exactly `spec_force`.
    fn force_from(
        &self,
        i: usize,
        masses: &Vec<i64>,
        target_key: usize,
        tp: Vec2,
        theta: i64,
        softening: i64,
        gravity: i64,
    ) -> (r: (i128, i128))
        requires
            self.inv(),
            masses_ok(self.elements_view(), masses@),
            aggregated(self.nodes_view(), self.elements_view(), masses@),
            i < self.nodes_view().len(),
            self.elements_view().len() <= BODY_LIMIT,
            -crate::quadtree::EXTENT_LIMIT <= tp.x <= crate::quadtree::EXTENT_LIMIT,
            -crate::quadtree::EXTENT_LIMIT <= tp.y <= crate::quadtree::EXTENT_LIMIT,
            0 <= theta <= THETA_LIMIT,
            1 <= softening <= SOFT_LIMIT,
            0 <= gravity <= GRAV_LIMIT,
        ensures
            ({
                let f = spec_force(
                    self.nodes_view(),
                    self.elements_view(),
                    masses@,
                    i as int,
                    target_key as int,
                    tp.x as int,
                    tp.y as int,
                    theta as int,
                    softening as int,
                    gravity as int,
                );
                let cap = 0x8000_0000_0000_0000 * subtree_elems(self.nodes_view(), i as int).len();
                &&& r.0 as int == f.0
                &&& r.1 as int == f.1
                &&& -cap <= r.0 as int <= cap
                &&& -cap <= r.1 as int <= cap
            }),
        decreases self.nodes_view().len() - i,
{
        proof {
            lemma_force_bound(
                self.nodes_view(),
                self.elements_view(),
                masses@,
                self.spec_extent(),
                i as int,
                target_key as int,
                tp.x as int,
                tp.y as int,
                theta as int,
                softening as int,
                gravity as int,
            );
        }
        let node_opt = *self.nodes().get(i);
        match node_opt {
            None => (0, 0),
            Some(node) => match node.child_key {
                QuadtreeChild::Element(ek) => {
                    proof {
                        assert(is_leaf(self.nodes_view(), i as int));
                        assert(node_geom_ok(
                            self.nodes_view(),
                            self.elements_view(),
                            self.spec_extent(),
                            i as int,
                        ));
                        lemma_elem_in_bounds(
                            self.nodes_view(),
                            self.elements_view(),
                            self.spec_extent(),
                            i as int,
                        );
                        lemma_agg_mass(
                            self.nodes_view(),
                            self.elements_view(),
                            masses@,
                            self.spec_extent(),
                            i as int,
                        );
                        assert(subtree_elems(self.nodes_view(), i as int) == seq![
                            leaf_elem(self.nodes_view(), i as int),
                        ]);
                    }
                    let qb = *self.elements().get(ek.0);
                    if qb.body_key == target_key {
                        (0, 0)
                    } else {
                        let m = *vstd::slice::slice_index_get(masses.as_slice(), qb.body_key);
                        proof {
                            let e = leaf_elem(self.nodes_view(), i as int);
                            let elems = subtree_elems(self.nodes_view(), i as int);
                            assert(elems.drop_last() =~= Seq::<int>::empty());
                            assert(sum_over(elems.drop_last(), mass_fn(
                                self.elements_view(),
                                masses@,
                            )) == 0);
                            assert(m as int == sum_over(elems, mass_fn(
                                self.elements_view(),
                                masses@,
                            )));
                            assert(0 <= m <= MASS_SUM_LIMIT);
                        }
                        let t = accel_pair(
                            m,
                            qb.position.x,
                            qb.position.y,
                            tp.x,
                            tp.y,
                            softening,
                            gravity,
                        );
                        (t.0 as i128, t.1 as i128)
                    }
                },
                QuadtreeChild::Node(bk) => {
                    proof {
                        assert(is_twig(self.nodes_view(), i as int));
                        assert(block_ok(self.nodes_view(), i as int));
                        assert(agg_stored(
                            self.nodes_view(),
                            self.elements_view(),
                            masses@,
                            i as int,
                        ));
                        lemma_agg_mass(
                            self.nodes_view(),
                            self.elements_view(),
                            masses@,
                            self.spec_extent(),
                            i as int,
                        );
                    }
                    let a = node.data;
                    let dx: i64 = a.position.x - tp.x;
                    let dy: i64 = a.position.y - tp.y;
                    proof {
                        lemma_sq_bound(dx as int, 0x2_0000_0000);
                        lemma_sq_bound(dy as int, 0x2_0000_0000);
                    }
                    let dsq: i128 = (dx as i128) * (dx as i128) + (dy as i128) * (dy as i128);
                    let d: u128 = crate::num::isqrt_u128(dsq as u128);
                    proof {
                        crate::num::lemma_sqrt_floor(dsq as int);
                        lemma_sqrt_below(dsq as int, 0x40_0000_0000);
                        assert((theta as i128) * (d as i128) <= (THETA_LIMIT as i128) * (
                        0x40_0000_0000 as i128)) by (nonlinear_arith)
                            requires
                                0 <= theta as i128 <= THETA_LIMIT as i128,
                                0 <= d as i128,
                                (d as i128) < 0x40_0000_0000,
                        ;
                        assert(node_geom_ok(
                            self.nodes_view(),
                            self.elements_view(),
                            self.spec_extent(),
                            i as int,
                        ));
                    }
                    let s = node.extent;
                    let lhs: i128 = (s as i128) * (THETA_ONE as i128);
                    let rhs: i128 = (theta as i128) * (d as i128);
                    if lhs < rhs {
                        // Approximate the whole subtree by its aggregate.
                        if a.mass > 0 {
                            let t = accel_pair(
                                a.mass,
                                a.position.x,
                                a.position.y,
                                tp.x,
                                tp.y,
                                softening,
                                gravity,
                            );
                            (t.0 as i128, t.1 as i128)
                        } else {
                            (0, 0)
                        }
                    } else {
                        let b = bk.0;
                        let nlen = self.nodes().len();
                        proof {
                            assert(b + 4 <= nlen);
                        }
                        let f0 = self.force_from(
                            b,
                            masses,
                            target_key,
                            tp,
                            theta,
                            softening,
                            gravity,
                        );
                        let f1 = self.force_from(
                            b + 1,
                            masses,
                            target_key,
                            tp,
                            theta,
                            softening,
                            gravity,
                        );
                        let f2 = self.force_from(
                            b + 2,
                            masses,
                            target_key,
                            tp,
                            theta,
                            softening,
                            gravity,
                        );
                        let f3 = self.force_from(
                            b + 3,
                            masses,
                            target_key,
                            tp,
                            theta,
                            softening,
                            gravity,
                        );
                        proof {
                            let ns = self.nodes_view();
                            let d0 = subtree_elems(ns, b as int);
                            let d1 = subtree_elems(ns, b as int + 1);
                            let d2 = subtree_elems(ns, b as int + 2);
                            let d3 = subtree_elems(ns, b as int + 3);
                            assert(subtree_elems(ns, i as int) == d0 + d1 + d2 + d3);
                            assert(subtree_elems(ns, i as int).len() == d0.len() + d1.len()
                                + d2.len() + d3.len());
                            assert(0x8000_0000_0000_0000 * (subtree_elems(ns, i as int).len() as int)
                                == 0x8000_0000_0000_0000 * (d0.len() as int)
                                + 0x8000_0000_0000_0000 * (d1.len() as int)
                                + 0x8000_0000_0000_0000 * (d2.len() as int)
                                + 0x8000_0000_0000_0000 * (d3.len() as int)) by (nonlinear_arith)
                                requires
                                    subtree_elems(ns, i as int).len() == d0.len() + d1.len()
                                        + d2.len() + d3.len(),
                            ;
                            crate::treemath::lemma_subtree_elems_nodup(
                                ns,
                                self.elements_view(),
                                self.spec_extent(),
                                i as int,
                            );
                            lemma_sum_bounded(
                                subtree_elems(ns, i as int),
                                self.elements_view().len() as int,
                                crate::treemath::one_weight(),
                            );
                        }
                        (f0.0 + f1.0 + f2.0 + f3.0, f0.1 + f1.1 + f2.1 + f3.1)
                    }
                },
            },
        }
    }

    /// Evaluate the Barnes-Hut approximate gravitational acceleration on the
    /// body `target_key` at position `tp`, walking the aggregated tree with
    /// opening-angle threshold `theta` (in units of `THETA_ONE`), softening
    /// term `softening` and gravitational scale `gravity`. Each axis is the
    /// clamped total of exactly the contributions `spec_force` describes.
    pub fn evaluate_force(
        &self,
        masses: &Vec<i64>,
        target_key: usize,
        tp: Vec2,
        theta: i64,
        softening: i64,
        gravity: i64,
    ) -> (r: Vec2)
        requires
            self.inv(),
            masses_ok(self.elements_view(), masses@),
            aggregated(self.nodes_view(), self.elements_view(), masses@),
            self.elements_view().len() <= BODY_LIMIT,
            -crate::quadtree::EXTENT_LIMIT <= tp.x <= crate::quadtree::EXTENT_LIMIT,
            -crate::quadtree::EXTENT_LIMIT <= tp.y <= crate::quadtree::EXTENT_LIMIT,
            0 <= theta <= THETA_LIMIT,
            1 <= softening <= SOFT_LIMIT,
            0 <= gravity <= GRAV_LIMIT,
        ensures
            ({
                let f = spec_force(
                    self.nodes_view(),
                    self.elements_view(),
                    masses@,
                    0,
                    target_key as int,
                    tp.x as int,
                    tp.y as int,
                    theta as int,
                    softening as int,
                    gravity as int,
                );
                r.x as int == clamp_i64(f.0) && r.y as int == clamp_i64(f.1)
            }),
    {
        let f = self.force_from(0, masses, target_key, tp, theta, softening, gravity);
        Vec2 {
            x: crate::num::clamp_i128_to_i64(f.0),
            y: crate::num::clamp_i128_to_i64(f.1),
        }
    }
}

} // verus!

verus! {

/// The masses of a body sequence, in body-handle order.
pub open spec fn sim_masses(bs: Seq<Body>) -> Seq<i64> {
    Seq::new(bs.len(), |k: int| bs[k].mass)
}

/// The mass of body `k`.
pub open spec fn body_mass_fn(bs: Seq<Body>) -> spec_fn(int) -> int {
    |k: int| bs[k].mass as int
}

/// One coordinate of the Euler position update: the position plus velocity
/// times `dt`, with the product and the sum each clamped into `i64`.
pub open spec fn step_coord(p: int, v: int, dt: int) -> int {
    clamp_i64(p + clamp_i64(v * dt))
}

/// A body after the position half of an Euler step: the position moves by
/// the (old) velocity times `dt`; everything else is unchanged.
pub open spec fn integrate_body(b: Body, dt: int) -> Body {
    Body {
        position: Vec2 {
            x: step_coord(b.position.x as int, b.velocity.x as int, dt) as i64,
            y: step_coord(b.position.y as int, b.velocity.y as int, dt) as i64,
        },
        ..b
    }
}

/// The velocity delta of one axis: the force value times `dt`, clamped.
pub open spec fn vel_delta(f: int, dt: int) -> int {
    clamp_i64(clamp_i64(f) * dt)
}

/// Multiply a value by a time step, clamped into `i64`.
fn mul_clamp(v: i64, dt: i64) -> (r: i64)
    ensures
        r as int == clamp_i64((v as int) * (dt as int)),
{
    proof {
        assert(-(0x8000_0000_0000_0000 * 0x8000_0000_0000_0000) <= (v as int) * (dt as int)
            <= 0x8000_0000_0000_0000 * 0x8000_0000_0000_0000) by (nonlinear_arith)
            requires
                -0x8000_0000_0000_0000 <= v as int <= 0x8000_0000_0000_0000,
                -0x8000_0000_0000_0000 <= dt as int <= 0x8000_0000_0000_0000,
        ;
    }
    crate::num::clamp_i128_to_i64((v as i128) * (dt as i128))
}

/// The simulation: the body set, one quadtree of positional proxies keyed
/// back to the bodies, and the force-evaluation configuration.
pub struct Simulation {
    bodies: Arena<Body>,
    quadtree: Quadtree<QuadtreeBody, Pseudobody>,
    pseudobody_threshold: i64,
    softening: i64,
    gravity: i64,
}

impl Simulation {
    /// The stored bodies, for specifications.
    pub closed spec fn bodies_view(self) -> Seq<Body> {
        self.bodies@
    }

    /// The owned quadtree, for specifications.
    pub closed spec fn tree(self) -> Quadtree<QuadtreeBody, Pseudobody> {
        self.quadtree
    }

    /// The opening-angle threshold (in units of `THETA_ONE`).
    pub closed spec fn spec_threshold(self) -> int {
        self.pseudobody_threshold as int
    }

    /// The softening term.
    pub closed spec fn spec_softening(self) -> int {
        self.softening as int
    }

    /// The gravitational scale.
    pub closed spec fn spec_gravity(self) -> int {
        self.gravity as int
    }

    /// Invariant: the tree is well-formed, the body count and total mass are
    /// within budget, and the configuration is within its bounds.
    pub open spec fn inv(self) -> bool {
        &&& self.tree().inv()
        &&& self.bodies_view().len() <= BODY_LIMIT
        &&& forall|k: int|
            0 <= k < self.bodies_view().len() ==> 0 <= #[trigger] self.bodies_view()[k].mass
        &&& sum_range(self.bodies_view().len() as int, body_mass_fn(self.bodies_view()))
            <= MASS_SUM_LIMIT as int
        &&& 0 <= self.spec_threshold() <= THETA_LIMIT as int
        &&& 1 <= self.spec_softening() <= SOFT_LIMIT as int
        &&& 0 <= self.spec_gravity() <= GRAV_LIMIT as int
    }

    /// A simulation over the given bodies with root half-width `extent`,
    /// opening-angle threshold `pseudobody_threshold`, softening term and
    /// gravitational scale. The tree starts empty; `advance` rebuilds it
    /// every step.
    pub fn new(
        bodies: Vec<Body>,
        extent: i64,
        pseudobody_threshold: i64,
        softening: i64,
        gravity: i64,
    ) -> (r: Simulation)
        requires
            0 < extent <= crate::quadtree::EXTENT_LIMIT,
            bodies@.len() <= BODY_LIMIT,
            forall|k: int| 0 <= k < bodies@.len() ==> 0 <= #[trigger] bodies@[k].mass,
            sum_range(bodies@.len() as int, body_mass_fn(bodies@)) <= MASS_SUM_LIMIT as int,
            0 <= pseudobody_threshold <= THETA_LIMIT,
            1 <= softening <= SOFT_LIMIT,
            0 <= gravity <= GRAV_LIMIT,
        ensures
            r.inv(),
            r.bodies_view() == bodies@,
            r.tree().spec_extent() == extent as int,
            r.tree().nodes_view() == seq![None::<QuadtreeNode<Pseudobody>>],
            r.tree().elements_view() == Seq::<QuadtreeBody>::empty(),
            r.spec_threshold() == pseudobody_threshold as int,
            r.spec_softening() == softening as int,
            r.spec_gravity() == gravity as int,
    {
        let n = bodies.len();
        let mut arena: Arena<Body> = Arena::with_capacity(n);
        let mut k: usize = 0;
        while k < n
            invariant
                n == bodies@.len(),
                k <= n,
                arena@ == bodies@.subrange(0, k as int),
            decreases n - k,
        {
            let b = *vstd::slice::slice_index_get(bodies.as_slice(), k);
            arena.insert(b);
            proof {
                assert(arena@ =~= bodies@.subrange(0, k as int + 1));
            }
            k = k + 1;
        }
        proof {
            assert(bodies@.subrange(0, n as int) =~= bodies@);
        }
        Simulation {
            bodies: arena,
            quadtree: Quadtree::new(extent),
            pseudobody_threshold,
            softening,
            gravity,
        }
    }

    /// Read access to the bodies, in handle order. The number of bodies
    /// never changes after construction, so a renderer can size its buffers
    /// once.
    pub fn bodies(&self) -> (r: &Vec<Body>)
        ensures
            r@ == self.bodies_view(),
    {
        self.bodies.values()
    }

    /// Read access to the quadtree, e.g. for a debug overlay.
    pub fn quadtree(&self) -> (r: &Quadtree<QuadtreeBody, Pseudobody>)
        ensures
            *r == self.tree(),
    {
        &self.quadtree
    }

    /// The Barnes-Hut approximate force (as acceleration, per-axis clamped)
    /// on body `body_key` at its current position, evaluated against the
    /// current aggregated tree with the simulation's configuration. `masses`
    /// must be the bodies' masses in handle order, as `advance` builds them.
    pub fn calculate_body_force(&self, masses: &Vec<i64>, body_key: usize) -> (r: Vec2)
        requires
            self.inv(),
            masses@ == sim_masses(self.bodies_view()),
            masses_ok(self.tree().elements_view(), masses@),
            aggregated(self.tree().nodes_view(), self.tree().elements_view(), masses@),
            self.tree().elements_view().len() <= BODY_LIMIT,
            body_key < self.bodies_view().len(),
            -crate::quadtree::EXTENT_LIMIT <= self.bodies_view()[body_key as int].position.x
                <= crate::quadtree::EXTENT_LIMIT,
            -crate::quadtree::EXTENT_LIMIT <= self.bodies_view()[body_key as int].position.y
                <= crate::quadtree::EXTENT_LIMIT,
        ensures
            ({
                let f = spec_force(
                    self.tree().nodes_view(),
                    self.tree().elements_view(),
                    masses@,
                    0,
                    body_key as int,
                    self.bodies_view()[body_key as int].position.x as int,
                    self.bodies_view()[body_key as int].position.y as int,
                    self.spec_threshold(),
                    self.spec_softening(),
                    self.spec_gravity(),
                );
                r.x as int == clamp_i64(f.0) && r.y as int == clamp_i64(f.1)
            }),
    {
        let b = *self.bodies.get(body_key);
        self.quadtree.evaluate_force(
            masses,
            body_key,
            b.position,
            self.pseudobody_threshold,
            self.softening,
            self.gravity,
        )
    }
}

} // verus!

verus! {

/// Fold of proxy insertions over the bodies from index `k` on: the views of
/// a tree rebuilt from the bodies' positions, or the first insertion error.
pub open spec fn spec_rebuild(
    ns: Seq<Option<QuadtreeNode<Pseudobody>>>,
    es: Seq<QuadtreeBody>,
    ext0: int,
    bs: Seq<Body>,
    k: int,
) -> Result<(Seq<Option<QuadtreeNode<Pseudobody>>>, Seq<QuadtreeBody>), QuadtreeError>
    decreases bs.len() - k,
{
    if k < 0 || k >= bs.len() {
        Ok((ns, es))
    } else {
        match spec_insert::<QuadtreeBody, Pseudobody>(ns, es, ext0, bs[k].position) {
            Ok(ns2) => spec_rebuild(
                ns2,
                es.push(QuadtreeBody { position: bs[k].position, body_key: k as usize }),
                ext0,
                bs,
                k + 1,
            ),
            Err(e) => Err(e),
        }
    }
}

impl Simulation {
    /// One Euler step: move every body by its current velocity, clear and
    /// rebuild the tree from the new positions, aggregate pseudobodies
    /// bottom-up, then evaluate the approximate force on every body and fold
    /// it into the velocities for the next step. If any body's new position
    /// cannot be inserted (outside the root extent, or coincident beyond the
    /// depth bound), the step aborts with that error: positions are already
    /// moved, velocities untouched.
    #[verifier::rlimit(60)]
    pub fn advance(&mut self, dt: i64) -> (res: Result<(), QuadtreeError>)
        requires
            old(self).inv(),
            0 <= dt,
        ensures
            final(self).inv(),
            final(self).spec_threshold() == old(self).spec_threshold(),
            final(self).spec_softening() == old(self).spec_softening(),
            final(self).spec_gravity() == old(self).spec_gravity(),
            final(self).tree().spec_extent() == old(self).tree().spec_extent(),
            final(self).bodies_view().len() == old(self).bodies_view().len(),
            forall|k: int|
                0 <= k < old(self).bodies_view().len() ==> {
                    let ob = old(self).bodies_view()[k];
                    let nb = #[trigger] final(self).bodies_view()[k];
                    &&& nb.position == integrate_body(ob, dt as int).position
                    &&& nb.mass == ob.mass
                    &&& nb.radius == ob.radius
                    &&& nb.color == ob.color
                },
            ({
                let moved = Seq::new(
                    old(self).bodies_view().len(),
                    |k: int| integrate_body(old(self).bodies_view()[k], dt as int),
                );
                let reb = spec_rebuild(
                    seq![None::<QuadtreeNode<Pseudobody>>],
                    Seq::<QuadtreeBody>::empty(),
                    old(self).tree().spec_extent(),
                    moved,
                    0,
                );
                match res {
                    Ok(()) => {
                        &&& reb is Ok
                        &&& crate::quadtree::same_shape(
                            reb->Ok_0.0,
                            final(self).tree().nodes_view(),
                        )
                        &&& final(self).tree().elements_view() == reb->Ok_0.1
                        &&& final(self).tree().elements_view().len() == moved.len()
                        &&& forall|e: int|
                            0 <= e < moved.len() ==> #[trigger] final(self).tree().elements_view()[e] == (QuadtreeBody {
                                position: moved[e].position,
                                body_key: e as usize,
                            })
                        &&& aggregated(
                            final(self).tree().nodes_view(),
                            final(self).tree().elements_view(),
                            sim_masses(final(self).bodies_view()),
                        )
                        &&& forall|k: int|
                            0 <= k < moved.len() ==> {
                                let f = spec_force(
                                    final(self).tree().nodes_view(),
                                    final(self).tree().elements_view(),
                                    sim_masses(final(self).bodies_view()),
                                    0,
                                    k,
                                    moved[k].position.x as int,
                                    moved[k].position.y as int,
                                    old(self).spec_threshold(),
                                    old(self).spec_softening(),
                                    old(self).spec_gravity(),
                                );
                                let nb = #[trigger] final(self).bodies_view()[k];
                                &&& nb.velocity.x as int == clamp_i64(
                                    old(self).bodies_view()[k].velocity.x + vel_delta(
                                        f.0,
                                        dt as int,
                                    ),
                                )
                                &&& nb.velocity.y as int == clamp_i64(
                                    old(self).bodies_view()[k].velocity.y + vel_delta(
                                        f.1,
                                        dt as int,
                                    ),
                                )
                            }
                    },
                    Err(e) => {
                        &&& reb == Err::<
                            (Seq<Option<QuadtreeNode<Pseudobody>>>, Seq<QuadtreeBody>),
                            QuadtreeError,
                        >(e)
                        &&& (e == QuadtreeError::OutOfBounds || e
                            == QuadtreeError::DepthExceeded)
                        &&& forall|k: int|
                            0 <= k < old(self).bodies_view().len() ==> #[trigger] final(self).bodies_view()[k].velocity == old(self).bodies_view()[k].velocity
                    },
                }
            }),
    {
        let ghost bs0 = self.bodies@;
        let ghost dt_i = dt as int;
        let ghost ext0 = self.quadtree.spec_extent();
        let ghost theta0 = self.pseudobody_threshold;
        let ghost soft0 = self.softening;
        let ghost grav0 = self.gravity;
        let n = self.bodies.len();

        // 1. Apply the old velocities to the positions.
        let mut k: usize = 0;
        while k < n
            invariant
                self.bodies@.len() == n,
                n == bs0.len(),
                k <= n,
                forall|j: int|
                    0 <= j < k ==> #[trigger] self.bodies@[j] == integrate_body(bs0[j], dt_i),
                forall|j: int| k <= j < n ==> #[trigger] self.bodies@[j] == bs0[j],
                self.quadtree == old(self).quadtree,
                self.pseudobody_threshold == theta0,
                self.softening == soft0,
                self.gravity == grav0,
                0 <= dt,
                dt_i == dt as int,
            decreases n - k,
        {
            let b = *self.bodies.get(k);
            let nx = crate::num::sat_add_i64(b.position.x, mul_clamp(b.velocity.x, dt));
            let ny = crate::num::sat_add_i64(b.position.y, mul_clamp(b.velocity.y, dt));
            self.bodies.set(
                k,
                Body {
                    position: Vec2 { x: nx, y: ny },
                    velocity: b.velocity,
                    mass: b.mass,
                    radius: b.radius,
                    color: b.color,
                },
            );
            proof {
                assert(self.bodies@[k as int] == integrate_body(bs0[k as int], dt_i));
            }
            k = k + 1;
        }
        let ghost moved = Seq::new(bs0.len(), |j: int| integrate_body(bs0[j], dt_i));
        proof {
            assert(self.bodies@ =~= moved);
            assert forall|j: int| 0 <= j < n implies 0 <= #[trigger] moved[j].mass by {
                assert(moved[j].mass == bs0[j].mass);
            }
            lemma_sum_range_congruent(n as int, body_mass_fn(moved), body_mass_fn(bs0));
        }

        // 2. Clear and fully rebuild the tree from the new positions.
        self.quadtree.clear();
        let ghost reb = spec_rebuild(
            seq![None::<QuadtreeNode<Pseudobody>>],
            Seq::<QuadtreeBody>::empty(),
            ext0,
            moved,
            0,
        );
        let mut k: usize = 0;
        while k < n
            invariant
                self.bodies@ == moved,
                n == moved.len(),
                n <= BODY_LIMIT,
                k <= n,
                self.quadtree.inv(),
                self.quadtree.spec_extent() == ext0,
                self.quadtree.elements_view().len() == k,
                forall|e: int|
                    0 <= e < k ==> #[trigger] self.quadtree.elements_view()[e] == (QuadtreeBody {
                        position: moved[e].position,
                        body_key: e as usize,
                    }),
                self.quadtree.nodes_view().len() <= 1 + 260 * k,
                spec_rebuild(
                    self.quadtree.nodes_view(),
                    self.quadtree.elements_view(),
                    ext0,
                    moved,
                    k as int,
                ) == reb,
                self.pseudobody_threshold == theta0,
                self.softening == soft0,
                self.gravity == grav0,
                0 <= theta0 <= THETA_LIMIT,
                1 <= soft0 <= SOFT_LIMIT,
                0 <= grav0 <= GRAV_LIMIT,
                forall|j: int| 0 <= j < n ==> #[trigger] moved[j].mass == bs0[j].mass,
                forall|j: int| 0 <= j < n ==> 0 <= #[trigger] bs0[j].mass,
                sum_range(n as int, body_mass_fn(bs0)) <= MASS_SUM_LIMIT as int,
                bs0 == old(self).bodies_view(),
                moved == Seq::new(bs0.len(), |j: int| integrate_body(bs0[j], dt_i)),
                dt_i == dt as int,
                ext0 == old(self).tree().spec_extent(),
                theta0 as int == old(self).spec_threshold(),
                soft0 as int == old(self).spec_softening(),
                grav0 as int == old(self).spec_gravity(),
                reb == spec_rebuild(
                    seq![None::<QuadtreeNode<Pseudobody>>],
                    Seq::<QuadtreeBody>::empty(),
                    ext0,
                    moved,
                    0,
                ),
            decreases n - k,
        {
            let b = *self.bodies.get(k);
            let proxy = QuadtreeBody { position: b.position, body_key: k };
            let ghost ns_at = self.quadtree.nodes_view();
            let ghost es_at = self.quadtree.elements_view();
            proof {
                assert(self.quadtree.nodes_view().len() + 4 * (crate::quadtree::MAX_DEPTH as int)
                    + 4 <= usize::MAX) by {
                    assert(self.quadtree.nodes_view().len() <= 1 + 260 * (BODY_LIMIT as int));
                }
            }
            match self.quadtree.insert(proxy) {
                Ok(()) => {
                    proof {
                        assert(proxy.spec_position() == moved[k as int].position);
                        assert(self.quadtree.elements_view() == es_at.push(proxy));
                        assert(spec_rebuild(
                            self.quadtree.nodes_view(),
                            self.quadtree.elements_view(),
                            ext0,
                            moved,
                            k as int + 1,
                        ) == reb);
                    }
                    k = k + 1;
                },
                Err(e) => {
                    proof {
                        assert(reb == Err::<
                            (Seq<Option<QuadtreeNode<Pseudobody>>>, Seq<QuadtreeBody>),
                            QuadtreeError,
                        >(e));
                        assert forall|j: int| 0 <= j < n implies #[trigger] body_mass_fn(
                            self.bodies@,
                        )(j) == body_mass_fn(bs0)(j) by {
                            assert(self.bodies@[j] == moved[j]);
                            assert(moved[j].mass == bs0[j].mass);
                        }
                        lemma_sum_range_congruent(n as int, body_mass_fn(self.bodies@),
                            body_mass_fn(bs0));
                        assert forall|j: int| 0 <= j < n implies 0 <= (
                        #[trigger] self.bodies@[j]).mass by {
                            assert(self.bodies@[j] == moved[j]);
                            assert(moved[j].mass == bs0[j].mass);
                        }
                        let moved2 = Seq::new(
                            old(self).bodies_view().len(),
                            |j: int| integrate_body(old(self).bodies_view()[j], dt as int),
                        );
                        assert(moved =~= moved2);
                        assert(moved == moved2);
                        assert(spec_rebuild(
                            seq![None::<QuadtreeNode<Pseudobody>>],
                            Seq::<QuadtreeBody>::empty(),
                            old(self).tree().spec_extent(),
                            moved2,
                            0,
                        ) == Err::<
                            (Seq<Option<QuadtreeNode<Pseudobody>>>, Seq<QuadtreeBody>),
                            QuadtreeError,
                        >(e));
                        assert forall|j: int|
                            0 <= j < n implies (#[trigger] self.bodies@[j]).velocity == old(
                            self,
                        ).bodies_view()[j].velocity by {
                            assert(self.bodies@[j] == moved[j]);
                            assert(moved[j] == integrate_body(bs0[j], dt_i));
                        }
                    }
                    return Err(e);
                },
            }
        }

        // 3. Collect the masses in body-handle order.
        let mut masses: Vec<i64> = Vec::with_capacity(n);
        let mut k: usize = 0;
        while k < n
            invariant
                self.bodies@ == moved,
                n == moved.len(),
                masses@.len() == k,
                k <= n,
                forall|j: int| 0 <= j < k ==> #[trigger] masses@[j] == moved[j].mass,
            decreases n - k,
        {
            let b = *self.bodies.get(k);
            masses.push(b.mass);
            k = k + 1;
        }
        proof {
            assert(masses@ =~= sim_masses(moved));
            let es_f = self.quadtree.elements_view();
            assert forall|e: int|
                0 <= e < es_f.len() implies (#[trigger] es_f[e].body_key as int)
                < masses@.len() by {}
            assert forall|j: int| 0 <= j < masses@.len() implies 0 <= #[trigger] masses@[j] by {
                assert(moved[j].mass == bs0[j].mass);
            }
            assert forall|e: int| 0 <= e < es_f.len() implies #[trigger] mass_fn(es_f, masses@)(e)
                == body_mass_fn(bs0)(e) by {
                assert(es_f[e].body_key == e as usize);
                assert(masses@[e] == moved[e].mass);
                assert(moved[e].mass == bs0[e].mass);
            }
            lemma_sum_range_congruent(n as int, mass_fn(es_f, masses@), body_mass_fn(bs0));
            assert(masses_ok(es_f, masses@));
        }

        // 4. Aggregate pseudobodies bottom-up.
        self.quadtree.compute_aggregates(&masses);

        // 5. Evaluate forces and fold them into the velocities.
        let ghost ns_f = self.quadtree.nodes_view();
        let ghost es_f = self.quadtree.elements_view();
        proof {
            assert forall|e: int|
                0 <= e < es_f.len() implies -crate::quadtree::EXTENT_LIMIT
                <= #[trigger] es_f[e].position.x <= crate::quadtree::EXTENT_LIMIT
                && -crate::quadtree::EXTENT_LIMIT <= es_f[e].position.y
                <= crate::quadtree::EXTENT_LIMIT by {
                assert(crate::quadtree::has_leaf(ns_f, e));
                let l = choose|l: int| crate::quadtree::is_leaf_for(ns_f, l, e);
                assert(crate::quadtree::is_leaf_for(ns_f, l, e));
                lemma_elem_in_bounds(ns_f, es_f, ext0, l);
            }
        }
        let mut k: usize = 0;
        while k < n
            invariant
                self.bodies@.len() == n,
                n == moved.len(),
                n <= BODY_LIMIT,
                k <= n,
                forall|j: int|
                    0 <= j < n ==> {
                        let nb = #[trigger] self.bodies@[j];
                        &&& nb.position == moved[j].position
                        &&& nb.mass == moved[j].mass
                        &&& nb.radius == moved[j].radius
                        &&& nb.color == moved[j].color
                    },
                forall|j: int| k <= j < n ==> (#[trigger] self.bodies@[j]).velocity
                    == moved[j].velocity,
                forall|j: int|
                    0 <= j < k ==> {
                        let f = spec_force(
                            ns_f,
                            es_f,
                            masses@,
                            0,
                            j,
                            moved[j].position.x as int,
                            moved[j].position.y as int,
                            theta0 as int,
                            soft0 as int,
                            grav0 as int,
                        );
                        let nb = #[trigger] self.bodies@[j];
                        &&& nb.velocity.x as int == clamp_i64(
                            moved[j].velocity.x + vel_delta(f.0, dt_i),
                        )
                        &&& nb.velocity.y as int == clamp_i64(
                            moved[j].velocity.y + vel_delta(f.1, dt_i),
                        )
                    },
                self.quadtree.inv(),
                self.quadtree.nodes_view() == ns_f,
                self.quadtree.elements_view() == es_f,
                self.quadtree.spec_extent() == ext0,
                es_f.len() == n,
                masses@ == sim_masses(moved),
                masses_ok(es_f, masses@),
                aggregated(ns_f, es_f, masses@),
                forall|e: int|
                    0 <= e < es_f.len() ==> #[trigger] es_f[e] == (QuadtreeBody {
                        position: moved[e].position,
                        body_key: e as usize,
                    }),
                forall|e: int|
                    0 <= e < es_f.len() ==> -crate::quadtree::EXTENT_LIMIT <= (
                    #[trigger] es_f[e]).position.x <= crate::quadtree::EXTENT_LIMIT
                        && -crate::quadtree::EXTENT_LIMIT <= es_f[e].position.y
                        <= crate::quadtree::EXTENT_LIMIT,
                self.pseudobody_threshold == theta0,
                self.softening == soft0,
                self.gravity == grav0,
                0 <= theta0 <= THETA_LIMIT,
                1 <= soft0 <= SOFT_LIMIT,
                0 <= grav0 <= GRAV_LIMIT,
                dt_i == dt as int,
            decreases n - k,
        {
            let b = *self.bodies.get(k);
            proof {
                assert(es_f[k as int].position == moved[k as int].position);
                assert(b.position == moved[k as int].position);
            }
            let f = self.quadtree.evaluate_force(
                &masses,
                k,
                b.position,
                self.pseudobody_threshold,
                self.softening,
                self.gravity,
            );
            let dvx = mul_clamp(f.x, dt);
            let dvy = mul_clamp(f.y, dt);
            let nvx = crate::num::sat_add_i64(b.velocity.x, dvx);
            let nvy = crate::num::sat_add_i64(b.velocity.y, dvy);
            self.bodies.set(
                k,
                Body {
                    position: b.position,
                    velocity: Vec2 { x: nvx, y: nvy },
                    mass: b.mass,
                    radius: b.radius,
                    color: b.color,
                },
            );
            k = k + 1;
        }
        proof {
            assert(sim_masses(self.bodies@) =~= masses@);
            assert forall|j: int| 0 <= j < n implies #[trigger] body_mass_fn(self.bodies@)(j)
                == body_mass_fn(bs0)(j) by {
                assert(self.bodies@[j].mass == moved[j].mass);
                assert(moved[j].mass == bs0[j].mass);
            }
            lemma_sum_range_congruent(n as int, body_mass_fn(self.bodies@), body_mass_fn(bs0));
        }
        Ok(())
    }
}

} // verus!
