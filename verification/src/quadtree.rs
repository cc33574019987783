//! An arena-backed spatial quadtree.
//!
//! All nodes live in one flat arena; a twig (internal node) holds the key of
//! its first child and the four children occupy consecutive slots at fixed
//! quadrant offsets, so the tree has index-based ownership with no cycles and
//! is invalidated wholesale by clearing the arenas.
//!
//! Every node carries its center and half-extent, which are derived from the
//! quadrant path, plus a ghost record of the exact half-open region the path
//! assigns to it. Well-formedness (`tree_wf`) states the structural facts the
//! rest of the engine builds on: child blocks are in range and uniquely owned,
//! child geometry follows from parent geometry, each leaf holds the key of a
//! distinct stored element, and the element's position lies in the leaf's
//! region.

use vstd::prelude::*;

use crate::arena::Arena;
use crate::geom::{
    child_center_x,
    child_center_y,
    in_rect,
    quadrant_rect,
    rect_brackets,
    root_rect,
    Quadrant,
    Rect,
    Vec2,
};

verus! {

/// Maximum subdivision depth; insertion fails rather than subdividing beyond
/// this many levels when points are coincident or nearly so.
pub const MAX_DEPTH: u32 = 64;

/// Largest root half-width the tree accepts; keeps all coordinate arithmetic
/// comfortably inside `i64`.
pub const EXTENT_LIMIT: i64 = 0x1_0000_0000;

/// Typed handle of a node slot in the tree's node arena.
#[derive(Clone, Copy, Debug, PartialEq, Eq, Structural)]
pub struct NodeKey(pub usize);

/// Typed handle of an inserted element in the tree's element arena.
#[derive(Clone, Copy, Debug, PartialEq, Eq, Structural)]
pub struct ElementKey(pub usize);

/// What a node points at: a twig holds the key of its first child slot, a
/// leaf holds the key of its single element.
#[derive(Clone, Copy, Debug, PartialEq, Eq, Structural)]
pub enum QuadtreeChild {
    Node(NodeKey),
    Element(ElementKey),
}

/// A stored node: its child pointer, its center and half-extent (derived from
/// the quadrant path), an aggregate payload, and the ghost region record.
#[derive(Clone, Copy)]
pub struct QuadtreeNode<U> {
    pub child_key: QuadtreeChild,
    pub position: Vec2,
    pub extent: i64,
    pub data: U,
    pub region: Ghost<Rect>,
}

/// Signal returned by a traversal visitor: `Stop` prunes the subtree below
/// the visited node, `Continue` descends into it.
#[derive(Debug)]
pub enum ContinueTraverse {
    Continue,
    Stop,
}

/// Errors of the spatial index.
#[derive(Clone, Copy, Debug, PartialEq, Eq, Structural)]
pub enum QuadtreeError {
    /// An element position lies outside the tree's root region.
    OutOfBounds,
    /// Subdivision would exceed `MAX_DEPTH` levels.
    DepthExceeded,
    /// A zero-mass aggregate was about to be used as a force source. The
    /// aggregation and force walk prevent this structurally, so the engine
    /// never constructs it, but callers layering their own evaluators on the
    /// tree can report it.
    DivisionByZeroMass,
}

/// Capability of element types the tree can index: they have a 2D position.
pub trait Positioned {
    /// The element's position as seen by specifications.
    spec fn spec_position(&self) -> Vec2;

    /// The element's position.
    fn position(&self) -> (r: Vec2)
        ensures
            r == self.spec_position(),
    ;
}

/// Capability of aggregate payload types: they have an empty value, stored in
/// freshly created nodes before aggregation runs.
pub trait TreeData: Sized + Copy {
    /// The empty payload as seen by specifications.
    spec fn spec_empty_value() -> Self;

    /// The empty payload.
    fn empty_value() -> (r: Self)
        ensures
            r == Self::spec_empty_value(),
    ;
}

/// Slot `i` exists and holds a node.
pub open spec fn slot_full<U>(ns: Seq<Option<QuadtreeNode<U>>>, i: int) -> bool {
    0 <= i < ns.len() && ns[i] is Some
}

/// The node in slot `i`.
pub open spec fn node_of<U>(ns: Seq<Option<QuadtreeNode<U>>>, i: int) -> QuadtreeNode<U>
    recommends
        slot_full(ns, i),
{
    ns[i]->0
}

/// Slot `i` holds a twig.
pub open spec fn is_twig<U>(ns: Seq<Option<QuadtreeNode<U>>>, i: int) -> bool {
    slot_full(ns, i) && node_of(ns, i).child_key is Node
}

/// The first child slot of the twig in slot `i`.
pub open spec fn twig_block<U>(ns: Seq<Option<QuadtreeNode<U>>>, i: int) -> int
    recommends
        is_twig(ns, i),
{
    (node_of(ns, i).child_key->Node_0).0 as int
}

/// Slot `i` holds a leaf.
pub open spec fn is_leaf<U>(ns: Seq<Option<QuadtreeNode<U>>>, i: int) -> bool {
    slot_full(ns, i) && node_of(ns, i).child_key is Element
}

/// The element index referenced by the leaf in slot `i`.
pub open spec fn leaf_elem<U>(ns: Seq<Option<QuadtreeNode<U>>>, i: int) -> int
    recommends
        is_leaf(ns, i),
{
    (node_of(ns, i).child_key->Element_0).0 as int
}

/// Slot `i` is a leaf referencing element `e`.
pub open spec fn is_leaf_for<U>(ns: Seq<Option<QuadtreeNode<U>>>, i: int, e: int) -> bool {
    is_leaf(ns, i) && leaf_elem(ns, i) == e
}

/// The child block of the twig in slot `i` lies above `i`, fits in the arena,
/// and starts on a block boundary.
pub open spec fn block_ok<U>(ns: Seq<Option<QuadtreeNode<U>>>, i: int) -> bool
    recommends
        is_twig(ns, i),
{
    let b = twig_block(ns, i);
    &&& i < b
    &&& b + 4 <= ns.len()
    &&& b % 4 == 1
}

/// Every twig's child block is in range and above its parent. This alone
/// makes downward recursion over the arena terminate.
pub open spec fn blocks_ok<U>(ns: Seq<Option<QuadtreeNode<U>>>) -> bool {
    forall|i: int| is_twig(ns, i) ==> block_ok(ns, i)
}

/// Geometry of the `q` child of twig node `n`: if that slot is full, its
/// center, half-extent and region are the ones subdivision derives.
pub open spec fn child_geom_ok<U>(
    ns: Seq<Option<QuadtreeNode<U>>>,
    n: QuadtreeNode<U>,
    q: Quadrant,
) -> bool
    recommends
        n.child_key is Node,
{
    let j = (n.child_key->Node_0).0 + q.spec_index();
    slot_full(ns, j as int) ==> {
        let m = node_of(ns, j as int);
        &&& m.position.x as int == child_center_x(n.position, n.extent as int, q)
        &&& m.position.y as int == child_center_y(n.position, n.extent as int, q)
        &&& m.extent as int == n.extent as int / 2
        &&& m.region@ == quadrant_rect(n.region@, n.position, q)
    }
}

/// Local well-formedness of the node in slot `i` of a tree with root
/// half-width `ext` over elements `es`.
pub open spec fn node_geom_ok<T: Positioned, U>(
    ns: Seq<Option<QuadtreeNode<U>>>,
    es: Seq<T>,
    ext: int,
    i: int,
) -> bool
    recommends
        slot_full(ns, i),
{
    let n = node_of(ns, i);
    &&& 0 <= n.extent
    &&& -ext <= n.position.x - n.extent
    &&& n.position.x + n.extent <= ext
    &&& -ext <= n.position.y - n.extent
    &&& n.position.y + n.extent <= ext
    &&& rect_brackets(n.region@, n.position.x as int, n.position.y as int, n.extent as int)
    &&& match n.child_key {
        QuadtreeChild::Element(e) => {
            &&& (e.0 as int) < es.len()
            &&& in_rect(n.region@, es[e.0 as int].spec_position())
        },
        QuadtreeChild::Node(_) => {
            &&& child_geom_ok(ns, n, Quadrant::NE)
            &&& child_geom_ok(ns, n, Quadrant::NW)
            &&& child_geom_ok(ns, n, Quadrant::SE)
            &&& child_geom_ok(ns, n, Quadrant::SW)
        },
    }
}

/// The root slot, if full, is centered at the origin with the tree's own
/// half-width and the root region.
pub open spec fn root_ok<U>(ns: Seq<Option<QuadtreeNode<U>>>, ext: int) -> bool {
    slot_full(ns, 0) ==> {
        let n = node_of(ns, 0);
        &&& n.position.x == 0
        &&& n.position.y == 0
        &&& n.extent as int == ext
        &&& n.region@ == root_rect(ext)
    }
}

/// Twig `p` owns slot `j`: `j` lies in `p`'s child block.
pub open spec fn owns<U>(ns: Seq<Option<QuadtreeNode<U>>>, p: int, j: int) -> bool {
    &&& is_twig(ns, p)
    &&& twig_block(ns, p) <= j < twig_block(ns, p) + 4
}

/// Some twig owns slot `j`.
pub open spec fn owned<U>(ns: Seq<Option<QuadtreeNode<U>>>, j: int) -> bool {
    exists|p: int| owns(ns, p, j)
}

/// Every non-root slot is owned by a twig, and no two twigs share a block.
pub open spec fn owners_ok<U>(ns: Seq<Option<QuadtreeNode<U>>>) -> bool {
    &&& forall|j: int| 1 <= j < ns.len() ==> owned(ns, j)
    &&& forall|p1: int, p2: int|
        is_twig(ns, p1) && is_twig(ns, p2) && twig_block(ns, p1) == twig_block(ns, p2)
            ==> p1 == p2
}

/// Element `e` has a leaf somewhere in the arena.
pub open spec fn has_leaf<U>(ns: Seq<Option<QuadtreeNode<U>>>, e: int) -> bool {
    exists|i: int| is_leaf_for(ns, i, e)
}

/// Every stored element is referenced by a leaf, and no element is referenced
/// by two leaves.
pub open spec fn elems_ok<T, U>(ns: Seq<Option<QuadtreeNode<U>>>, es: Seq<T>) -> bool {
    &&& forall|e: int| 0 <= e < es.len() ==> has_leaf(ns, e)
    &&& forall|i1: int, i2: int|
        is_leaf(ns, i1) && is_leaf(ns, i2) && leaf_elem(ns, i1) == leaf_elem(ns, i2)
            ==> i1 == i2
}

/// Well-formedness of a tree with node arena `ns`, element arena `es` and
/// root half-width `ext`.
pub open spec fn tree_wf<T: Positioned, U>(
    ns: Seq<Option<QuadtreeNode<U>>>,
    es: Seq<T>,
    ext: int,
) -> bool {
    &&& 1 <= ns.len()
    &&& ns.len() % 4 == 1
    &&& root_ok(ns, ext)
    &&& blocks_ok(ns)
    &&& forall|i: int| slot_full(ns, i) ==> node_geom_ok(ns, es, ext, i)
    &&& owners_ok(ns)
    &&& elems_ok(ns, es)
}

/// An adaptive spatial index over elements with 2D positions. All inserted
/// positions must lie within `[-extent, extent]` on both axes.
pub struct Quadtree<T, U> {
    extent: i64,
    nodes: Arena<Option<QuadtreeNode<U>>>,
    elements: Arena<T>,
}

impl<T: Positioned, U: TreeData> Quadtree<T, U> {
    /// The node arena's contents, for specifications.
    pub closed spec fn nodes_view(self) -> Seq<Option<QuadtreeNode<U>>> {
        self.nodes@
    }

    /// The element arena's contents, for specifications.
    pub closed spec fn elements_view(self) -> Seq<T> {
        self.elements@
    }

    /// The root half-width, for specifications.
    pub closed spec fn spec_extent(self) -> int {
        self.extent as int
    }

    /// Invariant: the extent is positive and bounded, and the arenas form a
    /// well-formed tree.
    pub open spec fn inv(self) -> bool {
        &&& 0 < self.spec_extent() <= EXTENT_LIMIT as int
        &&& tree_wf(self.nodes_view(), self.elements_view(), self.spec_extent())
    }

    /// A fresh tree: a single empty root slot and no elements.
    pub fn new(extent: i64) -> (r: Quadtree<T, U>)
        requires
            0 < extent <= EXTENT_LIMIT,
        ensures
            r.inv(),
            r.spec_extent() == extent,
            r.nodes_view() == seq![None::<QuadtreeNode<U>>],
            r.elements_view() == Seq::<T>::empty(),
    {
        let mut nodes: Arena<Option<QuadtreeNode<U>>> = Arena::new();
        nodes.insert(None);
        let slf = Quadtree { extent, nodes, elements: Arena::new() };
        proof {
            assert(slf.nodes_view() =~= seq![None::<QuadtreeNode<U>>]);
        }
        slf
    }

    /// Drop all nodes and elements, invalidating every handle, and restore
    /// the single empty root slot. The root half-width is kept.
    pub fn clear(&mut self)
        requires
            old(self).inv(),
        ensures
            final(self).inv(),
            final(self).spec_extent() == old(self).spec_extent(),
            final(self).nodes_view() == seq![None::<QuadtreeNode<U>>],
            final(self).elements_view() == Seq::<T>::empty(),
    {
        self.nodes.clear();
        self.elements.clear();
        self.nodes.insert(None);
        proof {
            assert(self.nodes_view() =~= seq![None::<QuadtreeNode<U>>]);
        }
    }

    /// The root half-width.
    pub fn extent(&self) -> (r: i64)
        ensures
            r as int == self.spec_extent(),
    {
        self.extent
    }

    /// Read access to the node arena, e.g. for a renderer's debug overlay.
    pub fn nodes(&self) -> (r: &Arena<Option<QuadtreeNode<U>>>)
        ensures
            r@ == self.nodes_view(),
    {
        &self.nodes
    }

    /// Read access to the element arena.
    pub fn elements(&self) -> (r: &Arena<T>)
        ensures
            r@ == self.elements_view(),
    {
        &self.elements
    }
}

} // verus!

verus! {

/// Where a descent through the tree ended: the slot, the geometry the
/// quadrant path derives for it, and its depth.
pub struct DescentSpot {
    pub slot: int,
    pub cx: int,
    pub cy: int,
    pub ext: int,
    pub rect: Rect,
    pub depth: int,
}

/// Follow the classification of `p` down from slot `i` (whose path-derived
/// geometry is `cx, cy, ext, r` at depth `depth`) until a slot that is not a
/// twig.
pub open spec fn spec_descend<U>(
    ns: Seq<Option<QuadtreeNode<U>>>,
    p: Vec2,
    i: int,
    cx: int,
    cy: int,
    ext: int,
    r: Rect,
    depth: int,
) -> DescentSpot
    decreases ns.len() - i
        when blocks_ok(ns) && 0 <= i < ns.len()
{
    if is_twig(ns, i) {
        let n = node_of(ns, i);
        let q = Quadrant::spec_classify(n.position, p);
        spec_descend(
            ns,
            p,
            twig_block(ns, i) + q.spec_index(),
            child_center_x(n.position, n.extent as int, q),
            child_center_y(n.position, n.extent as int, q),
            n.extent as int / 2,
            quadrant_rect(n.region@, n.position, q),
            depth + 1,
        )
    } else {
        DescentSpot { slot: i, cx, cy, ext, rect: r, depth }
    }
}

/// The spot where an element at position `p` is inserted: descend from the
/// root.
pub open spec fn start_spot<U>(ns: Seq<Option<QuadtreeNode<U>>>, ext0: int, p: Vec2) -> DescentSpot {
    spec_descend(ns, p, 0, 0, 0, ext0, root_rect(ext0), 0)
}

/// A fresh leaf node for element `e` with the given path geometry.
pub open spec fn mk_leaf<U: TreeData>(e: int, cx: int, cy: int, ext: int, r: Rect) -> QuadtreeNode<U> {
    QuadtreeNode {
        child_key: QuadtreeChild::Element(ElementKey(e as usize)),
        position: Vec2 { x: cx as i64, y: cy as i64 },
        extent: ext as i64,
        data: U::spec_empty_value(),
        region: Ghost::new(r),
    }
}

/// A fresh twig node whose child block starts at slot `b`, with the given
/// path geometry.
pub open spec fn mk_twig<U: TreeData>(b: int, cx: int, cy: int, ext: int, r: Rect) -> QuadtreeNode<U> {
    QuadtreeNode {
        child_key: QuadtreeChild::Node(NodeKey(b as usize)),
        position: Vec2 { x: cx as i64, y: cy as i64 },
        extent: ext as i64,
        data: U::spec_empty_value(),
        region: Ghost::new(r),
    }
}

/// Whether the positions `p0` and `p1` fall into different quadrants within
/// `fuel` further subdivisions of a region centered at `(cx, cy)` with
/// half-width `ext`.
pub open spec fn sep_ok(cx: int, cy: int, ext: int, p0: Vec2, p1: Vec2, fuel: int) -> bool
    decreases fuel,
{
    if fuel <= 0 {
        false
    } else {
        let c = Vec2 { x: cx as i64, y: cy as i64 };
        let q0 = Quadrant::spec_classify(c, p0);
        let q1 = Quadrant::spec_classify(c, p1);
        if q0 != q1 {
            true
        } else {
            sep_ok(
                child_center_x(c, ext, q0),
                child_center_y(c, ext, q0),
                ext / 2,
                p0,
                p1,
                fuel - 1,
            )
        }
    }
}

/// Split the leaf-or-empty slot `k` (path geometry `cx, cy, ext, r`) into a
/// chain of twigs until the existing element `e0` at `p0` and the new element
/// `e1` at `p1` separate, then write both as leaves. Each level allocates a
/// fresh block of four slots at the end of the arena. Fails with
/// `DepthExceeded` when `fuel` levels do not separate the two.
pub open spec fn spec_split<U: TreeData>(
    ns: Seq<Option<QuadtreeNode<U>>>,
    k: int,
    cx: int,
    cy: int,
    ext: int,
    r: Rect,
    e0: int,
    p0: Vec2,
    e1: int,
    p1: Vec2,
    fuel: int,
) -> Result<Seq<Option<QuadtreeNode<U>>>, QuadtreeError>
    decreases fuel,
{
    if fuel <= 0 {
        Err(QuadtreeError::DepthExceeded)
    } else {
        let b = ns.len() as int;
        let ns1 = ns.update(k, Some(mk_twig(b, cx, cy, ext, r))).push(None).push(None).push(
            None,
        ).push(None);
        let c = Vec2 { x: cx as i64, y: cy as i64 };
        let q0 = Quadrant::spec_classify(c, p0);
        let q1 = Quadrant::spec_classify(c, p1);
        let ext2 = ext / 2;
        if q0 != q1 {
            Ok(
                ns1.update(
                    b + q0.spec_index(),
                    Some(
                        mk_leaf(
                            e0,
                            child_center_x(c, ext, q0),
                            child_center_y(c, ext, q0),
                            ext2,
                            quadrant_rect(r, c, q0),
                        ),
                    ),
                ).update(
                    b + q1.spec_index(),
                    Some(
                        mk_leaf(
                            e1,
                            child_center_x(c, ext, q1),
                            child_center_y(c, ext, q1),
                            ext2,
                            quadrant_rect(r, c, q1),
                        ),
                    ),
                ),
            )
        } else {
            spec_split(
                ns1,
                b + q0.spec_index(),
                child_center_x(c, ext, q0),
                child_center_y(c, ext, q0),
                ext2,
                quadrant_rect(r, c, q0),
                e0,
                p0,
                e1,
                p1,
                fuel - 1,
            )
        }
    }
}

/// Position `p` lies within the root region of half-width `ext0`.
pub open spec fn pos_in_bounds(p: Vec2, ext0: int) -> bool {
    &&& -ext0 <= p.x <= ext0
    &&& -ext0 <= p.y <= ext0
}

/// The node arena after inserting a new element (of index `es.len()`) at
/// position `p`, or the error that insertion reports.
pub open spec fn spec_insert<T: Positioned, U: TreeData>(
    ns: Seq<Option<QuadtreeNode<U>>>,
    es: Seq<T>,
    ext0: int,
    p: Vec2,
) -> Result<Seq<Option<QuadtreeNode<U>>>, QuadtreeError> {
    if !pos_in_bounds(p, ext0) {
        Err(QuadtreeError::OutOfBounds)
    } else {
        let s = start_spot(ns, ext0, p);
        let e1 = es.len() as int;
        if !slot_full(ns, s.slot) {
            Ok(ns.update(s.slot, Some(mk_leaf(e1, s.cx, s.cy, s.ext, s.rect))))
        } else {
            let e0 = leaf_elem(ns, s.slot);
            spec_split(
                ns,
                s.slot,
                s.cx,
                s.cy,
                s.ext,
                s.rect,
                e0,
                es[e0].spec_position(),
                e1,
                p,
                MAX_DEPTH - s.depth,
            )
        }
    }
}

/// The path geometry that the tree dictates for slot `slot` through its
/// owning twig `pp` and quadrant `q`.
pub open spec fn dictated_by<U>(
    ns: Seq<Option<QuadtreeNode<U>>>,
    pp: int,
    q: Quadrant,
    slot: int,
    cx: int,
    cy: int,
    ext: int,
    r: Rect,
) -> bool {
    let n = node_of(ns, pp);
    &&& is_twig(ns, pp)
    &&& slot == twig_block(ns, pp) + q.spec_index()
    &&& cx == child_center_x(n.position, n.extent as int, q)
    &&& cy == child_center_y(n.position, n.extent as int, q)
    &&& ext == n.extent as int / 2
    &&& r == quadrant_rect(n.region@, n.position, q)
}

/// The geometry `(cx, cy, ext, r)` is the one the quadrant path assigns to
/// slot `slot`: the root geometry for the root, otherwise whatever the owning
/// twig derives.
pub open spec fn spot_dictated<U>(
    ns: Seq<Option<QuadtreeNode<U>>>,
    ext0: int,
    slot: int,
    cx: int,
    cy: int,
    ext: int,
    r: Rect,
) -> bool {
    if slot == 0 {
        cx == 0 && cy == 0 && ext == ext0 && r == root_rect(ext0)
    } else {
        exists|pp: int, q: Quadrant| dictated_by(ns, pp, q, slot, cx, cy, ext, r)
    }
}

/// Path geometry stays within the root's coordinate range.
pub open spec fn spot_bounds(ext0: int, cx: int, cy: int, ext: int) -> bool {
    &&& 0 <= ext
    &&& -ext0 <= cx - ext
    &&& cx + ext <= ext0
    &&& -ext0 <= cy - ext
    &&& cy + ext <= ext0
}

/// If slot `slot` is full, its stored geometry equals the carried one.
pub open spec fn spot_matches_slot<U>(
    ns: Seq<Option<QuadtreeNode<U>>>,
    slot: int,
    cx: int,
    cy: int,
    ext: int,
    r: Rect,
) -> bool {
    slot_full(ns, slot) ==> {
        let n = node_of(ns, slot);
        &&& n.position.x as int == cx
        &&& n.position.y as int == cy
        &&& n.extent as int == ext
        &&& n.region@ == r
    }
}

/// Everything the descent maintains about its current slot and carried
/// geometry while looking for the insertion spot of position `p`.
pub open spec fn spot_ok<U>(
    ns: Seq<Option<QuadtreeNode<U>>>,
    ext0: int,
    slot: int,
    cx: int,
    cy: int,
    ext: int,
    r: Rect,
    p: Vec2,
) -> bool {
    &&& 0 <= slot < ns.len()
    &&& spot_dictated(ns, ext0, slot, cx, cy, ext, r)
    &&& spot_bounds(ext0, cx, cy, ext)
    &&& rect_brackets(r, cx, cy, ext)
    &&& spot_matches_slot(ns, slot, cx, cy, ext, r)
    &&& in_rect(r, p)
}

} // verus!

verus! {

/// Two 4-aligned blocks containing the same slot are the same block.
proof fn lemma_block_unique(b1: int, b2: int, k: int)
    requires
        b1 % 4 == 1,
        b2 % 4 == 1,
        b1 <= k < b1 + 4,
        b2 <= k < b2 + 4,
    ensures
        b1 == b2,
{
    vstd::arithmetic::div_mod::lemma_fundamental_div_mod(b1, 4);
    vstd::arithmetic::div_mod::lemma_fundamental_div_mod(b2, 4);
    assert(b1 - b2 == 4 * (b1 / 4 - b2 / 4));
}

/// In a well-formed tree, the twig `i` owning slot `k` is the unique origin
/// of any geometry the quadrant path dictates for `k`.
proof fn lemma_owner_dictates<T: Positioned, U: TreeData>(
    ns: Seq<Option<QuadtreeNode<U>>>,
    es: Seq<T>,
    ext0: int,
    i: int,
    q: Quadrant,
    k: int,
    cx: int,
    cy: int,
    ext: int,
    r: Rect,
)
    requires
        blocks_ok(ns),
        owners_ok(ns),
        is_twig(ns, i),
        k == twig_block(ns, i) + q.spec_index(),
        spot_dictated(ns, ext0, k, cx, cy, ext, r),
    ensures
        cx == child_center_x(node_of(ns, i).position, node_of(ns, i).extent as int, q),
        cy == child_center_y(node_of(ns, i).position, node_of(ns, i).extent as int, q),
        ext == node_of(ns, i).extent as int / 2,
        r == quadrant_rect(node_of(ns, i).region@, node_of(ns, i).position, q),
{
    assert(block_ok(ns, i));
    assert(k != 0);
    let (pp, q2): (int, Quadrant) = choose|pp: int, q2: Quadrant|
        dictated_by(ns, pp, q2, k, cx, cy, ext, r);
    assert(block_ok(ns, pp));
    lemma_block_unique(twig_block(ns, i), twig_block(ns, pp), k);
    assert(pp == i);
    assert(q2.spec_index() == q.spec_index());
    assert(q2 == q);
}

/// One step of descent: from a twig whose carried geometry is consistent, the
/// classified child's carried geometry is consistent too.
pub proof fn lemma_descend_step<T: Positioned, U: TreeData>(
    ns: Seq<Option<QuadtreeNode<U>>>,
    es: Seq<T>,
    ext0: int,
    i: int,
    cx: int,
    cy: int,
    ext: int,
    r: Rect,
    p: Vec2,
)
    requires
        tree_wf(ns, es, ext0),
        spot_ok(ns, ext0, i, cx, cy, ext, r, p),
        is_twig(ns, i),
    ensures
        ({
            let n = node_of(ns, i);
            let q = Quadrant::spec_classify(n.position, p);
            spot_ok(
                ns,
                ext0,
                twig_block(ns, i) + q.spec_index(),
                child_center_x(n.position, n.extent as int, q),
                child_center_y(n.position, n.extent as int, q),
                n.extent as int / 2,
                quadrant_rect(n.region@, n.position, q),
                p,
            )
        }),
{
    let n = node_of(ns, i);
    let q = Quadrant::spec_classify(n.position, p);
    let j = twig_block(ns, i) + q.spec_index();
    let ccx = child_center_x(n.position, n.extent as int, q);
    let ccy = child_center_y(n.position, n.extent as int, q);
    let ext2 = n.extent as int / 2;
    let r2 = quadrant_rect(n.region@, n.position, q);
    assert(node_geom_ok(ns, es, ext0, i));
    assert(block_ok(ns, i));
    assert(0 <= q.spec_index() < 4);
    assert(dictated_by(ns, i, q, j, ccx, ccy, ext2, r2));
    assert(spot_dictated(ns, ext0, j, ccx, ccy, ext2, r2));
    assert(ext2 + ext2 <= n.extent as int);
    assert(spot_bounds(ext0, ccx, ccy, ext2));
    assert(spot_matches_slot(ns, j, ccx, ccy, ext2, r2)) by {
        if slot_full(ns, j) {
            match q {
                Quadrant::NE => assert(child_geom_ok(ns, n, Quadrant::NE)),
                Quadrant::NW => assert(child_geom_ok(ns, n, Quadrant::NW)),
                Quadrant::SE => assert(child_geom_ok(ns, n, Quadrant::SE)),
                Quadrant::SW => assert(child_geom_ok(ns, n, Quadrant::SW)),
            }
        }
    }
    assert(r == n.region@);
    crate::geom::lemma_classify_refines(n.region@, n.position, p, q);
}

/// Writing a fresh leaf for a new element into the empty spot the descent
/// found preserves well-formedness.
proof fn lemma_insert_empty_wf<T: Positioned, U: TreeData>(
    ns: Seq<Option<QuadtreeNode<U>>>,
    es: Seq<T>,
    ext0: int,
    k: int,
    cx: int,
    cy: int,
    ext: int,
    r: Rect,
    elem: T,
)
    requires
        tree_wf(ns, es, ext0),
        0 < ext0 <= EXTENT_LIMIT as int,
        es.len() < usize::MAX,
        spot_ok(ns, ext0, k, cx, cy, ext, r, elem.spec_position()),
        !slot_full(ns, k),
    ensures
        tree_wf(
            ns.update(k, Some(mk_leaf(es.len() as int, cx, cy, ext, r))),
            es.push(elem),
            ext0,
        ),
{
    let en = es.len() as int;
    let leaf = mk_leaf::<U>(en, cx, cy, ext, r);
    let ns2 = ns.update(k, Some(leaf));
    let es2 = es.push(elem);
    assert(leaf.position.x as int == cx);
    assert(leaf.position.y as int == cy);
    assert(leaf.extent as int == ext);
    assert(leaf.region@ == r);
    assert((leaf.child_key->Element_0).0 as int == en);

    assert(root_ok(ns2, ext0)) by {
        if slot_full(ns2, 0) {
            if k == 0 {
            } else {
                assert(node_of(ns2, 0) == node_of(ns, 0));
            }
        }
    }
    assert(blocks_ok(ns2)) by {
        assert forall|i: int| is_twig(ns2, i) implies block_ok(ns2, i) by {
            assert(i != k);
            assert(is_twig(ns, i));
            assert(block_ok(ns, i));
        }
    }
    assert forall|i: int| slot_full(ns2, i) implies node_geom_ok(ns2, es2, ext0, i) by {
        if i == k {
            assert(es2[en] == elem);
            assert(in_rect(leaf.region@, es2[en].spec_position()));
        } else {
            assert(slot_full(ns, i));
            assert(node_geom_ok(ns, es, ext0, i));
            let n = node_of(ns, i);
            assert(node_of(ns2, i) == n);
            match n.child_key {
                QuadtreeChild::Element(e) => {
                    assert(es2[e.0 as int] == es[e.0 as int]);
                },
                QuadtreeChild::Node(_) => {
                    assert(block_ok(ns, i));
                    assert forall|q: Quadrant| #[trigger] q.spec_index() >= 0 implies
                        child_geom_ok(ns2, n, q) by {
                        let j = twig_block(ns, i) + q.spec_index();
                        assert(child_geom_ok(ns, n, q));
                        if j == k {
                            lemma_owner_dictates(ns, es, ext0, i, q, k, cx, cy, ext, r);
                        } else {
                            if slot_full(ns2, j) {
                                assert(node_of(ns2, j) == node_of(ns, j));
                            }
                        }
                    }
                    assert(Quadrant::NE.spec_index() >= 0);
                    assert(Quadrant::NW.spec_index() >= 0);
                    assert(Quadrant::SE.spec_index() >= 0);
                    assert(Quadrant::SW.spec_index() >= 0);
                },
            }
        }
    }
    assert(owners_ok(ns2)) by {
        assert forall|j: int| 1 <= j < ns2.len() implies owned(ns2, j) by {
            assert(owned(ns, j));
            let pp = choose|pp: int| owns(ns, pp, j);
            assert(pp != k);
            assert(node_of(ns2, pp) == node_of(ns, pp));
            assert(owns(ns2, pp, j));
        }
        assert forall|p1: int, p2: int|
            is_twig(ns2, p1) && is_twig(ns2, p2) && twig_block(ns2, p1) == twig_block(ns2, p2)
            implies p1 == p2 by {
            assert(p1 != k && p2 != k);
            assert(is_twig(ns, p1) && is_twig(ns, p2));
            assert(twig_block(ns, p1) == twig_block(ns, p2));
        }
    }
    assert forall|e: int| 0 <= e < es2.len() implies has_leaf(ns2, e) by {
        if e < es.len() {
            assert(has_leaf(ns, e));
            let i = choose|i: int| is_leaf_for(ns, i, e);
            assert(i != k);
            assert(node_of(ns2, i) == node_of(ns, i));
            assert(is_leaf_for(ns2, i, e));
        } else {
            assert(is_leaf_for(ns2, k, e));
        }
    }
    assert forall|i1: int, i2: int|
        is_leaf(ns2, i1) && is_leaf(ns2, i2) && leaf_elem(ns2, i1) == leaf_elem(ns2, i2)
        implies i1 == i2 by {
        if i1 != k && i2 != k {
            assert(is_leaf(ns, i1) && is_leaf(ns, i2));
            assert(leaf_elem(ns, i1) == leaf_elem(ns, i2));
        } else if i1 == k && i2 != k {
            assert(is_leaf(ns, i2));
            assert(node_geom_ok(ns, es, ext0, i2));
            assert(leaf_elem(ns, i2) < es.len());
        } else if i1 != k && i2 == k {
            assert(is_leaf(ns, i1));
            assert(node_geom_ok(ns, es, ext0, i1));
            assert(leaf_elem(ns, i1) < es.len());
        }
    }
    assert(tree_wf(ns2, es2, ext0));
}

} // verus!

verus! {

/// Everything `spec_split` needs of the arena, the elements, and the chain
/// spot `k` it is about to convert: the tree is well-formed except that the
/// existing element `e0` and the new element `e1` have no leaf (apart from
/// `k` itself possibly being `e0`'s leaf), and the carried geometry of `k` is
/// the path-dictated one with both positions inside its region.
pub open spec fn pre_split<T: Positioned, U: TreeData>(
    ns: Seq<Option<QuadtreeNode<U>>>,
    es: Seq<T>,
    ext0: int,
    k: int,
    cx: int,
    cy: int,
    ext: int,
    r: Rect,
    e0: int,
    e1: int,
) -> bool {
    &&& 1 <= ns.len()
    &&& ns.len() % 4 == 1
    &&& 0 < ext0 <= EXTENT_LIMIT as int
    &&& es.len() <= usize::MAX
    &&& 0 <= e0 < es.len()
    &&& 0 <= e1 < es.len()
    &&& e0 != e1
    &&& root_ok(ns, ext0)
    &&& blocks_ok(ns)
    &&& (forall|i: int| slot_full(ns, i) ==> node_geom_ok(ns, es, ext0, i))
    &&& owners_ok(ns)
    &&& (forall|i1: int, i2: int|
        is_leaf(ns, i1) && is_leaf(ns, i2) && leaf_elem(ns, i1) == leaf_elem(ns, i2)
            ==> i1 == i2)
    &&& (forall|i: int|
        is_leaf(ns, i) && i != k ==> leaf_elem(ns, i) != e0 && leaf_elem(ns, i) != e1)
    &&& (slot_full(ns, k) ==> is_leaf_for(ns, k, e0))
    &&& (forall|e: int| 0 <= e < es.len() && e != e0 && e != e1 ==> has_leaf(ns, e))
    &&& 0 <= k < ns.len()
    &&& spot_dictated(ns, ext0, k, cx, cy, ext, r)
    &&& spot_bounds(ext0, cx, cy, ext)
    &&& rect_brackets(r, cx, cy, ext)
    &&& spot_matches_slot(ns, k, cx, cy, ext, r)
    &&& in_rect(r, es[e0].spec_position())
    &&& in_rect(r, es[e1].spec_position())
}

/// State after one level of splitting: slot `k` has become a twig whose fresh
/// block of four empty slots sits at the end of the arena, and all other
/// well-formedness facts still hold, with `e0` and `e1` having no leaf at all.
pub open spec fn mid_split<T: Positioned, U: TreeData>(
    ns1: Seq<Option<QuadtreeNode<U>>>,
    es: Seq<T>,
    ext0: int,
    k: int,
    cx: int,
    cy: int,
    ext: int,
    r: Rect,
    e0: int,
    e1: int,
) -> bool {
    let b = ns1.len() - 4;
    &&& 5 <= ns1.len()
    &&& ns1.len() % 4 == 1
    &&& 0 < ext0 <= EXTENT_LIMIT as int
    &&& es.len() <= usize::MAX
    &&& 0 <= e0 < es.len()
    &&& 0 <= e1 < es.len()
    &&& e0 != e1
    &&& 0 <= k < b
    &&& is_twig(ns1, k)
    &&& twig_block(ns1, k) == b
    &&& node_of(ns1, k).position.x as int == cx
    &&& node_of(ns1, k).position.y as int == cy
    &&& node_of(ns1, k).extent as int == ext
    &&& node_of(ns1, k).region@ == r
    &&& ns1[b] is None
    &&& ns1[b + 1] is None
    &&& ns1[b + 2] is None
    &&& ns1[b + 3] is None
    &&& root_ok(ns1, ext0)
    &&& blocks_ok(ns1)
    &&& (forall|i: int| slot_full(ns1, i) ==> node_geom_ok(ns1, es, ext0, i))
    &&& owners_ok(ns1)
    &&& (forall|i1: int, i2: int|
        is_leaf(ns1, i1) && is_leaf(ns1, i2) && leaf_elem(ns1, i1) == leaf_elem(ns1, i2)
            ==> i1 == i2)
    &&& (forall|i: int| is_leaf(ns1, i) ==> leaf_elem(ns1, i) != e0 && leaf_elem(ns1, i) != e1)
    &&& (forall|e: int| 0 <= e < es.len() && e != e0 && e != e1 ==> has_leaf(ns1, e))
    &&& spot_bounds(ext0, cx, cy, ext)
    &&& rect_brackets(r, cx, cy, ext)
    &&& in_rect(r, es[e0].spec_position())
    &&& in_rect(r, es[e1].spec_position())
}

/// Converting the chain spot into a twig with a fresh empty block preserves
/// all split-time facts.
#[verifier::rlimit(60)]
proof fn lemma_split_level<T: Positioned, U: TreeData>(
    ns: Seq<Option<QuadtreeNode<U>>>,
    es: Seq<T>,
    ext0: int,
    k: int,
    cx: int,
    cy: int,
    ext: int,
    r: Rect,
    e0: int,
    e1: int,
)
    requires
        pre_split(ns, es, ext0, k, cx, cy, ext, r, e0, e1),
        ns.len() + 4 <= usize::MAX,
    ensures
        mid_split(
            ns.update(k, Some(mk_twig(ns.len() as int, cx, cy, ext, r))).push(None).push(
                None,
            ).push(None).push(None),
            es,
            ext0,
            k,
            cx,
            cy,
            ext,
            r,
            e0,
            e1,
        ),
{
    let b = ns.len() as int;
    let twig = mk_twig::<U>(b, cx, cy, ext, r);
    let ns1 = ns.update(k, Some(twig)).push(None).push(None).push(None).push(None);
    assert(twig.position.x as int == cx);
    assert(twig.position.y as int == cy);
    assert(twig.extent as int == ext);
    assert(twig.region@ == r);
    assert((twig.child_key->Node_0).0 as int == b);
    assert(ns1.len() == ns.len() + 4);
    assert(ns1[k] == Some(twig));
    assert(is_twig(ns1, k));
    assert(twig_block(ns1, k) == b);
    assert forall|j: int| 0 <= j < ns.len() && j != k implies ns1[j] == ns[j] by {}
    assert(ns1[b] is None);
    assert(ns1[b + 1] is None);
    assert(ns1[b + 2] is None);
    assert(ns1[b + 3] is None);
    assert(block_ok(ns1, k));

    assert(root_ok(ns1, ext0)) by {
        if slot_full(ns1, 0) {
            if k == 0 {
                assert(spot_dictated(ns, ext0, 0, cx, cy, ext, r));
            } else {
                assert(node_of(ns1, 0) == node_of(ns, 0));
            }
        }
    }
    assert(blocks_ok(ns1)) by {
        assert forall|i: int| is_twig(ns1, i) implies block_ok(ns1, i) by {
            if i == k {
            } else if 0 <= i < ns.len() {
                assert(is_twig(ns, i));
                assert(block_ok(ns, i));
            }
        }
    }
    assert forall|i: int| slot_full(ns1, i) implies node_geom_ok(ns1, es, ext0, i) by {
        if i == k {
            assert(child_geom_ok(ns1, twig, Quadrant::NE));
            assert(child_geom_ok(ns1, twig, Quadrant::NW));
            assert(child_geom_ok(ns1, twig, Quadrant::SE));
            assert(child_geom_ok(ns1, twig, Quadrant::SW));
        } else {
            assert(0 <= i < ns.len());
            assert(slot_full(ns, i));
            assert(node_geom_ok(ns, es, ext0, i));
            let n = node_of(ns, i);
            assert(node_of(ns1, i) == n);
            if n.child_key is Node {
                assert(block_ok(ns, i));
                assert forall|q: Quadrant| #[trigger] q.spec_index() >= 0 implies
                    child_geom_ok(ns1, n, q) by {
                    let j = twig_block(ns, i) + q.spec_index();
                    assert(0 <= q.spec_index() < 4);
                    assert(child_geom_ok(ns, n, q));
                    if j == k {
                        lemma_owner_dictates(ns, es, ext0, i, q, k, cx, cy, ext, r);
                    } else {
                        assert(j < ns.len());
                        if slot_full(ns1, j) {
                            assert(node_of(ns1, j) == node_of(ns, j));
                        }
                    }
                }
                assert(Quadrant::NE.spec_index() >= 0);
                assert(Quadrant::NW.spec_index() >= 0);
                assert(Quadrant::SE.spec_index() >= 0);
                assert(Quadrant::SW.spec_index() >= 0);
            }
        }
    }
    assert(owners_ok(ns1)) by {
        assert forall|j: int| 1 <= j < ns1.len() implies owned(ns1, j) by {
            if j < ns.len() {
                assert(owned(ns, j));
                let pp = choose|pp: int| owns(ns, pp, j);
                assert(pp != k);
                assert(node_of(ns1, pp) == node_of(ns, pp));
                assert(owns(ns1, pp, j));
            } else {
                assert(owns(ns1, k, j));
            }
        }
        assert forall|x1: int, x2: int|
            is_twig(ns1, x1) && is_twig(ns1, x2) && twig_block(ns1, x1) == twig_block(ns1, x2)
            implies x1 == x2 by {
            if x1 != k && x2 != k {
                assert(is_twig(ns, x1) && is_twig(ns, x2));
                assert(twig_block(ns, x1) == twig_block(ns, x2));
            } else if x1 == k && x2 != k {
                assert(is_twig(ns, x2));
                assert(block_ok(ns, x2));
                assert(twig_block(ns, x2) + 4 <= b);
            } else if x1 != k && x2 == k {
                assert(is_twig(ns, x1));
                assert(block_ok(ns, x1));
                assert(twig_block(ns, x1) + 4 <= b);
            }
        }
    }
    assert forall|i1: int, i2: int|
        is_leaf(ns1, i1) && is_leaf(ns1, i2) && leaf_elem(ns1, i1) == leaf_elem(ns1, i2)
        implies i1 == i2 by {
        assert(i1 != k && i2 != k);
        if 0 <= i1 < ns.len() && 0 <= i2 < ns.len() {
            assert(is_leaf(ns, i1) && is_leaf(ns, i2));
            assert(leaf_elem(ns, i1) == leaf_elem(ns, i2));
        }
    }
    assert forall|i: int| is_leaf(ns1, i) implies leaf_elem(ns1, i) != e0 && leaf_elem(ns1, i)
        != e1 by {
        assert(i != k);
        assert(is_leaf(ns, i));
    }
    assert forall|e: int| 0 <= e < es.len() && e != e0 && e != e1 implies has_leaf(ns1, e) by {
        assert(has_leaf(ns, e));
        let i = choose|i: int| is_leaf_for(ns, i, e);
        assert(i != k);
        assert(node_of(ns1, i) == node_of(ns, i));
        assert(is_leaf_for(ns1, i, e));
    }
}

} // verus!

verus! {

/// When the two elements classify into different quadrants of the fresh twig,
/// writing their leaves into its block yields a well-formed tree.
#[verifier::rlimit(80)]
proof fn lemma_split_base<T: Positioned, U: TreeData>(
    ns1: Seq<Option<QuadtreeNode<U>>>,
    es: Seq<T>,
    ext0: int,
    k: int,
    cx: int,
    cy: int,
    ext: int,
    r: Rect,
    e0: int,
    e1: int,
)
    requires
        mid_split(ns1, es, ext0, k, cx, cy, ext, r, e0, e1),
        Quadrant::spec_classify(
            Vec2 { x: cx as i64, y: cy as i64 },
            es[e0].spec_position(),
        ) != Quadrant::spec_classify(
            Vec2 { x: cx as i64, y: cy as i64 },
            es[e1].spec_position(),
        ),
    ensures
        ({
            let b = ns1.len() - 4;
            let c = Vec2 { x: cx as i64, y: cy as i64 };
            let q0 = Quadrant::spec_classify(c, es[e0].spec_position());
            let q1 = Quadrant::spec_classify(c, es[e1].spec_position());
            let ns2 = ns1.update(
                b + q0.spec_index(),
                Some(
                    mk_leaf(
                        e0,
                        child_center_x(c, ext, q0),
                        child_center_y(c, ext, q0),
                        ext / 2,
                        quadrant_rect(r, c, q0),
                    ),
                ),
            ).update(
                b + q1.spec_index(),
                Some(
                    mk_leaf(
                        e1,
                        child_center_x(c, ext, q1),
                        child_center_y(c, ext, q1),
                        ext / 2,
                        quadrant_rect(r, c, q1),
                    ),
                ),
            );
            tree_wf(ns2, es, ext0)
        }),
{
    let b = ns1.len() - 4;
    let c = Vec2 { x: cx as i64, y: cy as i64 };
    let p0 = es[e0].spec_position();
    let p1 = es[e1].spec_position();
    let q0 = Quadrant::spec_classify(c, p0);
    let q1 = Quadrant::spec_classify(c, p1);
    let ext2 = ext / 2;
    let ka = b + q0.spec_index();
    let kb = b + q1.spec_index();
    let ccx0 = child_center_x(c, ext, q0);
    let ccy0 = child_center_y(c, ext, q0);
    let ccx1 = child_center_x(c, ext, q1);
    let ccy1 = child_center_y(c, ext, q1);
    let leaf0 = mk_leaf::<U>(e0, ccx0, ccy0, ext2, quadrant_rect(r, c, q0));
    let leaf1 = mk_leaf::<U>(e1, ccx1, ccy1, ext2, quadrant_rect(r, c, q1));
    let ns2 = ns1.update(ka, Some(leaf0)).update(kb, Some(leaf1));
    let twig = node_of(ns1, k);

    assert(0 <= q0.spec_index() < 4);
    assert(0 <= q1.spec_index() < 4);
    assert(q0.spec_index() != q1.spec_index());
    assert(ka != kb);
    assert(ka != k && kb != k);
    assert(ext2 + ext2 <= ext);
    assert(twig.position == c);
    assert(block_ok(ns1, k));
    crate::geom::lemma_classify_refines(r, c, p0, q0);
    crate::geom::lemma_classify_refines(r, c, p1, q1);
    assert(leaf0.position.x as int == ccx0 && leaf0.position.y as int == ccy0);
    assert(leaf1.position.x as int == ccx1 && leaf1.position.y as int == ccy1);
    assert(leaf0.extent as int == ext2 && leaf1.extent as int == ext2);
    assert((leaf0.child_key->Element_0).0 as int == e0);
    assert((leaf1.child_key->Element_0).0 as int == e1);
    assert(ns2.len() == ns1.len());
    assert forall|j: int| 0 <= j < ns1.len() && j != ka && j != kb implies ns2[j] == ns1[j] by {}

    assert(root_ok(ns2, ext0)) by {
        if slot_full(ns2, 0) {
            assert(node_of(ns2, 0) == node_of(ns1, 0));
        }
    }
    assert(blocks_ok(ns2)) by {
        assert forall|i: int| is_twig(ns2, i) implies block_ok(ns2, i) by {
            assert(i != ka && i != kb);
            assert(is_twig(ns1, i));
            assert(block_ok(ns1, i));
        }
    }
    assert forall|i: int| slot_full(ns2, i) implies node_geom_ok(ns2, es, ext0, i) by {
        if i == ka {
            assert(in_rect(leaf0.region@, es[e0].spec_position()));
        } else if i == kb {
            assert(in_rect(leaf1.region@, es[e1].spec_position()));
        } else {
            assert(slot_full(ns1, i));
            assert(node_geom_ok(ns1, es, ext0, i));
            let n = node_of(ns1, i);
            assert(node_of(ns2, i) == n);
            if n.child_key is Node {
                assert(block_ok(ns1, i));
                assert forall|q: Quadrant| #[trigger] q.spec_index() >= 0 implies
                    child_geom_ok(ns2, n, q) by {
                    let j = twig_block(ns1, i) + q.spec_index();
                    assert(0 <= q.spec_index() < 4);
                    assert(child_geom_ok(ns1, n, q));
                    if j == ka || j == kb {
                        if i != k {
                            assert(is_twig(ns1, i) && is_twig(ns1, k));
                            assert(twig_block(ns1, i) != b);
                            lemma_block_unique(twig_block(ns1, i), b, j);
                            assert(false);
                        }
                        assert(n == twig);
                        if j == ka {
                            assert(q.spec_index() == q0.spec_index());
                            assert(q == q0);
                        } else {
                            assert(q.spec_index() == q1.spec_index());
                            assert(q == q1);
                        }
                    } else {
                        if slot_full(ns2, j) {
                            assert(node_of(ns2, j) == node_of(ns1, j));
                        }
                    }
                }
                assert(Quadrant::NE.spec_index() >= 0);
                assert(Quadrant::NW.spec_index() >= 0);
                assert(Quadrant::SE.spec_index() >= 0);
                assert(Quadrant::SW.spec_index() >= 0);
            }
        }
    }
    assert(owners_ok(ns2)) by {
        assert forall|j: int| 1 <= j < ns2.len() implies owned(ns2, j) by {
            assert(owned(ns1, j));
            let pp = choose|pp: int| owns(ns1, pp, j);
            assert(pp != ka && pp != kb);
            assert(node_of(ns2, pp) == node_of(ns1, pp));
            assert(owns(ns2, pp, j));
        }
        assert forall|x1: int, x2: int|
            is_twig(ns2, x1) && is_twig(ns2, x2) && twig_block(ns2, x1) == twig_block(ns2, x2)
            implies x1 == x2 by {
            assert(x1 != ka && x1 != kb && x2 != ka && x2 != kb);
            assert(is_twig(ns1, x1) && is_twig(ns1, x2));
            assert(twig_block(ns1, x1) == twig_block(ns1, x2));
        }
    }
    assert forall|e: int| 0 <= e < es.len() implies has_leaf(ns2, e) by {
        if e == e0 {
            assert(is_leaf_for(ns2, ka, e0));
        } else if e == e1 {
            assert(is_leaf_for(ns2, kb, e1));
        } else {
            assert(has_leaf(ns1, e));
            let i = choose|i: int| is_leaf_for(ns1, i, e);
            assert(i != ka && i != kb);
            assert(node_of(ns2, i) == node_of(ns1, i));
            assert(is_leaf_for(ns2, i, e));
        }
    }
    assert forall|i1: int, i2: int|
        is_leaf(ns2, i1) && is_leaf(ns2, i2) && leaf_elem(ns2, i1) == leaf_elem(ns2, i2)
        implies i1 == i2 by {
        if i1 != ka && i1 != kb && i2 != ka && i2 != kb {
            assert(is_leaf(ns1, i1) && is_leaf(ns1, i2));
            assert(leaf_elem(ns1, i1) == leaf_elem(ns1, i2));
        } else if i1 == ka && i2 != ka && i2 != kb {
            assert(is_leaf(ns1, i2));
            assert(leaf_elem(ns1, i2) != e0);
        } else if i1 == kb && i2 != ka && i2 != kb {
            assert(is_leaf(ns1, i2));
            assert(leaf_elem(ns1, i2) != e1);
        } else if i2 == ka && i1 != ka && i1 != kb {
            assert(is_leaf(ns1, i1));
            assert(leaf_elem(ns1, i1) != e0);
        } else if i2 == kb && i1 != ka && i1 != kb {
            assert(is_leaf(ns1, i1));
            assert(leaf_elem(ns1, i1) != e1);
        }
    }
    assert(tree_wf(ns2, es, ext0));
}

/// When the two elements classify into the same quadrant of the fresh twig,
/// that child slot is a valid chain spot one level deeper.
proof fn lemma_split_recurse<T: Positioned, U: TreeData>(
    ns1: Seq<Option<QuadtreeNode<U>>>,
    es: Seq<T>,
    ext0: int,
    k: int,
    cx: int,
    cy: int,
    ext: int,
    r: Rect,
    e0: int,
    e1: int,
)
    requires
        mid_split(ns1, es, ext0, k, cx, cy, ext, r, e0, e1),
        Quadrant::spec_classify(
            Vec2 { x: cx as i64, y: cy as i64 },
            es[e0].spec_position(),
        ) == Quadrant::spec_classify(
            Vec2 { x: cx as i64, y: cy as i64 },
            es[e1].spec_position(),
        ),
    ensures
        ({
            let b = ns1.len() - 4;
            let c = Vec2 { x: cx as i64, y: cy as i64 };
            let q0 = Quadrant::spec_classify(c, es[e0].spec_position());
            pre_split(
                ns1,
                es,
                ext0,
                b + q0.spec_index(),
                child_center_x(c, ext, q0),
                child_center_y(c, ext, q0),
                ext / 2,
                quadrant_rect(r, c, q0),
                e0,
                e1,
            )
        }),
{
    let b = ns1.len() - 4;
    let c = Vec2 { x: cx as i64, y: cy as i64 };
    let p0 = es[e0].spec_position();
    let p1 = es[e1].spec_position();
    let q0 = Quadrant::spec_classify(c, p0);
    let kc = b + q0.spec_index();
    let ccx = child_center_x(c, ext, q0);
    let ccy = child_center_y(c, ext, q0);
    let ext2 = ext / 2;
    let rc = quadrant_rect(r, c, q0);
    let twig = node_of(ns1, k);
    assert(0 <= q0.spec_index() < 4);
    assert(twig.position == c);
    assert(dictated_by(ns1, k, q0, kc, ccx, ccy, ext2, rc));
    assert(kc != 0);
    assert(spot_dictated(ns1, ext0, kc, ccx, ccy, ext2, rc));
    assert(ext2 + ext2 <= ext);
    assert(spot_bounds(ext0, ccx, ccy, ext2));
    assert(!slot_full(ns1, kc));
    crate::geom::lemma_classify_refines(r, c, p0, q0);
    crate::geom::lemma_classify_refines(r, c, p1, q0);
}

/// `spec_split` succeeds exactly when the two elements separate within the
/// fuel, adds four slots per level, and on success yields a well-formed tree.
proof fn lemma_split_wf<T: Positioned, U: TreeData>(
    ns: Seq<Option<QuadtreeNode<U>>>,
    es: Seq<T>,
    ext0: int,
    k: int,
    cx: int,
    cy: int,
    ext: int,
    r: Rect,
    e0: int,
    e1: int,
    fuel: int,
)
    requires
        pre_split(ns, es, ext0, k, cx, cy, ext, r, e0, e1),
        ns.len() + 4 * fuel <= usize::MAX,
    ensures
        ({
            let p0 = es[e0].spec_position();
            let p1 = es[e1].spec_position();
            let res = spec_split::<U>(ns, k, cx, cy, ext, r, e0, p0, e1, p1, fuel);
            &&& (res is Ok <==> sep_ok(cx, cy, ext, p0, p1, fuel))
            &&& (res is Ok ==> tree_wf(res->Ok_0, es, ext0) && ns.len() <= res->Ok_0.len()
                <= ns.len() + 4 * fuel)
            &&& (res is Err ==> res->Err_0 == QuadtreeError::DepthExceeded)
        }),
    decreases fuel,
{
    let p0 = es[e0].spec_position();
    let p1 = es[e1].spec_position();
    if fuel <= 0 {
        return ;
    }
    let b = ns.len() as int;
    let ns1 = ns.update(k, Some(mk_twig(b, cx, cy, ext, r))).push(None).push(None).push(
        None,
    ).push(None);
    let c = Vec2 { x: cx as i64, y: cy as i64 };
    let q0 = Quadrant::spec_classify(c, p0);
    let q1 = Quadrant::spec_classify(c, p1);
    lemma_split_level(ns, es, ext0, k, cx, cy, ext, r, e0, e1);
    assert(ns1.len() == ns.len() + 4);
    if q0 != q1 {
        lemma_split_base(ns1, es, ext0, k, cx, cy, ext, r, e0, e1);
    } else {
        let kc = (ns1.len() - 4) + q0.spec_index();
        lemma_split_recurse(ns1, es, ext0, k, cx, cy, ext, r, e0, e1);
        lemma_split_wf::<T, U>(
            ns1,
            es,
            ext0,
            kc,
            child_center_x(c, ext, q0),
            child_center_y(c, ext, q0),
            ext / 2,
            quadrant_rect(r, c, q0),
            e0,
            e1,
            fuel - 1,
        );
    }
}

} // verus!

verus! {

/// `spec_split` succeeds exactly when the two positions separate within the
/// fuel, and its only error is `DepthExceeded`. Purely structural: no
/// well-formedness needed.
pub proof fn lemma_split_sep<U: TreeData>(
    ns: Seq<Option<QuadtreeNode<U>>>,
    k: int,
    cx: int,
    cy: int,
    ext: int,
    r: Rect,
    e0: int,
    p0: Vec2,
    e1: int,
    p1: Vec2,
    fuel: int,
)
    ensures
        ({
            let res = spec_split::<U>(ns, k, cx, cy, ext, r, e0, p0, e1, p1, fuel);
            &&& (res is Ok <==> sep_ok(cx, cy, ext, p0, p1, fuel))
            &&& (res is Err ==> res->Err_0 == QuadtreeError::DepthExceeded)
        }),
    decreases fuel,
{
    if fuel <= 0 {
    } else {
        let b = ns.len() as int;
        let ns1 = ns.update(k, Some(mk_twig(b, cx, cy, ext, r))).push(None).push(None).push(
            None,
        ).push(None);
        let c = Vec2 { x: cx as i64, y: cy as i64 };
        let q0 = Quadrant::spec_classify(c, p0);
        let q1 = Quadrant::spec_classify(c, p1);
        if q0 != q1 {
        } else {
            lemma_split_sep::<U>(
                ns1,
                b + q0.spec_index(),
                child_center_x(c, ext, q0),
                child_center_y(c, ext, q0),
                ext / 2,
                quadrant_rect(r, c, q0),
                e0,
                p0,
                e1,
                p1,
                fuel - 1,
            );
        }
    }
}

/// Halve a nonnegative extent.
fn half_extent(e: i64) -> (r: i64)
    requires
        0 <= e,
    ensures
        r as int == e as int / 2,
{
    (e as u64 / 2) as i64
}

impl<T: Positioned, U: TreeData> Quadtree<T, U> {
    /// Insert an element into the tree.
    ///
    /// The position must lie within `[-extent, extent]` on both axes, else
    /// the element is rejected with `OutOfBounds`. If the element shares a
    /// region with an existing one, the region is subdivided until they
    /// separate; should that take more than `MAX_DEPTH` levels (coincident or
    /// nearly coincident points), insertion fails with `DepthExceeded`. On
    /// failure the tree is unchanged. On success the element arena gains
    /// exactly this element and the node arena becomes exactly what
    /// `spec_insert` describes, so insertion is a function of the tree's
    /// state and the inserted position.
    pub fn insert(&mut self, element: T) -> (res: Result<(), QuadtreeError>)
        requires
            old(self).inv(),
            old(self).elements_view().len() < usize::MAX,
            old(self).nodes_view().len() + 4 * (MAX_DEPTH as int) + 4 <= usize::MAX,
        ensures
            final(self).inv(),
            final(self).spec_extent() == old(self).spec_extent(),
            match res {
                Ok(()) => {
                    &&& final(self).elements_view() == old(self).elements_view().push(element)
                    &&& Ok::<Seq<Option<QuadtreeNode<U>>>, QuadtreeError>(
                        final(self).nodes_view(),
                    ) == spec_insert(
                        old(self).nodes_view(),
                        old(self).elements_view(),
                        old(self).spec_extent(),
                        element.spec_position(),
                    )
                    &&& final(self).nodes_view().len() <= old(self).nodes_view().len() + 4 * (
                    MAX_DEPTH as int)
                },
                Err(e) => {
                    &&& final(self).nodes_view() == old(self).nodes_view()
                    &&& final(self).elements_view() == old(self).elements_view()
                    &&& spec_insert::<T, U>(
                        old(self).nodes_view(),
                        old(self).elements_view(),
                        old(self).spec_extent(),
                        element.spec_position(),
                    ) == Err::<Seq<Option<QuadtreeNode<U>>>, QuadtreeError>(e)
                    &&& (e == QuadtreeError::OutOfBounds <==> !pos_in_bounds(
                        element.spec_position(),
                        old(self).spec_extent(),
                    ))
                    &&& (e == QuadtreeError::OutOfBounds || e == QuadtreeError::DepthExceeded)
                },
            },
    {
        let ghost ns0 = self.nodes@;
        let ghost es0 = self.elements@;
        let ghost ext0 = self.extent as int;
        let p = element.position();
        let extent = self.extent;
        if p.x < -extent || p.x > extent || p.y < -extent || p.y > extent {
            return Err(QuadtreeError::OutOfBounds);
        }

        // Descend to the spot where the position belongs.
        let mut k: usize = 0;
        let mut cen = Vec2::new(0, 0);
        let mut ext = extent;
        let ghost mut reg = root_rect(ext0);
        let mut depth: usize = 0;
        proof {
            assert(spot_dictated(ns0, ext0, 0, 0, 0, ext0, root_rect(ext0)));
            assert(in_rect(root_rect(ext0), p));
        }
        loop
            invariant
                self.nodes@ == ns0,
                self.elements@ == es0,
                self.extent as int == ext0,
                tree_wf(ns0, es0, ext0),
                0 < ext0 <= EXTENT_LIMIT as int,
                es0.len() < usize::MAX,
                ns0.len() + 4 * (MAX_DEPTH as int) + 4 <= usize::MAX,
                k < ns0.len(),
                spot_ok(ns0, ext0, k as int, cen.x as int, cen.y as int, ext as int, reg, p),
                spec_descend(
                    ns0,
                    p,
                    k as int,
                    cen.x as int,
                    cen.y as int,
                    ext as int,
                    reg,
                    depth as int,
                ) == start_spot(ns0, ext0, p),
                depth <= k,
                p == element.spec_position(),
                pos_in_bounds(p, ext0),
            ensures
                self.nodes@ == ns0,
                self.elements@ == es0,
                self.extent as int == ext0,
                k < ns0.len(),
                !is_twig(ns0, k as int),
                spot_ok(ns0, ext0, k as int, cen.x as int, cen.y as int, ext as int, reg, p),
                start_spot(ns0, ext0, p) == (DescentSpot {
                    slot: k as int,
                    cx: cen.x as int,
                    cy: cen.y as int,
                    ext: ext as int,
                    rect: reg,
                    depth: depth as int,
                }),
                depth <= k,
            decreases ns0.len() - k,
        {
            let n_opt = *self.nodes.get(k);
            match n_opt {
                Some(n) => {
                    match n.child_key {
                        QuadtreeChild::Node(bk) => {
                            proof {
                                assert(is_twig(ns0, k as int));
                                assert(node_geom_ok(ns0, es0, ext0, k as int));
                                assert(block_ok(ns0, k as int));
                                lemma_descend_step(
                                    ns0,
                                    es0,
                                    ext0,
                                    k as int,
                                    cen.x as int,
                                    cen.y as int,
                                    ext as int,
                                    reg,
                                    p,
                                );
                            }
                            let q = Quadrant::from_comparison(n.position, p);
                            let newk = bk.0 + q.index();
                            proof {
                                reg = quadrant_rect(n.region@, n.position, q);
                            }
                            cen = q.apply_offset(n.position, n.extent);
                            ext = half_extent(n.extent);
                            depth = depth + 1;
                            k = newk;
                        },
                        QuadtreeChild::Element(_) => {
                            break ;
                        },
                    }
                },
                None => {
                    break ;
                },
            }
        }

        let n_opt = *self.nodes.get(k);
        match n_opt {
            None => {
                // Empty spot: write the new element's leaf directly.
                proof {
                    lemma_insert_empty_wf(
                        ns0,
                        es0,
                        ext0,
                        k as int,
                        cen.x as int,
                        cen.y as int,
                        ext as int,
                        reg,
                        element,
                    );
                }
                let en = self.elements.insert(element);
                let node = QuadtreeNode {
                    child_key: QuadtreeChild::Element(ElementKey(en)),
                    position: cen,
                    extent: ext,
                    data: U::empty_value(),
                    region: Ghost(reg),
                };
                self.nodes.set(k, Some(node));
                proof {
                    assert(node == mk_leaf::<U>(
                        es0.len() as int,
                        cen.x as int,
                        cen.y as int,
                        ext as int,
                        reg,
                    ));
                    assert(self.nodes@ == ns0.update(
                        k as int,
                        Some(
                            mk_leaf(es0.len() as int, cen.x as int, cen.y as int, ext as int, reg),
                        ),
                    ));
                }
                Ok(())
            },
            Some(existing) => {
                let ek = match existing.child_key {
                    QuadtreeChild::Element(ek) => ek,
                    QuadtreeChild::Node(_) => {
                        proof {
                            assert(false);
                        }
                        ElementKey(0)
                    },
                };
                let ghost e0 = ek.0 as int;
                proof {
                    assert(node_geom_ok(ns0, es0, ext0, k as int));
                    assert(0 <= e0 < es0.len());
                }
                let p0 = self.elements.get(ek.0).position();
                let ghost fuel0 = MAX_DEPTH - depth as int;

                // Pure pre-check: do the two positions separate in depth?
                let mut scen = cen;
                let mut sext = ext;
                let mut fuel: usize = if depth >= MAX_DEPTH as usize {
                    0
                } else {
                    MAX_DEPTH as usize - depth
                };
                proof {
                    assert(sep_ok(
                        scen.x as int,
                        scen.y as int,
                        sext as int,
                        p0,
                        p,
                        fuel as int,
                    ) == sep_ok(cen.x as int, cen.y as int, ext as int, p0, p, fuel0));
                }
                let mut separated: bool = false;
                loop
                    invariant
                        0 <= sext,
                        -ext0 <= scen.x - sext,
                        scen.x + sext <= ext0,
                        -ext0 <= scen.y - sext,
                        scen.y + sext <= ext0,
                        0 < ext0 <= EXTENT_LIMIT as int,
                        sep_ok(scen.x as int, scen.y as int, sext as int, p0, p, fuel as int)
                            == sep_ok(cen.x as int, cen.y as int, ext as int, p0, p, fuel0),
                    ensures
                        separated == sep_ok(
                            cen.x as int,
                            cen.y as int,
                            ext as int,
                            p0,
                            p,
                            fuel0,
                        ),
                    decreases fuel,
                {
                    if fuel == 0 {
                        separated = false;
                        break ;
                    }
                    let q0 = Quadrant::from_comparison(scen, p0);
                    let q1 = Quadrant::from_comparison(scen, p);
                    if q0.index() != q1.index() {
                        separated = true;
                        break ;
                    }
                    proof {
                        assert(q0 == q1);
                    }
                    let nscen = q0.apply_offset(scen, sext);
                    sext = half_extent(sext);
                    scen = nscen;
                    fuel = fuel - 1;
                }
                if !separated {
                    proof {
                        lemma_split_sep::<U>(
                            ns0,
                            k as int,
                            cen.x as int,
                            cen.y as int,
                            ext as int,
                            reg,
                            e0,
                            p0,
                            es0.len() as int,
                            p,
                            fuel0,
                        );
                    }
                    return Err(QuadtreeError::DepthExceeded);
                }

                // The split succeeds: record the new element, then build the
                // twig chain exactly as `spec_split` describes.
                proof {
                    assert(fuel0 >= 1);
                }
                let en = self.elements.insert(element);
                let ghost es1 = es0.push(element);
                let ghost e1 = es0.len() as int;
                proof {
                    assert(es1[e0] == es0[e0]);
                    assert(es1[e1] == element);
                    assert forall|i: int| slot_full(ns0, i) implies node_geom_ok(
                        ns0,
                        es1,
                        ext0,
                        i,
                    ) by {
                        assert(node_geom_ok(ns0, es0, ext0, i));
                        let n = node_of(ns0, i);
                        if n.child_key is Element {
                            assert(es1[(n.child_key->Element_0).0 as int] == es0[(
                            n.child_key->Element_0).0 as int]);
                        }
                    }
                    assert forall|i: int| is_leaf(ns0, i) && i != k as int implies leaf_elem(
                        ns0,
                        i,
                    ) != e0 && leaf_elem(ns0, i) != e1 by {
                        assert(is_leaf_for(ns0, k as int, e0));
                        assert(node_geom_ok(ns0, es0, ext0, i));
                    }
                    assert(pre_split(
                        ns0,
                        es1,
                        ext0,
                        k as int,
                        cen.x as int,
                        cen.y as int,
                        ext as int,
                        reg,
                        e0,
                        e1,
                    ));
                    lemma_split_wf::<T, U>(
                        ns0,
                        es1,
                        ext0,
                        k as int,
                        cen.x as int,
                        cen.y as int,
                        ext as int,
                        reg,
                        e0,
                        e1,
                        fuel0,
                    );
                }
                let ghost target = spec_split::<U>(
                    ns0,
                    k as int,
                    cen.x as int,
                    cen.y as int,
                    ext as int,
                    reg,
                    e0,
                    p0,
                    e1,
                    p,
                    fuel0,
                )->Ok_0;

                let mut mk = k;
                let mut mcen = cen;
                let mut mext = ext;
                let ghost mut mreg = reg;
                let ghost mut mfuel = fuel0;
                loop
                    invariant_except_break
                        mk < self.nodes@.len(),
                        self.nodes@.len() + 4 * mfuel <= usize::MAX,
                        sep_ok(mcen.x as int, mcen.y as int, mext as int, p0, p, mfuel),
                        spec_split::<U>(
                            self.nodes@,
                            mk as int,
                            mcen.x as int,
                            mcen.y as int,
                            mext as int,
                            mreg,
                            e0,
                            p0,
                            e1,
                            p,
                            mfuel,
                        ) == Ok::<Seq<Option<QuadtreeNode<U>>>, QuadtreeError>(target),
                    invariant
                        self.elements@ == es1,
                        self.extent as int == ext0,
                        0 <= sext,
                        -ext0 <= mcen.x - mext,
                        mcen.x + mext <= ext0,
                        -ext0 <= mcen.y - mext,
                        mcen.y + mext <= ext0,
                        0 <= mext,
                        0 < ext0 <= EXTENT_LIMIT as int,
                        es1.len() <= usize::MAX,
                        0 <= e0 < es1.len(),
                        e1 == es1.len() - 1,
                        ek.0 as int == e0,
                        en as int == e1,
                    ensures
                        self.elements@ == es1,
                        self.extent as int == ext0,
                        self.nodes@ == target,
                    decreases mfuel,
                {
                    proof {
                        assert(mfuel >= 1);
                    }
                    let ghost ns_at = self.nodes@;
                    let b = self.nodes.next_key();
                    let twig = QuadtreeNode {
                        child_key: QuadtreeChild::Node(NodeKey(b)),
                        position: mcen,
                        extent: mext,
                        data: U::empty_value(),
                        region: Ghost(mreg),
                    };
                    self.nodes.set(mk, Some(twig));
                    self.nodes.insert(None);
                    self.nodes.insert(None);
                    self.nodes.insert(None);
                    self.nodes.insert(None);
                    proof {
                        assert(twig == mk_twig::<U>(
                            b as int,
                            mcen.x as int,
                            mcen.y as int,
                            mext as int,
                            mreg,
                        ));
                        assert(self.nodes@ == ns_at.update(
                            mk as int,
                            Some(
                                mk_twig(b as int, mcen.x as int, mcen.y as int, mext as int, mreg),
                            ),
                        ).push(None).push(None).push(None).push(None));
                    }
                    let q0 = Quadrant::from_comparison(mcen, p0);
                    let q1 = Quadrant::from_comparison(mcen, p);
                    let next_cen = q0.apply_offset(mcen, mext);
                    let next_ext = half_extent(mext);
                    if q0.index() != q1.index() {
                        proof {
                            assert(q0 != q1);
                        }
                        let leaf0 = QuadtreeNode {
                            child_key: QuadtreeChild::Element(ElementKey(ek.0)),
                            position: next_cen,
                            extent: next_ext,
                            data: U::empty_value(),
                            region: Ghost(quadrant_rect(mreg, mcen, q0)),
                        };
                        let cen1 = q1.apply_offset(mcen, mext);
                        let leaf1 = QuadtreeNode {
                            child_key: QuadtreeChild::Element(ElementKey(en)),
                            position: cen1,
                            extent: next_ext,
                            data: U::empty_value(),
                            region: Ghost(quadrant_rect(mreg, mcen, q1)),
                        };
                        self.nodes.set(b + q0.index(), Some(leaf0));
                        self.nodes.set(b + q1.index(), Some(leaf1));
                        proof {
                            let c = Vec2 { x: mcen.x as i64, y: mcen.y as i64 };
                            assert(c == mcen);
                            assert(leaf0 == mk_leaf::<U>(
                                e0,
                                child_center_x(c, mext as int, q0),
                                child_center_y(c, mext as int, q0),
                                mext as int / 2,
                                quadrant_rect(mreg, c, q0),
                            ));
                            assert(leaf1 == mk_leaf::<U>(
                                e1,
                                child_center_x(c, mext as int, q1),
                                child_center_y(c, mext as int, q1),
                                mext as int / 2,
                                quadrant_rect(mreg, c, q1),
                            ));
                            assert(self.nodes@ == target);
                        }
                        break ;
                    } else {
                        proof {
                            assert(q0 == q1);
                            mreg = quadrant_rect(mreg, mcen, q0);
                            mfuel = mfuel - 1;
                        }
                        mcen = next_cen;
                        mext = next_ext;
                        mk = b + q0.index();
                    }
                }
                proof {
                    assert(tree_wf(self.nodes@, es1, ext0));
                }
                Ok(())
            },
        }
    }
}

} // verus!

verus! {

/// Slot `i` has the same occupancy and the same node fields in both arenas,
/// except possibly the aggregate payload.
pub open spec fn shape_eq_at<U>(
    ns1: Seq<Option<QuadtreeNode<U>>>,
    ns2: Seq<Option<QuadtreeNode<U>>>,
    i: int,
) -> bool {
    &&& (ns1[i] is Some <==> ns2[i] is Some)
    &&& (ns1[i] is Some ==> {
        let n1 = node_of(ns1, i);
        let n2 = node_of(ns2, i);
        &&& n1.child_key == n2.child_key
        &&& n1.position == n2.position
        &&& n1.extent == n2.extent
        &&& n1.region@ == n2.region@
    })
}

/// The two arenas describe the same tree, differing at most in aggregate
/// payloads.
pub open spec fn same_shape<U>(
    ns1: Seq<Option<QuadtreeNode<U>>>,
    ns2: Seq<Option<QuadtreeNode<U>>>,
) -> bool {
    &&& ns1.len() == ns2.len()
    &&& forall|i: int| 0 <= i < ns1.len() ==> #[trigger] shape_eq_at(ns1, ns2, i)
}

/// Well-formedness only concerns the shape, never the payloads.
pub proof fn lemma_same_shape_wf<T: Positioned, U>(
    ns1: Seq<Option<QuadtreeNode<U>>>,
    ns2: Seq<Option<QuadtreeNode<U>>>,
    es: Seq<T>,
    ext0: int,
)
    requires
        tree_wf(ns1, es, ext0),
        same_shape(ns1, ns2),
    ensures
        tree_wf(ns2, es, ext0),
{
    assert(root_ok(ns2, ext0)) by {
        if slot_full(ns2, 0) {
            assert(shape_eq_at(ns1, ns2, 0));
        }
    }
    assert(blocks_ok(ns2)) by {
        assert forall|i: int| is_twig(ns2, i) implies block_ok(ns2, i) by {
            assert(shape_eq_at(ns1, ns2, i));
            assert(is_twig(ns1, i));
            assert(block_ok(ns1, i));
        }
    }
    assert forall|i: int| slot_full(ns2, i) implies node_geom_ok(ns2, es, ext0, i) by {
        assert(shape_eq_at(ns1, ns2, i));
        assert(slot_full(ns1, i));
        assert(node_geom_ok(ns1, es, ext0, i));
        let n1 = node_of(ns1, i);
        let n2 = node_of(ns2, i);
        if n2.child_key is Node {
            assert(block_ok(ns1, i));
            assert forall|q: Quadrant| #[trigger] q.spec_index() >= 0 implies child_geom_ok(
                ns2,
                n2,
                q,
            ) by {
                assert(0 <= q.spec_index() < 4);
                assert(child_geom_ok(ns1, n1, q));
                let j = twig_block(ns1, i) + q.spec_index();
                if slot_full(ns2, j) {
                    assert(shape_eq_at(ns1, ns2, j));
                }
            }
            assert(Quadrant::NE.spec_index() >= 0);
            assert(Quadrant::NW.spec_index() >= 0);
            assert(Quadrant::SE.spec_index() >= 0);
            assert(Quadrant::SW.spec_index() >= 0);
        }
    }
    assert(owners_ok(ns2)) by {
        assert forall|j: int| 1 <= j < ns2.len() implies owned(ns2, j) by {
            assert(owned(ns1, j));
            let p = choose|p: int| owns(ns1, p, j);
            assert(owns(ns1, p, j));
            assert(shape_eq_at(ns1, ns2, p));
            assert(owns(ns2, p, j));
        }
        assert forall|p1: int, p2: int|
            is_twig(ns2, p1) && is_twig(ns2, p2) && twig_block(ns2, p1) == twig_block(ns2, p2)
            implies p1 == p2 by {
            assert(shape_eq_at(ns1, ns2, p1));
            assert(shape_eq_at(ns1, ns2, p2));
            assert(is_twig(ns1, p1) && is_twig(ns1, p2));
            assert(twig_block(ns1, p1) == twig_block(ns1, p2));
        }
    }
    assert forall|e: int| 0 <= e < es.len() implies has_leaf(ns2, e) by {
        assert(has_leaf(ns1, e));
        let l = choose|l: int| is_leaf_for(ns1, l, e);
        assert(is_leaf_for(ns1, l, e));
        assert(shape_eq_at(ns1, ns2, l));
        assert(is_leaf_for(ns2, l, e));
    }
    assert forall|i1: int, i2: int|
        is_leaf(ns2, i1) && is_leaf(ns2, i2) && leaf_elem(ns2, i1) == leaf_elem(ns2, i2)
        implies i1 == i2 by {
        assert(shape_eq_at(ns1, ns2, i1));
        assert(shape_eq_at(ns1, ns2, i2));
        assert(is_leaf(ns1, i1) && is_leaf(ns1, i2));
        assert(leaf_elem(ns1, i1) == leaf_elem(ns1, i2));
    }
}

impl<T: Positioned, U: TreeData> Quadtree<T, U> {
    /// Overwrite the aggregate payload of the node in slot `key`, leaving
    /// the tree's shape untouched. This is how the aggregator stores each
    /// twig's pseudobody in place.
    pub fn set_node_data(&mut self, key: usize, data: U)
        requires
            old(self).inv(),
            slot_full(old(self).nodes_view(), key as int),
        ensures
            final(self).inv(),
            final(self).spec_extent() == old(self).spec_extent(),
            final(self).elements_view() == old(self).elements_view(),
            final(self).nodes_view() == old(self).nodes_view().update(
                key as int,
                Some(
                    QuadtreeNode {
                        data,
                        ..node_of(old(self).nodes_view(), key as int)
                    },
                ),
            ),
    {
        let node = *self.nodes.get(key);
        match node {
            Some(n) => {
                let updated = QuadtreeNode {
                    child_key: n.child_key,
                    position: n.position,
                    extent: n.extent,
                    data,
                    region: Ghost(n.region@),
                };
                self.nodes.set(key, Some(updated));
                proof {
                    let ns1 = old(self).nodes_view();
                    let ns2 = self.nodes_view();
                    assert(updated == (QuadtreeNode { data, ..node_of(ns1, key as int) }));
                    assert forall|i: int| 0 <= i < ns1.len() implies #[trigger] shape_eq_at(
                        ns1,
                        ns2,
                        i,
                    ) by {}
                    lemma_same_shape_wf(ns1, ns2, self.elements_view(), self.spec_extent());
                }
            },
            None => {
                proof {
                    assert(false);
                }
            },
        }
    }
}

} // verus!

verus! {

/// Clear/rebuild idempotence: insertion's contract pins the resulting views
/// as `spec_insert`, a function of the prior views and the inserted position
/// alone, and `new` and `clear` both pin the views to exactly one empty root
/// slot and no elements. Hence two trees in equal states — one freshly
/// constructed, one cleared after use — change identically under the same
/// insertion, and by induction a rebuild of the same elements in the same
/// order yields equal views, in particular an isomorphic leaf/twig shape.
pub proof fn lemma_rebuild_idempotent<T: Positioned, U: TreeData>(
    ns1: Seq<Option<QuadtreeNode<U>>>,
    es1: Seq<T>,
    ns2: Seq<Option<QuadtreeNode<U>>>,
    es2: Seq<T>,
    ext0: int,
    p: Vec2,
)
    requires
        ns1 == ns2,
        es1 == es2,
    ensures
        spec_insert::<T, U>(ns1, es1, ext0, p) == spec_insert::<T, U>(ns2, es2, ext0, p),
{
}

/// The walk below slot `i`, entered at `depth`, never enters a slot deeper
/// than `MAX_DEPTH`. The walk enters every child slot of each twig it meets
/// (also the empty ones), so this is exactly the condition under which a
/// full pre-order walk succeeds.
pub open spec fn depth_bounded<U>(ns: Seq<Option<QuadtreeNode<U>>>, i: int, depth: int) -> bool
    decreases ns.len() - i
        when blocks_ok(ns) && 0 <= i < ns.len()
        via depth_bounded_decreases::<U>
{
    &&& depth <= MAX_DEPTH
    &&& (is_twig(ns, i) ==> {
        let b = twig_block(ns, i);
        &&& depth_bounded(ns, b, depth + 1)
        &&& depth_bounded(ns, b + 1, depth + 1)
        &&& depth_bounded(ns, b + 2, depth + 1)
        &&& depth_bounded(ns, b + 3, depth + 1)
    })
}

/// The pre-order listing of the occupied nodes below slot `i` at `depth`:
/// each node's center, half-extent and depth, the node before its children,
/// the children in quadrant order.
pub open spec fn preorder_rects<U>(
    ns: Seq<Option<QuadtreeNode<U>>>,
    i: int,
    depth: int,
) -> Seq<(Vec2, i64, u32)>
    decreases ns.len() - i
        when blocks_ok(ns) && 0 <= i < ns.len()
        via preorder_rects_decreases::<U>
{
    if ns[i] is Some {
        let n = node_of(ns, i);
        let head = seq![(n.position, n.extent, depth as u32)];
        if n.child_key is Node {
            let b = twig_block(ns, i);
            head + preorder_rects(ns, b, depth + 1) + preorder_rects(ns, b + 1, depth + 1)
                + preorder_rects(ns, b + 2, depth + 1) + preorder_rects(ns, b + 3, depth + 1)
        } else {
            head
        }
    } else {
        Seq::empty()
    }
}

#[via_fn]
proof fn depth_bounded_decreases<U>(ns: Seq<Option<QuadtreeNode<U>>>, i: int, depth: int) {
    if blocks_ok(ns) && 0 <= i < ns.len() && is_twig(ns, i) {
        assert(block_ok(ns, i));
    }
}

#[via_fn]
proof fn preorder_rects_decreases<U>(ns: Seq<Option<QuadtreeNode<U>>>, i: int, depth: int) {
    if blocks_ok(ns) && 0 <= i < ns.len() && is_twig(ns, i) {
        assert(block_ok(ns, i));
    }
}

/// A visitor for pre-order traversal: receives each node and its depth and
/// decides whether to descend into its children.
pub trait QuadtreeVisitor<U> {
    /// Visit one node; `Stop` prunes this node's subtree, not the whole walk.
    fn visit(&mut self, node: &QuadtreeNode<U>, depth: u32) -> ContinueTraverse;
}

impl<T: Positioned, U: TreeData> Quadtree<T, U> {
    /// Pre-order walk from the root. The visitor receives each full node
    /// (which carries its absolute center position and half-extent) and its
    /// depth, and can prune subtrees by returning `Stop`. A walk deeper than
    /// `MAX_DEPTH` reports `DepthExceeded`; on a depth-bounded tree — which
    /// everything `insert` builds is, since insertion refuses deeper chains —
    /// the walk always succeeds, whatever the visitor answers. What the
    /// visitor receives is pinned by `collect_rects`, the verified form of
    /// the full walk; this entry point exists for callers that want to prune
    /// or to accumulate something else.
    pub fn traverse<V: QuadtreeVisitor<U>>(&self, visitor: &mut V) -> (r: Result<
        (),
        QuadtreeError,
    >)
        requires
            self.inv(),
        ensures
            depth_bounded(self.nodes_view(), 0, 0) ==> r is Ok,
            r is Err ==> r->Err_0 == QuadtreeError::DepthExceeded,
    {
        self.traverse_from(0, 0, visitor)
    }

    /// The walk below slot `key` at the given depth.
    fn traverse_from<V: QuadtreeVisitor<U>>(
        &self,
        key: usize,
        depth: u32,
        visitor: &mut V,
    ) -> (r: Result<(), QuadtreeError>)
        requires
            self.inv(),
            key < self.nodes_view().len(),
            depth <= MAX_DEPTH + 1,
        ensures
            depth_bounded(self.nodes_view(), key as int, depth as int) ==> r is Ok,
            r is Err ==> r->Err_0 == QuadtreeError::DepthExceeded,
        decreases self.nodes_view().len() - key,
    {
        if depth > MAX_DEPTH {
            return Err(QuadtreeError::DepthExceeded);
        }
        let node_opt = *self.nodes.get(key);
        match node_opt {
            None => Ok(()),
            Some(n) => {
                match visitor.visit(&n, depth) {
                    ContinueTraverse::Stop => Ok(()),
                    ContinueTraverse::Continue => {
                        match n.child_key {
                            QuadtreeChild::Element(_) => Ok(()),
                            QuadtreeChild::Node(bk) => {
                                let nlen = self.nodes.len();
                                proof {
                                    assert(is_twig(self.nodes_view(), key as int));
                                    assert(block_ok(self.nodes_view(), key as int));
                                    assert(bk.0 + 4 <= nlen);
                                }
                                match self.traverse_from(bk.0, depth + 1, visitor) {
                                    Err(e) => Err(e),
                                    Ok(()) => {
                                        match self.traverse_from(bk.0 + 1, depth + 1, visitor) {
                                            Err(e) => Err(e),
                                            Ok(()) => {
                                                match self.traverse_from(
                                                    bk.0 + 2,
                                                    depth + 1,
                                                    visitor,
                                                ) {
                                                    Err(e) => Err(e),
                                                    Ok(()) => self.traverse_from(
                                                        bk.0 + 3,
                                                        depth + 1,
                                                        visitor,
                                                    ),
                                                }
                                            },
                                        }
                                    },
                                }
                            },
                        }
                    },
                }
            },
        }
    }
}

/// A visitor that records every node's center, half-extent and depth, e.g.
/// to draw the tree's rectangles as a debug overlay.
pub struct RectCollector {
    pub rects: Vec<(Vec2, i64, u32)>,
}

impl RectCollector {
    /// An empty collector.
    pub fn new() -> (r: RectCollector)
        ensures
            r.rects@ == Seq::<(Vec2, i64, u32)>::empty(),
    {
        RectCollector { rects: Vec::new() }
    }
}

impl<U> QuadtreeVisitor<U> for RectCollector {
    fn visit(&mut self, node: &QuadtreeNode<U>, depth: u32) -> ContinueTraverse {
        self.rects.push((node.position, node.extent, depth));
        ContinueTraverse::Continue
    }
}

} // verus!

verus! {

impl<T: Positioned, U: TreeData> Quadtree<T, U> {
    /// The node rectangles in pre-order: every occupied node's center,
    /// half-extent and depth, parents before children, children in quadrant
    /// order — the verified form of the walk a renderer's debug overlay
    /// consumes. Succeeds exactly when the walk stays within `MAX_DEPTH`,
    /// and then returns exactly `preorder_rects` of the tree.
    pub fn collect_rects(&self) -> (r: Result<Vec<(Vec2, i64, u32)>, QuadtreeError>)
        requires
            self.inv(),
        ensures
            r is Ok <==> depth_bounded(self.nodes_view(), 0, 0),
            r is Ok ==> r->Ok_0@ == preorder_rects(self.nodes_view(), 0, 0),
            r is Err ==> r->Err_0 == QuadtreeError::DepthExceeded,
    {
        let mut out: Vec<(Vec2, i64, u32)> = Vec::new();
        match self.collect_rects_from(0, 0, &mut out) {
            Ok(()) => {
                proof {
                    assert(out@ =~= Seq::<(Vec2, i64, u32)>::empty() + preorder_rects(
                        self.nodes_view(),
                        0,
                        0,
                    ));
                }
                Ok(out)
            },
            Err(e) => Err(e),
        }
    }

    /// Append the pre-order listing below slot `key` at `depth` to `out`.
    fn collect_rects_from(
        &self,
        key: usize,
        depth: u32,
        out: &mut Vec<(Vec2, i64, u32)>,
    ) -> (r: Result<(), QuadtreeError>)
        requires
            self.inv(),
            key < self.nodes_view().len(),
            depth <= MAX_DEPTH + 1,
        ensures
            r is Ok <==> depth_bounded(self.nodes_view(), key as int, depth as int),
            r is Ok ==> final(out)@ == old(out)@ + preorder_rects(
                self.nodes_view(),
                key as int,
                depth as int,
            ),
            r is Err ==> r->Err_0 == QuadtreeError::DepthExceeded,
        decreases self.nodes_view().len() - key,
    {
        let ghost ns = self.nodes_view();
        let ghost pre = preorder_rects(ns, key as int, depth as int);
        if depth > MAX_DEPTH {
            return Err(QuadtreeError::DepthExceeded);
        }
        let node_opt = *self.nodes.get(key);
        match node_opt {
            None => {
                proof {
                    assert(out@ =~= out@ + pre);
                }
                Ok(())
            },
            Some(n) => {
                let ghost out0 = out@;
                let ghost head = seq![(n.position, n.extent, depth)];
                out.push((n.position, n.extent, depth));
                match n.child_key {
                    QuadtreeChild::Element(_) => {
                        proof {
                            assert(pre == head);
                            assert(out@ =~= out0 + pre);
                        }
                        Ok(())
                    },
                    QuadtreeChild::Node(bk) => {
                        proof {
                            assert(is_twig(ns, key as int));
                            assert(block_ok(ns, key as int));
                        }
                        let nlen = self.nodes.len();
                        proof {
                            assert(bk.0 + 4 <= nlen);
                        }
                        let ghost b = bk.0 as int;
                        let ghost d2 = depth as int + 1;
                        match self.collect_rects_from(bk.0, depth + 1, out) {
                            Err(e) => Err(e),
                            Ok(()) => {
                                match self.collect_rects_from(bk.0 + 1, depth + 1, out) {
                                    Err(e) => Err(e),
                                    Ok(()) => {
                                        match self.collect_rects_from(bk.0 + 2, depth + 1, out) {
                                            Err(e) => Err(e),
                                            Ok(()) => {
                                                match self.collect_rects_from(
                                                    bk.0 + 3,
                                                    depth + 1,
                                                    out,
                                                ) {
                                                    Err(e) => Err(e),
                                                    Ok(()) => {
                                                        proof {
                                                            assert(pre == head + preorder_rects(
                                                                ns,
                                                                b,
                                                                d2,
                                                            ) + preorder_rects(ns, b + 1, d2)
                                                                + preorder_rects(ns, b + 2, d2)
                                                                + preorder_rects(ns, b + 3, d2));
                                                            assert(out@ =~= out0 + pre);
                                                        }
                                                        Ok(())
                                                    },
                                                }
                                            },
                                        }
                                    },
                                }
                            },
                        }
                    },
                }
            },
        }
    }
}

} // verus!
