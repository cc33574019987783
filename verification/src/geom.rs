//! Plane geometry for the quadtree: fixed-point positions, quadrants, and the
//! half-open rectangular regions that subdivision assigns to tree nodes.

use vstd::prelude::*;

verus! {

/// A 2D position or displacement in fixed-point coordinates.
#[derive(Clone, Copy, Debug, PartialEq, Eq, Structural)]
pub struct Vec2 {
    pub x: i64,
    pub y: i64,
}

impl Vec2 {
    pub fn new(x: i64, y: i64) -> (r: Vec2)
        ensures
            r.x == x,
            r.y == y,
    {
        Vec2 { x, y }
    }
}

/// A half-open axis-aligned rectangle `[x_lo, x_hi) x [y_lo, y_hi)`, used in
/// specifications to describe the exact region a tree node is responsible for.
pub struct Rect {
    pub x_lo: int,
    pub x_hi: int,
    pub y_lo: int,
    pub y_hi: int,
}

/// Whether point `p` lies in rectangle `r`.
pub open spec fn in_rect(r: Rect, p: Vec2) -> bool {
    &&& r.x_lo <= p.x < r.x_hi
    &&& r.y_lo <= p.y < r.y_hi
}

/// The region of a root node with half-width `extent`: all positions with
/// both coordinates in `[-extent, extent]`.
pub open spec fn root_rect(extent: int) -> Rect {
    Rect { x_lo: -extent, x_hi: extent + 1, y_lo: -extent, y_hi: extent + 1 }
}

/// One quarter of a node's region. East means `x >= center.x`, north means
/// `y >= center.y`; the complementary strict inequalities give west and south,
/// so the four quadrants tile the region exactly.
#[derive(Clone, Copy, Debug, PartialEq, Eq, Structural)]
pub enum Quadrant {
    NE,
    NW,
    SE,
    SW,
}

impl Quadrant {
    /// The child-slot offset of this quadrant inside a twig's block of four.
    pub open spec fn spec_index(self) -> int {
        match self {
            Quadrant::NE => 0,
            Quadrant::NW => 1,
            Quadrant::SE => 2,
            Quadrant::SW => 3,
        }
    }

    /// The child-slot offset of this quadrant inside a twig's block of four.
    pub fn index(self) -> (r: usize)
        ensures
            r == self.spec_index(),
    {
        match self {
            Quadrant::NE => 0,
            Quadrant::NW => 1,
            Quadrant::SE => 2,
            Quadrant::SW => 3,
        }
    }

    /// The quadrant with the given child-slot offset.
    pub fn from_index(value: usize) -> (r: Option<Quadrant>)
        ensures
            match r {
                Some(q) => q.spec_index() == value,
                None => value >= 4,
            },
    {
        match value {
            0 => Some(Quadrant::NE),
            1 => Some(Quadrant::NW),
            2 => Some(Quadrant::SE),
            3 => Some(Quadrant::SW),
            _ => None,
        }
    }

    /// Classify `element_position` against the node center `node_position`.
    pub open spec fn spec_classify(node_position: Vec2, element_position: Vec2) -> Quadrant {
        if element_position.x >= node_position.x {
            if element_position.y >= node_position.y {
                Quadrant::NE
            } else {
                Quadrant::SE
            }
        } else {
            if element_position.y >= node_position.y {
                Quadrant::NW
            } else {
                Quadrant::SW
            }
        }
    }

    /// Classify `element_position` against the node center `node_position`.
    /// Total over all inputs; ties go east and north.
    pub fn from_comparison(node_position: Vec2, element_position: Vec2) -> (r: Quadrant)
        ensures
            r == Quadrant::spec_classify(node_position, element_position),
    {
        if element_position.x >= node_position.x {
            if element_position.y >= node_position.y {
                Quadrant::NE
            } else {
                Quadrant::SE
            }
        } else {
            if element_position.y >= node_position.y {
                Quadrant::NW
            } else {
                Quadrant::SW
            }
        }
    }
}

/// The x coordinate of the center of the `q` child of a node centered at `c`
/// with half-width `extent`.
pub open spec fn child_center_x(c: Vec2, extent: int, q: Quadrant) -> int {
    match q {
        Quadrant::NE | Quadrant::SE => c.x + extent / 2,
        Quadrant::NW | Quadrant::SW => c.x - extent / 2,
    }
}

/// The y coordinate of the center of the `q` child of a node centered at `c`
/// with half-width `extent`.
pub open spec fn child_center_y(c: Vec2, extent: int, q: Quadrant) -> int {
    match q {
        Quadrant::NE | Quadrant::NW => c.y + extent / 2,
        Quadrant::SE | Quadrant::SW => c.y - extent / 2,
    }
}

/// The region of the `q` child of a node with region `r` and center `c`:
/// the quarter of `r` cut out by the two classification inequalities.
pub open spec fn quadrant_rect(r: Rect, c: Vec2, q: Quadrant) -> Rect {
    match q {
        Quadrant::NE => Rect { x_lo: c.x as int, x_hi: r.x_hi, y_lo: c.y as int, y_hi: r.y_hi },
        Quadrant::NW => Rect { x_lo: r.x_lo, x_hi: c.x as int, y_lo: c.y as int, y_hi: r.y_hi },
        Quadrant::SE => Rect { x_lo: c.x as int, x_hi: r.x_hi, y_lo: r.y_lo, y_hi: c.y as int },
        Quadrant::SW => Rect { x_lo: r.x_lo, x_hi: c.x as int, y_lo: r.y_lo, y_hi: c.y as int },
    }
}

impl Quadrant {
    /// Offset a node center into this quadrant's child center, halving the
    /// extent. Matches `child_center_x`/`child_center_y` exactly.
    pub fn apply_offset(&self, position: Vec2, extent: i64) -> (r: Vec2)
        requires
            0 <= extent,
            i64::MIN < position.x - extent,
            position.x + extent <= i64::MAX,
            i64::MIN < position.y - extent,
            position.y + extent <= i64::MAX,
        ensures
            r.x as int == child_center_x(position, extent as int, *self),
            r.y as int == child_center_y(position, extent as int, *self),
    {
        let half_extent: i64 = (extent as u64 / 2) as i64;
        match self {
            Quadrant::NW => Vec2 { x: position.x - half_extent, y: position.y + half_extent },
            Quadrant::SW => Vec2 { x: position.x - half_extent, y: position.y - half_extent },
            Quadrant::NE => Vec2 { x: position.x + half_extent, y: position.y + half_extent },
            Quadrant::SE => Vec2 { x: position.x + half_extent, y: position.y - half_extent },
        }
    }
}

/// Rectangle `r` brackets the disc of half-width `ext` around `(cx, cy)`:
/// the conventional center-and-extent square of a node stays inside its
/// path-derived region.
pub open spec fn rect_brackets(r: Rect, cx: int, cy: int, ext: int) -> bool {
    &&& r.x_lo <= cx - ext
    &&& cx + ext <= r.x_hi
    &&& r.y_lo <= cy - ext
    &&& cy + ext <= r.y_hi
}

/// Quadrant classification is total and deterministic: every position falls
/// in exactly one quadrant of any center, characterized by the two coordinate
/// comparisons, and equal inputs always classify equally.
pub proof fn lemma_classify_total_deterministic(c: Vec2, p: Vec2)
    ensures
        Quadrant::spec_classify(c, p) == Quadrant::NE <==> (p.x >= c.x && p.y >= c.y),
        Quadrant::spec_classify(c, p) == Quadrant::NW <==> (p.x < c.x && p.y >= c.y),
        Quadrant::spec_classify(c, p) == Quadrant::SE <==> (p.x >= c.x && p.y < c.y),
        Quadrant::spec_classify(c, p) == Quadrant::SW <==> (p.x < c.x && p.y < c.y),
        forall|c2: Vec2, p2: Vec2|
            c2 == c && p2 == p ==> Quadrant::spec_classify(c2, p2) == Quadrant::spec_classify(c, p),
{
}

/// Refinement: a point of a node's region lies in the child region of the
/// quadrant it classifies into, and in no other child region.
pub proof fn lemma_classify_refines(r: Rect, c: Vec2, p: Vec2, q: Quadrant)
    requires
        in_rect(r, p),
    ensures
        in_rect(quadrant_rect(r, c, q), p) <==> q == Quadrant::spec_classify(c, p),
{
}

} // verus!
