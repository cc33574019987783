//! Behavioral tests of the arena and the quadtree: insertion, subdivision,
//! error cases, rebuild determinism, and traversal.

use graviton::{
    Arena, ContinueTraverse, Pseudobody, Quadrant, Quadtree, QuadtreeBody, QuadtreeChild,
    QuadtreeError, QuadtreeNode, RectCollector, Vec2,
};

fn proxy(x: i64, y: i64, key: usize) -> QuadtreeBody {
    QuadtreeBody { position: Vec2 { x, y }, body_key: key }
}

fn new_tree(extent: i64) -> Quadtree<QuadtreeBody, Pseudobody> {
    Quadtree::new(extent)
}

fn leaf_elements(tree: &Quadtree<QuadtreeBody, Pseudobody>) -> Vec<usize> {
    let mut elems = Vec::new();
    for slot in tree.nodes().values() {
        if let Some(node) = slot {
            if let QuadtreeChild::Element(ek) = node.child_key {
                elems.push(ek.0);
            }
        }
    }
    elems
}

#[test]
fn arena_insert_get_clear() {
    let mut arena: Arena<u32> = Arena::new();
    assert_eq!(arena.len(), 0);
    assert_eq!(arena.next_key(), 0);
    let k0 = arena.insert(10);
    let k1 = arena.insert(20);
    assert_eq!((k0, k1), (0, 1));
    assert_eq!(*arena.get(0), 10);
    assert_eq!(*arena.get(1), 20);
    assert_eq!(arena.try_get(2), None);
    assert_eq!(arena.try_get(1), Some(&20));
    assert_eq!(arena.next_key(), 2);
    arena.set(0, 11);
    assert_eq!(*arena.get(0), 11);
    assert_eq!(arena.values().as_slice(), &[11, 20]);
    arena.clear();
    assert_eq!(arena.len(), 0);
    assert_eq!(arena.try_get(0), None);
}

#[test]
fn quadrant_classification_is_total_and_tie_breaks_east_north() {
    let c = Vec2 { x: 0, y: 0 };
    // Ties (>=) go east and north.
    assert_eq!(Quadrant::from_comparison(c, Vec2 { x: 0, y: 0 }), Quadrant::NE);
    assert_eq!(Quadrant::from_comparison(c, Vec2 { x: 5, y: 7 }), Quadrant::NE);
    assert_eq!(Quadrant::from_comparison(c, Vec2 { x: -1, y: 0 }), Quadrant::NW);
    assert_eq!(Quadrant::from_comparison(c, Vec2 { x: 3, y: -2 }), Quadrant::SE);
    assert_eq!(Quadrant::from_comparison(c, Vec2 { x: -4, y: -4 }), Quadrant::SW);
    // Repeated classification of the same inputs is identical.
    for _ in 0..3 {
        assert_eq!(Quadrant::from_comparison(c, Vec2 { x: 0, y: -1 }), Quadrant::SE);
    }
}

#[test]
fn quadrant_index_round_trip() {
    for i in 0..4usize {
        let q = Quadrant::from_index(i).unwrap();
        assert_eq!(q.index(), i);
    }
    assert!(Quadrant::from_index(4).is_none());
}

#[test]
fn quadrant_offsets_halve_the_extent() {
    let c = Vec2 { x: 0, y: 0 };
    assert_eq!(Quadrant::NE.apply_offset(c, 8), Vec2 { x: 4, y: 4 });
    assert_eq!(Quadrant::NW.apply_offset(c, 8), Vec2 { x: -4, y: 4 });
    assert_eq!(Quadrant::SE.apply_offset(c, 8), Vec2 { x: 4, y: -4 });
    assert_eq!(Quadrant::SW.apply_offset(c, 8), Vec2 { x: -4, y: -4 });
}

#[test]
fn fresh_tree_is_a_single_empty_root() {
    let tree = new_tree(16);
    assert_eq!(tree.extent(), 16);
    assert_eq!(tree.nodes().len(), 1);
    assert!(tree.nodes().get(0).is_none());
    assert_eq!(tree.elements().len(), 0);
}

#[test]
fn single_insert_writes_a_root_leaf() {
    let mut tree = new_tree(16);
    assert_eq!(tree.insert(proxy(3, -5, 0)), Ok(()));
    assert_eq!(tree.nodes().len(), 1);
    assert_eq!(tree.elements().len(), 1);
    let root = tree.nodes().get(0).unwrap();
    match root.child_key {
        QuadtreeChild::Element(ek) => assert_eq!(ek.0, 0),
        QuadtreeChild::Node(_) => panic!("root should be a leaf"),
    }
    assert_eq!(root.position, Vec2 { x: 0, y: 0 });
    assert_eq!(root.extent, 16);
}

#[test]
fn out_of_bounds_insert_is_rejected_and_changes_nothing() {
    let mut tree = new_tree(16);
    assert_eq!(tree.insert(proxy(17, 0, 0)), Err(QuadtreeError::OutOfBounds));
    assert_eq!(tree.insert(proxy(0, -17, 0)), Err(QuadtreeError::OutOfBounds));
    assert_eq!(tree.nodes().len(), 1);
    assert_eq!(tree.elements().len(), 0);
    // The boundary itself is inside.
    assert_eq!(tree.insert(proxy(16, -16, 0)), Ok(()));
}

#[test]
fn two_separated_inserts_split_once() {
    let mut tree = new_tree(16);
    assert_eq!(tree.insert(proxy(8, 8, 0)), Ok(()));
    assert_eq!(tree.insert(proxy(-8, -8, 1)), Ok(()));
    // Root twig plus one block of four children.
    assert_eq!(tree.nodes().len(), 5);
    let root = tree.nodes().get(0).unwrap();
    let block = match root.child_key {
        QuadtreeChild::Node(nk) => nk.0,
        QuadtreeChild::Element(_) => panic!("root should be a twig"),
    };
    assert_eq!(block, 1);
    // NE child holds element 0, SW child holds element 1.
    let ne = tree.nodes().get(block).unwrap();
    assert_eq!(ne.position, Vec2 { x: 8, y: 8 });
    assert_eq!(ne.extent, 8);
    match ne.child_key {
        QuadtreeChild::Element(ek) => assert_eq!(ek.0, 0),
        QuadtreeChild::Node(_) => panic!("child should be a leaf"),
    }
    let sw = tree.nodes().get(block + 3).unwrap();
    assert_eq!(sw.position, Vec2 { x: -8, y: -8 });
    match sw.child_key {
        QuadtreeChild::Element(ek) => assert_eq!(ek.0, 1),
        QuadtreeChild::Node(_) => panic!("child should be a leaf"),
    }
    assert!(tree.nodes().get(block + 1).is_none());
    assert!(tree.nodes().get(block + 2).is_none());
}

#[test]
fn near_coincident_points_split_deep() {
    let mut tree = new_tree(16);
    assert_eq!(tree.insert(proxy(1, 1, 0)), Ok(()));
    assert_eq!(tree.insert(proxy(2, 2, 1)), Ok(()));
    // Both are NE of the root and of several sub-centers; the chain of twigs
    // must end with two distinct leaves.
    let elems = leaf_elements(&tree);
    assert_eq!(elems.len(), 2);
    assert!(elems.contains(&0));
    assert!(elems.contains(&1));
}

#[test]
fn coincident_points_fail_with_depth_exceeded() {
    let mut tree = new_tree(16);
    assert_eq!(tree.insert(proxy(7, -3, 0)), Ok(()));
    let nodes_before = tree.nodes().len();
    assert_eq!(tree.insert(proxy(7, -3, 1)), Err(QuadtreeError::DepthExceeded));
    // The failed insertion left the tree unchanged.
    assert_eq!(tree.nodes().len(), nodes_before);
    assert_eq!(tree.elements().len(), 1);
}

#[test]
fn insertion_keeps_one_distinct_leaf_per_element() {
    let mut tree = new_tree(1 << 20);
    let points: [(i64, i64); 8] = [
        (0, 0),
        (100, 100),
        (-50, 75),
        (1 << 19, -(1 << 19)),
        (12345, 54321),
        (-99999, -1),
        (7, 8),
        (8, 7),
    ];
    for (k, (x, y)) in points.iter().enumerate() {
        assert_eq!(tree.insert(proxy(*x, *y, k)), Ok(()));
    }
    let mut elems = leaf_elements(&tree);
    elems.sort();
    // Exactly N leaves, each referencing a distinct element.
    assert_eq!(elems, vec![0, 1, 2, 3, 4, 5, 6, 7]);
    // Every leaf's center-extent square contains its element's position.
    for slot in tree.nodes().values() {
        if let Some(node) = slot {
            if let QuadtreeChild::Element(ek) = node.child_key {
                let p = tree.elements().get(ek.0).position;
                assert!((node.position.x - node.extent) - 1 <= p.x);
                assert!(p.x <= node.position.x + node.extent + 1);
                assert!((node.position.y - node.extent) - 1 <= p.y);
                assert!(p.y <= node.position.y + node.extent + 1);
            }
        }
    }
}

#[test]
fn clear_and_rebuild_is_isomorphic_to_fresh_build() {
    let points: [(i64, i64); 5] = [(3, 4), (-7, 2), (900, -900), (5, 5), (6, 5)];
    let mut fresh = new_tree(1024);
    for (k, (x, y)) in points.iter().enumerate() {
        assert_eq!(fresh.insert(proxy(*x, *y, k)), Ok(()));
    }
    let mut reused = new_tree(1024);
    // Fill with other content first, then clear.
    assert_eq!(reused.insert(proxy(-1000, 1000, 0)), Ok(()));
    assert_eq!(reused.insert(proxy(11, -13, 1)), Ok(()));
    reused.clear();
    assert_eq!(reused.nodes().len(), 1);
    assert_eq!(reused.elements().len(), 0);
    for (k, (x, y)) in points.iter().enumerate() {
        assert_eq!(reused.insert(proxy(*x, *y, k)), Ok(()));
    }
    // Same leaf/twig shape, slot for slot.
    assert_eq!(fresh.nodes().len(), reused.nodes().len());
    for i in 0..fresh.nodes().len() {
        match (tree_node(&fresh, i), tree_node(&reused, i)) {
            (None, None) => {}
            (Some(a), Some(b)) => {
                assert_eq!(a.child_key, b.child_key);
                assert_eq!(a.position, b.position);
                assert_eq!(a.extent, b.extent);
            }
            _ => panic!("shape differs at slot {}", i),
        }
    }
}

fn tree_node(
    tree: &Quadtree<QuadtreeBody, Pseudobody>,
    i: usize,
) -> Option<QuadtreeNode<Pseudobody>> {
    *tree.nodes().get(i)
}

#[test]
fn traversal_visits_every_node_with_its_geometry() {
    let mut tree = new_tree(16);
    assert_eq!(tree.insert(proxy(8, 8, 0)), Ok(()));
    assert_eq!(tree.insert(proxy(-8, -8, 1)), Ok(()));
    let mut collector = RectCollector::new();
    assert!(tree.traverse(&mut collector).is_ok());
    // Root twig and its two occupied children; empty slots are not visited.
    assert_eq!(collector.rects.len(), 3);
    assert_eq!(collector.rects[0], (Vec2 { x: 0, y: 0 }, 16, 0));
    assert!(collector.rects.contains(&(Vec2 { x: 8, y: 8 }, 8, 1)));
    assert!(collector.rects.contains(&(Vec2 { x: -8, y: -8 }, 8, 1)));
}

struct PruningVisitor {
    visited: usize,
}

impl graviton::QuadtreeVisitor<Pseudobody> for PruningVisitor {
    fn visit(&mut self, _node: &QuadtreeNode<Pseudobody>, _depth: u32) -> ContinueTraverse {
        self.visited += 1;
        ContinueTraverse::Stop
    }
}

#[test]
fn traversal_stop_prunes_the_subtree() {
    let mut tree = new_tree(16);
    assert_eq!(tree.insert(proxy(8, 8, 0)), Ok(()));
    assert_eq!(tree.insert(proxy(-8, -8, 1)), Ok(()));
    let mut visitor = PruningVisitor { visited: 0 };
    assert!(tree.traverse(&mut visitor).is_ok());
    // Stop at the root prunes everything below it.
    assert_eq!(visitor.visited, 1);
}

#[test]
fn collect_rects_lists_nodes_in_preorder() {
    let mut tree = new_tree(16);
    assert_eq!(tree.insert(proxy(8, 8, 0)), Ok(()));
    assert_eq!(tree.insert(proxy(-8, -8, 1)), Ok(()));
    let rects = tree.collect_rects().unwrap();
    // Root first, then the occupied children in quadrant order (NE before
    // SW); the two empty child slots are not listed.
    assert_eq!(
        rects,
        vec![
            (Vec2 { x: 0, y: 0 }, 16, 0),
            (Vec2 { x: 8, y: 8 }, 8, 1),
            (Vec2 { x: -8, y: -8 }, 8, 1),
        ]
    );
}

#[test]
fn visitor_walk_agrees_with_the_verified_collector() {
    let mut tree = new_tree(1024);
    let points: [(i64, i64); 6] = [(3, 4), (-7, 2), (900, -900), (5, 5), (6, 5), (-1, -1)];
    for (k, (x, y)) in points.iter().enumerate() {
        assert_eq!(tree.insert(proxy(*x, *y, k)), Ok(()));
    }
    let mut collector = RectCollector::new();
    assert!(tree.traverse(&mut collector).is_ok());
    let rects = tree.collect_rects().unwrap();
    assert_eq!(collector.rects, rects);
}
