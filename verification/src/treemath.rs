//! Counting and summation facts about well-formed trees.
//!
//! The tree stores its nodes in a flat arena, so "the elements under a node"
//! is defined by recursion over child blocks. This module proves the facts
//! the aggregation and force evaluation rest on: every slot is reachable from
//! the root, sibling subtrees are disjoint, the element listing of the root
//! subtree is a duplicate-free enumeration of exactly the stored elements,
//! and sums of a per-element quantity over such listings equal (or are
//! bounded by) the sum over all elements.

use vstd::prelude::*;

use crate::geom::{in_rect, quadrant_rect, Quadrant, Rect, Vec2};
use crate::quadtree::{
    blocks_ok,
    block_ok,
    child_geom_ok,
    pos_in_bounds,
    sep_ok,
    spec_descend,
    spec_insert,
    spot_ok,
    QuadtreeError,
    TreeData,
    is_leaf,
    is_leaf_for,
    is_twig,
    leaf_elem,
    node_geom_ok,
    node_of,
    owned,
    owners_ok,
    owns,
    slot_full,
    tree_wf,
    twig_block,
    has_leaf,
    Positioned,
    QuadtreeNode,
};

verus! {

/// Sum of `f` over the entries of `s`.
pub open spec fn sum_over(s: Seq<int>, f: spec_fn(int) -> int) -> int
    decreases s.len(),
{
    if s.len() == 0 {
        0
    } else {
        sum_over(s.drop_last(), f) + f(s.last())
    }
}

/// Sum of `f` over `0 .. n`.
pub open spec fn sum_range(n: int, f: spec_fn(int) -> int) -> int
    decreases n,
{
    if n <= 0 {
        0
    } else {
        sum_range(n - 1, f) + f(n - 1)
    }
}

/// Sums split over concatenation.
pub proof fn lemma_sum_concat(a: Seq<int>, b: Seq<int>, f: spec_fn(int) -> int)
    ensures
        sum_over(a + b, f) == sum_over(a, f) + sum_over(b, f),
    decreases b.len(),
{
    if b.len() == 0 {
        assert(a + b =~= a);
    } else {
        assert((a + b).drop_last() =~= a + b.drop_last());
        assert((a + b).last() == b.last());
        lemma_sum_concat(a, b.drop_last(), f);
    }
}

/// Sums split at any index.
pub proof fn lemma_sum_split(s: Seq<int>, i: int, f: spec_fn(int) -> int)
    requires
        0 <= i <= s.len(),
    ensures
        sum_over(s, f) == sum_over(s.subrange(0, i), f) + sum_over(s.subrange(i, s.len() as int), f),
{
    assert(s =~= s.subrange(0, i) + s.subrange(i, s.len() as int));
    lemma_sum_concat(s.subrange(0, i), s.subrange(i, s.len() as int), f);
}

/// The entries of `s` with index `i` removed.
pub open spec fn except_index(s: Seq<int>, i: int) -> Seq<int> {
    s.subrange(0, i) + s.subrange(i + 1, s.len() as int)
}

/// Removing one entry removes its contribution from the sum.
pub proof fn lemma_sum_except(s: Seq<int>, i: int, f: spec_fn(int) -> int)
    requires
        0 <= i < s.len(),
    ensures
        sum_over(except_index(s, i), f) == sum_over(s, f) - f(s[i]),
{
    lemma_sum_split(s, i, f);
    lemma_sum_concat(s.subrange(0, i), s.subrange(i + 1, s.len() as int), f);
    let tail = s.subrange(i, s.len() as int);
    assert(tail =~= seq![s[i]] + s.subrange(i + 1, s.len() as int));
    lemma_sum_concat(seq![s[i]], s.subrange(i + 1, s.len() as int), f);
    let single = seq![s[i]];
    assert(single.drop_last() =~= Seq::<int>::empty());
    assert(sum_over(single.drop_last(), f) == 0);
    assert(sum_over(single, f) == f(s[i]));
}

/// A duplicate-free sequence of values in `0 .. n` that contains every such
/// value sums to the sum over the full range.
pub proof fn lemma_sum_complete(s: Seq<int>, n: int, f: spec_fn(int) -> int)
    requires
        s.no_duplicates(),
        forall|j: int| 0 <= j < s.len() ==> 0 <= #[trigger] s[j] < n,
        forall|e: int| 0 <= e < n ==> s.contains(e),
    ensures
        sum_over(s, f) == sum_range(n, f),
    decreases n,
{
    if n <= 0 {
        if s.len() > 0 {
            assert(0 <= s[0] < n);
        }
        assert(s.len() == 0);
    } else {
        assert(s.contains(n - 1));
        let i = choose|i: int| 0 <= i < s.len() && s[i] == n - 1;
        let s2 = except_index(s, i);
        assert(s2.len() == s.len() - 1);
        assert forall|j: int| 0 <= j < s2.len() implies 0 <= #[trigger] s2[j] < n - 1 by {
            if j < i {
                assert(s2[j] == s[j]);
                if s[j] == n - 1 {
                    assert(false);
                }
            } else {
                assert(s2[j] == s[j + 1]);
                if s[j + 1] == n - 1 {
                    assert(false);
                }
            }
        }
        assert forall|e: int| 0 <= e < n - 1 implies s2.contains(e) by {
            assert(s.contains(e));
            let j = choose|j: int| 0 <= j < s.len() && s[j] == e;
            if j < i {
                assert(s2[j] == e);
            } else {
                assert(j > i);
                assert(s2[j - 1] == e);
            }
        }
        assert(s2.no_duplicates()) by {
            assert forall|j1: int, j2: int|
                0 <= j1 < s2.len() && 0 <= j2 < s2.len() && j1 != j2 implies s2[j1] != s2[j2] by {
                let o1 = if j1 < i { j1 } else { j1 + 1 };
                let o2 = if j2 < i { j2 } else { j2 + 1 };
                assert(s2[j1] == s[o1]);
                assert(s2[j2] == s[o2]);
            }
        }
        lemma_sum_complete(s2, n - 1, f);
        lemma_sum_except(s, i, f);
    }
}

/// A duplicate-free sequence of values in `0 .. n` has a sum bounded by the
/// full-range sum when `f` is nonnegative, and its length is at most `n`.
pub proof fn lemma_sum_bounded(s: Seq<int>, n: int, f: spec_fn(int) -> int)
    requires
        0 <= n,
        s.no_duplicates(),
        forall|j: int| 0 <= j < s.len() ==> 0 <= #[trigger] s[j] < n,
        forall|e: int| 0 <= e < n ==> #[trigger] f(e) >= 0,
    ensures
        0 <= sum_over(s, f) <= sum_range(n, f),
        s.len() <= n,
    decreases n,
{
    if n <= 0 {
        if s.len() > 0 {
            assert(0 <= s[0] < n);
        }
        assert(s.len() == 0);
    } else {
        if s.contains(n - 1) {
            let i = choose|i: int| 0 <= i < s.len() && s[i] == n - 1;
            let s2 = except_index(s, i);
            assert(s2.len() == s.len() - 1);
            assert forall|j: int| 0 <= j < s2.len() implies 0 <= #[trigger] s2[j] < n - 1 by {
                if j < i {
                    assert(s2[j] == s[j]);
                    if s[j] == n - 1 {
                        assert(false);
                    }
                } else {
                    assert(s2[j] == s[j + 1]);
                    if s[j + 1] == n - 1 {
                        assert(false);
                    }
                }
            }
            assert(s2.no_duplicates()) by {
                assert forall|j1: int, j2: int|
                    0 <= j1 < s2.len() && 0 <= j2 < s2.len() && j1 != j2 implies s2[j1] != s2[j2]
                    by {
                    let o1 = if j1 < i { j1 } else { j1 + 1 };
                    let o2 = if j2 < i { j2 } else { j2 + 1 };
                    assert(s2[j1] == s[o1]);
                    assert(s2[j2] == s[o2]);
                }
            }
            lemma_sum_bounded(s2, n - 1, f);
            lemma_sum_except(s, i, f);
            assert(f(n - 1) >= 0);
        } else {
            assert forall|j: int| 0 <= j < s.len() implies 0 <= #[trigger] s[j] < n - 1 by {
                if s[j] == n - 1 {
                    assert(s.contains(n - 1));
                }
            }
            lemma_sum_bounded(s, n - 1, f);
            assert(f(n - 1) >= 0);
        }
    }
}

} // verus!

verus! {

/// The slots of the subtree rooted at slot `i`, in preorder.
pub open spec fn subtree_slots<U>(ns: Seq<Option<QuadtreeNode<U>>>, i: int) -> Seq<int>
    decreases ns.len() - i
        when blocks_ok(ns) && 0 <= i < ns.len()
{
    if is_twig(ns, i) {
        let b = twig_block(ns, i);
        seq![i] + subtree_slots(ns, b) + subtree_slots(ns, b + 1) + subtree_slots(ns, b + 2)
            + subtree_slots(ns, b + 3)
    } else {
        seq![i]
    }
}

/// The elements referenced by leaves of the subtree rooted at slot `i`.
pub open spec fn subtree_elems<U>(ns: Seq<Option<QuadtreeNode<U>>>, i: int) -> Seq<int>
    decreases ns.len() - i
        when blocks_ok(ns) && 0 <= i < ns.len()
{
    if is_twig(ns, i) {
        let b = twig_block(ns, i);
        subtree_elems(ns, b) + subtree_elems(ns, b + 1) + subtree_elems(ns, b + 2)
            + subtree_elems(ns, b + 3)
    } else if is_leaf(ns, i) {
        seq![leaf_elem(ns, i)]
    } else {
        Seq::empty()
    }
}

/// Membership in a concatenation.
proof fn lemma_concat_contains(a: Seq<int>, b: Seq<int>, x: int)
    ensures
        (a + b).contains(x) <==> a.contains(x) || b.contains(x),
{
    if a.contains(x) {
        let j = choose|j: int| 0 <= j < a.len() && a[j] == x;
        assert((a + b)[j] == x);
    }
    if b.contains(x) {
        let j = choose|j: int| 0 <= j < b.len() && b[j] == x;
        assert((a + b)[a.len() + j] == x);
    }
    if (a + b).contains(x) {
        let j = choose|j: int| 0 <= j < (a + b).len() && (a + b)[j] == x;
        if j < a.len() {
            assert(a[j] == x);
        } else {
            assert(b[j - a.len()] == x);
        }
    }
}

/// Concatenating duplicate-free sequences with no common entry is
/// duplicate-free.
proof fn lemma_concat_nodup(a: Seq<int>, b: Seq<int>)
    requires
        a.no_duplicates(),
        b.no_duplicates(),
        forall|x: int| !(a.contains(x) && #[trigger] b.contains(x)),
    ensures
        (a + b).no_duplicates(),
{
    assert forall|j1: int, j2: int|
        0 <= j1 < (a + b).len() && 0 <= j2 < (a + b).len() && j1 != j2 implies (a + b)[j1] != (a
        + b)[j2] by {
        if j1 < a.len() && j2 >= a.len() {
            assert(a.contains(a[j1]));
            assert(b.contains(b[j2 - a.len()]));
        } else if j1 >= a.len() && j2 < a.len() {
            assert(a.contains(a[j2]));
            assert(b.contains(b[j1 - a.len()]));
        }
    }
}

/// Every slot of a subtree lies at or above its root slot and inside the
/// arena, and a subtree contains its own root.
pub proof fn lemma_subtree_slots_range<U>(ns: Seq<Option<QuadtreeNode<U>>>, i: int)
    requires
        blocks_ok(ns),
        0 <= i < ns.len(),
    ensures
        forall|j: int| #[trigger] subtree_slots(ns, i).contains(j) ==> i <= j < ns.len(),
        subtree_slots(ns, i).contains(i),
    decreases ns.len() - i,
{
    if is_twig(ns, i) {
        let b = twig_block(ns, i);
        assert(block_ok(ns, i));
        lemma_subtree_slots_range(ns, b);
        lemma_subtree_slots_range(ns, b + 1);
        lemma_subtree_slots_range(ns, b + 2);
        lemma_subtree_slots_range(ns, b + 3);
        let s01 = seq![i] + subtree_slots(ns, b);
        let s02 = s01 + subtree_slots(ns, b + 1);
        let s03 = s02 + subtree_slots(ns, b + 2);
        let s = s03 + subtree_slots(ns, b + 3);
        assert(s == subtree_slots(ns, i));
        assert forall|j: int| #[trigger] s.contains(j) implies i <= j < ns.len() by {
            lemma_concat_contains(s03, subtree_slots(ns, b + 3), j);
            lemma_concat_contains(s02, subtree_slots(ns, b + 2), j);
            lemma_concat_contains(s01, subtree_slots(ns, b + 1), j);
            lemma_concat_contains(seq![i], subtree_slots(ns, b), j);
            if seq![i].contains(j) {
                assert(j == i);
            }
        }
        assert(seq![i][0] == i);
        assert(seq![i].contains(i));
        lemma_concat_contains(seq![i], subtree_slots(ns, b), i);
        lemma_concat_contains(s01, subtree_slots(ns, b + 1), i);
        lemma_concat_contains(s02, subtree_slots(ns, b + 2), i);
        lemma_concat_contains(s03, subtree_slots(ns, b + 3), i);
    } else {
        assert(subtree_slots(ns, i) == seq![i]);
        assert(seq![i][0] == i);
        assert(seq![i].contains(i));
    }
}

/// A child subtree's slots belong to the parent's subtree.
pub proof fn lemma_child_sub<U>(ns: Seq<Option<QuadtreeNode<U>>>, i: int, off: int, j: int)
    requires
        blocks_ok(ns),
        0 <= i < ns.len(),
        is_twig(ns, i),
        0 <= off < 4,
        subtree_slots(ns, twig_block(ns, i) + off).contains(j),
    ensures
        subtree_slots(ns, i).contains(j),
{
    let b = twig_block(ns, i);
    assert(block_ok(ns, i));
    let s01 = seq![i] + subtree_slots(ns, b);
    let s02 = s01 + subtree_slots(ns, b + 1);
    let s03 = s02 + subtree_slots(ns, b + 2);
    lemma_concat_contains(seq![i], subtree_slots(ns, b), j);
    lemma_concat_contains(s01, subtree_slots(ns, b + 1), j);
    lemma_concat_contains(s02, subtree_slots(ns, b + 2), j);
    lemma_concat_contains(s03, subtree_slots(ns, b + 3), j);
}

/// A slot of a twig's subtree other than the twig itself lies in one of the
/// four child subtrees.
pub proof fn lemma_sub_child<U>(ns: Seq<Option<QuadtreeNode<U>>>, i: int, j: int)
    requires
        blocks_ok(ns),
        0 <= i < ns.len(),
        subtree_slots(ns, i).contains(j),
        j != i,
    ensures
        is_twig(ns, i),
        exists|off: int|
            0 <= off < 4 && #[trigger] subtree_slots(ns, twig_block(ns, i) + off).contains(j),
{
    if !is_twig(ns, i) {
        assert(subtree_slots(ns, i) == seq![i]);
        assert(j == i);
    }
    let b = twig_block(ns, i);
    assert(block_ok(ns, i));
    let s01 = seq![i] + subtree_slots(ns, b);
    let s02 = s01 + subtree_slots(ns, b + 1);
    let s03 = s02 + subtree_slots(ns, b + 2);
    lemma_concat_contains(s03, subtree_slots(ns, b + 3), j);
    lemma_concat_contains(s02, subtree_slots(ns, b + 2), j);
    lemma_concat_contains(s01, subtree_slots(ns, b + 1), j);
    lemma_concat_contains(seq![i], subtree_slots(ns, b), j);
    if subtree_slots(ns, b).contains(j) {
        assert(subtree_slots(ns, b + 0).contains(j));
    }
}

/// Subtree containment is transitive.
pub proof fn lemma_subtree_trans<U>(ns: Seq<Option<QuadtreeNode<U>>>, i: int, k: int, j: int)
    requires
        blocks_ok(ns),
        0 <= i < ns.len(),
        0 <= k < ns.len(),
        subtree_slots(ns, i).contains(k),
        subtree_slots(ns, k).contains(j),
    ensures
        subtree_slots(ns, i).contains(j),
    decreases ns.len() - i,
{
    if k == i {
    } else {
        lemma_sub_child(ns, i, k);
        let off = choose|off: int|
            0 <= off < 4 && #[trigger] subtree_slots(ns, twig_block(ns, i) + off).contains(k);
        let c = twig_block(ns, i) + off;
        assert(block_ok(ns, i));
        lemma_subtree_trans(ns, c, k, j);
        lemma_child_sub(ns, i, off, j);
    }
}

/// An owner is below its slot.
proof fn lemma_owns_below<U>(ns: Seq<Option<QuadtreeNode<U>>>, p: int, j: int)
    requires
        blocks_ok(ns),
        owns(ns, p, j),
    ensures
        p < j,
        0 <= p < ns.len(),
{
    assert(block_ok(ns, p));
}

/// The owner of a non-root slot of a subtree belongs to the same subtree.
pub proof fn lemma_owner_in_subtree<U>(ns: Seq<Option<QuadtreeNode<U>>>, i: int, j: int)
    requires
        blocks_ok(ns),
        owners_ok(ns),
        0 <= i < ns.len(),
        subtree_slots(ns, i).contains(j),
        j != i,
    ensures
        owned(ns, j),
        forall|p: int| #[trigger] owns(ns, p, j) ==> subtree_slots(ns, i).contains(p) && p < j,
    decreases ns.len() - i,
{
    lemma_sub_child(ns, i, j);
    let off = choose|off: int|
        0 <= off < 4 && #[trigger] subtree_slots(ns, twig_block(ns, i) + off).contains(j);
    let b = twig_block(ns, i);
    let c = b + off;
    assert(block_ok(ns, i));
    if j == c {
        assert(owns(ns, i, j));
        lemma_subtree_slots_range(ns, i);
        assert forall|p: int| #[trigger] owns(ns, p, j) implies subtree_slots(ns, i).contains(p)
            && p < j by {
            assert(is_twig(ns, p) && is_twig(ns, i) && twig_block(ns, p) == twig_block(ns, i))
                by {
                lemma_block_unique_local(ns, p, i, j);
            }
            assert(p == i);
            lemma_owns_below(ns, p, j);
        }
    } else {
        lemma_owner_in_subtree(ns, c, j);
        assert forall|p: int| #[trigger] owns(ns, p, j) implies subtree_slots(ns, i).contains(p)
            && p < j by {
            assert(subtree_slots(ns, c).contains(p));
            lemma_child_sub(ns, i, off, p);
            lemma_owns_below(ns, p, j);
        }
    }
}

/// Two twigs whose blocks contain the same slot have the same block.
proof fn lemma_block_unique_local<U>(ns: Seq<Option<QuadtreeNode<U>>>, p1: int, p2: int, j: int)
    requires
        blocks_ok(ns),
        owns(ns, p1, j),
        owns(ns, p2, j),
    ensures
        twig_block(ns, p1) == twig_block(ns, p2),
{
    assert(block_ok(ns, p1));
    assert(block_ok(ns, p2));
    vstd::arithmetic::div_mod::lemma_fundamental_div_mod(twig_block(ns, p1), 4);
    vstd::arithmetic::div_mod::lemma_fundamental_div_mod(twig_block(ns, p2), 4);
    assert(twig_block(ns, p1) - twig_block(ns, p2) == 4 * (twig_block(ns, p1) / 4 - twig_block(
        ns,
        p2,
    ) / 4));
}

/// Subtrees hanging off different children of the same twig are disjoint: a
/// slot shared by the subtrees of children `q1` and `q2` forces `q1 == q2`.
pub proof fn lemma_sibling_disjoint<U>(
    ns: Seq<Option<QuadtreeNode<U>>>,
    pt: int,
    q1: int,
    q2: int,
    j: int,
)
    requires
        blocks_ok(ns),
        owners_ok(ns),
        0 <= pt < ns.len(),
        is_twig(ns, pt),
        0 <= q1 < 4,
        0 <= q2 < 4,
        subtree_slots(ns, twig_block(ns, pt) + q1).contains(j),
        subtree_slots(ns, twig_block(ns, pt) + q2).contains(j),
    ensures
        q1 == q2,
    decreases j,
{
    if q1 != q2 {
        let b = twig_block(ns, pt);
        let c1 = b + q1;
        let c2 = b + q2;
        assert(block_ok(ns, pt));
        lemma_subtree_slots_range(ns, c1);
        lemma_subtree_slots_range(ns, c2);
        if j == c1 {
            lemma_owner_in_subtree(ns, c2, j);
            assert(owns(ns, pt, j));
            assert(subtree_slots(ns, c2).contains(pt));
            assert(pt >= c2);
        } else if j == c2 {
            lemma_owner_in_subtree(ns, c1, j);
            assert(owns(ns, pt, j));
            assert(subtree_slots(ns, c1).contains(pt));
            assert(pt >= c1);
        } else {
            lemma_owner_in_subtree(ns, c1, j);
            lemma_owner_in_subtree(ns, c2, j);
            let p = choose|p: int| owns(ns, p, j);
            assert(owns(ns, p, j));
            assert(subtree_slots(ns, c1).contains(p));
            assert(subtree_slots(ns, c2).contains(p));
            assert(0 <= p);
            lemma_sibling_disjoint(ns, pt, q1, q2, p);
        }
    }
}

/// Every arena slot is reachable from the root.
pub proof fn lemma_all_reachable<U>(ns: Seq<Option<QuadtreeNode<U>>>, j: int)
    requires
        blocks_ok(ns),
        owners_ok(ns),
        1 <= ns.len(),
        0 <= j < ns.len(),
    ensures
        subtree_slots(ns, 0).contains(j),
    decreases j,
{
    if j == 0 {
        lemma_subtree_slots_range(ns, 0);
    } else {
        assert(owned(ns, j));
        let p = choose|p: int| owns(ns, p, j);
        assert(owns(ns, p, j));
        lemma_owns_below(ns, p, j);
        lemma_all_reachable(ns, p);
        let off = j - twig_block(ns, p);
        assert(block_ok(ns, p));
        lemma_subtree_slots_range(ns, twig_block(ns, p) + off);
        lemma_child_sub(ns, p, off, j);
        lemma_subtree_trans(ns, 0, p, j);
    }
}

/// An element listed under a subtree has a leaf slot in that subtree.
pub proof fn lemma_elem_has_leaf<U>(ns: Seq<Option<QuadtreeNode<U>>>, i: int, e: int)
    requires
        blocks_ok(ns),
        0 <= i < ns.len(),
        subtree_elems(ns, i).contains(e),
    ensures
        exists|l: int|
            #[trigger] subtree_slots(ns, i).contains(l) && is_leaf_for(ns, l, e),
    decreases ns.len() - i,
{
    if is_twig(ns, i) {
        let b = twig_block(ns, i);
        assert(block_ok(ns, i));
        let s01 = subtree_elems(ns, b) + subtree_elems(ns, b + 1);
        let s02 = s01 + subtree_elems(ns, b + 2);
        lemma_concat_contains(s02, subtree_elems(ns, b + 3), e);
        lemma_concat_contains(s01, subtree_elems(ns, b + 2), e);
        lemma_concat_contains(subtree_elems(ns, b), subtree_elems(ns, b + 1), e);
        if subtree_elems(ns, b).contains(e) {
            lemma_elem_has_leaf(ns, b, e);
            let l = choose|l: int|
                #[trigger] subtree_slots(ns, b).contains(l) && is_leaf_for(ns, l, e);
            lemma_child_sub(ns, i, 0, l);
            assert(subtree_slots(ns, i).contains(l));
        } else if subtree_elems(ns, b + 1).contains(e) {
            lemma_elem_has_leaf(ns, b + 1, e);
            let l = choose|l: int|
                #[trigger] subtree_slots(ns, b + 1).contains(l) && is_leaf_for(ns, l, e);
            lemma_child_sub(ns, i, 1, l);
            assert(subtree_slots(ns, i).contains(l));
        } else if subtree_elems(ns, b + 2).contains(e) {
            lemma_elem_has_leaf(ns, b + 2, e);
            let l = choose|l: int|
                #[trigger] subtree_slots(ns, b + 2).contains(l) && is_leaf_for(ns, l, e);
            lemma_child_sub(ns, i, 2, l);
            assert(subtree_slots(ns, i).contains(l));
        } else {
            lemma_elem_has_leaf(ns, b + 3, e);
            let l = choose|l: int|
                #[trigger] subtree_slots(ns, b + 3).contains(l) && is_leaf_for(ns, l, e);
            lemma_child_sub(ns, i, 3, l);
            assert(subtree_slots(ns, i).contains(l));
        }
    } else if is_leaf(ns, i) {
        lemma_subtree_slots_range(ns, i);
        assert(subtree_slots(ns, i).contains(i) && is_leaf_for(ns, i, e));
    } else {
        assert(false);
    }
}

/// A leaf slot of a subtree has its element listed under that subtree.
pub proof fn lemma_leaf_elem_listed<U>(ns: Seq<Option<QuadtreeNode<U>>>, i: int, l: int, e: int)
    requires
        blocks_ok(ns),
        0 <= i < ns.len(),
        subtree_slots(ns, i).contains(l),
        is_leaf_for(ns, l, e),
    ensures
        subtree_elems(ns, i).contains(e),
    decreases ns.len() - i,
{
    if l == i {
        assert(subtree_elems(ns, i) == seq![leaf_elem(ns, i)]);
        assert(seq![e][0] == e);
        assert(seq![e].contains(e));
    } else {
        lemma_sub_child(ns, i, l);
        let off = choose|off: int|
            0 <= off < 4 && #[trigger] subtree_slots(ns, twig_block(ns, i) + off).contains(l);
        let b = twig_block(ns, i);
        assert(block_ok(ns, i));
        lemma_leaf_elem_listed(ns, b + off, l, e);
        let s01 = subtree_elems(ns, b) + subtree_elems(ns, b + 1);
        let s02 = s01 + subtree_elems(ns, b + 2);
        lemma_concat_contains(subtree_elems(ns, b), subtree_elems(ns, b + 1), e);
        lemma_concat_contains(s01, subtree_elems(ns, b + 2), e);
        lemma_concat_contains(s02, subtree_elems(ns, b + 3), e);
    }
}

} // verus!

verus! {

/// Under well-formedness, a subtree's element listing is duplicate-free and
/// lists valid element indices.
pub proof fn lemma_subtree_elems_nodup<T: Positioned, U>(
    ns: Seq<Option<QuadtreeNode<U>>>,
    es: Seq<T>,
    ext0: int,
    i: int,
)
    requires
        tree_wf(ns, es, ext0),
        0 <= i < ns.len(),
    ensures
        subtree_elems(ns, i).no_duplicates(),
        forall|j: int|
            0 <= j < subtree_elems(ns, i).len() ==> 0 <= #[trigger] subtree_elems(ns, i)[j]
                < es.len(),
    decreases ns.len() - i,
{
    if is_twig(ns, i) {
        let b = twig_block(ns, i);
        assert(block_ok(ns, i));
        lemma_subtree_elems_nodup(ns, es, ext0, b);
        lemma_subtree_elems_nodup(ns, es, ext0, b + 1);
        lemma_subtree_elems_nodup(ns, es, ext0, b + 2);
        lemma_subtree_elems_nodup(ns, es, ext0, b + 3);
        assert forall|qa: int, qb: int, x: int|
            0 <= qa < 4 && 0 <= qb < 4 && qa != qb && #[trigger] subtree_elems(
                ns,
                b + qa,
            ).contains(x) && #[trigger] subtree_elems(ns, b + qb).contains(x) implies false by {
            lemma_elem_has_leaf(ns, b + qa, x);
            lemma_elem_has_leaf(ns, b + qb, x);
            let la = choose|l: int|
                #[trigger] subtree_slots(ns, b + qa).contains(l) && is_leaf_for(ns, l, x);
            let lb = choose|l: int|
                #[trigger] subtree_slots(ns, b + qb).contains(l) && is_leaf_for(ns, l, x);
            assert(is_leaf(ns, la) && is_leaf(ns, lb) && leaf_elem(ns, la) == leaf_elem(ns, lb));
            assert(la == lb);
            lemma_sibling_disjoint(ns, i, qa, qb, la);
        }
        let d0 = subtree_elems(ns, b);
        let d1 = subtree_elems(ns, b + 1);
        let d2 = subtree_elems(ns, b + 2);
        let d3 = subtree_elems(ns, b + 3);
        assert forall|x: int| !(d0.contains(x) && #[trigger] d1.contains(x)) by {
            if d0.contains(x) && d1.contains(x) {
                assert(subtree_elems(ns, b + 0).contains(x));
                assert(subtree_elems(ns, b + 1).contains(x));
            }
        }
        lemma_concat_nodup(d0, d1);
        assert forall|x: int| !((d0 + d1).contains(x) && #[trigger] d2.contains(x)) by {
            if (d0 + d1).contains(x) && d2.contains(x) {
                lemma_concat_contains(d0, d1, x);
                assert(subtree_elems(ns, b + 2).contains(x));
                if d0.contains(x) {
                    assert(subtree_elems(ns, b + 0).contains(x));
                } else {
                    assert(subtree_elems(ns, b + 1).contains(x));
                }
            }
        }
        lemma_concat_nodup(d0 + d1, d2);
        assert forall|x: int| !((d0 + d1 + d2).contains(x) && #[trigger] d3.contains(x)) by {
            if (d0 + d1 + d2).contains(x) && d3.contains(x) {
                lemma_concat_contains(d0 + d1, d2, x);
                lemma_concat_contains(d0, d1, x);
                assert(subtree_elems(ns, b + 3).contains(x));
                if d0.contains(x) {
                    assert(subtree_elems(ns, b + 0).contains(x));
                } else if d1.contains(x) {
                    assert(subtree_elems(ns, b + 1).contains(x));
                } else {
                    assert(subtree_elems(ns, b + 2).contains(x));
                }
            }
        }
        lemma_concat_nodup(d0 + d1 + d2, d3);
        assert(subtree_elems(ns, i) == d0 + d1 + d2 + d3);
    } else if is_leaf(ns, i) {
        assert(slot_full(ns, i));
        assert(node_geom_ok(ns, es, ext0, i));
        assert(subtree_elems(ns, i) == seq![leaf_elem(ns, i)]);
    } else {
    }
}

/// The root subtree lists every stored element.
pub proof fn lemma_root_elems_complete<T: Positioned, U>(
    ns: Seq<Option<QuadtreeNode<U>>>,
    es: Seq<T>,
    ext0: int,
)
    requires
        tree_wf(ns, es, ext0),
    ensures
        forall|e: int| 0 <= e < es.len() ==> #[trigger] subtree_elems(ns, 0).contains(e),
{
    assert forall|e: int| 0 <= e < es.len() implies #[trigger] subtree_elems(ns, 0).contains(e)
        by {
        assert(has_leaf(ns, e));
        let l = choose|l: int| is_leaf_for(ns, l, e);
        assert(is_leaf_for(ns, l, e));
        assert(slot_full(ns, l));
        lemma_all_reachable(ns, l);
        lemma_leaf_elem_listed(ns, 0, l, e);
    }
}

/// The constant-one weight, for counting by summation.
pub open spec fn one_weight() -> spec_fn(int) -> int {
    |e: int| 1
}

/// Summing the constant one over a sequence counts its entries.
pub proof fn lemma_sum_ones(s: Seq<int>)
    ensures
        sum_over(s, one_weight()) == s.len(),
    decreases s.len(),
{
    if s.len() > 0 {
        lemma_sum_ones(s.drop_last());
    }
}

/// Summing the constant one over a range counts it.
pub proof fn lemma_sum_range_ones(n: int)
    requires
        0 <= n,
    ensures
        sum_range(n, one_weight()) == n,
    decreases n,
{
    if n > 0 {
        lemma_sum_range_ones(n - 1);
    }
}

/// Insertion correctness: in a well-formed tree — the state `new`, `clear`
/// and `insert` guarantee — the root subtree's element listing enumerates
/// exactly the stored elements, each exactly once, so a tree holding N
/// elements has exactly N leaves; every element has exactly one leaf; and
/// every leaf's region contains its element's position.
pub proof fn lemma_insertion_correctness<T: Positioned, U>(
    ns: Seq<Option<QuadtreeNode<U>>>,
    es: Seq<T>,
    ext0: int,
)
    requires
        tree_wf(ns, es, ext0),
    ensures
        subtree_elems(ns, 0).no_duplicates(),
        subtree_elems(ns, 0).len() == es.len(),
        forall|e: int| #[trigger] subtree_elems(ns, 0).contains(e) <==> 0 <= e < es.len(),
        forall|e: int| 0 <= e < es.len() ==> #[trigger] has_leaf(ns, e),
        forall|i1: int, i2: int|
            is_leaf(ns, i1) && is_leaf(ns, i2) && leaf_elem(ns, i1) == leaf_elem(ns, i2)
                ==> i1 == i2,
        forall|i: int|
            #[trigger] is_leaf(ns, i) ==> 0 <= leaf_elem(ns, i) < es.len() && crate::geom::in_rect(
                node_of(ns, i).region@,
                es[leaf_elem(ns, i)].spec_position(),
            ),
{
    lemma_subtree_elems_nodup(ns, es, ext0, 0);
    lemma_root_elems_complete(ns, es, ext0);
    let s = subtree_elems(ns, 0);
    assert forall|e: int| #[trigger] s.contains(e) implies 0 <= e < es.len() by {
        let j = choose|j: int| 0 <= j < s.len() && s[j] == e;
        assert(0 <= s[j] < es.len());
    }
    lemma_sum_ones(s);
    lemma_sum_complete(s, es.len() as int, one_weight());
    lemma_sum_range_ones(es.len() as int);
    assert forall|i: int| #[trigger] is_leaf(ns, i) implies 0 <= leaf_elem(ns, i) < es.len()
        && crate::geom::in_rect(
        node_of(ns, i).region@,
        es[leaf_elem(ns, i)].spec_position(),
    ) by {
        assert(slot_full(ns, i));
        assert(node_geom_ok(ns, es, ext0, i));
    }
}

} // verus!

verus! {

/// The quadrant at child-slot offset `off`.
pub open spec fn quad_at(off: int) -> Quadrant {
    if off == 0 {
        Quadrant::NE
    } else if off == 1 {
        Quadrant::NW
    } else if off == 2 {
        Quadrant::SE
    } else {
        Quadrant::SW
    }
}

/// In a well-formed tree, a full slot of a twig's subtree other than the twig
/// itself sits under a full child, whose region is the parent's quadrant cut.
proof fn lemma_full_child<T: Positioned, U>(
    ns: Seq<Option<QuadtreeNode<U>>>,
    es: Seq<T>,
    ext0: int,
    i: int,
    j: int,
)
    requires
        tree_wf(ns, es, ext0),
        slot_full(ns, i),
        slot_full(ns, j),
        subtree_slots(ns, i).contains(j),
        j != i,
    ensures
        is_twig(ns, i),
        exists|off: int|
            {
                &&& 0 <= off < 4
                &&& #[trigger] subtree_slots(ns, twig_block(ns, i) + off).contains(j)
                &&& slot_full(ns, twig_block(ns, i) + off)
                &&& node_of(ns, twig_block(ns, i) + off).region@ == quadrant_rect(
                    node_of(ns, i).region@,
                    node_of(ns, i).position,
                    quad_at(off),
                )
            },
{
    lemma_sub_child(ns, i, j);
    let off = choose|off: int|
        0 <= off < 4 && #[trigger] subtree_slots(ns, twig_block(ns, i) + off).contains(j);
    let b = twig_block(ns, i);
    let c = b + off;
    assert(block_ok(ns, i));
    if j != c {
        lemma_subtree_slots_range(ns, c);
        if !is_twig(ns, c) {
            assert(subtree_slots(ns, c) == seq![c]);
            assert(j == c);
        }
    }
    assert(slot_full(ns, c));
    let n = node_of(ns, i);
    assert(node_geom_ok(ns, es, ext0, i));
    let q = quad_at(off);
    assert(q.spec_index() == off);
    if off == 0 {
        assert(child_geom_ok(ns, n, Quadrant::NE));
    } else if off == 1 {
        assert(child_geom_ok(ns, n, Quadrant::NW));
    } else if off == 2 {
        assert(child_geom_ok(ns, n, Quadrant::SE));
    } else {
        assert(child_geom_ok(ns, n, Quadrant::SW));
    }
    assert(node_of(ns, c).region@ == quadrant_rect(n.region@, n.position, q));
}

/// Regions nest: a point in a descendant's region lies in the ancestor's.
pub proof fn lemma_region_nested<T: Positioned, U>(
    ns: Seq<Option<QuadtreeNode<U>>>,
    es: Seq<T>,
    ext0: int,
    i: int,
    j: int,
    x: Vec2,
)
    requires
        tree_wf(ns, es, ext0),
        slot_full(ns, i),
        slot_full(ns, j),
        subtree_slots(ns, i).contains(j),
        in_rect(node_of(ns, j).region@, x),
    ensures
        in_rect(node_of(ns, i).region@, x),
    decreases ns.len() - i,
{
    if j == i {
    } else {
        lemma_full_child(ns, es, ext0, i, j);
        let off = choose|off: int|
            {
                &&& 0 <= off < 4
                &&& #[trigger] subtree_slots(ns, twig_block(ns, i) + off).contains(j)
                &&& slot_full(ns, twig_block(ns, i) + off)
                &&& node_of(ns, twig_block(ns, i) + off).region@ == quadrant_rect(
                    node_of(ns, i).region@,
                    node_of(ns, i).position,
                    quad_at(off),
                )
            };
        let c = twig_block(ns, i) + off;
        assert(block_ok(ns, i));
        lemma_region_nested(ns, es, ext0, c, j, x);
        assert(node_geom_ok(ns, es, ext0, i));
    }
}

/// Descent for position `p` from a consistent spot ends exactly at a leaf of
/// that subtree whose region contains `p`.
pub proof fn lemma_descend_finds_leaf<T: Positioned, U: TreeData>(
    ns: Seq<Option<QuadtreeNode<U>>>,
    es: Seq<T>,
    ext0: int,
    p: Vec2,
    i: int,
    cx: int,
    cy: int,
    ext: int,
    r: Rect,
    depth: int,
    l: int,
)
    requires
        tree_wf(ns, es, ext0),
        0 <= i < ns.len(),
        spot_ok(ns, ext0, i, cx, cy, ext, r, p),
        subtree_slots(ns, i).contains(l),
        is_leaf(ns, l),
        in_rect(node_of(ns, l).region@, p),
    ensures
        spec_descend(ns, p, i, cx, cy, ext, r, depth).slot == l,
    decreases ns.len() - i,
{
    if is_twig(ns, i) {
        let n = node_of(ns, i);
        let q = Quadrant::spec_classify(n.position, p);
        let b = twig_block(ns, i);
        assert(block_ok(ns, i));
        assert(l != i);
        lemma_full_child(ns, es, ext0, i, l);
        let off = choose|off: int|
            {
                &&& 0 <= off < 4
                &&& #[trigger] subtree_slots(ns, twig_block(ns, i) + off).contains(l)
                &&& slot_full(ns, twig_block(ns, i) + off)
                &&& node_of(ns, twig_block(ns, i) + off).region@ == quadrant_rect(
                    node_of(ns, i).region@,
                    node_of(ns, i).position,
                    quad_at(off),
                )
            };
        let c = b + off;
        lemma_region_nested(ns, es, ext0, c, l, p);
        assert(node_of(ns, i).region@ == r);
        crate::geom::lemma_classify_refines(r, n.position, p, quad_at(off));
        assert(quad_at(off) == q);
        assert(c == b + q.spec_index());
        crate::quadtree::lemma_descend_step(ns, es, ext0, i, cx, cy, ext, r, p);
        lemma_descend_finds_leaf(
            ns,
            es,
            ext0,
            p,
            c,
            crate::geom::child_center_x(n.position, n.extent as int, q),
            crate::geom::child_center_y(n.position, n.extent as int, q),
            n.extent as int / 2,
            quadrant_rect(n.region@, n.position, q),
            depth + 1,
            l,
        );
    } else {
        assert(subtree_slots(ns, i) == seq![i]);
        assert(l == i);
    }
}

/// Coincident positions never separate, at any subdivision depth.
pub proof fn lemma_sep_same_never(cx: int, cy: int, ext: int, p: Vec2, fuel: int)
    ensures
        !sep_ok(cx, cy, ext, p, p, fuel),
    decreases fuel,
{
    if fuel <= 0 {
    } else {
        let c = Vec2 { x: cx as i64, y: cy as i64 };
        let q = Quadrant::spec_classify(c, p);
        lemma_sep_same_never(
            crate::geom::child_center_x(c, ext, q),
            crate::geom::child_center_y(c, ext, q),
            ext / 2,
            p,
            fuel - 1,
        );
    }
}

/// Depth bound: inserting a position that exactly coincides with an element
/// already stored in a well-formed tree fails with `DepthExceeded` — the
/// subdivision chain can never separate the two, and insertion gives up at
/// `MAX_DEPTH` instead of recursing forever.
pub proof fn lemma_depth_bound<T: Positioned, U: TreeData>(
    ns: Seq<Option<QuadtreeNode<U>>>,
    es: Seq<T>,
    ext0: int,
    e: int,
    p: Vec2,
)
    requires
        tree_wf(ns, es, ext0),
        0 < ext0,
        0 <= e < es.len(),
        es[e].spec_position() == p,
        pos_in_bounds(p, ext0),
    ensures
        spec_insert::<T, U>(ns, es, ext0, p) == Err::<
            Seq<Option<QuadtreeNode<U>>>,
            QuadtreeError,
        >(QuadtreeError::DepthExceeded),
{
    assert(has_leaf(ns, e));
    let l = choose|l: int| is_leaf_for(ns, l, e);
    assert(is_leaf_for(ns, l, e));
    assert(slot_full(ns, l));
    assert(node_geom_ok(ns, es, ext0, l));
    assert(in_rect(node_of(ns, l).region@, p));
    lemma_all_reachable(ns, l);
    let r0 = crate::geom::root_rect(ext0);
    assert(spot_ok(ns, ext0, 0, 0, 0, ext0, r0, p));
    lemma_descend_finds_leaf(ns, es, ext0, p, 0, 0, 0, ext0, r0, 0, l);
    let s = crate::quadtree::start_spot(ns, ext0, p);
    assert(s.slot == l);
    assert(leaf_elem(ns, s.slot) == e);
    lemma_sep_same_never(s.cx, s.cy, s.ext, p, crate::quadtree::MAX_DEPTH - s.depth);
    crate::quadtree::lemma_split_sep::<U>(
        ns,
        s.slot,
        s.cx,
        s.cy,
        s.ext,
        s.rect,
        e,
        p,
        es.len() as int,
        p,
        crate::quadtree::MAX_DEPTH - s.depth,
    );
}

} // verus!

verus! {

/// Range sums of pointwise-equal weights are equal.
pub proof fn lemma_sum_range_congruent(n: int, f: spec_fn(int) -> int, g: spec_fn(int) -> int)
    requires
        forall|e: int| 0 <= e < n ==> #[trigger] f(e) == #[trigger] g(e),
    ensures
        sum_range(n, f) == sum_range(n, g),
    decreases n,
{
    if n > 0 {
        lemma_sum_range_congruent(n - 1, f, g);
    }
}

} // verus!
