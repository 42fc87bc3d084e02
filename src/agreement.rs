//! Why walking the hierarchy finds the same nearest hit as scanning its
//! primitives one by one.

use vstd::prelude::*;

use crate::bvh::{lemma_leaves_in_range, Bvh, BvhNode};
use crate::order::indexes_into;
use crate::scene::{distance, nearer, scan, Hit};

verus! {

impl<B> BvhNode<B> {
    /// A branch whose bound fails `box_test` holds no primitive that
    /// `hit_test` reports a hit on: the box test never loses a hit.
    pub open spec fn bounds_keep_hits<P, H>(
        self,
        prims: Seq<P>,
        box_test: spec_fn(B) -> bool,
        hit_test: spec_fn(P) -> Hit<H>,
    ) -> bool
        decreases self,
    {
        match self {
            BvhNode::Leaf(_, _) => true,
            BvhNode::Branch(l, r, b) => {
                &&& !box_test(b) ==> forall|a: int|
                    0 <= a < self.leaves().len() ==> (#[trigger] hit_test(
                        prims[self.leaves()[a] as int],
                    )) is None
                &&& l.bounds_keep_hits(prims, box_test, hit_test)
                &&& r.bounds_keep_hits(prims, box_test, hit_test)
            },
        }
    }
}

/// `d` is the least distance that `hit_test` reports over the primitives
/// picked out by `member`, or `None` when it reports no hit on any of them.
pub open spec fn least_distance<P, H>(
    d: Option<u64>,
    member: spec_fn(usize) -> bool,
    prims: Seq<P>,
    hit_test: spec_fn(P) -> Hit<H>,
) -> bool {
    &&& d is None <==> forall|i: usize| #[trigger] member(i) ==> hit_test(prims[i as int]) is None
    &&& d is Some ==> exists|i: usize| #[trigger]
        member(i) && distance(hit_test(prims[i as int])) == d
    &&& d is Some ==> forall|i: usize|
        #[trigger] member(i) && hit_test(prims[i as int]) is Some ==> d->0 <= distance(
            hit_test(prims[i as int]),
        )->0
}

proof fn lemma_least_distance_unique<P, H>(
    d1: Option<u64>,
    d2: Option<u64>,
    m1: spec_fn(usize) -> bool,
    m2: spec_fn(usize) -> bool,
    prims: Seq<P>,
    hit_test: spec_fn(P) -> Hit<H>,
)
    requires
        least_distance(d1, m1, prims, hit_test),
        least_distance(d2, m2, prims, hit_test),
        forall|i: usize| #[trigger] m1(i) <==> m2(i),
    ensures
        d1 == d2,
{
    if d1 is Some {
        let i1 = choose|i: usize| #[trigger] m1(i) && distance(hit_test(prims[i as int])) == d1;
        assert(m2(i1));
        assert(hit_test(prims[i1 as int]) is Some);
        assert(d2 is Some);
        let i2 = choose|i: usize| #[trigger] m2(i) && distance(hit_test(prims[i as int])) == d2;
        assert(m1(i2));
        assert(hit_test(prims[i2 as int]) is Some);
        assert(d1->0 <= distance(hit_test(prims[i2 as int]))->0);
        assert(d2->0 <= distance(hit_test(prims[i1 as int]))->0);
    } else if d2 is Some {
        let i2 = choose|i: usize| #[trigger] m2(i) && distance(hit_test(prims[i as int])) == d2;
        assert(m1(i2));
        assert(hit_test(prims[i2 as int]) is Some);
    }
}

proof fn lemma_concat_contains(s: Seq<usize>, t: Seq<usize>, i: usize)
    ensures
        (s + t).contains(i) <==> s.contains(i) || t.contains(i),
{
    if (s + t).contains(i) {
        let k = choose|k: int| 0 <= k < (s + t).len() && (s + t)[k] == i;
        if k < s.len() {
            assert(s[k] == i);
        } else {
            assert(t[k - s.len()] == i);
        }
    }
    if s.contains(i) {
        let k = choose|k: int| 0 <= k < s.len() && s[k] == i;
        assert((s + t)[k] == i);
    }
    if t.contains(i) {
        let k = choose|k: int| 0 <= k < t.len() && t[k] == i;
        assert((s + t)[s.len() + k] == i);
    }
}

/// Walking a node whose box test never loses a hit yields the least
/// distance over the primitives of its leaves.
proof fn lemma_nearest_is_least<P, B, H>(
    node: BvhNode<B>,
    prims: Seq<P>,
    box_test: spec_fn(B) -> bool,
    hit_test: spec_fn(P) -> Hit<H>,
)
    requires
        indexes_into(node.leaves(), prims.len() as int),
        node.bounds_keep_hits(prims, box_test, hit_test),
    ensures
        least_distance(
            distance(node.nearest(prims, box_test, hit_test)),
            |i: usize| node.leaves().contains(i),
            prims,
            hit_test,
        ),
    decreases node,
{
    let leaves = node.leaves();
    match node {
        BvhNode::Leaf(k, _) => {
            assert(leaves[0] == k);
            assert forall|i: usize| leaves.contains(i) <==> i == k by {
                if leaves.contains(i) {
                    let a = choose|a: int| 0 <= a < leaves.len() && leaves[a] == i;
                }
            }
            let m = |i: usize| leaves.contains(i);
            assert(m(k));
        },
        BvhNode::Branch(l, r, b) => {
            let ll = l.leaves();
            let rl = r.leaves();
            assert forall|i: usize| leaves.contains(i) <==> ll.contains(i) || rl.contains(i) by {
                lemma_concat_contains(ll, rl, i);
            }
            if !box_test(b) {
                assert forall|i: usize| leaves.contains(i) implies hit_test(prims[i as int]) is None by {
                    let a = choose|a: int| 0 <= a < leaves.len() && leaves[a] == i;
                    assert(hit_test(prims[leaves[a] as int]) is None);
                }
            } else {
                assert forall|a: int| 0 <= a < ll.len() implies ll[a] < prims.len() by {
                    assert(leaves[a] == ll[a]);
                }
                assert forall|a: int| 0 <= a < rl.len() implies rl[a] < prims.len() by {
                    assert(leaves[ll.len() + a] == rl[a]);
                }
                lemma_nearest_is_least(*l, prims, box_test, hit_test);
                lemma_nearest_is_least(*r, prims, box_test, hit_test);
                let ml = |i: usize| ll.contains(i);
                let mr = |i: usize| rl.contains(i);
                let m = |i: usize| leaves.contains(i);
                let hl = l.nearest(prims, box_test, hit_test);
                let hr = r.nearest(prims, box_test, hit_test);
                let d = distance(node.nearest(prims, box_test, hit_test));
                assert(d == distance(nearer(hl, hr)));
                if hl is Some {
                    let il = choose|i: usize|
                        #[trigger] ml(i) && distance(hit_test(prims[i as int])) == distance(hl);
                    assert(m(il));
                }
                if hr is Some {
                    let ir = choose|i: usize|
                        #[trigger] mr(i) && distance(hit_test(prims[i as int])) == distance(hr);
                    assert(m(ir));
                }
                assert forall|i: usize| #[trigger] m(i) && hit_test(prims[i as int]) is Some implies d->0
                    <= distance(hit_test(prims[i as int]))->0 by {
                    if ml(i) {
                    } else {
                        assert(mr(i));
                    }
                }
                if d is None {
                    assert forall|i: usize| #[trigger] m(i) implies hit_test(prims[i as int]) is None by {
                        if ml(i) {
                        } else {
                            assert(mr(i));
                        }
                    }
                }
            }
        },
    }
}

/// Scanning a list yields the least distance over all of its primitives.
pub proof fn lemma_scan_is_least<P, H>(prims: Seq<P>, hit_test: spec_fn(P) -> Hit<H>)
    requires
        prims.len() <= usize::MAX,
    ensures
        least_distance(
            distance(scan(prims, hit_test)),
            |i: usize| i < prims.len(),
            prims,
            hit_test,
        ),
    decreases prims.len(),
{
    if prims.len() > 0 {
        let rest = prims.drop_last();
        let n = prims.len();
        let last = (n - 1) as usize;
        lemma_scan_is_least(rest, hit_test);
        assert forall|i: usize| i < rest.len() implies rest[i as int] == prims[i as int] by {}
        let mr = |i: usize| i < rest.len();
        let m = |i: usize| i < prims.len();
        let hr = scan(rest, hit_test);
        let hl = hit_test(prims[last as int]);
        let d = distance(scan(prims, hit_test));
        assert(prims.last() == prims[last as int]);
        assert(d == distance(nearer(hl, hr)));
        assert(m(last));
        if hr is Some {
            let ir = choose|i: usize|
                #[trigger] mr(i) && distance(hit_test(rest[i as int])) == distance(hr);
            assert(m(ir));
        }
        assert forall|i: usize| #[trigger] m(i) && hit_test(prims[i as int]) is Some implies d->0
            <= distance(hit_test(prims[i as int]))->0 by {
            if i < last {
                assert(mr(i));
            }
        }
        if d is None {
            assert forall|i: usize| #[trigger] m(i) implies hit_test(prims[i as int]) is None by {
                if i < last {
                    assert(mr(i));
                }
            }
        }
    }
}

/// Walking a well-formed hierarchy finds a hit exactly when testing its
/// primitives one by one does, and at the same distance, provided the box
/// test never loses a hit (`bounds_keep_hits`).
pub proof fn lemma_hierarchy_agrees_with_scan<P, B, H>(
    bvh: Bvh<P, B>,
    box_test: spec_fn(B) -> bool,
    hit_test: spec_fn(P) -> Hit<H>,
)
    requires
        bvh.wf(),
        bvh.tree().bounds_keep_hits(bvh.primitives_view(), box_test, hit_test),
    ensures
        distance(bvh.tree().nearest(bvh.primitives_view(), box_test, hit_test)) == distance(
            scan(bvh.primitives_view(), hit_test),
        ),
{
    let prims = bvh.primitives_view();
    let node = bvh.tree();
    lemma_leaves_in_range(node, prims.len());
    lemma_nearest_is_least(node, prims, box_test, hit_test);
    lemma_scan_is_least(prims, hit_test);
    lemma_least_distance_unique(
        distance(node.nearest(prims, box_test, hit_test)),
        distance(scan(prims, hit_test)),
        |i: usize| node.leaves().contains(i),
        |i: usize| i < prims.len(),
        prims,
        hit_test,
    );
}

/// If a leaf's bound meets the ray, so does the bound of every node above it.
proof fn lemma_leaf_bound_reaches_node<B, F: Fn(&B, &B) -> B>(
    node: BvhNode<B>,
    bounds: Seq<B>,
    merge: F,
    box_test: spec_fn(B) -> bool,
    a: int,
)
    requires
        node.bounds_merged(bounds, merge),
        0 <= a < node.leaves().len(),
        box_test(bounds[node.leaves()[a] as int]),
        forall|x: B, y: B, m: B|
            #[trigger] merge.ensures((&x, &y), m) && (box_test(x) || box_test(y)) ==> box_test(m),
    ensures
        box_test(node.bound()),
    decreases node,
{
    match node {
        BvhNode::Leaf(_, _) => {},
        BvhNode::Branch(l, r, _) => {
            let ln = l.leaves().len();
            if a < ln {
                assert(node.leaves()[a] == l.leaves()[a]);
                lemma_leaf_bound_reaches_node(*l, bounds, merge, box_test, a);
            } else {
                assert(node.leaves()[a] == r.leaves()[a - ln]);
                lemma_leaf_bound_reaches_node(*r, bounds, merge, box_test, a - ln);
            }
        },
    }
}

/// Bounds built by merging never lose a hit: if a primitive is hit only
/// where its own bound meets the ray, and a merged bound meets the ray
/// wherever one of its parts does, then no branch whose bound the ray misses
/// holds a primitive that is hit.
pub proof fn lemma_merged_bounds_keep_hits<P, B, H, F: Fn(&B, &B) -> B>(
    node: BvhNode<B>,
    prims: Seq<P>,
    bounds: Seq<B>,
    merge: F,
    box_test: spec_fn(B) -> bool,
    hit_test: spec_fn(P) -> Hit<H>,
)
    requires
        node.bounds_merged(bounds, merge),
        indexes_into(node.leaves(), prims.len() as int),
        forall|i: int|
            0 <= i < prims.len() && i < bounds.len() && (#[trigger] hit_test(prims[i])) is Some
                ==> box_test(bounds[i]),
        forall|x: B, y: B, m: B|
            #[trigger] merge.ensures((&x, &y), m) && (box_test(x) || box_test(y)) ==> box_test(m),
    ensures
        node.bounds_keep_hits(prims, box_test, hit_test),
    decreases node,
{
    lemma_leaves_bounded(node, bounds, merge);
    match node {
        BvhNode::Leaf(_, _) => {},
        BvhNode::Branch(l, r, b) => {
            let leaves = node.leaves();
            assert forall|a: int| 0 <= a < l.leaves().len() implies l.leaves()[a] < prims.len() by {
                assert(leaves[a] == l.leaves()[a]);
            }
            assert forall|a: int| 0 <= a < r.leaves().len() implies r.leaves()[a] < prims.len() by {
                assert(leaves[l.leaves().len() + a] == r.leaves()[a]);
            }
            lemma_merged_bounds_keep_hits(*l, prims, bounds, merge, box_test, hit_test);
            lemma_merged_bounds_keep_hits(*r, prims, bounds, merge, box_test, hit_test);
            if !box_test(b) {
                assert forall|a: int| 0 <= a < leaves.len() implies (#[trigger] hit_test(
                    prims[leaves[a] as int],
                )) is None by {
                    if hit_test(prims[leaves[a] as int]) is Some {
                        lemma_leaf_bound_reaches_node(node, bounds, merge, box_test, a);
                    }
                }
            }
        },
    }
}

/// The leaves of a node whose bounds were merged from `bounds` index into it.
proof fn lemma_leaves_bounded<B, F: Fn(&B, &B) -> B>(node: BvhNode<B>, bounds: Seq<B>, merge: F)
    requires
        node.bounds_merged(bounds, merge),
    ensures
        indexes_into(node.leaves(), bounds.len() as int),
    decreases node,
{
    match node {
        BvhNode::Leaf(_, _) => {},
        BvhNode::Branch(l, r, _) => {
            lemma_leaves_bounded(*l, bounds, merge);
            lemma_leaves_bounded(*r, bounds, merge);
            let ll = l.leaves();
            assert forall|a: int| 0 <= a < node.leaves().len() implies node.leaves()[a] < bounds.len() by {
                if a >= ll.len() {
                    assert(node.leaves()[a] == r.leaves()[a - ll.len()]);
                }
            }
        },
    }
}

/// A hierarchy whose bounds were merged from its primitives' own bounds
/// finds a hit exactly when testing the primitives one by one does, and at
/// the same distance, provided a primitive is hit only where its bound meets
/// the ray and a merged bound meets the ray wherever one of its parts does.
pub proof fn lemma_built_hierarchy_agrees_with_scan<P, B, H, F: Fn(&B, &B) -> B>(
    bvh: Bvh<P, B>,
    bounds: Seq<B>,
    merge: F,
    box_test: spec_fn(B) -> bool,
    hit_test: spec_fn(P) -> Hit<H>,
)
    requires
        bvh.wf(),
        bvh.tree().bounds_merged(bounds, merge),
        forall|i: int|
            0 <= i < bvh.primitives_view().len() && i < bounds.len() && (#[trigger] hit_test(
                bvh.primitives_view()[i],
            )) is Some ==> box_test(bounds[i]),
        forall|x: B, y: B, m: B|
            #[trigger] merge.ensures((&x, &y), m) && (box_test(x) || box_test(y)) ==> box_test(m),
    ensures
        distance(bvh.tree().nearest(bvh.primitives_view(), box_test, hit_test)) == distance(
            scan(bvh.primitives_view(), hit_test),
        ),
{
    lemma_leaves_in_range(bvh.tree(), bvh.primitives_view().len());
    lemma_merged_bounds_keep_hits(
        bvh.tree(),
        bvh.primitives_view(),
        bounds,
        merge,
        box_test,
        hit_test,
    );
    lemma_hierarchy_agrees_with_scan(bvh, box_test, hit_test);
}

} // verus!
