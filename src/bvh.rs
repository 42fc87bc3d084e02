use vstd::prelude::*;

use crate::order::{indexes_into, precedes, separated, split_on_axis};
use crate::scene::{answers, nearer, pick_nearer, total, Hit};

verus! {

broadcast use vstd::seq_lib::group_to_multiset_ensures;

/// Relies on rand::random: a number drawn from the thread-local generator.
/// Nothing is promised of it.
#[verifier::external_body]
fn random_draw() -> u64 {
    rand::random::<u64>()
}

/// A node of the hierarchy. A leaf holds the index of one primitive and that
/// primitive's bound; a branch holds two children and a bound that merges
/// theirs.
pub enum BvhNode<B> {
    Leaf(usize, B),
    Branch(Box<BvhNode<B>>, Box<BvhNode<B>>, B),
}

impl<B> BvhNode<B> {
    /// The primitive indices of the leaves, left to right.
    pub open spec fn leaves(self) -> Seq<usize>
        decreases self,
    {
        match self {
            BvhNode::Leaf(i, _) => seq![i],
            BvhNode::Branch(l, r, _) => l.leaves() + r.leaves(),
        }
    }

    pub open spec fn bound(self) -> B {
        match self {
            BvhNode::Leaf(_, b) => b,
            BvhNode::Branch(_, _, b) => b,
        }
    }

    /// Each branch puts the lower half (rounded down) of its primitives on
    /// the left, and on some axis every left primitive precedes every right one.
    pub open spec fn split_at_median(self, keys: Seq<[u64; 3]>) -> bool
        decreases self,
    {
        match self {
            BvhNode::Leaf(_, _) => true,
            BvhNode::Branch(l, r, _) => {
                &&& l.leaves().len() == (l.leaves().len() + r.leaves().len()) / 2
                &&& exists|axis: int| 0 <= axis < 3 && separated(l.leaves(), r.leaves(), keys, axis)
                &&& l.split_at_median(keys)
                &&& r.split_at_median(keys)
            },
        }
    }

    /// A leaf's bound is its primitive's, a branch's is what `merge` made of
    /// its children's bounds.
    pub open spec fn bounds_merged<F: Fn(&B, &B) -> B>(self, bounds: Seq<B>, merge: F) -> bool
        decreases self,
    {
        match self {
            BvhNode::Leaf(i, b) => i < bounds.len() && b == bounds[i as int],
            BvhNode::Branch(l, r, b) => {
                &&& merge.ensures((&l.bound(), &r.bound()), b)
                &&& l.bounds_merged(bounds, merge)
                &&& r.bounds_merged(bounds, merge)
            },
        }
    }

    /// Branches on the longest path from this node down to a leaf.
    pub open spec fn height(self) -> nat
        decreases self,
    {
        match self {
            BvhNode::Leaf(_, _) => 0,
            BvhNode::Branch(l, r, _) => 1 + if l.height() >= r.height() {
                l.height()
            } else {
                r.height()
            },
        }
    }

    /// The nearest hit found by walking the node: a leaf tests its
    /// primitive; a branch whose bound the ray misses reports nothing, and
    /// otherwise reports the nearer of its children's hits, the right one
    /// on a tie.
    pub open spec fn nearest<P, H>(
        self,
        prims: Seq<P>,
        box_test: spec_fn(B) -> bool,
        hit_test: spec_fn(P) -> Hit<H>,
    ) -> Hit<H>
        decreases self,
    {
        match self {
            BvhNode::Leaf(i, _) => hit_test(prims[i as int]),
            BvhNode::Branch(l, r, b) => if box_test(b) {
                nearer(l.nearest(prims, box_test, hit_test), r.nearest(prims, box_test, hit_test))
            } else {
                None
            },
        }
    }
}

/// Members of `lf` all precede members of `lb` when they hold the same
/// indices as two separated sequences.
proof fn lemma_separated_members(
    front: Seq<usize>,
    back: Seq<usize>,
    lf: Seq<usize>,
    lb: Seq<usize>,
    keys: Seq<[u64; 3]>,
    axis: int,
)
    requires
        separated(front, back, keys, axis),
        lf.to_multiset() == front.to_multiset(),
        lb.to_multiset() == back.to_multiset(),
    ensures
        separated(lf, lb, keys, axis),
{
    assert forall|a: int, b: int| 0 <= a < lf.len() && 0 <= b < lb.len() implies precedes(
        keys,
        axis,
        lf[a],
        lb[b],
    ) by {
        assert(lf.contains(lf[a]));
        assert(lb.contains(lb[b]));
        assert(front.to_multiset().count(lf[a]) > 0);
        assert(back.to_multiset().count(lb[b]) > 0);
        assert(front.contains(lf[a]));
        assert(back.contains(lb[b]));
        let p = choose|p: int| 0 <= p < front.len() && front[p] == lf[a];
        let q = choose|q: int| 0 <= q < back.len() && back[q] == lb[b];
    }
}

impl<B: Copy> BvhNode<B> {
    /// Builds a node over `items`, indices into `keys` and `bounds`. One item
    /// makes a leaf. Otherwise an axis is drawn at random, the items are
    /// ordered along it (`precedes`), the lower half (rounded down) goes to
    /// the left child and the rest to the right, and the branch's bound is
    /// `merge` of the children's bounds.
    pub fn new<F: Fn(&B, &B) -> B>(
        items: Vec<usize>,
        keys: &Vec<[u64; 3]>,
        bounds: &Vec<B>,
        merge: &F,
    ) -> (node: Self)
        requires
            items.len() > 0,
            indexes_into(items@, keys.len() as int),
            bounds.len() == keys.len(),
            forall|a: &B, b: &B| #[trigger] merge.requires((a, b)),
        ensures
            node.leaves().to_multiset() == items@.to_multiset(),
            node.split_at_median(keys@),
            node.bounds_merged(bounds@, *merge),
        decreases items.len(),
    {
        if items.len() == 1 {
            let i = items[0];
            proof {
                assert(items@ =~= seq![i]);
            }
            return BvhNode::Leaf(i, bounds[i]);
        }
        let axis = (random_draw() % 3) as usize;
        let (front, back) = split_on_axis(items, keys, axis);
        let left = BvhNode::new(front, keys, bounds, merge);
        let right = BvhNode::new(back, keys, bounds, merge);
        let bound = merge(left.aabb(), right.aabb());
        proof {
            lemma_separated_members(front@, back@, left.leaves(), right.leaves(), keys@, axis as int);
            vstd::seq_lib::lemma_multiset_commutative(left.leaves(), right.leaves());
            assert(left.leaves().to_multiset().len() == front@.to_multiset().len());
            assert(right.leaves().to_multiset().len() == back@.to_multiset().len());
        }
        BvhNode::Branch(Box::new(left), Box::new(right), bound)
    }
}

impl<B> BvhNode<B> {
    /// The nearest hit below this node (`nearest`), where `box_test` tells
    /// whether the ray meets a bound and `hit_test` tests one primitive.
    /// Both children of a branch whose bound the ray meets are tested.
    pub fn hit<P, H, FB: Fn(&B) -> bool, FL: Fn(&P) -> Hit<H>>(
        &self,
        prims: &Vec<P>,
        box_test: &FB,
        hit_test: &FL,
    ) -> (r: Hit<H>)
        requires
            indexes_into(self.leaves(), prims.len() as int),
            total(*box_test),
            total(*hit_test),
        ensures
            forall|bt: spec_fn(B) -> bool, ht: spec_fn(P) -> Hit<H>|
                #![trigger answers(*box_test, bt), answers(*hit_test, ht)]
                answers(*box_test, bt) && answers(*hit_test, ht) ==> r == self.nearest(
                    prims@,
                    bt,
                    ht,
                ),
        decreases self,
    {
        match self {
            BvhNode::Leaf(i, _) => {
                assert(self.leaves()[0] == *i);
                hit_test(&prims[*i])
            },
            BvhNode::Branch(l, r, b) => {
                if !box_test(b) {
                    None
                } else {
                    proof {
                        assert forall|a: int| 0 <= a < l.leaves().len() implies l.leaves()[a]
                            < prims.len() by {
                            assert(self.leaves()[a] == l.leaves()[a]);
                        }
                        assert forall|a: int| 0 <= a < r.leaves().len() implies r.leaves()[a]
                            < prims.len() by {
                            assert(self.leaves()[l.leaves().len() + a] == r.leaves()[a]);
                        }
                    }
                    let near = l.hit(prims, box_test, hit_test);
                    let far = r.hit(prims, box_test, hit_test);
                    pick_nearer(near, far)
                }
            },
        }
    }

    /// The node's bound.
    pub fn aabb(&self) -> (r: &B)
        ensures
            *r == self.bound(),
    {
        match self {
            BvhNode::Leaf(_, b) => b,
            BvhNode::Branch(_, _, b) => b,
        }
    }
}

/// The indices `0, 1, ..., n - 1` in order.
pub open spec fn index_range(n: nat) -> Seq<usize> {
    Seq::new(n, |i: int| i as usize)
}

/// A bounding volume hierarchy over a list of primitives. The tree's leaves
/// refer to the primitives by their position in the list.
pub struct Bvh<P, B> {
    primitives: Vec<P>,
    root: BvhNode<B>,
}

impl<P, B> Bvh<P, B> {
    pub closed spec fn primitives_view(&self) -> Seq<P> {
        self.primitives@
    }

    pub closed spec fn tree(&self) -> BvhNode<B> {
        self.root
    }

    /// Every primitive stands in exactly one leaf, and no leaf refers past
    /// the list.
    pub open spec fn wf(&self) -> bool {
        &&& self.primitives_view().len() <= usize::MAX
        &&& self.tree().leaves().to_multiset() == index_range(
            self.primitives_view().len(),
        ).to_multiset()
    }

    /// The primitives, in the order they were given.
    pub fn primitives(&self) -> (r: &Vec<P>)
        ensures
            r@ == self.primitives_view(),
    {
        &self.primitives
    }

    /// The bound of the whole hierarchy.
    pub fn aabb(&self) -> (r: &B)
        ensures
            *r == self.tree().bound(),
    {
        self.root.aabb()
    }

    /// The nearest hit in the hierarchy: see `BvhNode::nearest`.
    pub fn hit<H, FB: Fn(&B) -> bool, FL: Fn(&P) -> Hit<H>>(&self, box_test: &FB, hit_test: &FL) -> (r:
        Hit<H>)
        requires
            self.wf(),
            total(*box_test),
            total(*hit_test),
        ensures
            forall|bt: spec_fn(B) -> bool, ht: spec_fn(P) -> Hit<H>|
                #![trigger answers(*box_test, bt), answers(*hit_test, ht)]
                answers(*box_test, bt) && answers(*hit_test, ht) ==> r == self.tree().nearest(
                    self.primitives_view(),
                    bt,
                    ht,
                ),
    {
        proof {
            lemma_leaves_in_range(self.tree(), self.primitives_view().len());
        }
        self.root.hit(&self.primitives, box_test, hit_test)
    }
}

/// Leaves that are a permutation of `0..n` are valid indices below `n` and
/// hold each of them.
pub proof fn lemma_leaves_in_range<B>(node: BvhNode<B>, n: nat)
    requires
        node.leaves().to_multiset() == index_range(n).to_multiset(),
    ensures
        indexes_into(node.leaves(), n as int),
        forall|i: usize| node.leaves().contains(i) <==> i < n,
{
    let s = node.leaves();
    assert forall|i: usize| s.contains(i) <==> i < n by {
        assert(s.contains(i) <==> s.to_multiset().count(i) > 0);
        assert(index_range(n).contains(i) <==> index_range(n).to_multiset().count(i) > 0);
        if i < n {
            assert(index_range(n)[i as int] == i);
        }
    }
    assert forall|a: int| 0 <= a < s.len() implies s[a] < n by {
        assert(s.contains(s[a]));
    }
}

impl<P, B: Copy> Bvh<P, B> {
    /// Builds the hierarchy over `primitives`; `keys[i]` orders primitive `i`
    /// along each axis and `bounds[i]` is its bound (see `BvhNode::new`).
    pub fn new<F: Fn(&B, &B) -> B>(
        primitives: Vec<P>,
        keys: &Vec<[u64; 3]>,
        bounds: &Vec<B>,
        merge: &F,
    ) -> (bvh: Self)
        requires
            primitives.len() > 0,
            keys.len() == primitives.len(),
            bounds.len() == primitives.len(),
            forall|a: &B, b: &B| #[trigger] merge.requires((a, b)),
        ensures
            bvh.wf(),
            bvh.primitives_view() == primitives@,
            bvh.tree().split_at_median(keys@),
            bvh.tree().bounds_merged(bounds@, *merge),
    {
        let n = primitives.len();
        let mut items: Vec<usize> = Vec::new();
        let mut i: usize = 0;
        while i < n
            invariant
                i <= n,
                items@ == index_range(i as nat),
            decreases n - i,
        {
            items.push(i);
            i = i + 1;
            proof {
                assert(items@ =~= index_range(i as nat));
            }
        }
        proof {
            assert(indexes_into(items@, keys.len() as int));
        }
        let root = BvhNode::new(items, keys, bounds, merge);
        Bvh { primitives, root }
    }
}

/// Two to the power `e`.
pub open spec fn two_to(e: nat) -> nat
    decreases e,
{
    if e == 0 {
        1
    } else {
        2 * two_to((e - 1) as nat)
    }
}

/// A median-split node of height `h` over `n` primitives has
/// `2^h < 2 * n`: its height is at most the ceiling of `log2 n`.
pub proof fn lemma_median_split_height<B>(node: BvhNode<B>, keys: Seq<[u64; 3]>)
    requires
        node.split_at_median(keys),
    ensures
        node.leaves().len() >= 1,
        two_to(node.height()) < 2 * node.leaves().len(),
    decreases node,
{
    match node {
        BvhNode::Leaf(_, _) => {
            assert(two_to(0) == 1);
        },
        BvhNode::Branch(l, r, _) => {
            lemma_median_split_height(*l, keys);
            lemma_median_split_height(*r, keys);
            let nl = l.leaves().len();
            let nr = r.leaves().len();
            let n = nl + nr;
            let hl = l.height();
            let hr = r.height();
            assert(nl == n / 2);
            assert(two_to(hl) < n);
            assert(two_to(hr) < n) by {
                if hr > 0 {
                    assert(two_to(hr) == 2 * two_to((hr - 1) as nat));
                }
            }
            let m = if hl >= hr {
                hl
            } else {
                hr
            };
            assert(node.height() == m + 1);
            assert(two_to(m + 1) == 2 * two_to(m));
        },
    }
}

} // verus!
