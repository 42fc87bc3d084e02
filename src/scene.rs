use vstd::prelude::*;

verus! {

/// What a ray test reports: `None` for a miss, or the order key of the hit
/// distance together with the hit record itself.
pub type Hit<H> = Option<(u64, H)>;

/// The distance key of a hit, if any.
pub open spec fn distance<H>(h: Hit<H>) -> Option<u64> {
    match h {
        Some(x) => Some(x.0),
        None => None,
    }
}

/// The nearer of two hits. On equal distances the second one is kept.
pub open spec fn nearer<H>(a: Hit<H>, b: Hit<H>) -> Hit<H> {
    match (a, b) {
        (Some(x), Some(y)) => if x.0 < y.0 {
            a
        } else {
            b
        },
        (Some(_), None) => a,
        _ => b,
    }
}

/// The exec closure `f` computes the spec function `g` on every argument.
pub open spec fn answers<A, R, F: Fn(&A) -> R>(f: F, g: spec_fn(A) -> R) -> bool {
    forall|a: A, r: R| #[trigger] f.ensures((&a,), r) ==> r == g(a)
}

/// `f` may be called on every argument.
pub open spec fn total<A, R, F: Fn(&A) -> R>(f: F) -> bool {
    forall|a: &A| #[trigger] f.requires((a,))
}

/// The result of testing `prims` one after another, each hit replacing the
/// one found so far only when it is strictly nearer.
pub open spec fn scan<P, H>(prims: Seq<P>, hit_test: spec_fn(P) -> Hit<H>) -> Hit<H>
    decreases prims.len(),
{
    if prims.len() == 0 {
        None
    } else {
        nearer(hit_test(prims.last()), scan(prims.drop_last(), hit_test))
    }
}

pub(crate) fn pick_nearer<H>(a: Hit<H>, b: Hit<H>) -> (r: Hit<H>)
    ensures
        r == nearer(a, b),
{
    match (&a, &b) {
        (Some(x), Some(y)) => {
            if x.0 < y.0 {
                a
            } else {
                b
            }
        },
        (Some(_), None) => a,
        _ => b,
    }
}

/// A flat list of primitives, searched front to back for the nearest hit.
pub struct Scene<P> {
    primitives: Vec<P>,
}

impl<P> Scene<P> {
    pub closed spec fn primitives_view(&self) -> Seq<P> {
        self.primitives@
    }

    pub fn new(primitives: Vec<P>) -> (s: Self)
        ensures
            s.primitives_view() == primitives@,
    {
        Scene { primitives }
    }

    pub fn primitives(&self) -> (r: &Vec<P>)
        ensures
            r@ == self.primitives_view(),
    {
        &self.primitives
    }

    /// The nearest hit among all primitives, by `hit_test`; of hits at one
    /// distance, the first in the list.
    pub fn hit<H, F: Fn(&P) -> Hit<H>>(&self, hit_test: &F) -> (r: Hit<H>)
        requires
            total(*hit_test),
        ensures
            forall|g: spec_fn(P) -> Hit<H>|
                #[trigger] answers(*hit_test, g) ==> r == scan(self.primitives_view(), g),
    {
        let mut res: Hit<H> = None;
        let mut i: usize = 0;
        while i < self.primitives.len()
            invariant
                i <= self.primitives.len(),
                total(*hit_test),
                forall|g: spec_fn(P) -> Hit<H>|
                    #[trigger] answers(*hit_test, g) ==> res == scan(
                        self.primitives@.subrange(0, i as int),
                        g,
                    ),
            decreases self.primitives.len() - i,
        {
            let h = hit_test(&self.primitives[i]);
            proof {
                let s = self.primitives@.subrange(0, i + 1);
                assert(s.drop_last() =~= self.primitives@.subrange(0, i as int));
            }
            res = pick_nearer(h, res);
            i = i + 1;
        }
        proof {
            assert(self.primitives@.subrange(0, i as int) =~= self.primitives@);
        }
        res
    }
}

} // verus!
