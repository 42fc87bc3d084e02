use vstd::prelude::*;

verus! {

broadcast use vstd::seq_lib::group_to_multiset_ensures;

/// `i` may stand before `j` when primitives are ordered along `axis`: by the
/// key of their bound's lower corner on that axis, ties broken by index.
pub open spec fn precedes(keys: Seq<[u64; 3]>, axis: int, i: usize, j: usize) -> bool {
    keys[i as int][axis] < keys[j as int][axis] || (keys[i as int][axis] == keys[j as int][axis]
        && i <= j)
}

/// Every element of `s` precedes every later one along `axis`.
pub open spec fn sorted_on_axis(s: Seq<usize>, keys: Seq<[u64; 3]>, axis: int) -> bool {
    forall|a: int, b: int| 0 <= a < b < s.len() ==> precedes(keys, axis, s[a], s[b])
}

/// Every element of `front` precedes every element of `back` along `axis`.
pub open spec fn separated(front: Seq<usize>, back: Seq<usize>, keys: Seq<[u64; 3]>, axis: int) -> bool {
    forall|a: int, b: int|
        0 <= a < front.len() && 0 <= b < back.len() ==> precedes(keys, axis, front[a], back[b])
}

/// Every element of `s` is a valid index into a table of length `n`.
pub open spec fn indexes_into(s: Seq<usize>, n: int) -> bool {
    forall|a: int| 0 <= a < s.len() ==> s[a] < n
}

fn precedes_exec(keys: &Vec<[u64; 3]>, axis: usize, i: usize, j: usize) -> (r: bool)
    requires
        axis < 3,
        i < keys.len(),
        j < keys.len(),
    ensures
        r == precedes(keys@, axis as int, i, j),
{
    let ki = keys[i][axis];
    let kj = keys[j][axis];
    ki < kj || (ki == kj && i <= j)
}

fn merge(left: Vec<usize>, right: Vec<usize>, keys: &Vec<[u64; 3]>, axis: usize) -> (r: Vec<
    usize,
>)
    requires
        axis < 3,
        indexes_into(left@, keys.len() as int),
        indexes_into(right@, keys.len() as int),
        sorted_on_axis(left@, keys@, axis as int),
        sorted_on_axis(right@, keys@, axis as int),
    ensures
        r@.to_multiset() == left@.to_multiset().add(right@.to_multiset()),
        sorted_on_axis(r@, keys@, axis as int),
        indexes_into(r@, keys.len() as int),
{
    let mut r: Vec<usize> = Vec::new();
    let mut i: usize = 0;
    let mut j: usize = 0;
    while i < left.len() || j < right.len()
        invariant
            axis < 3,
            indexes_into(left@, keys.len() as int),
            indexes_into(right@, keys.len() as int),
            sorted_on_axis(left@, keys@, axis as int),
            sorted_on_axis(right@, keys@, axis as int),
            i <= left.len(),
            j <= right.len(),
            r@.to_multiset() == left@.subrange(0, i as int).to_multiset().add(
                right@.subrange(0, j as int).to_multiset(),
            ),
            sorted_on_axis(r@, keys@, axis as int),
            indexes_into(r@, keys.len() as int),
            forall|a: int|
                0 <= a < r.len() ==> (i < left.len() ==> precedes(
                    keys@,
                    axis as int,
                    #[trigger] r@[a],
                    left@[i as int],
                )) && (j < right.len() ==> precedes(keys@, axis as int, r@[a], right@[j as int])),
        decreases left.len() - i + right.len() - j,
    {
        if j >= right.len() || (i < left.len() && precedes_exec(keys, axis, left[i], right[j])) {
            let x = left[i];
            proof {
                assert(left@.subrange(0, i + 1) =~= left@.subrange(0, i as int).push(x));
                if i + 1 < left.len() {
                    assert(precedes(keys@, axis as int, x, left@[i + 1]));
                }
            }
            r.push(x);
            i = i + 1;
        } else {
            let x = right[j];
            proof {
                assert(right@.subrange(0, j + 1) =~= right@.subrange(0, j as int).push(x));
                if j + 1 < right.len() {
                    assert(precedes(keys@, axis as int, x, right@[j + 1]));
                }
            }
            r.push(x);
            j = j + 1;
        }
    }
    proof {
        assert(left@.subrange(0, i as int) =~= left@);
        assert(right@.subrange(0, j as int) =~= right@);
    }
    r
}

/// Orders `items` along `axis`: the result holds the same indices, each
/// preceding every later one (`precedes`).
pub fn sort_on_axis(items: Vec<usize>, keys: &Vec<[u64; 3]>, axis: usize) -> (r: Vec<usize>)
    requires
        axis < 3,
        indexes_into(items@, keys.len() as int),
    ensures
        r@.to_multiset() == items@.to_multiset(),
        sorted_on_axis(r@, keys@, axis as int),
        indexes_into(r@, keys.len() as int),
    decreases items.len(),
{
    if items.len() <= 1 {
        return items;
    }
    let mid = items.len() / 2;
    let mut front = items;
    let back = front.split_off(mid);
    proof {
        assert(items@ =~= front@ + back@);
        vstd::seq_lib::lemma_multiset_commutative(front@, back@);
    }
    let front = sort_on_axis(front, keys, axis);
    let back = sort_on_axis(back, keys, axis);
    merge(front, back, keys, axis)
}

/// Orders `items` along `axis` (`sort_on_axis`) and cuts the result at the
/// median: the lower half, rounded down, and the rest.
pub fn split_on_axis(items: Vec<usize>, keys: &Vec<[u64; 3]>, axis: usize) -> (r: (
    Vec<usize>,
    Vec<usize>,
))
    requires
        axis < 3,
        indexes_into(items@, keys.len() as int),
    ensures
        (r.0@ + r.1@).to_multiset() == items@.to_multiset(),
        sorted_on_axis(r.0@ + r.1@, keys@, axis as int),
        r.0.len() == items.len() / 2,
        r.0.len() + r.1.len() == items.len(),
        r.0@.to_multiset().add(r.1@.to_multiset()) == items@.to_multiset(),
        separated(r.0@, r.1@, keys@, axis as int),
        indexes_into(r.0@, keys.len() as int),
        indexes_into(r.1@, keys.len() as int),
{
    let ghost given = items@;
    let sorted = sort_on_axis(items, keys, axis);
    proof {
        assert(sorted@.len() == given.len()) by {
            assert(sorted@.to_multiset().len() == given.to_multiset().len());
        }
    }
    let mut front = sorted;
    let mid = front.len() / 2;
    let back = front.split_off(mid);
    proof {
        assert(sorted@ =~= front@ + back@);
        vstd::seq_lib::lemma_multiset_commutative(front@, back@);
        assert forall|a: int, b: int| 0 <= a < front@.len() && 0 <= b < back@.len() implies precedes(
            keys@,
            axis as int,
            front@[a],
            back@[b],
        ) by {
            assert(front@[a] == sorted@[a]);
            assert(back@[b] == sorted@[mid + b]);
        }
        assert forall|a: int| 0 <= a < back@.len() implies back@[a] < keys.len() by {
            assert(back@[a] == sorted@[mid + a]);
        }
    }
    (front, back)
}

} // verus!
