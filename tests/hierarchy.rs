use raytracing_study::{sort_on_axis, split_on_axis, Bvh, BvhNode, Scene};

/// A point primitive on a line: its position, the distance at which a probe
/// through that position meets it, and a name.
#[derive(Clone, Copy, Debug, PartialEq)]
struct Dot {
    x: u64,
    depth: u64,
    name: u32,
}

fn dots() -> Vec<Dot> {
    let table: [(u64, u64); 16] = [
        (4, 9), (1, 3), (7, 2), (4, 5), (9, 9), (0, 1), (12, 4), (7, 8),
        (3, 6), (15, 7), (4, 5), (10, 10), (2, 2), (8, 1), (13, 3), (6, 4),
    ];
    table
        .iter()
        .enumerate()
        .map(|(i, &(x, depth))| Dot { x, depth, name: i as u32 })
        .collect()
}

fn keys_of(prims: &[Dot]) -> Vec<[u64; 3]> {
    prims.iter().map(|d| [d.x, d.depth, 0]).collect()
}

fn bounds_of(prims: &[Dot]) -> Vec<(u64, u64)> {
    prims.iter().map(|d| (d.x, d.x)).collect()
}

fn merge(a: &(u64, u64), b: &(u64, u64)) -> (u64, u64) {
    (a.0.min(b.0), a.1.max(b.1))
}

fn leaves<B>(node: &BvhNode<B>, out: &mut Vec<usize>) {
    match node {
        BvhNode::Leaf(i, _) => out.push(*i),
        BvhNode::Branch(l, r, _) => {
            leaves(l, out);
            leaves(r, out);
        }
    }
}

fn check_split(node: &BvhNode<(u64, u64)>, keys: &[[u64; 3]], bounds: &[(u64, u64)]) {
    match node {
        BvhNode::Leaf(i, b) => assert_eq!(*b, bounds[*i]),
        BvhNode::Branch(l, r, b) => {
            let (mut ls, mut rs) = (Vec::new(), Vec::new());
            leaves(l, &mut ls);
            leaves(r, &mut rs);
            assert_eq!(ls.len(), (ls.len() + rs.len()) / 2);
            let separated = (0..3).any(|axis| {
                ls.iter().all(|&i| {
                    rs.iter().all(|&j| (keys[i][axis], i) <= (keys[j][axis], j))
                })
            });
            assert!(separated);
            assert_eq!(*b, merge(l.aabb(), r.aabb()));
            check_split(l, keys, bounds);
            check_split(r, keys, bounds);
        }
    }
}

#[test]
fn sort_orders_by_key_then_index() {
    let keys = vec![[3, 0, 9], [1, 5, 8], [3, 2, 7], [0, 9, 6]];
    assert_eq!(sort_on_axis(vec![0, 1, 2, 3], &keys, 0), vec![3, 1, 0, 2]);
    assert_eq!(sort_on_axis(vec![2, 3, 0, 1], &keys, 1), vec![0, 2, 1, 3]);
    assert_eq!(sort_on_axis(vec![0, 1, 2, 3], &keys, 2), vec![3, 2, 1, 0]);
    assert_eq!(sort_on_axis(vec![2, 0, 2], &keys, 0), vec![0, 2, 2]);
    assert_eq!(sort_on_axis(Vec::new(), &keys, 0), Vec::<usize>::new());
}

#[test]
fn split_cuts_the_ordered_items_at_the_median() {
    let keys = vec![[5, 0, 0], [2, 0, 0], [9, 0, 0], [2, 0, 0], [7, 0, 0]];
    assert_eq!(split_on_axis(vec![0, 1, 2, 3, 4], &keys, 0), (vec![1, 3], vec![0, 4, 2]));
    assert_eq!(split_on_axis(vec![4, 2], &keys, 0), (vec![4], vec![2]));
    assert_eq!(split_on_axis(vec![2], &keys, 1), (vec![], vec![2]));
    assert_eq!(split_on_axis(vec![3, 1, 0, 2], &keys, 2), (vec![0, 1], vec![2, 3]));
}

#[test]
fn single_primitive_makes_a_leaf() {
    let prims = vec![Dot { x: 5, depth: 2, name: 0 }];
    let bvh = Bvh::new(prims.clone(), &keys_of(&prims), &bounds_of(&prims), &merge);
    assert_eq!(*bvh.aabb(), (5, 5));
    assert_eq!(bvh.primitives().len(), 1);
    let hit = bvh.hit(&|_b: &(u64, u64)| true, &|d: &Dot| Some((d.depth, d.name)));
    assert_eq!(hit, Some((2, 0)));
}

#[test]
fn every_build_is_a_median_split_over_all_primitives() {
    let prims = dots();
    let keys = keys_of(&prims);
    let bounds = bounds_of(&prims);
    for _ in 0..20 {
        let bvh = Bvh::new(prims.clone(), &keys, &bounds, &merge);
        assert_eq!(*bvh.aabb(), (0, 15));
        let items: Vec<usize> = (0..prims.len()).collect();
        let node = BvhNode::new(items, &keys, &bounds, &merge);
        let mut ls = Vec::new();
        leaves(&node, &mut ls);
        ls.sort();
        assert_eq!(ls, (0..prims.len()).collect::<Vec<_>>());
        check_split(&node, &keys, &bounds);
    }
}

#[test]
fn hierarchy_and_scan_agree_on_every_probe() {
    let prims = dots();
    let keys = keys_of(&prims);
    let bounds = bounds_of(&prims);
    let scene = Scene::new(prims.clone());
    for _ in 0..20 {
        let bvh = Bvh::new(prims.clone(), &keys, &bounds, &merge);
        for q in 0..18u64 {
            let box_test = |b: &(u64, u64)| b.0 <= q && q <= b.1;
            let hit_test = |d: &Dot| if d.x == q { Some((d.depth, d.name)) } else { None };
            let walked = bvh.hit(&box_test, &hit_test);
            let scanned = scene.hit(&hit_test);
            assert_eq!(walked.map(|h| h.0), scanned.map(|h| h.0));
        }
    }
}

#[test]
fn hierarchy_finds_the_nearest_hit() {
    let prims = dots();
    let bvh = Bvh::new(prims.clone(), &keys_of(&prims), &bounds_of(&prims), &merge);
    let box_test = |b: &(u64, u64)| b.0 <= 7 && 7 <= b.1;
    let hit_test = |d: &Dot| if d.x == 7 { Some((d.depth, d.name)) } else { None };
    assert_eq!(bvh.hit(&box_test, &hit_test), Some((2, 2)));
    let miss = |d: &Dot| if d.x == 5 { Some((d.depth, d.name)) } else { None };
    let box_miss = |b: &(u64, u64)| b.0 <= 5 && 5 <= b.1;
    assert_eq!(bvh.hit(&box_miss, &miss), None);
}

#[test]
fn a_branch_whose_box_is_missed_reports_nothing() {
    let prims = dots();
    let bvh = Bvh::new(prims.clone(), &keys_of(&prims), &bounds_of(&prims), &merge);
    let hit_test = |d: &Dot| Some((d.depth, d.name));
    assert_eq!(bvh.hit(&|_b: &(u64, u64)| false, &hit_test), None);
    assert_eq!(bvh.hit(&|_b: &(u64, u64)| true, &hit_test).map(|h| h.0), Some(1));
}

#[test]
fn scene_keeps_the_first_of_equal_hits() {
    let prims = dots();
    let scene = Scene::new(prims.clone());
    assert_eq!(scene.primitives().len(), 16);
    let at_four = |d: &Dot| if d.x == 4 { Some((d.depth, d.name)) } else { None };
    assert_eq!(scene.hit(&at_four), Some((5, 3)));
    let all = |d: &Dot| Some((d.depth, d.name));
    assert_eq!(scene.hit(&all), Some((1, 5)));
    let none = |_d: &Dot| None::<(u64, u32)>;
    assert_eq!(scene.hit(&none), None);
    let empty: Scene<Dot> = Scene::new(Vec::new());
    assert_eq!(empty.hit(&all), None);
}

fn height<B>(node: &BvhNode<B>) -> u32 {
    match node {
        BvhNode::Leaf(_, _) => 0,
        BvhNode::Branch(l, r, _) => 1 + height(l).max(height(r)),
    }
}

#[test]
fn median_splits_keep_the_tree_shallow() {
    let prims = dots();
    let keys = keys_of(&prims);
    let bounds = bounds_of(&prims);
    for (n, most) in [(1usize, 0u32), (2, 1), (3, 2), (5, 3), (8, 3), (9, 4), (16, 4)] {
        for _ in 0..10 {
            let node = BvhNode::new((0..n).collect(), &keys, &bounds, &merge);
            let h = height(&node);
            assert!(h <= most, "{} primitives gave height {}", n, h);
            assert!(1usize << h < 2 * n);
        }
    }
}
