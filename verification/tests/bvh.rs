use clovers::bvh::{longest_axis_midpoint, surface_area_heuristic, BVHNode, BvhAlgorithm};
use clovers::hitable::{vec_bounding_box, Empty, Geometry, Hitable, HitableList};
use rand::rngs::SmallRng;
use rand::SeedableRng;

/// One-dimensional test geometry: a primitive is an interval `(lo, hi)`,
/// and so is a bounding box.
struct Line;

impl Geometry<(i64, i64), (i64, i64)> for Line {
    fn primitive_aabb(&self, p: &(i64, i64)) -> Option<(i64, i64)> {
        if p.0 <= p.1 {
            Some(*p)
        } else {
            None
        }
    }
    fn combine(&self, a: &(i64, i64), b: &(i64, i64)) -> (i64, i64) {
        (a.0.min(b.0), a.1.max(b.1))
    }
    fn longest_axis(&self, _aabb: &(i64, i64)) -> usize {
        0
    }
    fn min_less(&self, a: &(i64, i64), b: &(i64, i64), _axis: usize) -> bool {
        a.0 < b.0
    }
    fn sah_partition(&self, hitables: &Vec<Hitable<(i64, i64), (i64, i64)>>) -> Vec<bool> {
        let lows: Vec<i64> = hitables.iter().map(|h| self.aabb_of(h).0).collect();
        let mid = (lows.iter().min().unwrap() + lows.iter().max().unwrap()) / 2;
        lows.iter().map(|&lo| lo <= mid).collect()
    }
}

impl Line {
    fn aabb_of(&self, h: &Hitable<(i64, i64), (i64, i64)>) -> (i64, i64) {
        h.aabb(self).unwrap()
    }
}

type H = Hitable<(i64, i64), (i64, i64)>;

fn spheres(lows: &[i64]) -> Vec<H> {
    lows.iter().map(|&lo| Hitable::Sphere((lo, lo + 1))).collect()
}

fn leaves(h: &H, out: &mut Vec<(i64, i64)>) {
    match h {
        Hitable::BVHNode(n) => {
            leaves(&n.left, out);
            leaves(&n.right, out);
        }
        Hitable::Sphere(p) => out.push(*p),
        Hitable::Empty(_) => {}
        _ => panic!("unexpected hitable"),
    }
}

fn count_empty(h: &H) -> usize {
    match h {
        Hitable::BVHNode(n) => count_empty(&n.left) + count_empty(&n.right),
        Hitable::Empty(_) => 1,
        _ => 0,
    }
}

fn node_leaves(n: BVHNode<(i64, i64), (i64, i64)>) -> Vec<(i64, i64)> {
    let mut out = Vec::new();
    leaves(&Hitable::BVHNode(n), &mut out);
    out
}

#[test]
fn longest_axis_tree_holds_every_hitable_sorted() {
    let lows = [5, 3, 9, 1, 7, 2, 8];
    let node = BVHNode::from_list(BvhAlgorithm::LongestAxis, spheres(&lows), &Line);
    assert_eq!(node.count(), 7);
    assert_eq!(node.aabb, (1, 10));
    let found = node_leaves(node);
    let expected: Vec<(i64, i64)> = vec![1, 2, 3, 5, 7, 8, 9].into_iter().map(|lo| (lo, lo + 1)).collect();
    assert_eq!(found, expected);
}

#[test]
fn longest_axis_small_lists() {
    let one = BVHNode::from_list(BvhAlgorithm::LongestAxis, spheres(&[4]), &Line);
    assert!(matches!(*one.right, Hitable::Empty(_)));
    assert_eq!(one.count(), 2);
    let two = BVHNode::from_list(BvhAlgorithm::LongestAxis, spheres(&[4, 2]), &Line);
    assert_eq!(node_leaves(two), vec![(2, 3), (4, 5)]);
    let three = BVHNode::from_list(BvhAlgorithm::LongestAxis, spheres(&[4, 2, 3]), &Line);
    assert!(matches!(*three.right, Hitable::BVHNode(_)));
    assert_eq!(node_leaves(three), vec![(2, 3), (3, 4), (4, 5)]);
}

#[test]
fn empty_list_has_no_tree() {
    assert!(longest_axis_midpoint(Vec::<H>::new(), &Line).is_none());
    assert!(surface_area_heuristic(Vec::<H>::new(), &Line).is_none());
}

#[test]
fn unbounded_hitable_has_no_tree() {
    for sah in [false, true] {
        let mut hitables = spheres(&[1, 2]);
        hitables.push(Hitable::Sphere((5, 0)));
        if sah {
            assert!(surface_area_heuristic(hitables, &Line).is_none());
        } else {
            assert!(longest_axis_midpoint(hitables, &Line).is_none());
        }
    }
    let with_empty = vec![Hitable::Sphere((1, 2)), Hitable::Empty(Empty::new())];
    assert!(vec_bounding_box(&with_empty, &Line).is_none());
}

#[test]
fn sah_tree_holds_every_hitable() {
    let lows = [5, 3, 9, 1, 7, 2, 8, 8];
    let node = BVHNode::from_list(BvhAlgorithm::Sah, spheres(&lows), &Line);
    let count = node.count();
    let empties = count_empty(&node.left) + count_empty(&node.right);
    assert!(empties > 0);
    assert_eq!(count, 8 + empties);
    let mut found = node_leaves(node);
    found.sort();
    let mut expected: Vec<(i64, i64)> = lows.iter().map(|&lo| (lo, lo + 1)).collect();
    expected.sort();
    assert_eq!(found, expected);
}

#[test]
fn sah_two_hitables_keep_order() {
    let node = BVHNode::from_list(BvhAlgorithm::Sah, spheres(&[9, 1]), &Line);
    assert_eq!(node_leaves(node), vec![(9, 10), (1, 2)]);
}

#[test]
fn flatten_nested_lists() {
    let inner = HitableList::new(spheres(&[3, 4]), &Line);
    let middle = HitableList::new(vec![Hitable::Sphere((2, 3)), Hitable::HitableList(inner)], &Line);
    let outer = HitableList::new(
        vec![Hitable::Sphere((1, 2)), Hitable::HitableList(middle), Hitable::Sphere((5, 6))],
        &Line,
    );
    assert_eq!(outer.aabb, (1, 6));
    let flat = outer.flatten();
    let lows: Vec<i64> = flat
        .iter()
        .map(|h| match h {
            Hitable::Sphere(p) => p.0,
            _ => panic!("list left after flattening"),
        })
        .collect();
    assert_eq!(lows, vec![1, 2, 3, 4, 5]);
}

#[test]
fn bounding_box_needs_every_member_bounded() {
    assert!(vec_bounding_box(&Vec::<H>::new(), &Line).is_none());
    let hitables = vec![Hitable::Sphere((0, 1)), Hitable::Empty(Empty::new())];
    assert!(vec_bounding_box(&hitables, &Line).is_none());
    assert_eq!(vec_bounding_box(&spheres(&[4, 1, 7]), &Line), Some((1, 8)));
}

#[test]
fn list_box_spans_its_members_and_is_returned_by_aabb() {
    let list = HitableList::new(spheres(&[2, 7, 4]), &Line);
    assert_eq!(list.aabb, (2, 8));
    let h: H = Hitable::HitableList(list);
    assert_eq!(h.aabb(&Line), Some((2, 8)));
    assert_eq!(Hitable::<(i64, i64), (i64, i64)>::Empty(Empty::new()).aabb(&Line), None);
}

#[test]
fn random_picks_a_hitable_of_the_tree() {
    let lows = [5, 3, 9, 1, 7];
    let node = BVHNode::from_list(BvhAlgorithm::LongestAxis, spheres(&lows), &Line);
    let mut rng = SmallRng::seed_from_u64(7);
    let mut seen = Vec::new();
    for _ in 0..400 {
        match node.random(&mut rng) {
            Hitable::Sphere(p) => {
                assert!(lows.contains(&p.0) && p.1 == p.0 + 1);
                if !seen.contains(&p.0) {
                    seen.push(p.0);
                }
            },
            _ => panic!("random must reach a hitable of the tree"),
        }
    }
    seen.sort();
    assert_eq!(seen, vec![1, 3, 5, 7, 9]);
}

#[test]
fn random_passes_over_the_empty_child() {
    let one = BVHNode::from_list(BvhAlgorithm::LongestAxis, spheres(&[4]), &Line);
    let mut rng = SmallRng::seed_from_u64(1);
    for _ in 0..20 {
        assert!(matches!(one.random(&mut rng), Hitable::Sphere((4, 5))));
    }
}

#[test]
fn lists_with_boxes_always_build_a_tree() {
    for alg in [BvhAlgorithm::LongestAxis, BvhAlgorithm::Sah] {
        let lists: Vec<H> = [[1, 2], [6, 7], [3, 4], [9, 10]]
            .iter()
            .map(|lows| Hitable::HitableList(HitableList::new(spheres(lows), &Line)))
            .collect();
        let node = BVHNode::from_list(alg, lists, &Line);
        assert_eq!(node.count(), 4);
        assert_eq!(node.aabb, (1, 11));
    }
}

fn child_leaves(h: &H) -> Vec<(i64, i64)> {
    let mut out = Vec::new();
    leaves(h, &mut out);
    out
}

#[test]
fn midpoint_split_halves_the_sorted_list() {
    let node = BVHNode::from_list(BvhAlgorithm::LongestAxis, spheres(&[5, 3, 9, 1, 7, 2]), &Line);
    assert_eq!(child_leaves(&node.left), vec![(1, 2), (2, 3), (3, 4)]);
    assert_eq!(child_leaves(&node.right), vec![(5, 6), (7, 8), (9, 10)]);
}

#[test]
fn sah_splits_by_the_partition_flags() {
    let node = BVHNode::from_list(BvhAlgorithm::Sah, spheres(&[8, 1, 9, 2]), &Line);
    assert_eq!(child_leaves(&node.left), vec![(1, 2), (2, 3)]);
    assert_eq!(child_leaves(&node.right), vec![(8, 9), (9, 10)]);
}

#[test]
fn pick_child_follows_the_coin() {
    let node = BVHNode::from_list(BvhAlgorithm::LongestAxis, spheres(&[2, 7]), &Line);
    assert!(matches!(node.pick_child(true), Hitable::Sphere((2, 3))));
    assert!(matches!(node.pick_child(false), Hitable::Sphere((7, 8))));
    let one = BVHNode::from_list(BvhAlgorithm::LongestAxis, spheres(&[4]), &Line);
    assert!(matches!(one.pick_child(true), Hitable::Sphere((4, 5))));
    assert!(matches!(one.pick_child(false), Hitable::Sphere((4, 5))));
    let flipped = BVHNode { left: Box::new(Hitable::Empty(Empty::new())), right: Box::new(Hitable::Sphere((1, 2))), aabb: (1, 2) };
    assert!(matches!(flipped.pick_child(true), Hitable::Sphere((1, 2))));
}

#[test]
fn sah_keeps_a_placeholder_for_a_one_hitable_side() {
    // the partition flags [true, false, false] leave one hitable on the left,
    // which becomes a node beside the empty placeholder
    let node = BVHNode::from_list(BvhAlgorithm::Sah, spheres(&[1, 8, 9]), &Line);
    assert_eq!(count_empty(&Hitable::BVHNode(node)), 1);
}
