use clovers::bvh::{BVHNode, BvhAlgorithm};
use clovers::hitable::{Empty, Geometry, Hitable, HitableList};
use clovers::traversal::RayQuery;

/// One-dimensional test geometry: a primitive is an interval `(lo, hi)`, and
/// so is a bounding box.
struct Line;

impl Geometry<(i64, i64), (i64, i64)> for Line {
    fn primitive_aabb(&self, p: &(i64, i64)) -> Option<(i64, i64)> {
        Some(*p)
    }
    fn combine(&self, a: &(i64, i64), b: &(i64, i64)) -> (i64, i64) {
        (a.0.min(b.0), a.1.max(b.1))
    }
    fn longest_axis(&self, _aabb: &(i64, i64)) -> usize {
        0
    }
    fn min_less(&self, a: &(i64, i64), b: &(i64, i64), _axis: usize) -> bool {
        a.0 < b.0
    }
    fn sah_partition(&self, hitables: &Vec<Hitable<(i64, i64), (i64, i64)>>) -> Vec<bool> {
        let n = hitables.len();
        (0..n).map(|i| i < n / 2).collect()
    }
}

/// A ray travelling along the line from `start` upwards, searched up to `end`.
struct Ray {
    start: i64,
    end: i64,
}

impl RayQuery<(i64, i64), (i64, i64), i64, i64> for Ray {
    fn box_hit(&self, aabb: &(i64, i64)) -> bool {
        aabb.1 >= self.start && aabb.0 <= self.end
    }
    fn box_distance(&self, aabb: &(i64, i64)) -> Option<i64> {
        if aabb.1 < self.start {
            None
        } else {
            Some(aabb.0.max(self.start) - self.start)
        }
    }
    fn primitive_hit(&self, p: &(i64, i64)) -> Option<i64> {
        let entry = p.0.max(self.start);
        if entry <= p.1 && entry <= self.end {
            Some(entry - self.start)
        } else {
            None
        }
    }
    fn hit_distance(&self, hit: &i64) -> i64 {
        *hit
    }
    fn less(&self, a: &i64, b: &i64) -> bool {
        a < b
    }
    fn max(&self, a: &i64, b: &i64) -> i64 {
        *a.max(b)
    }
    fn infinity(&self) -> i64 {
        i64::MAX
    }
    fn narrowed(&self, distance_max: &i64) -> Self {
        Ray { start: self.start, end: self.start + *distance_max }
    }
}

type H = Hitable<(i64, i64), (i64, i64)>;

fn tree(lows: &[i64]) -> BVHNode<(i64, i64), (i64, i64)> {
    let hitables: Vec<H> = lows.iter().map(|&lo| Hitable::Sphere((lo, lo + 1))).collect();
    BVHNode::from_list(BvhAlgorithm::LongestAxis, hitables, &Line)
}

#[test]
fn closest_hit_in_tree() {
    let node = tree(&[40, 10, 30, 20, 50]);
    assert_eq!(node.hit(&Line, &Ray { start: 0, end: 100 }), Some(10));
    assert_eq!(node.hit(&Line, &Ray { start: 25, end: 100 }), Some(5));
    assert_eq!(node.hit(&Line, &Ray { start: 60, end: 100 }), None);
    assert_eq!(node.hit(&Line, &Ray { start: 0, end: 5 }), None);
}

#[test]
fn testcount_counts_visited_nodes() {
    let node = tree(&[40, 10, 30, 20, 50, 60, 70, 80]);
    let mut depth = 0usize;
    let hit = node.testcount(&mut depth, &Line, &Ray { start: 0, end: 100 });
    assert_eq!(hit, Some(10));
    assert!(depth >= 1);
    let mut depth = 0usize;
    let miss = node.testcount(&mut depth, &Line, &Ray { start: 200, end: 300 });
    assert_eq!(miss, None);
    assert_eq!(depth, 1);
}

#[test]
fn bvh_testcount_visits_all_nodes_of_a_hit_tree() {
    let node = tree(&[1, 2, 3, 4]);
    let mut depth = 0usize;
    node.bvh_testcount(&mut depth, &Ray { start: 0, end: 100 });
    assert_eq!(depth, 3);
    let mut depth = 0usize;
    node.bvh_testcount(&mut depth, &Ray { start: 50, end: 100 });
    assert_eq!(depth, 1);
}

#[test]
fn primitive_testcount_weights() {
    let list = HitableList::new(vec![Hitable::Sphere((0, 1)), Hitable::Sphere((2, 3))], &Line);
    let node = BVHNode { left: Box::new(Hitable::Boxy((0, 5))), right: Box::new(Hitable::HitableList(list)), aabb: (0, 5) };
    let mut count = 0usize;
    node.primitive_testcount(&mut count, &Ray { start: 0, end: 10 });
    assert_eq!(count, 8);
    let empty = BVHNode { left: Box::new(Hitable::Empty(Empty::new())), right: Box::new(Hitable::Sphere((0, 1))), aabb: (0, 1) };
    let mut count = 0usize;
    empty.primitive_testcount(&mut count, &Ray { start: 0, end: 10 });
    assert_eq!(count, 1);
}

#[test]
fn list_hit_passes_over_misses() {
    let list = HitableList::new(vec![Hitable::Sphere((5, 6)), Hitable::Sphere((1, 2))], &Line);
    assert_eq!(list.hit(&Line, &Ray { start: 0, end: 10 }), Some(1));
    let list = HitableList::new(vec![Hitable::Sphere((5, 6)), Hitable::Sphere((20, 21))], &Line);
    assert_eq!(list.hit(&Line, &Ray { start: 0, end: 10 }), Some(5));
    let list = HitableList::new(vec![Hitable::Sphere((20, 21)), Hitable::Sphere((30, 31))], &Line);
    assert_eq!(list.hit(&Line, &Ray { start: 0, end: 10 }), None);
}

#[test]
fn list_hit_keeps_the_first_of_equal_hits() {
    let list = HitableList::new(vec![Hitable::Sphere((3, 4)), Hitable::Sphere((3, 9)), Hitable::Sphere((7, 8))], &Line);
    assert_eq!(list.hit(&Line, &Ray { start: 0, end: 10 }), Some(3));
}

#[test]
fn testcount_finds_the_same_hit_as_hit() {
    let node = tree(&[8, 1, 5, 3, 9, 2]);
    for start in [0, 2, 4, 6] {
        let ray = Ray { start, end: 20 };
        let mut depth = 0usize;
        assert_eq!(node.testcount(&mut depth, &Line, &ray), node.hit(&Line, &ray));
        assert!(depth >= 1);
    }
}
