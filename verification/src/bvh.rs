//! Bounding Volume Hierarchy acceleration structures and related utilities.
use crate::hitable::{
    all_have_box, folded_box, has_box, lemma_member_may_lack_box, may_lack_box, must_lack_box, possible_box,
    some_may_lack_box, vec_bounding_box, Empty, Geometry, Hitable,
};
use crate::random::coin_flip;
use rand::rngs::SmallRng;
use vstd::prelude::*;
use vstd::multiset::Multiset;
use vstd::seq_lib::{group_to_multiset_ensures, lemma_multiset_commutative, to_multiset_contains, to_multiset_insert, to_multiset_remove};

verus! {

/// Bounding Volume Hierarchy Node.
///
/// A node in a tree structure defining a hierarchy of objects in a scene: a node
/// knows its bounding box, and has two children which are also hitables.
#[derive(Debug)]
pub struct BVHNode<P, B> {
    /// Left child of the `BVHNode`
    pub left: Box<Hitable<P, B>>,
    /// Right child of the `BVHNode`
    pub right: Box<Hitable<P, B>>,
    /// Bounding box containing both of the child nodes
    pub aabb: B,
}

/// The choice of algorithms used for constructing the Bounding Volume Hierarchy tree
#[derive(Copy, Clone, Debug, PartialEq, Eq)]
pub enum BvhAlgorithm {
    /// Splitting method based on the longest axis of the current `AABB`
    LongestAxis,
    /// Splitting method based on the Surface Area Heuristic.
    Sah,
}

impl Default for BvhAlgorithm {
    fn default() -> (a: Self)
        ensures
            a == BvhAlgorithm::LongestAxis,
    {
        BvhAlgorithm::LongestAxis
    }
}

/// The number of children below a node that are not themselves nodes.
pub open spec fn node_count<P, B>(n: BVHNode<P, B>) -> nat
    decreases n,
{
    child_count(*n.left) + child_count(*n.right)
}

/// A child counts as one unless it is a node, whose count is used instead.
pub open spec fn child_count<P, B>(h: Hitable<P, B>) -> nat
    decreases h,
{
    match h {
        Hitable::BVHNode(b) => node_count(b),
        _ => 1,
    }
}

/// The hitables placed in a tree, in left-to-right order: the children that
/// are neither nodes nor empty, with nodes replaced by their own hitables.
pub open spec fn node_items<P, B>(n: BVHNode<P, B>) -> Seq<Hitable<P, B>>
    decreases n,
{
    child_items(*n.left) + child_items(*n.right)
}

/// The hitables of one child of a node, see [`node_items`].
pub open spec fn child_items<P, B>(h: Hitable<P, B>) -> Seq<Hitable<P, B>>
    decreases h,
{
    match h {
        Hitable::BVHNode(b) => node_items(b),
        Hitable::Empty(_) => seq![],
        _ => seq![h],
    }
}

/// Whether a hitable is one that a tree holds as a leaf: neither a node nor empty.
pub open spec fn is_leaf<P, B>(h: Hitable<P, B>) -> bool {
    !(h is BVHNode) && !(h is Empty)
}

/// Whether all hitables of a sequence are leaves.
pub open spec fn all_leaves<P, B>(s: Seq<Hitable<P, B>>) -> bool {
    forall|i: int| 0 <= i < s.len() ==> is_leaf(#[trigger] s[i])
}

/// Whether `r` holds the same hitables as `s`, each as often.
pub open spec fn same_hitables<P, B>(r: Seq<Hitable<P, B>>, s: Seq<Hitable<P, B>>) -> bool {
    r.to_multiset() == s.to_multiset()
}

proof fn lemma_leaves_of_permutation<P, B>(r: Seq<Hitable<P, B>>, s: Seq<Hitable<P, B>>)
    requires
        same_hitables(r, s),
        all_leaves(s),
    ensures
        all_leaves(r),
{
    broadcast use group_to_multiset_ensures;
    assert forall|i: int| 0 <= i < r.len() implies is_leaf(#[trigger] r[i]) by {
        assert(r.contains(r[i]));
        assert(s.to_multiset().count(r[i]) > 0);
        assert(s.contains(r[i]));
    }
}

proof fn lemma_leaves_of_parts<P, B>(s: Seq<Hitable<P, B>>, at: int)
    requires
        all_leaves(s),
        0 <= at <= s.len(),
    ensures
        all_leaves(s.subrange(0, at)),
        all_leaves(s.subrange(at, s.len() as int)),
        s.subrange(0, at) + s.subrange(at, s.len() as int) == s,
{
    assert forall|i: int| 0 <= i < s.len() - at implies is_leaf(#[trigger] s.subrange(at, s.len() as int)[i]) by {
        assert(s.subrange(at, s.len() as int)[i] == s[at + i]);
    }
    assert(s.subrange(0, at) + s.subrange(at, s.len() as int) =~= s);
}

/// Whether a node's box is the box of its children: the box of its left
/// child where the right one is an empty placeholder, else a possible
/// `G::combine` of boxes the two children may have.
pub open spec fn combined_box<P, B: Clone, G: Geometry<P, B>>(geometry: &G, n: BVHNode<P, B>) -> bool {
    if *n.right is Empty {
        possible_box(geometry, *n.left, n.aabb)
    } else {
        exists|cl: B, cr: B|
            #![trigger possible_box(geometry, *n.left, cl), possible_box(geometry, *n.right, cr)]
            possible_box(geometry, *n.left, cl) && possible_box(geometry, *n.right, cr)
                && call_ensures(G::combine, (geometry, &cl, &cr), n.aabb)
    }
}

/// Whether every node of a tree has the box of its children, see [`combined_box`].
pub open spec fn all_combined<P, B: Clone, G: Geometry<P, B>>(geometry: &G, n: BVHNode<P, B>) -> bool
    decreases n,
{
    combined_box(geometry, n) && child_combined(geometry, *n.left) && child_combined(geometry, *n.right)
}

/// [`all_combined`] for a child that is a node; true for any other child.
pub open spec fn child_combined<P, B: Clone, G: Geometry<P, B>>(geometry: &G, h: Hitable<P, B>) -> bool
    decreases h,
{
    match h {
        Hitable::BVHNode(b) => all_combined(geometry, b),
        _ => true,
    }
}

/// Whether a node's box is a possible fold of `G::combine` over the boxes of
/// the hitables it holds, taken in some order.
pub open spec fn folded_over_items<P, B: Clone, G: Geometry<P, B>>(geometry: &G, n: BVHNode<P, B>) -> bool {
    exists|s: Seq<Hitable<P, B>>|
        #![trigger folded_box(geometry, s, n.aabb)]
        same_hitables(s, node_items(n)) && folded_box(geometry, s, n.aabb)
}

/// Whether every node of a tree has a box folded over its hitables, see [`folded_over_items`].
pub open spec fn all_folded<P, B: Clone, G: Geometry<P, B>>(geometry: &G, n: BVHNode<P, B>) -> bool
    decreases n,
{
    folded_over_items(geometry, n) && child_folded(geometry, *n.left) && child_folded(geometry, *n.right)
}

/// [`all_folded`] for a child that is a node; true for any other child.
pub open spec fn child_folded<P, B: Clone, G: Geometry<P, B>>(geometry: &G, h: Hitable<P, B>) -> bool
    decreases h,
{
    match h {
        Hitable::BVHNode(b) => all_folded(geometry, b),
        _ => true,
    }
}

/// Whether the geometry may answer `answer` when asked if hitable `a` sorts
/// before hitable `b` along `axis`, for boxes the two hitables may have.
pub open spec fn sorts_before<P, B: Clone, G: Geometry<P, B>>(
    geometry: &G,
    axis: usize,
    a: Hitable<P, B>,
    b: Hitable<P, B>,
    answer: bool,
) -> bool {
    exists|ca: B, cb: B|
        #![trigger possible_box(geometry, a, ca), possible_box(geometry, b, cb)]
        possible_box(geometry, a, ca) && possible_box(geometry, b, cb)
            && call_ensures(G::min_less, (geometry, &ca, &cb, axis), answer)
}

/// Whether a sequence is in order along `axis`, as an insertion sort by the
/// geometry's answers leaves it: of each two neighbours, the later one may be
/// answered not to sort before the earlier, or the earlier to sort before the later.
pub open spec fn in_axis_order<P, B: Clone, G: Geometry<P, B>>(geometry: &G, axis: usize, s: Seq<Hitable<P, B>>) -> bool {
    forall|i: int|
        0 <= i < s.len() - 1 ==> #[trigger] sorts_before(geometry, axis, s[i + 1], s[i], false) || sorts_before(
            geometry,
            axis,
            s[i],
            s[i + 1],
            true,
        )
}

/// Whether `axis` is an axis the geometry may give as the longest of a box
/// folded over the hitables of `s`.
pub open spec fn split_axis<P, B: Clone, G: Geometry<P, B>>(geometry: &G, s: Seq<Hitable<P, B>>, axis: usize) -> bool {
    exists|bounding: B|
        #![trigger folded_box(geometry, s, bounding)]
        folded_box(geometry, s, bounding) && call_ensures(G::longest_axis, (geometry, &bounding), axis)
}

/// Whether `n` is a tree that the longest-axis midpoint construction may
/// build from `s`: the hitables are ordered along an axis that the geometry
/// gives as the longest of their box, and split as [`midpoint_split`] says.
pub open spec fn midpoint_tree<P, B: Clone, G: Geometry<P, B>>(geometry: &G, s: Seq<Hitable<P, B>>, n: BVHNode<P, B>) -> bool
    decreases n, 1nat,
{
    exists|axis: usize| #[trigger] split_axis(geometry, s, axis) && midpoint_split(geometry, s, axis, n)
}

/// How the midpoint construction splits `s` along `axis`: one hitable beside
/// the empty placeholder; two in the order the geometry gives; three sorted,
/// the first beside a node of the other two; more sorted and cut at the
/// midpoint, each half built into a subtree the same way.
pub open spec fn midpoint_split<P, B: Clone, G: Geometry<P, B>>(
    geometry: &G,
    s: Seq<Hitable<P, B>>,
    axis: usize,
    n: BVHNode<P, B>,
) -> bool
    decreases n, 0nat,
{
    if s.len() == 1 {
        *n.left == s[0] && *n.right is Empty
    } else if s.len() == 2 {
        exists|before: bool|
            #[trigger] sorts_before(geometry, axis, s[0], s[1], before) && if before {
                *n.left == s[0] && *n.right == s[1]
            } else {
                *n.left == s[1] && *n.right == s[0]
            }
    } else {
        exists|sorted: Seq<Hitable<P, B>>|
            #[trigger] in_axis_order(geometry, axis, sorted) && same_hitables(sorted, s) && sorted.len() == s.len() && if s.len()
                == 3 {
                *n.left == sorted[0] && (*n.right matches Hitable::BVHNode(m) && *m.left == sorted[1] && *m.right
                    == sorted[2])
            } else {
                &&& *n.left matches Hitable::BVHNode(l) && midpoint_tree(
                    geometry,
                    sorted.subrange(0, (s.len() / 2) as int),
                    l,
                )
                &&& *n.right matches Hitable::BVHNode(r) && midpoint_tree(
                    geometry,
                    sorted.subrange((s.len() / 2) as int, s.len() as int),
                    r,
                )
            }
    }
}

/// Whether position `i` is flagged: flags past the end count as unflagged.
pub open spec fn flagged(flags: Seq<bool>, i: int) -> bool {
    i < flags.len() && flags[i]
}

/// The hitables of `s` split by `flags`, each side in the order of `s`: the
/// flagged ones first, the others second.
pub open spec fn flag_split<P, B>(s: Seq<Hitable<P, B>>, flags: Seq<bool>) -> (Seq<Hitable<P, B>>, Seq<Hitable<P, B>>)
    decreases s.len(),
{
    if s.len() == 0 {
        (Seq::empty(), Seq::empty())
    } else {
        let (a, b) = flag_split(s.drop_last(), flags);
        if flagged(flags, s.len() - 1) {
            (a.push(s.last()), b)
        } else {
            (a, b.push(s.last()))
        }
    }
}

/// Whether `n` is a tree that the surface area heuristic construction may
/// build from `s`: its box is folded over them; one hitable stands beside the
/// empty placeholder, two stand in their order; more are split by flags that
/// the geometry's `sah_partition` may give for them, see [`sah_split`].
pub open spec fn sah_tree<P, B: Clone, G: Geometry<P, B>>(geometry: &G, s: Seq<Hitable<P, B>>, n: BVHNode<P, B>) -> bool
    decreases n, 1nat,
{
    &&& folded_box(geometry, s, n.aabb)
    &&& if s.len() == 1 {
        *n.left == s[0] && *n.right is Empty
    } else if s.len() == 2 {
        *n.left == s[0] && *n.right == s[1]
    } else {
        exists|v: Vec<Hitable<P, B>>, flags: Vec<bool>|
            #![trigger call_ensures(G::sah_partition, (geometry, &v), flags)]
            v@ == s && call_ensures(G::sah_partition, (geometry, &v), flags) && sah_split(
                geometry,
                flag_split(s, flags@),
                n,
            )
    }
}

/// How the surface area heuristic construction places the two sides of a
/// split: where one side is empty, the first hitable of the other stands
/// beside a subtree of the rest of that side; otherwise each side becomes a
/// subtree, the flagged one on the left.
pub open spec fn sah_split<P, B: Clone, G: Geometry<P, B>>(
    geometry: &G,
    sides: (Seq<Hitable<P, B>>, Seq<Hitable<P, B>>),
    n: BVHNode<P, B>,
) -> bool
    decreases n, 0nat,
{
    let (l, r) = sides;
    if l.len() == 0 {
        *n.left == r[0] && (*n.right matches Hitable::BVHNode(m) && sah_tree(geometry, r.drop_first(), m))
    } else if r.len() == 0 {
        *n.right == l[0] && (*n.left matches Hitable::BVHNode(m) && sah_tree(geometry, l.drop_first(), m))
    } else {
        &&& *n.left matches Hitable::BVHNode(a) && sah_tree(geometry, l, a)
        &&& *n.right matches Hitable::BVHNode(b) && sah_tree(geometry, r, b)
    }
}

/// `box_compare`: whether hitable `a` sorts before hitable `b` along `axis`,
/// comparing the lower ends of their bounding boxes. `None` if either has no box.
fn box_less<P, B: Clone, G: Geometry<P, B>>(
    a: &Hitable<P, B>,
    b: &Hitable<P, B>,
    axis: usize,
    geometry: &G,
) -> (r: Option<bool>)
    ensures
        (a is Empty || b is Empty) ==> r is None,
        has_box(geometry, *a) && has_box(geometry, *b) ==> r is Some,
        r is None ==> may_lack_box(geometry, *a) || may_lack_box(geometry, *b),
        r matches Some(x) ==> sorts_before(geometry, axis, *a, *b, x),
{
    match (a.aabb(geometry), b.aabb(geometry)) {
        (Some(box_a), Some(box_b)) => {
            let x = geometry.min_less(&box_a, &box_b, axis);
            assert(possible_box(geometry, *a, box_a) && possible_box(geometry, *b, box_b)
                && call_ensures(G::min_less, (geometry, &box_a, &box_b, axis), x));
            Some(x)
        },
        _ => None,
    }
}

/// Sorts hitables along an axis by the lower ends of their bounding boxes;
/// stable. `None` if a comparison meets a hitable without a bounding box.
fn sort_along_axis<P, B: Clone, G: Geometry<P, B>>(
    hitables: Vec<Hitable<P, B>>,
    axis: usize,
    geometry: &G,
) -> (r: Option<Vec<Hitable<P, B>>>)
    ensures
        r matches Some(sorted) ==> same_hitables(sorted@, hitables@),
        r matches Some(sorted) ==> sorted.len() == hitables.len(),
        all_have_box(geometry, hitables@) ==> (r matches Some(sorted) && all_have_box(geometry, sorted@)),
        r matches Some(sorted) ==> forall|j: int| 0 <= j < sorted.len() ==> hitables@.contains(#[trigger] sorted@[j]),
        r is None ==> some_may_lack_box(geometry, hitables@),
        r matches Some(sorted) ==> in_axis_order(geometry, axis, sorted@),
{
    broadcast use group_to_multiset_ensures;
    let ghost orig = hitables@;
    let ghost all_box = all_have_box(geometry, orig);
    let mut rest = hitables;
    let mut sorted: Vec<Hitable<P, B>> = Vec::new();
    while rest.len() > 0
        invariant
            sorted@.to_multiset().add(rest@.to_multiset()) == orig.to_multiset(),
            sorted.len() + rest.len() == orig.len(),
            all_box == all_have_box(geometry, orig),
            orig == hitables@,
            all_box ==> all_have_box(geometry, sorted@) && all_have_box(geometry, rest@),
            forall|j: int| 0 <= j < sorted.len() ==> orig.contains(#[trigger] sorted@[j]),
            rest@ == orig.subrange(orig.len() - rest.len(), orig.len() as int),
            in_axis_order(geometry, axis, sorted@),
        decreases rest.len(),
    {
        let ghost before = rest@;
        let x = rest.remove(0);
        assert(orig.contains(x)) by {
            assert(orig[orig.len() - before.len()] == x);
        }
        assert(rest@ =~= orig.subrange(orig.len() - rest.len(), orig.len() as int));
        assert(all_box ==> has_box(geometry, x)) by {
            if all_box {
                assert(has_box(geometry, before[0]));
            }
        }
        assert(all_box ==> all_have_box(geometry, rest@)) by {
            if all_box {
                assert forall|j: int| 0 <= j < rest.len() implies has_box(geometry, #[trigger] rest@[j]) by {
                    assert(rest@[j] == before[j + 1]);
                }
            }
        }
        assert(before.remove(0) == rest@);
        proof {
            to_multiset_remove(before, 0);
        }
        let mut k = sorted.len();
        let mut stopped = false;
        while k > 0 && !stopped
            invariant
                k <= sorted.len(),
                k < sorted.len() ==> sorts_before(geometry, axis, x, sorted@[k as int], true),
                stopped ==> k > 0 && sorts_before(geometry, axis, x, sorted@[k - 1], false),
                all_box ==> has_box(geometry, x) && all_have_box(geometry, sorted@),
                all_box == all_have_box(geometry, orig),
                orig == hitables@,
                orig.contains(x),
                forall|j: int| 0 <= j < sorted.len() ==> orig.contains(#[trigger] sorted@[j]),
            decreases k + if stopped { 0int } else { 1int },
        {
            assert(all_box ==> has_box(geometry, sorted@[k - 1]));
            assert(orig.contains(sorted@[k - 1]));
            match box_less(&x, &sorted[k - 1], axis, geometry) {
                None => {
                    proof {
                        if may_lack_box(geometry, x) {
                            lemma_member_may_lack_box(geometry, orig, x);
                        } else {
                            lemma_member_may_lack_box(geometry, orig, sorted@[k - 1]);
                        }
                    }
                    return None;
                },
                Some(true) => {
                    k = k - 1;
                },
                Some(false) => {
                    stopped = true;
                },
            }
        }
        let ghost s0 = sorted@;
        sorted.insert(k, x);
        assert(sorted@ == s0.insert(k as int, x));
        assert(in_axis_order(geometry, axis, sorted@)) by {
            assert forall|i: int| 0 <= i < sorted.len() - 1 implies #[trigger] sorts_before(
                geometry,
                axis,
                sorted@[i + 1],
                sorted@[i],
                false,
            ) || sorts_before(geometry, axis, sorted@[i], sorted@[i + 1], true) by {
                if i < k - 1 {
                    assert(sorted@[i] == s0[i] && sorted@[i + 1] == s0[i + 1]);
                    assert(sorts_before(geometry, axis, s0[i + 1], s0[i], false) || sorts_before(geometry, axis, s0[i], s0[i + 1], true));
                } else if i == k - 1 {
                    assert(sorted@[i] == s0[k - 1] && sorted@[i + 1] == x);
                } else if i == k {
                    assert(sorted@[i] == x && sorted@[i + 1] == s0[k as int]);
                } else {
                    let j = i - 1;
                    assert(sorted@[i] == s0[j] && sorted@[i + 1] == s0[j + 1]);
                    assert(sorts_before(geometry, axis, s0[j + 1], s0[j], false) || sorts_before(geometry, axis, s0[j], s0[j + 1], true));
                }
            }
        }
        assert forall|j: int| 0 <= j < sorted.len() implies orig.contains(#[trigger] sorted@[j]) by {
            if j < k {
                assert(sorted@[j] == s0[j]);
            } else if j > k {
                assert(sorted@[j] == s0[j - 1]);
            }
        }
        assert(all_box ==> all_have_box(geometry, sorted@)) by {
            if all_box {
                assert forall|j: int| 0 <= j < sorted.len() implies has_box(geometry, #[trigger] sorted@[j]) by {
                    if j < k {
                        assert(sorted@[j] == s0[j]);
                    } else if j > k {
                        assert(sorted@[j] == s0[j - 1]);
                    }
                }
            }
        }
        proof {
            to_multiset_insert(s0, k as int, x);
        }
        assert(before.to_multiset().count(x) > 0) by {
            assert(before[0] == x);
            assert(before.contains(x));
            to_multiset_contains(before, x);
        }
        assert(sorted@.to_multiset().add(rest@.to_multiset()) =~= orig.to_multiset());
    }
    assert(rest@.to_multiset() =~= Multiset::empty());
    assert(sorted@.to_multiset() =~= orig.to_multiset());
    Some(sorted)
}

/// Builds a tree by repeatedly sorting the hitables along the longest axis of
/// their bounding box and splitting the sorted list at its midpoint.
///
/// `None` where the construction finds no bounding box it needs: for the
/// hitables (also for an empty list), or for a child of a node.
#[verifier::rlimit(100)]
#[verifier::spinoff_prover]
pub fn longest_axis_midpoint<P, B: Clone, G: Geometry<P, B>>(
    hitables: Vec<Hitable<P, B>>,
    geometry: &G,
) -> (r: Option<BVHNode<P, B>>)
    ensures
        hitables.len() == 0 ==> r is None,
        r matches Some(node) ==> (all_leaves(hitables@) ==> same_hitables(node_items(node), hitables@)),
        hitables.len() > 0 && all_have_box(geometry, hitables@) ==> r is Some,
        (exists|i: int| 0 <= i < hitables.len() && must_lack_box(geometry, #[trigger] hitables@[i])) ==> r is None,
        r is None ==> hitables.len() == 0 || some_may_lack_box(geometry, hitables@),
        r matches Some(node) ==> (all_leaves(hitables@) ==> all_combined(geometry, node)),
        r matches Some(node) ==> (all_leaves(hitables@) ==> node_empties(node) == if hitables.len() == 1 {
            1nat
        } else {
            0nat
        }),
        r matches Some(node) ==> midpoint_tree(geometry, hitables@, node),
    decreases hitables.len(),
{
    broadcast use group_to_multiset_ensures;
    let ghost orig = hitables@;
    let ghost all_box = all_have_box(geometry, orig);
    let bounding = match vec_bounding_box(&hitables, geometry) {
        Some(b) => b,
        None => {
            return None;
        },
    };
    let axis = geometry.longest_axis(&bounding);
    assert(folded_box(geometry, orig, bounding));
    assert(split_axis(geometry, orig, axis));
    let object_span = hitables.len();
    let mut hitables = hitables;
    let left: Hitable<P, B>;
    let right: Hitable<P, B>;
    let ghost mut gs: Seq<Hitable<P, B>> = Seq::empty();
    let ghost mut gsl: Seq<Hitable<P, B>> = Seq::empty();
    let ghost mut gsr: Seq<Hitable<P, B>> = Seq::empty();
    if object_span == 1 {
        left = hitables.remove(0);
        right = Hitable::Empty(Empty {});
        assert(all_box ==> has_box(geometry, orig[0]));
        let aabb = match left.aabb(geometry) {
            Some(b) => b,
            None => {
                proof {
                    lemma_member_may_lack_box(geometry, orig, orig[0]);
                }
                return None;
            },
        };
        let node = BVHNode { left: Box::new(left), right: Box::new(right), aabb };
        proof {
            if all_leaves(orig) {
                assert(is_leaf(orig[0]));
                assert(node_items(node) =~= orig);
                assert(combined_box(geometry, node));
                assert(node_empties(node) == 1);
            }
            assert(midpoint_split(geometry, orig, axis, node));
            assert(midpoint_tree(geometry, orig, node));
        }
        return Some(node);
    } else if object_span == 2 {
        let first = hitables.remove(0);
        let second = hitables.remove(0);
        assert(all_box ==> has_box(geometry, orig[0]) && has_box(geometry, orig[1]));
        let before = box_less(&first, &second, axis, geometry);
        let ghost gbefore = before;
        assert(first == orig[0] && second == orig[1]);
        match before {
            None => {
                proof {
                    if may_lack_box(geometry, first) {
                        lemma_member_may_lack_box(geometry, orig, orig[0]);
                    } else {
                        lemma_member_may_lack_box(geometry, orig, orig[1]);
                    }
                }
                return None;
            },
            Some(true) => {
                left = first;
                right = second;
            },
            Some(false) => {
                left = second;
                right = first;
            },
        }
        assert(sorts_before(geometry, axis, orig[0], orig[1], gbefore->0));
        proof {
            if all_leaves(orig) {
                assert(is_leaf(orig[0]) && is_leaf(orig[1]));
                assert(orig =~= seq![first, second]);
                let items = child_items(left) + child_items(right);
                assert(items =~= seq![left, right]);
                if left != first {
                    assert(seq![second, first].to_multiset() =~= seq![first, second].to_multiset()) by {
                        assert(seq![second, first] =~= seq![second].push(first));
                        assert(seq![first, second] =~= seq![first].push(second));
                        assert(seq![second] =~= Seq::<Hitable<P, B>>::empty().push(second));
                        assert(seq![first] =~= Seq::<Hitable<P, B>>::empty().push(first));
                    }
                }
            }
        }
    } else if object_span == 3 {
        let sorted = match sort_along_axis(hitables, axis, geometry) {
            Some(s) => s,
            None => {
                return None;
            },
        };
        let ghost s = sorted@;
        proof {
            gs = s;
        }
        let mut sorted = sorted;
        let first = sorted.remove(0);
        let second = sorted.remove(0);
        let third = sorted.remove(0);
        assert(first == s[0] && second == s[1] && third == s[2]);
        assert(all_box ==> has_box(geometry, s[0]) && has_box(geometry, s[1]) && has_box(geometry, s[2]));
        assert(orig.contains(s[0]) && orig.contains(s[1]) && orig.contains(s[2]));
        let aabb_second = match second.aabb(geometry) {
            Some(b) => b,
            None => {
                proof {
                    lemma_member_may_lack_box(geometry, orig, second);
                }
                return None;
            },
        };
        let aabb_third = match third.aabb(geometry) {
            Some(b) => b,
            None => {
                proof {
                    lemma_member_may_lack_box(geometry, orig, third);
                }
                return None;
            },
        };
        let inner_box = geometry.combine(&aabb_second, &aabb_third);
        let inner = BVHNode { left: Box::new(second), right: Box::new(third), aabb: inner_box };
        assert(possible_box(geometry, *inner.left, aabb_second) && possible_box(geometry, *inner.right, aabb_third));
        left = first;
        right = Hitable::BVHNode(inner);
        proof {
            if all_leaves(orig) {
                lemma_leaves_of_permutation(s, orig);
                assert(is_leaf(s[0]) && is_leaf(s[1]) && is_leaf(s[2]));
                assert(child_items(right) == node_items(inner));
                assert(node_items(inner) =~= seq![second, third]);
                assert(child_items(left) + child_items(right) =~= s);
                assert(!(third is Empty));
                assert(combined_box(geometry, inner));
                assert(all_combined(geometry, inner));
                assert(node_empties(inner) == 0);
            }
        }
    } else {
        let sorted = match sort_along_axis(hitables, axis, geometry) {
            Some(s) => s,
            None => {
                return None;
            },
        };
        let ghost s = sorted@;
        let mut hitables_left = sorted;
        let mid = object_span / 2;
        let hitables_right = hitables_left.split_off(mid);
        let ghost sl = hitables_left@;
        let ghost sr = hitables_right@;
        proof {
            gs = s;
            gsl = sl;
            gsr = sr;
        }
        assert(sl == s.subrange(0, mid as int) && sr == s.subrange(mid as int, s.len() as int));
        assert(all_box ==> all_have_box(geometry, sl) && all_have_box(geometry, sr)) by {
            if all_box {
                assert forall|k: int| 0 <= k < sl.len() implies has_box(geometry, #[trigger] sl[k]) by {
                    assert(sl[k] == s[k]);
                }
                assert forall|k: int| 0 <= k < sr.len() implies has_box(geometry, #[trigger] sr[k]) by {
                    assert(sr[k] == s[mid + k]);
                }
            }
        }
        let left_node = match longest_axis_midpoint(hitables_left, geometry) {
            Some(n) => n,
            None => {
                proof {
                    let k = choose|k: int| 0 <= k < sl.len() && may_lack_box(geometry, #[trigger] sl[k]);
                    assert(sl[k] == s[k]);
                    assert(orig.contains(s[k]));
                    lemma_member_may_lack_box(geometry, orig, sl[k]);
                }
                return None;
            },
        };
        let right_node = match longest_axis_midpoint(hitables_right, geometry) {
            Some(n) => n,
            None => {
                proof {
                    let k = choose|k: int| 0 <= k < sr.len() && may_lack_box(geometry, #[trigger] sr[k]);
                    assert(sr[k] == s[mid + k]);
                    assert(orig.contains(s[mid + k]));
                    lemma_member_may_lack_box(geometry, orig, sr[k]);
                }
                return None;
            },
        };
        left = Hitable::BVHNode(left_node);
        right = Hitable::BVHNode(right_node);
        proof {
            if all_leaves(orig) {
                lemma_leaves_of_permutation(s, orig);
                lemma_leaves_of_parts(s, mid as int);
                lemma_multiset_commutative(sl, sr);
                lemma_multiset_commutative(node_items(left_node), node_items(right_node));
                assert(sl.len() >= 2 && sr.len() >= 2);
            }
        }
    }
    assert(!(left is BVHNode) ==> orig.contains(left));
    assert(!(right is BVHNode) ==> orig.contains(right));
    let box_left = left.aabb(geometry);
    let box_right = right.aabb(geometry);
    match (box_left, box_right) {
        (Some(box_left), Some(box_right)) => {
            let aabb = geometry.combine(&box_left, &box_right);
            let node = BVHNode { left: Box::new(left), right: Box::new(right), aabb };
            assert(node_items(node) == child_items(left) + child_items(right));
            assert(possible_box(geometry, *node.left, box_left) && possible_box(geometry, *node.right, box_right));
            assert(*node.left == left && *node.right == right);
            proof {
                if object_span == 2 {
                    assert(midpoint_split(geometry, orig, axis, node));
                } else if object_span == 3 {
                    assert(in_axis_order(geometry, axis, gs));
                    assert(midpoint_split(geometry, orig, axis, node));
                } else {
                    assert(in_axis_order(geometry, axis, gs));
                    assert(gs.subrange(0, (orig.len() / 2) as int) == gsl);
                    assert(gs.subrange((orig.len() / 2) as int, orig.len() as int) == gsr);
                    assert(midpoint_split(geometry, orig, axis, node));
                }
                assert(midpoint_tree(geometry, orig, node));
            }
            proof {
                if all_leaves(orig) {
                    assert(!(right is Empty)) by {
                        if object_span == 2 {
                            assert(is_leaf(orig[0]) && is_leaf(orig[1]));
                        }
                    }
                    assert(combined_box(geometry, node));
                    if object_span == 2 {
                        assert(is_leaf(orig[0]) && is_leaf(orig[1]));
                    }
                }
            }
            Some(node)
        },
        _ => {
            proof {
                if box_left is None {
                    lemma_member_may_lack_box(geometry, orig, left);
                } else {
                    lemma_member_may_lack_box(geometry, orig, right);
                }
            }
            None
        },
    }
}

/// Splits hitables by the given flags, keeping their order: those flagged
/// `true` go to the first list, all others (also those without a flag) to the second.
fn partition<P, B>(hitables: Vec<Hitable<P, B>>, flags: &Vec<bool>) -> (r: (Vec<Hitable<P, B>>, Vec<Hitable<P, B>>))
    ensures
        same_hitables(r.0@ + r.1@, hitables@),
        r.0.len() + r.1.len() == hitables.len(),
        forall|i: int| 0 <= i < r.0.len() ==> hitables@.contains(#[trigger] r.0@[i]),
        forall|i: int| 0 <= i < r.1.len() ==> hitables@.contains(#[trigger] r.1@[i]),
        (r.0@, r.1@) == flag_split(hitables@, flags@),
{
    let ghost orig = hitables@;
    let mut rest = hitables;
    let mut lower: Vec<Hitable<P, B>> = Vec::new();
    let mut upper: Vec<Hitable<P, B>> = Vec::new();
    let mut i: usize = 0;
    let n = rest.len();
    assert(lower@ + upper@ =~= orig.subrange(0, 0));
    while rest.len() > 0
        invariant
            rest.len() + i == n,
            n == orig.len(),
            lower@ + upper@ + rest@ =~= lower@ + upper@ + orig.subrange(i as int, orig.len() as int),
            rest@ == orig.subrange(i as int, orig.len() as int),
            i <= orig.len(),
            (lower@ + upper@).to_multiset() == orig.subrange(0, i as int).to_multiset(),
            lower.len() + upper.len() == i,
            forall|j: int| 0 <= j < lower.len() ==> orig.contains(#[trigger] lower@[j]),
            forall|j: int| 0 <= j < upper.len() ==> orig.contains(#[trigger] upper@[j]),
            (lower@, upper@) == flag_split(orig.subrange(0, i as int), flags@),
        decreases rest.len(),
    {
        let ghost lu = lower@ + upper@;
        let x = rest.remove(0);
        assert(x == orig[i as int]);
        assert(orig.subrange(0, i + 1).drop_last() =~= orig.subrange(0, i as int));
        assert(orig.subrange(0, i + 1).last() == x);
        assert(orig.subrange(0, i as int + 1) =~= orig.subrange(0, i as int).push(x));
        proof {
            vstd::seq_lib::to_multiset_build(orig.subrange(0, i as int), x);
        }
        if i < flags.len() && flags[i] {
            let ghost l0 = lower@;
            lower.push(x);
            proof {
                assert(lower@ + upper@ =~= (l0 + upper@).insert(l0.len() as int, x));
                to_multiset_insert(l0 + upper@, l0.len() as int, x);
            }
        } else {
            let ghost u0 = upper@;
            upper.push(x);
            proof {
                assert(lower@ + upper@ =~= (lower@ + u0).push(x));
                vstd::seq_lib::to_multiset_build(lower@ + u0, x);
            }
        }
        i = i + 1;
    }
    assert(orig.subrange(0, i as int) =~= orig);
    assert(orig.subrange(0, i as int) == orig);
    (lower, upper)
}

/// Builds a tree by splitting the hitables where the surface area heuristic
/// finds the best split, recursing into both sides.
///
/// `None` where the construction finds no bounding box it needs: for the
/// hitables (in particular for an empty list).
#[verifier::rlimit(80)]
#[verifier::spinoff_prover]
pub fn surface_area_heuristic<P, B: Clone, G: Geometry<P, B>>(
    hitables: Vec<Hitable<P, B>>,
    geometry: &G,
) -> (r: Option<BVHNode<P, B>>)
    ensures
        hitables.len() == 0 ==> r is None,
        r matches Some(node) ==> (all_leaves(hitables@) ==> same_hitables(node_items(node), hitables@)),
        hitables.len() > 0 && all_have_box(geometry, hitables@) ==> r is Some,
        (exists|i: int| 0 <= i < hitables.len() && must_lack_box(geometry, #[trigger] hitables@[i])) ==> r is None,
        r is None ==> hitables.len() == 0 || some_may_lack_box(geometry, hitables@),
        r matches Some(node) ==> sah_tree(geometry, hitables@, node),
        r matches Some(node) ==> folded_box(geometry, hitables@, node.aabb),
        r matches Some(node) ==> (all_leaves(hitables@) ==> all_folded(geometry, node)),
        r matches Some(node) ==> (hitables.len() == 1 ==> *node.right is Empty && *node.left == hitables@[0]),
        r matches Some(node) ==> (hitables.len() == 2 ==> *node.left == hitables@[0] && *node.right == hitables@[1]),
    decreases hitables.len(),
{
    broadcast use group_to_multiset_ensures;
    let ghost orig = hitables@;
    let ghost all_box = all_have_box(geometry, orig);
    let aabb = match vec_bounding_box(&hitables, geometry) {
        Some(b) => b,
        None => {
            return None;
        },
    };
    let count = hitables.len();
    let mut hitables = hitables;
    assert(folded_box(geometry, orig, aabb));
    if count == 1 {
        let left = hitables.remove(0);
        let node = BVHNode { left: Box::new(left), right: Box::new(Hitable::Empty(Empty {})), aabb };
        proof {
            if all_leaves(orig) {
                assert(is_leaf(orig[0]));
                assert(node_items(node) =~= orig);
                assert(folded_box(geometry, orig, node.aabb));
                assert(folded_over_items(geometry, node));
            }
        }
        assert(folded_box(geometry, orig, node.aabb));
        assert(sah_tree(geometry, orig, node));
        return Some(node);
    }
    if count == 2 {
        let left = hitables.remove(0);
        let right = hitables.remove(0);
        let node = BVHNode { left: Box::new(left), right: Box::new(right), aabb };
        proof {
            if all_leaves(orig) {
                assert(is_leaf(orig[0]) && is_leaf(orig[1]));
                assert(node_items(node) =~= orig);
                assert(folded_box(geometry, orig, node.aabb));
                assert(folded_over_items(geometry, node));
            }
        }
        assert(folded_box(geometry, orig, node.aabb));
        assert(sah_tree(geometry, orig, node));
        return Some(node);
    }
    let ghost gv = hitables;
    let flags = geometry.sah_partition(&hitables);
    assert(call_ensures(G::sah_partition, (geometry, &gv), flags));
    let (mut hitables_left, mut hitables_right) = partition(hitables, &flags);
    let ghost sl = hitables_left@;
    let ghost sr = hitables_right@;
    assert(flag_split(orig, flags@) == (sl, sr));
    assert(all_leaves(orig) ==> all_leaves(sl) && all_leaves(sr)) by {
        if all_leaves(orig) {
            assert forall|i: int| 0 <= i < sl.len() implies is_leaf(#[trigger] sl[i]) by {
                assert(orig.contains(sl[i]));
            }
            assert forall|i: int| 0 <= i < sr.len() implies is_leaf(#[trigger] sr[i]) by {
                assert(orig.contains(sr[i]));
            }
        }
    }
    assert(all_box ==> all_have_box(geometry, sl) && all_have_box(geometry, sr)) by {
        if all_box {
            assert forall|i: int| 0 <= i < sl.len() implies has_box(geometry, #[trigger] sl[i]) by {
                assert(orig.contains(sl[i]));
            }
            assert forall|i: int| 0 <= i < sr.len() implies has_box(geometry, #[trigger] sr[i]) by {
                assert(orig.contains(sr[i]));
            }
        }
    }
    proof {
        lemma_multiset_commutative(sl, sr);
    }
    if hitables_left.len() == 0 {
        let h = hitables_right.remove(0);
        let ghost rest = hitables_right@;
        assert(all_box ==> all_have_box(geometry, rest)) by {
            if all_box {
                assert forall|i: int| 0 <= i < rest.len() implies has_box(geometry, #[trigger] rest[i]) by {
                    assert(rest[i] == sr[i + 1]);
                }
            }
        }
        let right_node = match surface_area_heuristic(hitables_right, geometry) {
            Some(n) => n,
            None => {
                proof {
                    let k = choose|k: int| 0 <= k < rest.len() && may_lack_box(geometry, #[trigger] rest[k]);
                    assert(rest[k] == sr[k + 1]);
                    assert(orig.contains(sr[k + 1]));
                    lemma_member_may_lack_box(geometry, orig, rest[k]);
                }
                return None;
            },
        };
        let node = BVHNode {
            left: Box::new(h),
            right: Box::new(Hitable::BVHNode(right_node)),
            aabb,
        };
        proof {
            if all_leaves(orig) {
                assert(sl =~= Seq::<Hitable<P, B>>::empty());
                assert(sl + sr =~= sr);
                assert(is_leaf(sr[0]));
                assert(all_leaves(rest)) by {
                    assert forall|i: int| 0 <= i < rest.len() implies is_leaf(#[trigger] rest[i]) by {
                        assert(rest[i] == sr[i + 1]);
                    }
                }
                assert(sr =~= seq![h] + rest);
                lemma_multiset_commutative(seq![h], rest);
                lemma_multiset_commutative(seq![h], node_items(right_node));
                assert(node_items(node) == seq![h] + node_items(right_node));
                assert(same_hitables(orig, node_items(node)));
                assert(folded_box(geometry, orig, node.aabb));
                assert(folded_over_items(geometry, node));
            }
        }
        assert(h == sr[0] && rest == sr.drop_first());
        assert(sah_split(geometry, (sl, sr), node));
        assert(folded_box(geometry, orig, node.aabb));
        assert(sah_tree(geometry, orig, node));
        return Some(node);
    }
    if hitables_right.len() == 0 {
        let h = hitables_left.remove(0);
        let ghost rest = hitables_left@;
        assert(all_box ==> all_have_box(geometry, rest)) by {
            if all_box {
                assert forall|i: int| 0 <= i < rest.len() implies has_box(geometry, #[trigger] rest[i]) by {
                    assert(rest[i] == sl[i + 1]);
                }
            }
        }
        let left_node = match surface_area_heuristic(hitables_left, geometry) {
            Some(n) => n,
            None => {
                proof {
                    let k = choose|k: int| 0 <= k < rest.len() && may_lack_box(geometry, #[trigger] rest[k]);
                    assert(rest[k] == sl[k + 1]);
                    assert(orig.contains(sl[k + 1]));
                    lemma_member_may_lack_box(geometry, orig, rest[k]);
                }
                return None;
            },
        };
        let node = BVHNode {
            left: Box::new(Hitable::BVHNode(left_node)),
            right: Box::new(h),
            aabb,
        };
        proof {
            if all_leaves(orig) {
                assert(sr =~= Seq::<Hitable<P, B>>::empty());
                assert(sl + sr =~= sl);
                assert(is_leaf(sl[0]));
                assert(all_leaves(rest)) by {
                    assert forall|i: int| 0 <= i < rest.len() implies is_leaf(#[trigger] rest[i]) by {
                        assert(rest[i] == sl[i + 1]);
                    }
                }
                assert(sl =~= seq![h] + rest);
                lemma_multiset_commutative(seq![h], rest);
                lemma_multiset_commutative(node_items(left_node), seq![h]);
                assert(node_items(node) == node_items(left_node) + seq![h]);
                assert(rest.to_multiset().add(seq![h].to_multiset()) =~= seq![h].to_multiset().add(rest.to_multiset()));
                assert(same_hitables(orig, node_items(node)));
                assert(folded_box(geometry, orig, node.aabb));
                assert(folded_over_items(geometry, node));
            }
        }
        assert(h == sl[0] && rest == sl.drop_first());
        assert(sah_split(geometry, (sl, sr), node));
        assert(folded_box(geometry, orig, node.aabb));
        assert(sah_tree(geometry, orig, node));
        return Some(node);
    }
    let left_node = match surface_area_heuristic(hitables_left, geometry) {
        Some(n) => n,
        None => {
            proof {
                let k = choose|k: int| 0 <= k < sl.len() && may_lack_box(geometry, #[trigger] sl[k]);
                assert(orig.contains(sl[k]));
                lemma_member_may_lack_box(geometry, orig, sl[k]);
            }
            return None;
        },
    };
    let right_node = match surface_area_heuristic(hitables_right, geometry) {
        Some(n) => n,
        None => {
            proof {
                let k = choose|k: int| 0 <= k < sr.len() && may_lack_box(geometry, #[trigger] sr[k]);
                assert(orig.contains(sr[k]));
                lemma_member_may_lack_box(geometry, orig, sr[k]);
            }
            return None;
        },
    };
    let node = BVHNode {
        left: Box::new(Hitable::BVHNode(left_node)),
        right: Box::new(Hitable::BVHNode(right_node)),
        aabb,
    };
    proof {
        lemma_multiset_commutative(node_items(left_node), node_items(right_node));
        assert(node_items(node) == node_items(left_node) + node_items(right_node));
        if all_leaves(orig) {
            assert(same_hitables(orig, node_items(node)));
            assert(folded_box(geometry, orig, node.aabb));
            assert(folded_over_items(geometry, node));
        }
    }
    assert(sah_split(geometry, (sl, sr), node));
    assert(folded_box(geometry, orig, node.aabb));
    assert(sah_tree(geometry, orig, node));
    Some(node)
}

impl<P, B: Clone> BVHNode<P, B> {
    /// Create a new `BVHNode` tree from a given list of hitables, with the
    /// chosen construction algorithm. The list must not be empty, and every
    /// hitable in it must have a bounding box.
    pub fn from_list<G: Geometry<P, B>>(
        bvh_algorithm: BvhAlgorithm,
        hitables: Vec<Hitable<P, B>>,
        geometry: &G,
    ) -> (node: BVHNode<P, B>)
        requires
            hitables.len() > 0,
            all_have_box(geometry, hitables@),
        ensures
            all_leaves(hitables@) ==> same_hitables(node_items(node), hitables@),
            bvh_algorithm == BvhAlgorithm::LongestAxis && all_leaves(hitables@) ==> {
                &&& all_combined(geometry, node)
                &&& node_count(node) == if hitables.len() == 1 {
                    2
                } else {
                    hitables.len()
                }
            },
            bvh_algorithm == BvhAlgorithm::LongestAxis ==> midpoint_tree(geometry, hitables@, node),
            bvh_algorithm == BvhAlgorithm::Sah ==> folded_box(geometry, hitables@, node.aabb),
            bvh_algorithm == BvhAlgorithm::Sah ==> sah_tree(geometry, hitables@, node),
            all_leaves(hitables@) ==> node_count(node) == hitables.len() + node_empties(node),
            bvh_algorithm == BvhAlgorithm::Sah && all_leaves(hitables@) ==> all_folded(geometry, node),
    {
        let ghost orig = hitables@;
        let r = match bvh_algorithm {
            BvhAlgorithm::LongestAxis => longest_axis_midpoint(hitables, geometry),
            BvhAlgorithm::Sah => surface_area_heuristic(hitables, geometry),
        };
        let node = match r {
            Some(node) => node,
            None => vstd::pervasive::unreached(),
        };
        proof {
            if all_leaves(orig) {
                lemma_built_tree_counts_all(node, orig);
                lemma_count_is_items_and_empties(node);
            }
        }
        node
    }
}

/// The number of empty placeholders among the children below a node.
pub open spec fn node_empties<P, B>(n: BVHNode<P, B>) -> nat
    decreases n,
{
    child_empties(*n.left) + child_empties(*n.right)
}

/// The empty placeholders of one child of a node, see [`node_empties`].
pub open spec fn child_empties<P, B>(h: Hitable<P, B>) -> nat
    decreases h,
{
    match h {
        Hitable::BVHNode(b) => node_empties(b),
        Hitable::Empty(_) => 1,
        _ => 0,
    }
}

/// The count of a tree is the number of hitables placed in it plus the number
/// of empty placeholders.
pub proof fn lemma_count_is_items_and_empties<P, B>(n: BVHNode<P, B>)
    ensures
        node_count(n) == node_items(n).len() + node_empties(n),
    decreases n,
{
    lemma_child_count(*n.left);
    lemma_child_count(*n.right);
}

proof fn lemma_child_count<P, B>(h: Hitable<P, B>)
    ensures
        child_count(h) == child_items(h).len() + child_empties(h),
    decreases h,
{
    if let Hitable::BVHNode(b) = h {
        lemma_count_is_items_and_empties(b);
    }
}

/// A tree built from a list of hitables (none of them a node or empty) holds
/// each of them exactly as often as the list does, so its count is at least
/// the length of the list.
pub proof fn lemma_built_tree_counts_all<P, B>(node: BVHNode<P, B>, hitables: Seq<Hitable<P, B>>)
    requires
        all_leaves(hitables),
        same_hitables(node_items(node), hitables),
    ensures
        node_items(node).len() == hitables.len(),
        node_count(node) >= hitables.len(),
{
    broadcast use group_to_multiset_ensures;
    lemma_count_is_items_and_empties(node);
    assert(node_items(node).to_multiset().len() == hitables.to_multiset().len());
}

/// Whether `h` is a hitable that [`BVHNode::random`] may pick in a tree: the
/// pick of the left child where the right one is the empty placeholder, the
/// pick of the right child where the left one is, and otherwise the pick of
/// either child.
pub open spec fn random_pick<P, B>(n: BVHNode<P, B>, h: Hitable<P, B>) -> bool
    decreases n,
{
    if *n.right is Empty {
        child_pick(*n.left, h)
    } else if *n.left is Empty {
        child_pick(*n.right, h)
    } else {
        child_pick(*n.left, h) || child_pick(*n.right, h)
    }
}

/// [`random_pick`] for a child: the pick within a node, or the child itself.
pub open spec fn child_pick<P, B>(c: Hitable<P, B>, h: Hitable<P, B>) -> bool
    decreases c,
{
    match c {
        Hitable::BVHNode(m) => random_pick(m, h),
        _ => h == c,
    }
}

impl<P, B> BVHNode<P, B> {
    /// The child that sampling towards the tree descends into, given a fair
    /// coin: the left child where the right one is the empty placeholder, the
    /// right one where the left one is, and otherwise the left child on heads
    /// (`true`) and the right one on tails.
    pub fn pick_child<'a>(&'a self, coin: bool) -> (c: &'a Hitable<P, B>)
        ensures
            *c == if *self.right is Empty {
                *self.left
            } else if *self.left is Empty {
                *self.right
            } else if coin {
                *self.left
            } else {
                *self.right
            },
    {
        match (&*self.left, &*self.right) {
            (_, Hitable::Empty(_)) => &*self.left,
            (Hitable::Empty(_), _) => &*self.right,
            (_, _) => {
                if coin {
                    &*self.left
                } else {
                    &*self.right
                }
            },
        }
    }

    /// Picks the hitable of the tree on whose surface a random point is taken
    /// when sampling towards the tree: a fair coin is flipped and
    /// [`BVHNode::pick_child`] chooses the child, and a child that is a node is
    /// descended into in the same way.
    pub fn random<'a>(&'a self, rng: &mut SmallRng) -> (h: &'a Hitable<P, B>)
        ensures
            !(*h is BVHNode),
            *h is Empty || node_items(*self).contains(*h),
            node_empties(*self) == 0 ==> node_items(*self).contains(*h),
            random_pick(*self, *h),
        decreases *self,
    {
        let ghost left_items = child_items(*self.left);
        let ghost right_items = child_items(*self.right);
        let coin = coin_flip(rng);
        let child = self.pick_child(coin);
        let h = match child {
            Hitable::BVHNode(node) => node.random(rng),
            other => other,
        };
        proof {
            let items = node_items(*self);
            assert(items == left_items + right_items);
            if !(*h is Empty) || node_empties(*self) == 0 {
                let ci = child_items(*child);
                assert(ci.contains(*h)) by {
                    if !(*child is BVHNode) {
                        assert(!(*child is Empty));
                        assert(ci == seq![*child]);
                        assert(ci[0] == *h);
                    }
                }
                let k = choose|k: int| 0 <= k < ci.len() && ci[k] == *h;
                if *child == *self.left {
                    assert(items[k] == *h);
                } else {
                    assert(items[left_items.len() + k] == *h);
                }
            }
        }
        h
    }

    /// Returns the count of the nodes in the tree
    pub fn count(&self) -> (c: usize)
        requires
            node_count(*self) <= usize::MAX,
        ensures
            c == node_count(*self),
        decreases *self,
    {
        let leftsum = match &*self.left {
            Hitable::BVHNode(b) => b.count(),
            _ => 1,
        };
        let rightsum = match &*self.right {
            Hitable::BVHNode(b) => b.count(),
            _ => 1,
        };
        leftsum + rightsum
    }
}

} // verus!
