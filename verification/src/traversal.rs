//! Tracing a ray through a tree of hitables: finding the closest hit, and
//! counting the work the traversal does.
//!
//! Every judgement that involves positions or distances is the ray's: the
//! renderer answers them through [`RayQuery`]. The library decides the order
//! of the traversal and which answers it asks for.
use crate::bvh::BVHNode;
use crate::hitable::{has_box, payload, possible_box, Geometry, Hitable, HitableList};
use vstd::prelude::*;

verus! {

/// The questions a traversal asks about one ray, answered by the renderer for
/// its primitive payload `P`, bounding boxes `B`, hit records `H` and
/// distances along the ray `D`.
pub trait RayQuery<P, B, H, D>: Sized {
    /// Whether the ray passes through the box within the searched distance interval.
    fn box_hit(&self, aabb: &B) -> bool;

    /// The distance along the ray at which it enters the box, or `None` if
    /// the box is missed or lies behind the ray.
    fn box_distance(&self, aabb: &B) -> Option<D>;

    /// Where the ray hits the primitive within the searched distance interval, if it does.
    fn primitive_hit(&self, primitive: &P) -> Option<H>;

    /// The distance along the ray of a hit.
    fn hit_distance(&self, hit: &H) -> D;

    /// Whether distance `a` is strictly less than distance `b`.
    fn less(&self, a: &D, b: &D) -> bool;

    /// The larger of two distances.
    fn max(&self, a: &D, b: &D) -> D;

    /// A distance larger than every finite one.
    fn infinity(&self) -> D;

    /// The same ray, searched only up to the given distance.
    fn narrowed(&self, distance_max: &D) -> Self;
}

/// The number of nodes in a tree, the node itself included.
pub open spec fn node_total<P, B>(n: BVHNode<P, B>) -> nat
    decreases n,
{
    1 + child_nodes(*n.left) + child_nodes(*n.right)
}

/// The number of nodes in one child of a node, see [`node_total`].
pub open spec fn child_nodes<P, B>(h: Hitable<P, B>) -> nat
    decreases h,
{
    match h {
        Hitable::BVHNode(b) => node_total(b),
        _ => 0,
    }
}

/// The number of primitives below a node, counted as the primitive test
/// statistics count them: a box as six faces, a list as its length, the
/// empty hitable as none, and any other primitive as one.
pub open spec fn node_primitives<P, B>(n: BVHNode<P, B>) -> nat
    decreases n,
{
    child_primitives(*n.left) + child_primitives(*n.right)
}

/// The primitives of one child of a node, see [`node_primitives`].
pub open spec fn child_primitives<P, B>(h: Hitable<P, B>) -> nat
    decreases h,
{
    match h {
        Hitable::BVHNode(b) => node_primitives(b),
        Hitable::HitableList(l) => l.hitables.len() as nat,
        Hitable::Boxy(_) => 6,
        Hitable::Empty(_) => 0,
        _ => 1,
    }
}

/// Whether every answer the ray may give for the box is that it passes through it.
pub open spec fn must_hit_box<P, B, H, D, Q: RayQuery<P, B, H, D>>(query: &Q, aabb: B) -> bool {
    forall|x: bool| call_ensures(Q::box_hit, (query, &aabb), x) ==> x
}

/// Whether every answer the ray may give for its entry distance into the box is a distance.
pub open spec fn must_enter_box<P, B, H, D, Q: RayQuery<P, B, H, D>>(query: &Q, aabb: B) -> bool {
    forall|d: Option<D>| call_ensures(Q::box_distance, (query, &aabb), d) ==> d is Some
}

/// Whether every answer the ray may give for the primitive is a hit.
pub open spec fn must_hit_primitive<P, B, H, D, Q: RayQuery<P, B, H, D>>(query: &Q, p: P) -> bool {
    forall|o: Option<H>| call_ensures(Q::primitive_hit, (query, &p), o) ==> o is Some
}

/// Whether the distance of every hit is less than the ray's infinity.
pub open spec fn hits_are_finite<P, B, H, D, Q: RayQuery<P, B, H, D>>(query: &Q) -> bool {
    forall|inf: D, h: H, d: D, b: bool|
        #![trigger call_ensures(Q::infinity, (query,), inf), call_ensures(Q::hit_distance, (query, &h), d), call_ensures(Q::less, (query, &d, &inf), b)]
        call_ensures(Q::infinity, (query,), inf) && call_ensures(Q::hit_distance, (query, &h), d)
            && call_ensures(Q::less, (query, &d, &inf), b) ==> b
}

/// Whether a hitable is sure to have a box that the ray enters: it has a
/// box, and the ray gives an entry distance for every box it may have.
pub open spec fn must_enter<P, B: Clone, H, D, G: Geometry<P, B>, Q: RayQuery<P, B, H, D>>(
    geometry: &G,
    query: &Q,
    h: Hitable<P, B>,
) -> bool {
    &&& has_box(geometry, h)
    &&& forall|c: B| possible_box(geometry, h, c) ==> must_enter_box(query, c)
}

/// Whether the search of a hitable is sure to find a hit, whatever the ray
/// answers: every primitive it asks about is hit, every box it tests is
/// passed and entered, and hit distances are finite where a list compares them.
pub open spec fn sure_hit<P, B: Clone, H, D, G: Geometry<P, B>, Q: RayQuery<P, B, H, D>>(
    geometry: &G,
    query: &Q,
    h: Hitable<P, B>,
) -> bool
    decreases h,
{
    match h {
        Hitable::BVHNode(n) => node_sure_hit(geometry, query, n),
        Hitable::HitableList(l) => l.hitables.len() > 0 && hits_are_finite(query) && all_sure_hit(
            geometry,
            query,
            l.hitables@,
        ),
        Hitable::Empty(_) => false,
        _ => must_hit_primitive(query, payload(h).unwrap()),
    }
}

/// [`sure_hit`] for a node: the ray passes its box, and the children it
/// searches are sure to be hit. A child that is empty is passed over; of two
/// children that are not, both boxes must be entered.
pub open spec fn node_sure_hit<P, B: Clone, H, D, G: Geometry<P, B>, Q: RayQuery<P, B, H, D>>(
    geometry: &G,
    query: &Q,
    n: BVHNode<P, B>,
) -> bool
    decreases n,
{
    &&& must_hit_box(query, n.aabb)
    &&& if *n.right is Empty {
        has_box(geometry, *n.left) && sure_hit(geometry, query, *n.left)
    } else if *n.left is Empty {
        has_box(geometry, *n.right) && sure_hit(geometry, query, *n.right)
    } else {
        &&& must_enter(geometry, query, *n.left)
        &&& must_enter(geometry, query, *n.right)
        &&& sure_hit(geometry, query, *n.left)
        &&& sure_hit(geometry, query, *n.right)
    }
}

/// Whether every hitable of a sequence is sure to be hit, see [`sure_hit`].
pub open spec fn all_sure_hit<P, B: Clone, H, D, G: Geometry<P, B>, Q: RayQuery<P, B, H, D>>(
    geometry: &G,
    query: &Q,
    s: Seq<Hitable<P, B>>,
) -> bool
    decreases s,
{
    if s.len() == 0 {
        true
    } else {
        sure_hit(geometry, query, s[0]) && all_sure_hit(geometry, query, s.drop_first())
    }
}

proof fn lemma_all_sure_hit<P, B: Clone, H, D, G: Geometry<P, B>, Q: RayQuery<P, B, H, D>>(
    geometry: &G,
    query: &Q,
    s: Seq<Hitable<P, B>>,
    i: int,
)
    requires
        all_sure_hit(geometry, query, s),
        0 <= i < s.len(),
    ensures
        sure_hit(geometry, query, s[i]),
    decreases i,
{
    if i > 0 {
        lemma_all_sure_hit(geometry, query, s.drop_first(), i - 1);
        assert(s.drop_first()[i - 1] == s[i]);
    }
}

/// The nodes that [`BVHNode::bvh_testcount`] is sure to count, whatever the
/// ray answers: the node itself, and below it the nodes of its children where
/// the ray is sure to pass its box.
pub open spec fn sure_nodes<P, B, H, D, Q: RayQuery<P, B, H, D>>(query: &Q, n: BVHNode<P, B>) -> nat
    decreases n,
{
    1 + if must_hit_box(query, n.aabb) {
        child_sure_nodes(query, *n.left) + child_sure_nodes(query, *n.right)
    } else {
        0
    }
}

/// The nodes of a child that are sure to be counted, see [`sure_nodes`].
pub open spec fn child_sure_nodes<P, B, H, D, Q: RayQuery<P, B, H, D>>(query: &Q, h: Hitable<P, B>) -> nat
    decreases h,
{
    match h {
        Hitable::BVHNode(b) => sure_nodes(query, b),
        _ => 0,
    }
}

/// The primitives that [`BVHNode::primitive_testcount`] is sure to count,
/// whatever the ray answers: where the ray is sure to pass the node's box,
/// those of the children that are not nodes, and below the children that are.
pub open spec fn sure_primitives<P, B, H, D, Q: RayQuery<P, B, H, D>>(query: &Q, n: BVHNode<P, B>) -> nat
    decreases n,
{
    if must_hit_box(query, n.aabb) {
        child_sure_primitives(query, *n.left) + child_sure_primitives(query, *n.right)
    } else {
        0
    }
}

/// The primitives of a child that are sure to be counted, see [`sure_primitives`].
pub open spec fn child_sure_primitives<P, B, H, D, Q: RayQuery<P, B, H, D>>(query: &Q, h: Hitable<P, B>) -> nat
    decreases h,
{
    match h {
        Hitable::BVHNode(b) => sure_primitives(query, b),
        _ => child_primitives(h),
    }
}

/// The left child of a node if `left`, else the right one.
pub open spec fn first_child<P, B>(n: BVHNode<P, B>, left: bool) -> Hitable<P, B> {
    if left {
        *n.left
    } else {
        *n.right
    }
}

/// Whether `o` is an answer that [`Hitable::aabb`] may give for `h`.
pub open spec fn aabb_result<P, B: Clone, G: Geometry<P, B>>(geometry: &G, h: Hitable<P, B>, o: Option<B>) -> bool {
    match h {
        Hitable::BVHNode(n) => o matches Some(c) && cloned(n.aabb, c),
        Hitable::HitableList(l) => o matches Some(c) && cloned(l.aabb, c),
        Hitable::Empty(_) => o is None,
        _ => call_ensures(G::primitive_aabb, (geometry, &payload(h).unwrap()), o),
    }
}

/// One step of the search for the closest hit of a list: a member's result
/// `h` turns the best hit so far `(pc, pd)` into `(cur, cd)`. A miss changes
/// nothing; a hit replaces the best one when the ray ranks its distance less.
pub open spec fn closest_step<P, B, H, D, Q: RayQuery<P, B, H, D>>(
    query: &Q,
    h: Option<H>,
    pc: Option<H>,
    pd: D,
    cur: Option<H>,
    cd: D,
) -> bool {
    match h {
        None => cur == pc && cd == pd,
        Some(x) => exists|d: D, b: bool|
            #![trigger call_ensures(Q::hit_distance, (query, &x), d), call_ensures(Q::less, (query, &d, &pd), b)]
            call_ensures(Q::hit_distance, (query, &x), d) && call_ensures(Q::less, (query, &d, &pd), b) && if b {
                cur == Some(x) && cd == d
            } else {
                cur == pc && cd == pd
            },
    }
}

/// Whether `(cur, cd)` may be the best hit and its distance after the member
/// results `hits`, starting from no hit at the ray's infinity.
pub open spec fn closest_so_far<P, B, H, D, Q: RayQuery<P, B, H, D>>(
    query: &Q,
    hits: Seq<Option<H>>,
    cur: Option<H>,
    cd: D,
) -> bool
    decreases hits.len(),
{
    if hits.len() == 0 {
        cur is None && call_ensures(Q::infinity, (query,), cd)
    } else {
        exists|pc: Option<H>, pd: D|
            closest_so_far(query, hits.drop_last(), pc, pd) && #[trigger] closest_step(query, hits.last(), pc, pd, cur, cd)
    }
}

/// Whether `r` is the closest of the member results `hits`: the first hit
/// whose distance the ray ranks less than that of every earlier best hit.
pub open spec fn closest_hit<P, B, H, D, Q: RayQuery<P, B, H, D>>(query: &Q, hits: Seq<Option<H>>, r: Option<H>) -> bool {
    exists|cd: D| closest_so_far(query, hits, r, cd)
}

/// Whether `r` is a result that searching `h` for the ray's hit may give,
/// whatever the renderer answers: a primitive's hit, nothing for the empty
/// hitable, the closest hit among a list's members, and for a node the
/// result of [`node_hit_result`].
pub open spec fn hit_result<P, B: Clone, H, D, G: Geometry<P, B>, Q: RayQuery<P, B, H, D>>(
    geometry: &G,
    query: &Q,
    h: Hitable<P, B>,
    r: Option<H>,
) -> bool
    decreases h, 4nat,
{
    match h {
        Hitable::BVHNode(n) => node_hit_result(geometry, query, n, r),
        Hitable::HitableList(l) => exists|hits: Seq<Option<H>>|
            member_results(geometry, query, l.hitables@, hits) && #[trigger] closest_hit(query, hits, r),
        Hitable::Empty(_) => r is None,
        _ => call_ensures(Q::primitive_hit, (query, &payload(h).unwrap()), r),
    }
}

/// Whether `hits` are results that searching the members of `s` may give, one each.
pub open spec fn member_results<P, B: Clone, H, D, G: Geometry<P, B>, Q: RayQuery<P, B, H, D>>(
    geometry: &G,
    query: &Q,
    s: Seq<Hitable<P, B>>,
    hits: Seq<Option<H>>,
) -> bool
    decreases s, 0nat,
{
    &&& hits.len() == s.len()
    &&& forall|i: int| 0 <= i < s.len() ==> hit_result(geometry, query, s[i], #[trigger] hits[i])
}

/// The result of searching a node: nothing where the ray misses its box,
/// otherwise the result of its children, see [`children_hit_result`].
pub open spec fn node_hit_result<P, B: Clone, H, D, G: Geometry<P, B>, Q: RayQuery<P, B, H, D>>(
    geometry: &G,
    query: &Q,
    n: BVHNode<P, B>,
    r: Option<H>,
) -> bool
    decreases n, 3nat,
{
    exists|b: bool|
        #[trigger] call_ensures(Q::box_hit, (query, &n.aabb), b) && if b {
            children_hit_result(geometry, query, n, r)
        } else {
            r is None
        }
}

/// The result of searching the children of a node whose box the ray passes:
/// a child without a box is passed over for the other; where both have boxes,
/// see [`boxes_hit_result`].
pub open spec fn children_hit_result<P, B: Clone, H, D, G: Geometry<P, B>, Q: RayQuery<P, B, H, D>>(
    geometry: &G,
    query: &Q,
    n: BVHNode<P, B>,
    r: Option<H>,
) -> bool
    decreases n, 2nat,
{
    exists|lo: Option<B>, ro: Option<B>|
        #![trigger aabb_result(geometry, *n.left, lo), aabb_result(geometry, *n.right, ro)]
        aabb_result(geometry, *n.left, lo) && aabb_result(geometry, *n.right, ro) && match (lo, ro) {
            (None, None) => r is None,
            (Some(_), None) => hit_result(geometry, query, *n.left, r),
            (None, Some(_)) => hit_result(geometry, query, *n.right, r),
            (Some(lb), Some(rb)) => boxes_hit_result(geometry, query, n, lb, rb, r),
        }
}

/// The result of searching the children of a node, given their boxes: a
/// child whose box the ray does not enter is passed over for the other; where
/// it enters both, see [`entered_hit_result`].
pub open spec fn boxes_hit_result<P, B: Clone, H, D, G: Geometry<P, B>, Q: RayQuery<P, B, H, D>>(
    geometry: &G,
    query: &Q,
    n: BVHNode<P, B>,
    lb: B,
    rb: B,
    r: Option<H>,
) -> bool
    decreases n, 1nat,
{
    exists|dl: Option<D>, dr: Option<D>|
        #![trigger call_ensures(Q::box_distance, (query, &lb), dl), call_ensures(Q::box_distance, (query, &rb), dr)]
        call_ensures(Q::box_distance, (query, &lb), dl) && call_ensures(Q::box_distance, (query, &rb), dr) && match (
            dl,
            dr,
        ) {
            (None, None) => r is None,
            (Some(_), None) => hit_result(geometry, query, *n.left, r),
            (None, Some(_)) => hit_result(geometry, query, *n.right, r),
            (Some(a), Some(c)) => entered_hit_result(geometry, query, n, a, c, r),
        }
}

/// The result of searching the children of a node whose boxes the ray enters
/// at distances `a` (left) and `c` (right): the child the ray ranks nearer is
/// searched first, giving `ch`. Where the ray ranks the distance of `ch` less
/// than the farther entry distance `far`, that is the result; otherwise the
/// other child is searched too, giving `fh`, and the closer of the two is.
pub open spec fn entered_hit_result<P, B: Clone, H, D, G: Geometry<P, B>, Q: RayQuery<P, B, H, D>>(
    geometry: &G,
    query: &Q,
    n: BVHNode<P, B>,
    a: D,
    c: D,
    r: Option<H>,
) -> bool
    decreases n, 0nat,
{
    exists|far: D, left_first: bool, ch: Option<H>|
        #![trigger call_ensures(Q::max, (query, &a, &c), far), call_ensures(Q::less, (query, &a, &c), left_first), within(query, ch, far)]
        #![trigger call_ensures(Q::max, (query, &a, &c), far), call_ensures(Q::less, (query, &a, &c), left_first), beyond(query, ch, far)]
        call_ensures(Q::max, (query, &a, &c), far) && call_ensures(Q::less, (query, &a, &c), left_first)
            && hit_result(geometry, query, first_child(n, left_first), ch) && {
            ||| within(query, ch, far) && r == ch
            ||| beyond(query, ch, far) && exists|fh: Option<H>|
                hit_result(geometry, query, first_child(n, !left_first), fh) && #[trigger] closer_hit(query, ch, fh, r)
        }
}

/// Whether the ray may rank the distance of hit `ch` less than `far`.
pub open spec fn within<P, B, H, D, Q: RayQuery<P, B, H, D>>(query: &Q, ch: Option<H>, far: D) -> bool {
    ch matches Some(x) && exists|dx: D|
        #![trigger call_ensures(Q::hit_distance, (query, &x), dx)]
        call_ensures(Q::hit_distance, (query, &x), dx) && call_ensures(Q::less, (query, &dx, &far), true)
}

/// Whether `ch` is no hit, or a hit whose distance the ray may rank not less than `far`.
pub open spec fn beyond<P, B, H, D, Q: RayQuery<P, B, H, D>>(query: &Q, ch: Option<H>, far: D) -> bool {
    ch matches Some(x) ==> exists|dx: D|
        #![trigger call_ensures(Q::hit_distance, (query, &x), dx)]
        call_ensures(Q::hit_distance, (query, &x), dx) && call_ensures(Q::less, (query, &dx, &far), false)
}

/// The closer of two hits by the ray's ranking of their distances; the one
/// hit where only one is present.
pub open spec fn closer_hit<P, B, H, D, Q: RayQuery<P, B, H, D>>(query: &Q, ch: Option<H>, fh: Option<H>, r: Option<H>) -> bool {
    match (ch, fh) {
        (None, None) => r is None,
        (None, Some(_)) => r == fh,
        (Some(_), None) => r == ch,
        (Some(c), Some(f)) => exists|dc: D, df: D, b: bool|
            #![trigger call_ensures(Q::hit_distance, (query, &c), dc), call_ensures(Q::hit_distance, (query, &f), df), call_ensures(Q::less, (query, &dc, &df), b)]
            call_ensures(Q::hit_distance, (query, &c), dc) && call_ensures(Q::hit_distance, (query, &f), df)
                && call_ensures(Q::less, (query, &dc, &df), b) && r == if b { ch } else { fh },
    }
}

/// Whether `r` is a result that [`BVHNode::testcount`] (through its helper
/// for children) may give for `h`, entering `k` nodes on the way: the search
/// of [`hit_result`], except that within nodes the farther child is searched
/// with the ray narrowed to the distance of the hit already found, see
/// [`count_entered_result`]. Anything but a node enters none.
pub open spec fn count_result<P, B: Clone, H, D, G: Geometry<P, B>, Q: RayQuery<P, B, H, D>>(
    geometry: &G,
    query: &Q,
    h: Hitable<P, B>,
    r: Option<H>,
    k: nat,
) -> bool
    decreases h, 4nat,
{
    match h {
        Hitable::BVHNode(n) => count_node_result(geometry, query, n, r, k),
        _ => hit_result(geometry, query, h, r) && k == 0,
    }
}

/// [`count_result`] for a node, as [`node_hit_result`]: the node itself is
/// entered, and below it the nodes its children's search enters.
pub open spec fn count_node_result<P, B: Clone, H, D, G: Geometry<P, B>, Q: RayQuery<P, B, H, D>>(
    geometry: &G,
    query: &Q,
    n: BVHNode<P, B>,
    r: Option<H>,
    k: nat,
) -> bool
    decreases n, 3nat,
{
    exists|b: bool|
        #[trigger] call_ensures(Q::box_hit, (query, &n.aabb), b) && if b {
            k >= 1 && count_children_result(geometry, query, n, r, (k - 1) as nat)
        } else {
            r is None && k == 1
        }
}

/// [`count_result`] for the children of a node, as [`children_hit_result`].
pub open spec fn count_children_result<P, B: Clone, H, D, G: Geometry<P, B>, Q: RayQuery<P, B, H, D>>(
    geometry: &G,
    query: &Q,
    n: BVHNode<P, B>,
    r: Option<H>,
    k: nat,
) -> bool
    decreases n, 2nat,
{
    exists|lo: Option<B>, ro: Option<B>|
        #![trigger aabb_result(geometry, *n.left, lo), aabb_result(geometry, *n.right, ro)]
        aabb_result(geometry, *n.left, lo) && aabb_result(geometry, *n.right, ro) && match (lo, ro) {
            (None, None) => r is None && k == 0,
            (Some(_), None) => count_result(geometry, query, *n.left, r, k),
            (None, Some(_)) => count_result(geometry, query, *n.right, r, k),
            (Some(lb), Some(rb)) => count_boxes_result(geometry, query, n, lb, rb, r, k),
        }
}

/// [`count_result`] for the children of a node with boxes, as [`boxes_hit_result`].
pub open spec fn count_boxes_result<P, B: Clone, H, D, G: Geometry<P, B>, Q: RayQuery<P, B, H, D>>(
    geometry: &G,
    query: &Q,
    n: BVHNode<P, B>,
    lb: B,
    rb: B,
    r: Option<H>,
    k: nat,
) -> bool
    decreases n, 1nat,
{
    exists|dl: Option<D>, dr: Option<D>|
        #![trigger call_ensures(Q::box_distance, (query, &lb), dl), call_ensures(Q::box_distance, (query, &rb), dr)]
        call_ensures(Q::box_distance, (query, &lb), dl) && call_ensures(Q::box_distance, (query, &rb), dr) && match (
            dl,
            dr,
        ) {
            (None, None) => r is None && k == 0,
            (Some(_), None) => count_result(geometry, query, *n.left, r, k),
            (None, Some(_)) => count_result(geometry, query, *n.right, r, k),
            (Some(a), Some(c)) => count_entered_result(geometry, query, n, a, c, r, k),
        }
}

/// [`count_result`] for the children of a node whose boxes the ray enters, as
/// [`entered_hit_result`], except that where the nearer child gave a hit, the
/// farther child is searched with the ray narrowed to that hit's distance.
/// The nodes entered are those of the nearer child's search, `kc`, and of the
/// farther child's where it is searched, `kf`.
pub open spec fn count_entered_result<P, B: Clone, H, D, G: Geometry<P, B>, Q: RayQuery<P, B, H, D>>(
    geometry: &G,
    query: &Q,
    n: BVHNode<P, B>,
    a: D,
    c: D,
    r: Option<H>,
    k: nat,
) -> bool
    decreases n, 0nat,
{
    exists|far: D, left_first: bool, ch: Option<H>, kc: nat, kf: nat|
        #![trigger call_ensures(Q::max, (query, &a, &c), far), call_ensures(Q::less, (query, &a, &c), left_first), within(query, ch, far), count_sum(kc, kf)]
        #![trigger call_ensures(Q::max, (query, &a, &c), far), call_ensures(Q::less, (query, &a, &c), left_first), beyond(query, ch, far), count_sum(kc, kf)]
        call_ensures(Q::max, (query, &a, &c), far) && call_ensures(Q::less, (query, &a, &c), left_first)
            && count_result(geometry, query, first_child(n, left_first), ch, kc) && k == count_sum(kc, kf) && {
            ||| within(query, ch, far) && r == ch && kf == 0
            ||| beyond(query, ch, far) && exists|fh: Option<H>|
                #[trigger] closer_hit(query, ch, fh, r) && match ch {
                    None => count_result(geometry, query, first_child(n, !left_first), fh, kf),
                    Some(x) => exists|d: D, narrowed: Q|
                        #![trigger call_ensures(Q::hit_distance, (query, &x), d), call_ensures(Q::narrowed, (query, &d), narrowed)]
                        call_ensures(Q::hit_distance, (query, &x), d) && call_ensures(Q::narrowed, (query, &d), narrowed)
                            && count_result(geometry, &narrowed, first_child(n, !left_first), fh, kf),
                }
        }
}

/// Whether every answer the ray may give for the primitive is a miss.
pub open spec fn must_miss_primitive<P, B, H, D, Q: RayQuery<P, B, H, D>>(query: &Q, p: P) -> bool {
    forall|o: Option<H>| call_ensures(Q::primitive_hit, (query, &p), o) ==> o is None
}

/// Whether the ray is sure to hit none of the primitives within `h`.
pub open spec fn hits_nothing<P, B, H, D, Q: RayQuery<P, B, H, D>>(query: &Q, h: Hitable<P, B>) -> bool
    decreases h,
{
    match h {
        Hitable::BVHNode(n) => hits_nothing(query, *n.left) && hits_nothing(query, *n.right),
        Hitable::HitableList(l) => forall|i: int|
            0 <= i < l.hitables.len() ==> hits_nothing(query, #[trigger] l.hitables@[i]),
        Hitable::Empty(_) => true,
        _ => must_miss_primitive(query, payload(h).unwrap()),
    }
}

/// Whether a child is sure to be searched when the ray passes its parent's
/// box: it is the empty placeholder, or it has a box and the ray enters every
/// box it may have.
pub open spec fn opens<P, B: Clone, H, D, G: Geometry<P, B>, Q: RayQuery<P, B, H, D>>(
    geometry: &G,
    query: &Q,
    c: Hitable<P, B>,
) -> bool {
    ||| c is Empty
    ||| has_box(geometry, c) && forall|cb: B| #[trigger] possible_box(geometry, c, cb) ==> must_enter_box(query, cb)
}

/// Whether the ray is sure to pass the box of every node of a tree and to
/// enter the box of every child that is not the empty placeholder.
pub open spec fn open_tree<P, B: Clone, H, D, G: Geometry<P, B>, Q: RayQuery<P, B, H, D>>(
    geometry: &G,
    query: &Q,
    h: Hitable<P, B>,
) -> bool
    decreases h,
{
    match h {
        Hitable::BVHNode(n) => {
            &&& must_hit_box(query, n.aabb)
            &&& opens(geometry, query, *n.left)
            &&& opens(geometry, query, *n.right)
            &&& open_tree(geometry, query, *n.left)
            &&& open_tree(geometry, query, *n.right)
        },
        _ => true,
    }
}

/// Where the ray hits nothing within `h`, no hit comes out of its search.
pub proof fn lemma_nothing_to_hit<P, B: Clone, H, D, G: Geometry<P, B>, Q: RayQuery<P, B, H, D>>(
    geometry: &G,
    query: &Q,
    h: Hitable<P, B>,
    r: Option<H>,
)
    requires
        hits_nothing(query, h),
        hit_result(geometry, query, h, r),
    ensures
        r is None,
{
    if r is Some {
        lemma_hit_is_a_leaf_hit(geometry, query, h, r->0);
        lemma_no_leaf_hit(query, h, r->0);
    }
}

/// Where the ray hits nothing within `h`, it reports no hit for any primitive within it.
pub proof fn lemma_no_leaf_hit<P, B, H, D, Q: RayQuery<P, B, H, D>>(query: &Q, h: Hitable<P, B>, x: H)
    requires
        hits_nothing(query, h),
    ensures
        !leaf_hit(query, h, x),
    decreases h,
{
    match h {
        Hitable::BVHNode(n) => {
            lemma_no_leaf_hit(query, *n.left, x);
            lemma_no_leaf_hit(query, *n.right, x);
        },
        Hitable::HitableList(l) => {
            lemma_no_leaf_hit_in(query, l.hitables@, x);
        },
        Hitable::Empty(_) => {},
        _ => {
            assert(must_miss_primitive(query, payload(h).unwrap()));
        },
    }
}

/// [`lemma_no_leaf_hit`] for the members of a list.
pub proof fn lemma_no_leaf_hit_in<P, B, H, D, Q: RayQuery<P, B, H, D>>(query: &Q, s: Seq<Hitable<P, B>>, x: H)
    requires
        forall|i: int| 0 <= i < s.len() ==> hits_nothing(query, #[trigger] s[i]),
    ensures
        !any_leaf_hit(query, s, x),
    decreases s,
{
    if s.len() > 0 {
        lemma_no_leaf_hit(query, s[0], x);
        assert forall|i: int| 0 <= i < s.drop_first().len() implies hits_nothing(query, #[trigger] s.drop_first()[i]) by {
            assert(s.drop_first()[i] == s[i + 1]);
        }
        lemma_no_leaf_hit_in(query, s.drop_first(), x);
    }
}

/// The counting search enters every node where nothing prunes it: where the
/// ray passes every node's box, enters every child's box and hits nothing in
/// the tree, it finds no hit and enters each node of the tree once, so its
/// count is the number of nodes.
pub proof fn lemma_open_tree_count<P, B: Clone, H, D, G: Geometry<P, B>, Q: RayQuery<P, B, H, D>>(
    geometry: &G,
    query: &Q,
    n: BVHNode<P, B>,
    r: Option<H>,
    k: nat,
)
    requires
        open_tree(geometry, query, Hitable::BVHNode(n)),
        hits_nothing(query, Hitable::BVHNode(n)),
        count_node_result(geometry, query, n, r, k),
    ensures
        k == node_total(n),
        r is None,
    decreases n,
{
    let b = choose|b: bool|
        #[trigger] call_ensures(Q::box_hit, (query, &n.aabb), b) && if b {
            k >= 1 && count_children_result(geometry, query, n, r, (k - 1) as nat)
        } else {
            r is None && k == 1
        };
    assert(must_hit_box(query, n.aabb));
    assert(b);
    let k1 = (k - 1) as nat;
    let (lo, ro) = choose|lo: Option<B>, ro: Option<B>|
        #![trigger aabb_result(geometry, *n.left, lo), aabb_result(geometry, *n.right, ro)]
        aabb_result(geometry, *n.left, lo) && aabb_result(geometry, *n.right, ro) && match (lo, ro) {
            (None, None) => r is None && k1 == 0,
            (Some(_), None) => count_result(geometry, query, *n.left, r, k1),
            (None, Some(_)) => count_result(geometry, query, *n.right, r, k1),
            (Some(lb), Some(rb)) => count_boxes_result(geometry, query, n, lb, rb, r, k1),
        };
    assert(opens(geometry, query, *n.left) && opens(geometry, query, *n.right));
    lemma_open_child_box(geometry, query, *n.left, lo);
    lemma_open_child_box(geometry, query, *n.right, ro);
    match (lo, ro) {
        (None, None) => {},
        (Some(_), None) => {
            lemma_open_child_count(geometry, query, *n.left, r, k1);
        },
        (None, Some(_)) => {
            lemma_open_child_count(geometry, query, *n.right, r, k1);
        },
        (Some(lb), Some(rb)) => {
            let (dl, dr) = choose|dl: Option<D>, dr: Option<D>|
                #![trigger call_ensures(Q::box_distance, (query, &lb), dl), call_ensures(Q::box_distance, (query, &rb), dr)]
                call_ensures(Q::box_distance, (query, &lb), dl) && call_ensures(Q::box_distance, (query, &rb), dr)
                    && match (dl, dr) {
                    (None, None) => r is None && k1 == 0,
                    (Some(_), None) => count_result(geometry, query, *n.left, r, k1),
                    (None, Some(_)) => count_result(geometry, query, *n.right, r, k1),
                    (Some(a), Some(c)) => count_entered_result(geometry, query, n, a, c, r, k1),
                };
            assert(must_enter_box(query, lb) && must_enter_box(query, rb));
            assert(dl is Some && dr is Some);
            let (a, c) = (dl->0, dr->0);
            let (far, left_first, ch, kc, kf) = choose|far: D, left_first: bool, ch: Option<H>, kc: nat, kf: nat|
                #![trigger call_ensures(Q::max, (query, &a, &c), far), call_ensures(Q::less, (query, &a, &c), left_first), within(query, ch, far), count_sum(kc, kf)]
                #![trigger call_ensures(Q::max, (query, &a, &c), far), call_ensures(Q::less, (query, &a, &c), left_first), beyond(query, ch, far), count_sum(kc, kf)]
                call_ensures(Q::max, (query, &a, &c), far) && call_ensures(Q::less, (query, &a, &c), left_first)
                    && count_result(geometry, query, first_child(n, left_first), ch, kc) && k1 == count_sum(kc, kf) && {
                    ||| within(query, ch, far) && r == ch && kf == 0
                    ||| beyond(query, ch, far) && exists|fh: Option<H>|
                        #[trigger] closer_hit(query, ch, fh, r) && match ch {
                            None => count_result(geometry, query, first_child(n, !left_first), fh, kf),
                            Some(x) => exists|d: D, narrowed: Q|
                                #![trigger call_ensures(Q::hit_distance, (query, &x), d), call_ensures(Q::narrowed, (query, &d), narrowed)]
                                call_ensures(Q::hit_distance, (query, &x), d) && call_ensures(Q::narrowed, (query, &d), narrowed)
                                    && count_result(geometry, &narrowed, first_child(n, !left_first), fh, kf),
                        }
                };
            if left_first {
                lemma_open_child_count(geometry, query, *n.left, ch, kc);
            } else {
                lemma_open_child_count(geometry, query, *n.right, ch, kc);
            }
            assert(ch is None);
            let fh = choose|fh: Option<H>|
                #[trigger] closer_hit(query, ch, fh, r) && match ch {
                    None => count_result(geometry, query, first_child(n, !left_first), fh, kf),
                    Some(x) => exists|d: D, narrowed: Q|
                        #![trigger call_ensures(Q::hit_distance, (query, &x), d), call_ensures(Q::narrowed, (query, &d), narrowed)]
                        call_ensures(Q::hit_distance, (query, &x), d) && call_ensures(Q::narrowed, (query, &d), narrowed)
                            && count_result(geometry, &narrowed, first_child(n, !left_first), fh, kf),
                };
            if left_first {
                lemma_open_child_count(geometry, query, *n.right, fh, kf);
            } else {
                lemma_open_child_count(geometry, query, *n.left, fh, kf);
            }
        },
    }
}

/// [`lemma_open_tree_count`] for any result of the counting search.
proof fn lemma_open_testcount<P, B: Clone, H, D, G: Geometry<P, B>, Q: RayQuery<P, B, H, D>>(
    geometry: &G,
    query: &Q,
    n: BVHNode<P, B>,
    r: Option<H>,
    k: nat,
)
    requires
        count_node_result(geometry, query, n, r, k),
    ensures
        open_tree(geometry, query, Hitable::BVHNode(n)) && hits_nothing(query, Hitable::BVHNode(n)) ==> k == node_total(n)
            && r is None,
{
    if open_tree(geometry, query, Hitable::BVHNode(n)) && hits_nothing(query, Hitable::BVHNode(n)) {
        lemma_open_tree_count(geometry, query, n, r, k);
    }
}

/// A child that [`opens`] has a box exactly when it is not the empty placeholder.
proof fn lemma_open_child_box<P, B: Clone, H, D, G: Geometry<P, B>, Q: RayQuery<P, B, H, D>>(
    geometry: &G,
    query: &Q,
    c: Hitable<P, B>,
    o: Option<B>,
)
    requires
        opens(geometry, query, c),
        aabb_result(geometry, c, o),
    ensures
        o is None <==> c is Empty,
        o matches Some(cb) ==> must_enter_box(query, cb),
{
    if let Some(cb) = o {
        assert(possible_box(geometry, c, cb));
    } else if !(c is Empty) {
        if payload(c) is Some {
            assert(call_ensures(G::primitive_aabb, (geometry, &payload(c).unwrap()), o));
        }
    }
}

/// [`lemma_open_tree_count`] for a child: a node's count, none for anything else.
proof fn lemma_open_child_count<P, B: Clone, H, D, G: Geometry<P, B>, Q: RayQuery<P, B, H, D>>(
    geometry: &G,
    query: &Q,
    c: Hitable<P, B>,
    r: Option<H>,
    k: nat,
)
    requires
        open_tree(geometry, query, c),
        hits_nothing(query, c),
        count_result(geometry, query, c, r, k),
    ensures
        k == child_nodes(c),
        r is None,
    decreases c,
{
    if let Hitable::BVHNode(m) = c {
        lemma_open_tree_count(geometry, query, m, r, k);
    } else {
        lemma_nothing_to_hit(geometry, query, c, r);
    }
}

/// The sum of two counts, named so that it can tie them to the counts of two children.
pub open spec fn count_sum(a: nat, b: nat) -> nat {
    a + b
}

/// Whether `k` is a count of node box tests that [`BVHNode::bvh_testcount`]
/// may make in a tree: one for the node, and where the ray passes its box,
/// those of the children that are nodes.
pub open spec fn node_box_tests<P, B, H, D, Q: RayQuery<P, B, H, D>>(query: &Q, n: BVHNode<P, B>, k: nat) -> bool
    decreases n,
{
    exists|b: bool|
        #[trigger] call_ensures(Q::box_hit, (query, &n.aabb), b) && if b {
            exists|kl: nat, kr: nat|
                child_box_tests(query, *n.left, kl) && child_box_tests(query, *n.right, kr) && k == 1 + #[trigger] count_sum(
                    kl,
                    kr,
                )
        } else {
            k == 1
        }
}

/// [`node_box_tests`] for a child: those of a node, none for anything else.
pub open spec fn child_box_tests<P, B, H, D, Q: RayQuery<P, B, H, D>>(query: &Q, h: Hitable<P, B>, k: nat) -> bool
    decreases h,
{
    match h {
        Hitable::BVHNode(m) => node_box_tests(query, m, k),
        _ => k == 0,
    }
}

/// Whether `k` is a count of primitive tests that [`BVHNode::primitive_testcount`]
/// may make in a tree: none where the ray misses the node's box, otherwise
/// those of its two children.
pub open spec fn node_primitive_tests<P, B, H, D, Q: RayQuery<P, B, H, D>>(query: &Q, n: BVHNode<P, B>, k: nat) -> bool
    decreases n,
{
    exists|b: bool|
        #[trigger] call_ensures(Q::box_hit, (query, &n.aabb), b) && if b {
            exists|kl: nat, kr: nat|
                child_primitive_tests(query, *n.left, kl) && child_primitive_tests(query, *n.right, kr) && k
                    == #[trigger] count_sum(kl, kr)
        } else {
            k == 0
        }
}

/// [`node_primitive_tests`] for a child: those of a node, and the
/// [`child_primitives`] of anything else.
pub open spec fn child_primitive_tests<P, B, H, D, Q: RayQuery<P, B, H, D>>(query: &Q, h: Hitable<P, B>, k: nat) -> bool
    decreases h,
{
    match h {
        Hitable::BVHNode(m) => node_primitive_tests(query, m, k),
        _ => k == child_primitives(h),
    }
}

/// Whether `x` is a hit that the ray may report for some primitive within `h`:
/// a leaf of a node, a member of a list, or `h` itself.
pub open spec fn leaf_hit<P, B, H, D, Q: RayQuery<P, B, H, D>>(query: &Q, h: Hitable<P, B>, x: H) -> bool
    decreases h,
{
    match h {
        Hitable::BVHNode(n) => leaf_hit(query, *n.left, x) || leaf_hit(query, *n.right, x),
        Hitable::HitableList(l) => any_leaf_hit(query, l.hitables@, x),
        Hitable::Empty(_) => false,
        _ => call_ensures(Q::primitive_hit, (query, &payload(h).unwrap()), Some(x)),
    }
}

/// [`leaf_hit`] for some hitable of a sequence.
pub open spec fn any_leaf_hit<P, B, H, D, Q: RayQuery<P, B, H, D>>(query: &Q, s: Seq<Hitable<P, B>>, x: H) -> bool
    decreases s,
{
    if s.len() == 0 {
        false
    } else {
        leaf_hit(query, s[0], x) || any_leaf_hit(query, s.drop_first(), x)
    }
}

proof fn lemma_any_leaf_hit<P, B, H, D, Q: RayQuery<P, B, H, D>>(query: &Q, s: Seq<Hitable<P, B>>, k: int, x: H)
    requires
        0 <= k < s.len(),
        leaf_hit(query, s[k], x),
    ensures
        any_leaf_hit(query, s, x),
    decreases k,
{
    if k > 0 {
        assert(s.drop_first()[k - 1] == s[k]);
        lemma_any_leaf_hit(query, s.drop_first(), k - 1, x);
    }
}

/// The closest of some member results is one of them.
proof fn lemma_closest_is_a_member<P, B, H, D, Q: RayQuery<P, B, H, D>>(
    query: &Q,
    hits: Seq<Option<H>>,
    x: H,
    cd: D,
)
    requires
        closest_so_far(query, hits, Some(x), cd),
    ensures
        exists|k: int| 0 <= k < hits.len() && hits[k] == Some(x),
    decreases hits.len(),
{
    if hits.len() > 0 {
        let (pc, pd) = choose|pc: Option<H>, pd: D|
            closest_so_far(query, hits.drop_last(), pc, pd) && #[trigger] closest_step(query, hits.last(), pc, pd, Some(x), cd);
        if pc == Some(x) && closest_so_far(query, hits.drop_last(), Some(x), pd) {
            lemma_closest_is_a_member(query, hits.drop_last(), x, pd);
            let k = choose|k: int| 0 <= k < hits.drop_last().len() && hits.drop_last()[k] == Some(x);
            assert(hits[k] == Some(x));
        } else {
            assert(hits[hits.len() - 1] == Some(x));
        }
    }
}

/// Every hit that searching a hitable may give is a hit that the ray may
/// report for one of the primitives within it.
pub proof fn lemma_hit_is_a_leaf_hit<P, B: Clone, H, D, G: Geometry<P, B>, Q: RayQuery<P, B, H, D>>(
    geometry: &G,
    query: &Q,
    h: Hitable<P, B>,
    x: H,
)
    requires
        hit_result(geometry, query, h, Some(x)),
    ensures
        leaf_hit(query, h, x),
    decreases h,
{
    match h {
        Hitable::BVHNode(n) => {
            lemma_node_hit_is_a_leaf_hit(geometry, query, n, x);
        },
        Hitable::HitableList(l) => {
            let hits = choose|hits: Seq<Option<H>>|
                member_results(geometry, query, l.hitables@, hits) && #[trigger] closest_hit(query, hits, Some(x));
            let cd = choose|cd: D| closest_so_far(query, hits, Some(x), cd);
            lemma_closest_is_a_member(query, hits, x, cd);
            let k = choose|k: int| 0 <= k < hits.len() && hits[k] == Some(x);
            assert(hit_result(geometry, query, l.hitables@[k], hits[k]));
            assert(decreases_to!(h => l.hitables@[k]));
            lemma_hit_is_a_leaf_hit(geometry, query, l.hitables@[k], x);
            lemma_any_leaf_hit(query, l.hitables@, k, x);
        },
        _ => {},
    }
}

/// [`lemma_hit_is_a_leaf_hit`] for a node: a hit of the node's search is a
/// hit of one of its children's searches.
pub proof fn lemma_node_hit_is_a_leaf_hit<P, B: Clone, H, D, G: Geometry<P, B>, Q: RayQuery<P, B, H, D>>(
    geometry: &G,
    query: &Q,
    n: BVHNode<P, B>,
    x: H,
)
    requires
        node_hit_result(geometry, query, n, Some(x)),
    ensures
        leaf_hit(query, *n.left, x) || leaf_hit(query, *n.right, x),
    decreases n,
{
    let r = Some(x);
    let (lo, ro) = choose|lo: Option<B>, ro: Option<B>|
        #![trigger aabb_result(geometry, *n.left, lo), aabb_result(geometry, *n.right, ro)]
        aabb_result(geometry, *n.left, lo) && aabb_result(geometry, *n.right, ro) && match (lo, ro) {
            (None, None) => r is None,
            (Some(_), None) => hit_result(geometry, query, *n.left, r),
            (None, Some(_)) => hit_result(geometry, query, *n.right, r),
            (Some(lb), Some(rb)) => boxes_hit_result(geometry, query, n, lb, rb, r),
        };
    match (lo, ro) {
        (Some(_), None) => {
            lemma_hit_is_a_leaf_hit(geometry, query, *n.left, x);
        },
        (None, Some(_)) => {
            lemma_hit_is_a_leaf_hit(geometry, query, *n.right, x);
        },
        (Some(lb), Some(rb)) => {
            let (dl, dr) = choose|dl: Option<D>, dr: Option<D>|
                #![trigger call_ensures(Q::box_distance, (query, &lb), dl), call_ensures(Q::box_distance, (query, &rb), dr)]
                call_ensures(Q::box_distance, (query, &lb), dl) && call_ensures(Q::box_distance, (query, &rb), dr)
                    && match (dl, dr) {
                    (None, None) => r is None,
                    (Some(_), None) => hit_result(geometry, query, *n.left, r),
                    (None, Some(_)) => hit_result(geometry, query, *n.right, r),
                    (Some(a), Some(c)) => entered_hit_result(geometry, query, n, a, c, r),
                };
            match (dl, dr) {
                (Some(_), None) => {
                    lemma_hit_is_a_leaf_hit(geometry, query, *n.left, x);
                },
                (None, Some(_)) => {
                    lemma_hit_is_a_leaf_hit(geometry, query, *n.right, x);
                },
                (Some(a), Some(c)) => {
                    assert(entered_hit_result(geometry, query, n, a, c, r));
                    let (far, left_first, ch) = choose|far: D, left_first: bool, ch: Option<H>|
                        #![trigger call_ensures(Q::max, (query, &a, &c), far), call_ensures(Q::less, (query, &a, &c), left_first), within(query, ch, far)]
                        #![trigger call_ensures(Q::max, (query, &a, &c), far), call_ensures(Q::less, (query, &a, &c), left_first), beyond(query, ch, far)]
                        call_ensures(Q::max, (query, &a, &c), far) && call_ensures(Q::less, (query, &a, &c), left_first)
                            && hit_result(geometry, query, first_child(n, left_first), ch) && {
                            ||| within(query, ch, far) && r == ch
                            ||| beyond(query, ch, far) && exists|fh: Option<H>|
                                hit_result(geometry, query, first_child(n, !left_first), fh) && #[trigger] closer_hit(query, ch, fh, r)
                        };
                    if ch == r {
                        lemma_hit_is_a_leaf_hit(geometry, query, first_child(n, left_first), x);
                    } else {
                        let fh = choose|fh: Option<H>|
                            hit_result(geometry, query, first_child(n, !left_first), fh) && #[trigger] closer_hit(query, ch, fh, r);
                        assert(fh == r);
                        lemma_hit_is_a_leaf_hit(geometry, query, first_child(n, !left_first), x);
                    }
                },
                _ => {},
            }
        },
        _ => {},
    }
}

impl<P, B: Clone> Hitable<P, B> {
    /// The main intersection method: the closest hit of the ray with this hitable, if any.
    pub fn hit<H, D, G: Geometry<P, B>, Q: RayQuery<P, B, H, D>>(&self, geometry: &G, query: &Q) -> (r: Option<H>)
        ensures
            self is Empty ==> r is None,
            payload(*self) matches Some(p) ==> call_ensures(Q::primitive_hit, (query, &p), r),
            sure_hit(geometry, query, *self) ==> r is Some,
            hit_result(geometry, query, *self, r),
            r matches Some(x) ==> leaf_hit(query, *self, x),
        decreases self, 1nat,
    {
        let r = match self {
            Hitable::BVHNode(node) => node.hit(geometry, query),
            Hitable::HitableList(list) => list.hit(geometry, query),
            Hitable::Empty(_) => None,
            Hitable::Boxy(p) => query.primitive_hit(p),
            Hitable::ConstantMedium(p) => query.primitive_hit(p),
            Hitable::MovingSphere(p) => query.primitive_hit(p),
            Hitable::Quad(p) => query.primitive_hit(p),
            Hitable::RotateY(p) => query.primitive_hit(p),
            Hitable::Sphere(p) => query.primitive_hit(p),
            Hitable::Translate(p) => query.primitive_hit(p),
            Hitable::Triangle(p) => query.primitive_hit(p),
            Hitable::GLTFTriangle(p) => query.primitive_hit(p),
        };
        proof {
            if r is Some {
                lemma_hit_is_a_leaf_hit(geometry, query, *self, r->0);
            }
        }
        r
    }
}

impl<P, B: Clone> HitableList<P, B> {
    /// The closest hit among the hitables of the list: members that the ray
    /// misses are passed over, and of the hits the first one whose distance
    /// the ray ranks less than that of every earlier best hit is kept.
    pub fn hit<H, D, G: Geometry<P, B>, Q: RayQuery<P, B, H, D>>(&self, geometry: &G, query: &Q) -> (r: Option<H>)
        ensures
            self.hitables.len() == 0 ==> r is None,
            self.hitables.len() > 0 && hits_are_finite(query) && all_sure_hit(geometry, query, self.hitables@)
                ==> r is Some,
            exists|hits: Seq<Option<H>>|
                #[trigger] member_results(geometry, query, self.hitables@, hits) && closest_hit(query, hits, r),
        decreases self, 0nat,
    {
        let ghost sure = hits_are_finite(query) && all_sure_hit(geometry, query, self.hitables@);
        let mut distance = query.infinity();
        let mut closest: Option<H> = None;
        let mut i: usize = 0;
        let ghost mut hits: Seq<Option<H>> = Seq::empty();
        assert(closest_so_far(query, hits, closest, distance));
        while i < self.hitables.len()
            invariant
                i <= self.hitables.len(),
                i == 0 ==> closest is None,
                i == 0 ==> call_ensures(Q::infinity, (query,), distance),
                sure == (hits_are_finite(query) && all_sure_hit(geometry, query, self.hitables@)),
                sure && i > 0 ==> closest is Some,
                hits.len() == i,
                forall|j: int| 0 <= j < i ==> hit_result(geometry, query, self.hitables@[j], #[trigger] hits[j]),
                closest_so_far(query, hits, closest, distance),
            decreases self.hitables.len() - i,
        {
            assert(decreases_to!(self => self.hitables@[i as int]));
            proof {
                if sure {
                    lemma_all_sure_hit(geometry, query, self.hitables@, i as int);
                }
            }
            let ghost old_hits = hits;
            let ghost pc = closest;
            let ghost pd = distance;
            let result = self.hitables[i].hit(geometry, query);
            proof {
                hits = old_hits.push(result);
            }
            match result {
                Some(hit_record) => {
                    let d = query.hit_distance(&hit_record);
                    let b = query.less(&d, &distance);
                    if b {
                        distance = d;
                        closest = Some(hit_record);
                    }
                    assert(closest_step(query, hits.last(), pc, pd, closest, distance));
                },
                None => {
                    assert(closest_step(query, hits.last(), pc, pd, closest, distance));
                },
            }
            assert(hits.drop_last() =~= old_hits);
            assert(closest_so_far(query, hits.drop_last(), pc, pd));
            assert(closest_so_far(query, hits, closest, distance));
            assert forall|j: int| 0 <= j < i + 1 implies hit_result(geometry, query, self.hitables@[j], #[trigger] hits[j]) by {
                if j < i {
                    assert(hits[j] == old_hits[j]);
                }
            }
            i = i + 1;
        }
        assert(member_results(geometry, query, self.hitables@, hits));
        closest
    }
}

impl<P, B: Clone> BVHNode<P, B> {
    /// The main `hit` function for a [`BVHNode`]: the closest hit of the ray
    /// with the hitables of the tree, if any. The child whose box the ray
    /// enters first is searched first, and the other child only if the hit
    /// found lies beyond where the ray enters the other child's box.
    pub fn hit<H, D, G: Geometry<P, B>, Q: RayQuery<P, B, H, D>>(&self, geometry: &G, query: &Q) -> (r: Option<H>)
        ensures
            (*self.left is Empty && *self.right is Empty) ==> r is None,
            r is Some ==> call_ensures(Q::box_hit, (query, &self.aabb), true),
            node_sure_hit(geometry, query, *self) ==> r is Some,
            node_hit_result(geometry, query, *self, r),
        decreases self, 0nat,
    {
        let box_hit = query.box_hit(&self.aabb);
        if !box_hit {
            assert(node_hit_result(geometry, query, *self, None));
            return None;
        }
        let lo = self.left.aabb(geometry);
        let ro = self.right.aabb(geometry);
        let ghost glo = lo;
        let ghost gro = ro;
        assert(aabb_result(geometry, *self.left, glo) && aabb_result(geometry, *self.right, gro));
        let (l, r) = match (lo, ro) {
            (None, None) => {
                assert(children_hit_result(geometry, query, *self, None));
                return None;
            },
            (Some(_l), None) => {
                let h = self.left.hit(geometry, query);
                assert(children_hit_result(geometry, query, *self, h));
                return h;
            },
            (None, Some(_r)) => {
                let h = self.right.hit(geometry, query);
                assert(children_hit_result(geometry, query, *self, h));
                return h;
            },
            (Some(l), Some(r)) => (l, r),
        };
        let left_aabb_distance = query.box_distance(&l);
        let right_aabb_distance = query.box_distance(&r);
        let ghost gdl = left_aabb_distance;
        let ghost gdr = right_aabb_distance;
        assert(call_ensures(Q::box_distance, (query, &l), gdl) && call_ensures(Q::box_distance, (query, &r), gdr));
        let (left_distance, right_distance) = match (left_aabb_distance, right_aabb_distance) {
            (None, None) => {
                assert(boxes_hit_result(geometry, query, *self, l, r, None));
                assert(children_hit_result(geometry, query, *self, None));
                return None;
            },
            (Some(_d), None) => {
                let h = self.left.hit(geometry, query);
                assert(boxes_hit_result(geometry, query, *self, l, r, h));
                assert(children_hit_result(geometry, query, *self, h));
                return h;
            },
            (None, Some(_d)) => {
                let h = self.right.hit(geometry, query);
                assert(boxes_hit_result(geometry, query, *self, l, r, h));
                assert(children_hit_result(geometry, query, *self, h));
                return h;
            },
            (Some(a), Some(c)) => (a, c),
        };
        assert(gdl == Some(left_distance) && gdr == Some(right_distance));
        let furthest_aabb_distance = query.max(&left_distance, &right_distance);
        let left_first = query.less(&left_distance, &right_distance);
        let closest_bvh_hit = if left_first {
            self.left.hit(geometry, query)
        } else {
            self.right.hit(geometry, query)
        };
        let ghost gch = closest_bvh_hit;
        let ghost gfar = furthest_aabb_distance;
        assert(hit_result(geometry, query, first_child(*self, left_first), gch));
        if let Some(hit_record) = &closest_bvh_hit {
            let dx = query.hit_distance(hit_record);
            if query.less(&dx, &furthest_aabb_distance) {
                assert(within(query, gch, gfar));
                assert(entered_hit_result(geometry, query, *self, left_distance, right_distance, gch));
                assert(boxes_hit_result(geometry, query, *self, l, r, gch));
                assert(children_hit_result(geometry, query, *self, gch));
                return closest_bvh_hit;
            }
        }
        assert(beyond(query, gch, gfar));
        let furthest_bvh_hit = if left_first {
            self.right.hit(geometry, query)
        } else {
            self.left.hit(geometry, query)
        };
        let ghost gfh = furthest_bvh_hit;
        assert(hit_result(geometry, query, first_child(*self, !left_first), gfh));
        let result = match (closest_bvh_hit, furthest_bvh_hit) {
            (None, None) => None,
            (None, Some(f)) => Some(f),
            (Some(c), None) => Some(c),
            (Some(c), Some(f)) => {
                let dc = query.hit_distance(&c);
                let df = query.hit_distance(&f);
                if query.less(&dc, &df) {
                    Some(c)
                } else {
                    Some(f)
                }
            },
        };
        assert(closer_hit(query, gch, gfh, result));
        assert(entered_hit_result(geometry, query, *self, left_distance, right_distance, result));
        assert(boxes_hit_result(geometry, query, *self, l, r, result));
        assert(children_hit_result(geometry, query, *self, result));
        result
    }
}

impl<P, B: Clone> BVHNode<P, B> {
    /// Alternate hit method that counts the nodes visited by the traversal:
    /// the search of [`BVHNode::hit`], with `depth` raised by one for every
    /// node entered, where the farther child is searched only up to the
    /// distance of a hit already found in the nearer one.
    pub fn testcount<H, D, G: Geometry<P, B>, Q: RayQuery<P, B, H, D>>(
        &self,
        depth: &mut usize,
        geometry: &G,
        query: &Q,
    ) -> (r: Option<H>)
        requires
            *old(depth) + node_total(*self) <= usize::MAX,
        ensures
            *old(depth) + 1 <= *final(depth) <= *old(depth) + node_total(*self),
            r is Some ==> call_ensures(Q::box_hit, (query, &self.aabb), true),
            node_sure_hit(geometry, query, *self) ==> r is Some,
            count_node_result(geometry, query, *self, r, (*final(depth) - *old(depth)) as nat),
            open_tree(geometry, query, Hitable::BVHNode(*self)) && hits_nothing(query, Hitable::BVHNode(*self)) ==> {
                &&& *final(depth) == *old(depth) + node_total(*self)
                &&& r is None
            },
        decreases self,
    {
        let ghost d0 = *depth;
        *depth = *depth + 1;
        let ghost d1 = *depth;
        let box_hit = query.box_hit(&self.aabb);
        if !box_hit {
            assert(count_node_result(geometry, query, *self, None, 1));
            proof {
                lemma_open_testcount(geometry, query, *self, None, (*depth - d0) as nat);
            }
            return None;
        }
        let lo = self.left.aabb(geometry);
        let ro = self.right.aabb(geometry);
        let ghost glo = lo;
        let ghost gro = ro;
        assert(aabb_result(geometry, *self.left, glo) && aabb_result(geometry, *self.right, gro));
        let (l, r) = match (lo, ro) {
            (None, None) => {
                assert(count_children_result(geometry, query, *self, None, 0));
                proof {
                    lemma_open_testcount(geometry, query, *self, None, (*depth - d0) as nat);
                }
                return None;
            },
            (Some(_l), None) => {
                let h = recurse(&self.left, depth, geometry, query);
                assert(count_children_result(geometry, query, *self, h, (*depth - d1) as nat));
                proof {
                    lemma_open_testcount(geometry, query, *self, h, (*depth - d0) as nat);
                }
                return h;
            },
            (None, Some(_r)) => {
                let h = recurse(&self.right, depth, geometry, query);
                assert(count_children_result(geometry, query, *self, h, (*depth - d1) as nat));
                proof {
                    lemma_open_testcount(geometry, query, *self, h, (*depth - d0) as nat);
                }
                return h;
            },
            (Some(l), Some(r)) => (l, r),
        };
        let left_aabb_distance = query.box_distance(&l);
        let right_aabb_distance = query.box_distance(&r);
        let ghost gdl = left_aabb_distance;
        let ghost gdr = right_aabb_distance;
        assert(call_ensures(Q::box_distance, (query, &l), gdl) && call_ensures(Q::box_distance, (query, &r), gdr));
        let (left_distance, right_distance) = match (left_aabb_distance, right_aabb_distance) {
            (None, None) => {
                assert(count_boxes_result(geometry, query, *self, l, r, None, 0));
                assert(count_children_result(geometry, query, *self, None, 0));
                proof {
                    lemma_open_testcount(geometry, query, *self, None, (*depth - d0) as nat);
                }
                return None;
            },
            (Some(_d), None) => {
                let h = recurse(&self.left, depth, geometry, query);
                assert(count_boxes_result(geometry, query, *self, l, r, h, (*depth - d1) as nat));
                assert(count_children_result(geometry, query, *self, h, (*depth - d1) as nat));
                proof {
                    lemma_open_testcount(geometry, query, *self, h, (*depth - d0) as nat);
                }
                return h;
            },
            (None, Some(_d)) => {
                let h = recurse(&self.right, depth, geometry, query);
                assert(count_boxes_result(geometry, query, *self, l, r, h, (*depth - d1) as nat));
                assert(count_children_result(geometry, query, *self, h, (*depth - d1) as nat));
                proof {
                    lemma_open_testcount(geometry, query, *self, h, (*depth - d0) as nat);
                }
                return h;
            },
            (Some(a), Some(c)) => (a, c),
        };
        assert(gdl == Some(left_distance) && gdr == Some(right_distance));
        let furthest_aabb_distance = query.max(&left_distance, &right_distance);
        let left_first = query.less(&left_distance, &right_distance);
        let closest_bvh_hit = if left_first {
            recurse(&self.left, depth, geometry, query)
        } else {
            recurse(&self.right, depth, geometry, query)
        };
        let ghost gch = closest_bvh_hit;
        let ghost gfar = furthest_aabb_distance;
        let ghost dc = *depth;
        assert(count_result(geometry, query, first_child(*self, left_first), gch, (dc - d1) as nat));
        if let Some(hit_record) = &closest_bvh_hit {
            let dx = query.hit_distance(hit_record);
            if query.less(&dx, &furthest_aabb_distance) {
                assert(within(query, gch, gfar));
                assert((dc - d1) as nat == count_sum((dc - d1) as nat, 0));
                assert(count_entered_result(geometry, query, *self, left_distance, right_distance, gch, (dc - d1) as nat));
                assert(count_boxes_result(geometry, query, *self, l, r, gch, (dc - d1) as nat));
                assert(count_children_result(geometry, query, *self, gch, (dc - d1) as nat));
                proof {
                    lemma_open_testcount(geometry, query, *self, closest_bvh_hit, (*depth - d0) as nat);
                }
                return closest_bvh_hit;
            }
        }
        assert(beyond(query, gch, gfar));
        let furthest_bvh = if left_first {
            &self.right
        } else {
            &self.left
        };
        assert(*furthest_bvh == first_child(*self, !left_first));
        let furthest_bvh_hit = match &closest_bvh_hit {
            Some(hit_record) => {
                let d = query.hit_distance(hit_record);
                let narrowed = query.narrowed(&d);
                let fh = recurse(furthest_bvh, depth, geometry, &narrowed);
                assert(call_ensures(Q::hit_distance, (query, hit_record), d) && call_ensures(Q::narrowed, (query, &d), narrowed)
                    && count_result(geometry, &narrowed, first_child(*self, !left_first), fh, (*depth - dc) as nat));
                fh
            },
            None => recurse(furthest_bvh, depth, geometry, query),
        };
        let ghost gfh = furthest_bvh_hit;
        let ghost df = *depth;
        let result = match (closest_bvh_hit, furthest_bvh_hit) {
            (None, None) => None,
            (None, Some(f)) => Some(f),
            (Some(c), None) => Some(c),
            (Some(c), Some(f)) => {
                let dc = query.hit_distance(&c);
                let df = query.hit_distance(&f);
                if query.less(&dc, &df) {
                    Some(c)
                } else {
                    Some(f)
                }
            },
        };
        assert(closer_hit(query, gch, gfh, result));
        assert((df - d1) as nat == count_sum((dc - d1) as nat, (df - dc) as nat));
        assert(count_entered_result(geometry, query, *self, left_distance, right_distance, result, (df - d1) as nat));
        assert(count_boxes_result(geometry, query, *self, l, r, result, (df - d1) as nat));
        assert(count_children_result(geometry, query, *self, result, (df - d1) as nat));
        proof {
            lemma_open_testcount(geometry, query, *self, result, (*depth - d0) as nat);
        }
        result
    }

    /// Alternate traversal that counts the nodes whose boxes are tested:
    /// `depth` is raised by one for this node, and the traversal descends into
    /// both children when the ray passes through this node's box.
    pub fn bvh_testcount<H, D, Q: RayQuery<P, B, H, D>>(&self, depth: &mut usize, query: &Q)
        requires
            *old(depth) + node_total(*self) <= usize::MAX,
        ensures
            *old(depth) + 1 <= *final(depth) <= *old(depth) + node_total(*self),
            *old(depth) + sure_nodes(query, *self) <= *final(depth),
            node_box_tests(query, *self, (*final(depth) - *old(depth)) as nat),
        decreases self,
    {
        let ghost d0 = *depth;
        *depth = *depth + 1;
        let b = query.box_hit(&self.aabb);
        if !b {
            assert(node_box_tests(query, *self, 1));
            return;
        }
        let ghost d1 = *depth;
        bvh_testcount_recurse_condition(&self.left, depth, query);
        let ghost d2 = *depth;
        bvh_testcount_recurse_condition(&self.right, depth, query);
        let ghost d3 = *depth;
        assert((d3 - d0) as nat == 1 + count_sum((d2 - d1) as nat, (d3 - d2) as nat));
        assert(node_box_tests(query, *self, (d3 - d0) as nat));
    }

    /// Alternate traversal that counts the primitives that would be tested:
    /// when the ray passes through this node's box, `count` is raised by the
    /// primitives of each child that is not a node, and the traversal
    /// descends into each child that is.
    pub fn primitive_testcount<H, D, Q: RayQuery<P, B, H, D>>(&self, count: &mut usize, query: &Q)
        requires
            *old(count) + node_primitives(*self) <= usize::MAX,
        ensures
            *old(count) + sure_primitives(query, *self) <= *final(count) <= *old(count) + node_primitives(*self),
            *final(count) != *old(count) ==> call_ensures(Q::box_hit, (query, &self.aabb), true),
            node_primitive_tests(query, *self, (*final(count) - *old(count)) as nat),
        decreases self,
    {
        let ghost c0 = *count;
        let b = query.box_hit(&self.aabb);
        if !b {
            assert(node_primitive_tests(query, *self, 0));
            return;
        }
        primitive_testcount_recurse_condition(&self.left, count, query);
        let ghost c1 = *count;
        primitive_testcount_recurse_condition(&self.right, count, query);
        let ghost c2 = *count;
        assert((c2 - c0) as nat == count_sum((c1 - c0) as nat, (c2 - c1) as nat));
        assert(node_primitive_tests(query, *self, (c2 - c0) as nat));
    }
}

fn recurse<P, B: Clone, H, D, G: Geometry<P, B>, Q: RayQuery<P, B, H, D>>(
    hitable: &Hitable<P, B>,
    depth: &mut usize,
    geometry: &G,
    query: &Q,
) -> (r: Option<H>)
    requires
        *old(depth) + child_nodes(*hitable) <= usize::MAX,
    ensures
        *old(depth) <= *final(depth) <= *old(depth) + child_nodes(*hitable),
        *hitable is BVHNode ==> *old(depth) + 1 <= *final(depth),
        !(*hitable is BVHNode) ==> *final(depth) == *old(depth),
        payload(*hitable) matches Some(p) ==> call_ensures(Q::primitive_hit, (query, &p), r),
        *hitable is Empty ==> r is None,
        sure_hit(geometry, query, *hitable) ==> r is Some,
        count_result(geometry, query, *hitable, r, (*final(depth) - *old(depth)) as nat),
    decreases hitable,
{
    match hitable {
        Hitable::BVHNode(node) => node.testcount(depth, geometry, query),
        other => other.hit(geometry, query),
    }
}

fn bvh_testcount_recurse_condition<P, B: Clone, H, D, Q: RayQuery<P, B, H, D>>(
    hitable: &Hitable<P, B>,
    depth: &mut usize,
    query: &Q,
)
    requires
        *old(depth) + child_nodes(*hitable) <= usize::MAX,
    ensures
        *old(depth) <= *final(depth) <= *old(depth) + child_nodes(*hitable),
        *old(depth) + child_sure_nodes(query, *hitable) <= *final(depth),
        !(*hitable is BVHNode) ==> *final(depth) == *old(depth),
        child_box_tests(query, *hitable, (*final(depth) - *old(depth)) as nat),
    decreases hitable,
{
    match hitable {
        Hitable::BVHNode(node) => node.bvh_testcount(depth, query),
        _ => {},
    }
}

fn primitive_testcount_recurse_condition<P, B: Clone, H, D, Q: RayQuery<P, B, H, D>>(
    hitable: &Hitable<P, B>,
    count: &mut usize,
    query: &Q,
)
    requires
        *old(count) + child_primitives(*hitable) <= usize::MAX,
    ensures
        *old(count) <= *final(count) <= *old(count) + child_primitives(*hitable),
        *old(count) + child_sure_primitives(query, *hitable) <= *final(count),
        !(*hitable is BVHNode) ==> *final(count) == *old(count) + child_primitives(*hitable),
        child_primitive_tests(query, *hitable, (*final(count) - *old(count)) as nat),
    decreases hitable,
{
    match hitable {
        Hitable::BVHNode(node) => {
            node.primitive_testcount(count, query);
        },
        Hitable::MovingSphere(_) | Hitable::Quad(_) | Hitable::Sphere(_) | Hitable::ConstantMedium(_)
        | Hitable::Triangle(_) | Hitable::GLTFTriangle(_) | Hitable::RotateY(_) | Hitable::Translate(_) => {
            *count = *count + 1;
        },
        Hitable::HitableList(l) => {
            *count = *count + l.hitables.len();
        },
        Hitable::Boxy(_) => {
            *count = *count + 6;
        },
        Hitable::Empty(_) => {},
    }
}

} // verus!
