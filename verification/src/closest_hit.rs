//! The closest-hit law of the hierarchy traversal: where the ray answers
//! consistently and every node's box bounds the hits below it, searching a
//! tree finds a hit exactly when one of its primitives is hit, and the hit it
//! finds is a nearest one.
use crate::bvh::BVHNode;
use crate::hitable::{payload, Geometry, Hitable};
use crate::traversal::{
    aabb_result, beyond, boxes_hit_result, children_hit_result, closer_hit, count_boxes_result, count_children_result,
    count_entered_result, count_node_result, count_result, count_sum, entered_hit_result, first_child, leaf_hit,
    lemma_node_hit_is_a_leaf_hit, must_hit_box, node_hit_result, within, RayQuery,
};
use vstd::prelude::*;

verus! {

/// Whether the ray's answers follow a model: each primitive has one answer
/// `leaf`, each hit a distance `hd`, each distance value `dv` an integer, and
/// the ray compares and takes the larger of distances by those integers, and
/// its infinity lies beyond every hit.
pub open spec fn ray_model<P, B, H, D, Q: RayQuery<P, B, H, D>>(
    query: &Q,
    leaf: spec_fn(P) -> Option<H>,
    hd: spec_fn(H) -> int,
    dv: spec_fn(D) -> int,
) -> bool {
    &&& forall|p: P, o: Option<H>| #[trigger] call_ensures(Q::primitive_hit, (query, &p), o) ==> o == leaf(p)
    &&& forall|h: H, d: D| #[trigger] call_ensures(Q::hit_distance, (query, &h), d) ==> dv(d) == hd(h)
    &&& forall|x: D, y: D, b: bool| #[trigger] call_ensures(Q::less, (query, &x, &y), b) ==> b == (dv(x) < dv(y))
    &&& forall|x: D, y: D, m: D|
        #[trigger] call_ensures(Q::max, (query, &x, &y), m) ==> dv(m) == if dv(x) < dv(y) {
            dv(y)
        } else {
            dv(x)
        }
    &&& forall|i: D| #[trigger] call_ensures(Q::infinity, (query,), i) ==> forall|y: H| #[trigger] hd(y) < dv(i)
}

/// The nearer of two hits by distance, keeping `a` on a tie; the one hit
/// where only one is present.
pub open spec fn nearer<H>(hd: spec_fn(H) -> int, a: Option<H>, b: Option<H>) -> Option<H> {
    match (a, b) {
        (None, _) => b,
        (_, None) => a,
        (Some(x), Some(y)) => if hd(y) < hd(x) {
            b
        } else {
            a
        },
    }
}

/// The nearest hit among the primitives of a tree in the model, the earlier
/// one of two at the same distance.
pub open spec fn nearest<P, B, H>(leaf: spec_fn(P) -> Option<H>, hd: spec_fn(H) -> int, h: Hitable<P, B>) -> Option<H>
    decreases h,
{
    match h {
        Hitable::BVHNode(n) => nearer(hd, nearest(leaf, hd, *n.left), nearest(leaf, hd, *n.right)),
        Hitable::HitableList(l) => seq_nearest(leaf, hd, l.hitables@),
        Hitable::Empty(_) => None,
        _ => leaf(payload(h).unwrap()),
    }
}

/// The nearest hit among the hitables of a sequence, see [`nearest`].
pub open spec fn seq_nearest<P, B, H>(leaf: spec_fn(P) -> Option<H>, hd: spec_fn(H) -> int, s: Seq<Hitable<P, B>>) -> Option<H>
    decreases s,
{
    if s.len() == 0 {
        None
    } else {
        nearer(hd, seq_nearest(leaf, hd, s.drop_last()), nearest(leaf, hd, s[s.len() - 1]))
    }
}

/// Whether two results agree: both none, or hits at the same distance.
pub open spec fn same_distance<H>(hd: spec_fn(H) -> int, r: Option<H>, s: Option<H>) -> bool {
    &&& (r is None <==> s is None)
    &&& (r matches Some(x) ==> s matches Some(y) && hd(x) == hd(y))
}

/// Whether every box of a child bounds the hits below it: where the ray
/// enters no box of the child, or the child has none, nothing below it is
/// hit; where it enters one, no hit below lies nearer than the entry.
pub open spec fn child_bounds<P, B: Clone, H, D, G: Geometry<P, B>, Q: RayQuery<P, B, H, D>>(
    geometry: &G,
    query: &Q,
    leaf: spec_fn(P) -> Option<H>,
    hd: spec_fn(H) -> int,
    dv: spec_fn(D) -> int,
    c: Hitable<P, B>,
) -> bool {
    forall|o: Option<B>|
        #[trigger] aabb_result(geometry, c, o) ==> match o {
            None => nearest(leaf, hd, c) is None,
            Some(cb) => forall|d: Option<D>|
                #[trigger] call_ensures(Q::box_distance, (query, &cb), d) ==> match d {
                    None => nearest(leaf, hd, c) is None,
                    Some(dd) => nearest(leaf, hd, c) matches Some(b) ==> dv(dd) <= hd(b),
                },
        }
}

/// Whether every node of a tree bounds the hits below it: the ray passes the
/// box of a node with a hit below it, and the boxes of its children bound the
/// hits below them, see [`child_bounds`]; the same within every node and
/// every member of a list.
pub open spec fn bounded_tree<P, B: Clone, H, D, G: Geometry<P, B>, Q: RayQuery<P, B, H, D>>(
    geometry: &G,
    query: &Q,
    leaf: spec_fn(P) -> Option<H>,
    hd: spec_fn(H) -> int,
    dv: spec_fn(D) -> int,
    h: Hitable<P, B>,
) -> bool
    decreases h,
{
    match h {
        Hitable::BVHNode(n) => {
            &&& (nearest(leaf, hd, h) is Some ==> must_hit_box(query, n.aabb))
            &&& child_bounds(geometry, query, leaf, hd, dv, *n.left)
            &&& child_bounds(geometry, query, leaf, hd, dv, *n.right)
            &&& bounded_tree(geometry, query, leaf, hd, dv, *n.left)
            &&& bounded_tree(geometry, query, leaf, hd, dv, *n.right)
        },
        Hitable::HitableList(l) => forall|i: int|
            0 <= i < l.hitables.len() ==> bounded_tree(geometry, query, leaf, hd, dv, #[trigger] l.hitables@[i]),
        _ => true,
    }
}

/// Under the ray model and the box invariant, searching a tree
/// gives a hit exactly where the tree has a nearest one, at its distance.
pub proof fn lemma_nearest_hit<P, B: Clone, H, D, G: Geometry<P, B>, Q: RayQuery<P, B, H, D>>(
    geometry: &G,
    query: &Q,
    leaf: spec_fn(P) -> Option<H>,
    hd: spec_fn(H) -> int,
    dv: spec_fn(D) -> int,
    h: Hitable<P, B>,
    r: Option<H>,
)
    requires
        ray_model(query, leaf, hd, dv),
        bounded_tree(geometry, query, leaf, hd, dv, h),
        crate::traversal::hit_result(geometry, query, h, r),
    ensures
        same_distance(hd, r, nearest(leaf, hd, h)),
    decreases h, 1nat,
{
    match h {
        Hitable::BVHNode(n) => {
            lemma_node_nearest(geometry, query, leaf, hd, dv, n, r);
        },
        Hitable::Empty(_) => {},
        Hitable::HitableList(l) => {
            let members = l.hitables@;
            let hits = choose|hits: Seq<Option<H>>|
                crate::traversal::member_results(geometry, query, members, hits) && #[trigger] crate::traversal::closest_hit(
                    query,
                    hits,
                    r,
                );
            let cd = choose|cd: D| crate::traversal::closest_so_far(query, hits, r, cd);
            assert forall|k: int| 0 <= k < members.len() implies same_distance(
                hd,
                hits[k],
                nearest(leaf, hd, #[trigger] members[k]),
            ) by {
                assert(crate::traversal::hit_result(geometry, query, members[k], hits[k]));
                assert(bounded_tree(geometry, query, leaf, hd, dv, members[k]));
                lemma_nearest_hit(geometry, query, leaf, hd, dv, members[k], hits[k]);
            }
            lemma_closest_fold(query, leaf, hd, dv, members, hits, r, cd);
        },
        _ => {
            assert(call_ensures(Q::primitive_hit, (query, &payload(h).unwrap()), r));
        },
    }
}

/// The list search's running best hit is the nearest hit of the members
/// searched so far, at the running distance; before any hit, that distance
/// lies beyond every hit.
proof fn lemma_closest_fold<P, B, H, D, Q: RayQuery<P, B, H, D>>(
    query: &Q,
    leaf: spec_fn(P) -> Option<H>,
    hd: spec_fn(H) -> int,
    dv: spec_fn(D) -> int,
    members: Seq<Hitable<P, B>>,
    hits: Seq<Option<H>>,
    cur: Option<H>,
    cd: D,
)
    requires
        ray_model(query, leaf, hd, dv),
        hits.len() == members.len(),
        forall|k: int| 0 <= k < members.len() ==> same_distance(hd, hits[k], nearest(leaf, hd, #[trigger] members[k])),
        crate::traversal::closest_so_far(query, hits, cur, cd),
    ensures
        same_distance(hd, cur, seq_nearest(leaf, hd, members)),
        cur matches Some(x) ==> dv(cd) == hd(x),
        cur is None ==> forall|y: H| #[trigger] hd(y) < dv(cd),
    decreases hits.len(),
{
    if hits.len() == 0 {
        assert forall|y: H| #[trigger] hd(y) < dv(cd) by {
            assert(call_ensures(Q::infinity, (query,), cd));
        }
    } else {
        let (pc, pd) = choose|pc: Option<H>, pd: D|
            crate::traversal::closest_so_far(query, hits.drop_last(), pc, pd)
                && #[trigger] crate::traversal::closest_step(query, hits.last(), pc, pd, cur, cd);
        let last = members.len() - 1;
        assert forall|k: int| 0 <= k < members.drop_last().len() implies same_distance(
            hd,
            hits.drop_last()[k],
            nearest(leaf, hd, #[trigger] members.drop_last()[k]),
        ) by {
            assert(members.drop_last()[k] == members[k]);
            assert(hits.drop_last()[k] == hits[k]);
        }
        lemma_closest_fold(query, leaf, hd, dv, members.drop_last(), hits.drop_last(), pc, pd);
        assert(same_distance(hd, hits[last], nearest(leaf, hd, members[last])));
        assert(seq_nearest(leaf, hd, members) == nearer(
            hd,
            seq_nearest(leaf, hd, members.drop_last()),
            nearest(leaf, hd, members[last]),
        ));
        if hits.last() is Some {
            let x = hits.last()->0;
            let (d, b) = choose|d: D, b: bool|
                #![trigger call_ensures(Q::hit_distance, (query, &x), d), call_ensures(Q::less, (query, &d, &pd), b)]
                call_ensures(Q::hit_distance, (query, &x), d) && call_ensures(Q::less, (query, &d, &pd), b) && if b {
                    cur == Some(x) && cd == d
                } else {
                    cur == pc && cd == pd
                };
            assert(b == (hd(x) < dv(pd)));
        }
    }
}

/// [`lemma_nearest_hit`] for a node.
pub proof fn lemma_node_nearest<P, B: Clone, H, D, G: Geometry<P, B>, Q: RayQuery<P, B, H, D>>(
    geometry: &G,
    query: &Q,
    leaf: spec_fn(P) -> Option<H>,
    hd: spec_fn(H) -> int,
    dv: spec_fn(D) -> int,
    n: BVHNode<P, B>,
    r: Option<H>,
)
    requires
        ray_model(query, leaf, hd, dv),
        bounded_tree(geometry, query, leaf, hd, dv, Hitable::BVHNode(n)),
        node_hit_result(geometry, query, n, r),
    ensures
        same_distance(hd, r, nearest(leaf, hd, Hitable::BVHNode(n))),
    decreases n, 0nat,
{
    let nl = nearest(leaf, hd, *n.left);
    let nr = nearest(leaf, hd, *n.right);
    assert(nearest(leaf, hd, Hitable::BVHNode(n)) == nearer(hd, nl, nr));
    assert(child_bounds(geometry, query, leaf, hd, dv, *n.left));
    assert(child_bounds(geometry, query, leaf, hd, dv, *n.right));
    let b = choose|b: bool|
        #[trigger] call_ensures(Q::box_hit, (query, &n.aabb), b) && if b {
            children_hit_result(geometry, query, n, r)
        } else {
            r is None
        };
    if !b {
        if nearer(hd, nl, nr) is Some {
            assert(must_hit_box(query, n.aabb));
        }
        return;
    }
    let (lo, ro) = choose|lo: Option<B>, ro: Option<B>|
        #![trigger aabb_result(geometry, *n.left, lo), aabb_result(geometry, *n.right, ro)]
        aabb_result(geometry, *n.left, lo) && aabb_result(geometry, *n.right, ro) && match (lo, ro) {
            (None, None) => r is None,
            (Some(_), None) => crate::traversal::hit_result(geometry, query, *n.left, r),
            (None, Some(_)) => crate::traversal::hit_result(geometry, query, *n.right, r),
            (Some(lb), Some(rb)) => boxes_hit_result(geometry, query, n, lb, rb, r),
        };
    match (lo, ro) {
        (None, None) => {},
        (Some(_), None) => {
            lemma_nearest_hit(geometry, query, leaf, hd, dv, *n.left, r);
        },
        (None, Some(_)) => {
            lemma_nearest_hit(geometry, query, leaf, hd, dv, *n.right, r);
        },
        (Some(lb), Some(rb)) => {
            let (dl, dr) = choose|dl: Option<D>, dr: Option<D>|
                #![trigger call_ensures(Q::box_distance, (query, &lb), dl), call_ensures(Q::box_distance, (query, &rb), dr)]
                call_ensures(Q::box_distance, (query, &lb), dl) && call_ensures(Q::box_distance, (query, &rb), dr)
                    && match (dl, dr) {
                    (None, None) => r is None,
                    (Some(_), None) => crate::traversal::hit_result(geometry, query, *n.left, r),
                    (None, Some(_)) => crate::traversal::hit_result(geometry, query, *n.right, r),
                    (Some(a), Some(c)) => entered_hit_result(geometry, query, n, a, c, r),
                };
            match (dl, dr) {
                (None, None) => {},
                (Some(_), None) => {
                    lemma_nearest_hit(geometry, query, leaf, hd, dv, *n.left, r);
                },
                (None, Some(_)) => {
                    lemma_nearest_hit(geometry, query, leaf, hd, dv, *n.right, r);
                },
                (Some(a), Some(c)) => {
                    let (far, left_first, ch) = choose|far: D, left_first: bool, ch: Option<H>|
                        #![trigger call_ensures(Q::max, (query, &a, &c), far), call_ensures(Q::less, (query, &a, &c), left_first), within(query, ch, far)]
                        #![trigger call_ensures(Q::max, (query, &a, &c), far), call_ensures(Q::less, (query, &a, &c), left_first), beyond(query, ch, far)]
                        call_ensures(Q::max, (query, &a, &c), far) && call_ensures(Q::less, (query, &a, &c), left_first)
                            && crate::traversal::hit_result(geometry, query, first_child(n, left_first), ch) && {
                            ||| within(query, ch, far) && r == ch
                            ||| beyond(query, ch, far) && exists|fh: Option<H>|
                                crate::traversal::hit_result(geometry, query, first_child(n, !left_first), fh)
                                    && #[trigger] closer_hit(query, ch, fh, r)
                        };
                    if left_first {
                        lemma_nearest_hit(geometry, query, leaf, hd, dv, *n.left, ch);
                    } else {
                        lemma_nearest_hit(geometry, query, leaf, hd, dv, *n.right, ch);
                    }
                    if within(query, ch, far) && r == ch {
                        let x = ch->0;
                        let dx = choose|dx: D|
                            #![trigger call_ensures(Q::hit_distance, (query, &x), dx)]
                            call_ensures(Q::hit_distance, (query, &x), dx) && call_ensures(Q::less, (query, &dx, &far), true);
                        assert(hd(x) < dv(far));
                    } else {
                        let fh = choose|fh: Option<H>|
                            crate::traversal::hit_result(geometry, query, first_child(n, !left_first), fh)
                                && #[trigger] closer_hit(query, ch, fh, r);
                        if left_first {
                            lemma_nearest_hit(geometry, query, leaf, hd, dv, *n.right, fh);
                        } else {
                            lemma_nearest_hit(geometry, query, leaf, hd, dv, *n.left, fh);
                        }
                        if ch is Some && fh is Some {
                            let (cx, fx) = (ch->0, fh->0);
                            let (dc, df, bb) = choose|dc: D, df: D, bb: bool|
                                #![trigger call_ensures(Q::hit_distance, (query, &cx), dc), call_ensures(Q::hit_distance, (query, &fx), df), call_ensures(Q::less, (query, &dc, &df), bb)]
                                call_ensures(Q::hit_distance, (query, &cx), dc) && call_ensures(Q::hit_distance, (query, &fx), df)
                                    && call_ensures(Q::less, (query, &dc, &df), bb) && r == if bb {
                                    ch
                                } else {
                                    fh
                                };
                            assert(bb == (hd(cx) < hd(fx)));
                        }
                    }
                },
            }
        },
    }
}

/// Under the ray model, the nearest hit of a tree lies no
/// farther than any hit the ray reports for one of them.
pub proof fn lemma_nearest_is_nearest<P, B, H, D, Q: RayQuery<P, B, H, D>>(
    query: &Q,
    leaf: spec_fn(P) -> Option<H>,
    hd: spec_fn(H) -> int,
    dv: spec_fn(D) -> int,
    h: Hitable<P, B>,
    y: H,
)
    requires
        ray_model(query, leaf, hd, dv),
        leaf_hit(query, h, y),
    ensures
        nearest(leaf, hd, h) matches Some(b) && hd(b) <= hd(y),
    decreases h,
{
    match h {
        Hitable::BVHNode(n) => {
            if leaf_hit(query, *n.left, y) {
                lemma_nearest_is_nearest(query, leaf, hd, dv, *n.left, y);
            } else {
                lemma_nearest_is_nearest(query, leaf, hd, dv, *n.right, y);
            }
        },
        Hitable::Empty(_) => {},
        Hitable::HitableList(l) => {
            let members = l.hitables@;
            lemma_any_leaf_member(query, members, y);
            let k = choose|k: int| 0 <= k < members.len() && leaf_hit(query, #[trigger] members[k], y);
            lemma_nearest_is_nearest(query, leaf, hd, dv, members[k], y);
            lemma_seq_nearest_bound(leaf, hd, members, k, nearest(leaf, hd, members[k])->0);
        },
        _ => {
            assert(call_ensures(Q::primitive_hit, (query, &payload(h).unwrap()), Some(y)));
        },
    }
}

/// A hit below some member of a sequence is a hit below one of them.
proof fn lemma_any_leaf_member<P, B, H, D, Q: RayQuery<P, B, H, D>>(query: &Q, s: Seq<Hitable<P, B>>, y: H)
    requires
        crate::traversal::any_leaf_hit(query, s, y),
    ensures
        exists|k: int| 0 <= k < s.len() && leaf_hit(query, #[trigger] s[k], y),
    decreases s.len(),
{
    if leaf_hit(query, s[0], y) {
        assert(leaf_hit(query, s[0], y));
    } else {
        lemma_any_leaf_member(query, s.drop_first(), y);
        let k = choose|k: int| 0 <= k < s.drop_first().len() && leaf_hit(query, #[trigger] s.drop_first()[k], y);
        assert(s.drop_first()[k] == s[k + 1]);
    }
}

/// The nearest hit of a sequence lies no farther than the nearest hit of any member.
proof fn lemma_seq_nearest_bound<P, B, H>(leaf: spec_fn(P) -> Option<H>, hd: spec_fn(H) -> int, s: Seq<Hitable<P, B>>, k: int, z: H)
    requires
        0 <= k < s.len(),
        nearest(leaf, hd, s[k]) == Some(z),
    ensures
        seq_nearest(leaf, hd, s) matches Some(b) && hd(b) <= hd(z),
    decreases s.len(),
{
    if k < s.len() - 1 {
        assert(s.drop_last()[k] == s[k]);
        lemma_seq_nearest_bound(leaf, hd, s.drop_last(), k, z);
    }
}

/// The closest-hit law of the hierarchy search ([`BVHNode::hit`] gives a
/// result of [`node_hit_result`]): where the ray answers as a model does and
/// every node's box bounds the hits below it, the search of a tree of
/// primitives finds a hit exactly when the ray hits one of its primitives,
/// and the hit it finds is one of theirs, as near as any of them.
pub proof fn lemma_closest_hit<P, B: Clone, H, D, G: Geometry<P, B>, Q: RayQuery<P, B, H, D>>(
    geometry: &G,
    query: &Q,
    leaf: spec_fn(P) -> Option<H>,
    hd: spec_fn(H) -> int,
    dv: spec_fn(D) -> int,
    n: BVHNode<P, B>,
    r: Option<H>,
)
    requires
        ray_model(query, leaf, hd, dv),
        bounded_tree(geometry, query, leaf, hd, dv, Hitable::BVHNode(n)),
        node_hit_result(geometry, query, n, r),
    ensures
        r is Some <==> exists|y: H| leaf_hit(query, Hitable::BVHNode(n), y),
        r matches Some(x) ==> leaf_hit(query, Hitable::BVHNode(n), x) && forall|y: H|
            leaf_hit(query, Hitable::BVHNode(n), y) ==> hd(x) <= hd(y),
{
    lemma_node_nearest(geometry, query, leaf, hd, dv, n, r);
    if r is Some {
        let x = r->0;
        lemma_node_hit_is_a_leaf_hit(geometry, query, n, x);
        assert(leaf_hit(query, Hitable::BVHNode(n), x));
        assert forall|y: H| leaf_hit(query, Hitable::BVHNode(n), y) implies hd(x) <= hd(y) by {
            lemma_nearest_is_nearest(query, leaf, hd, dv, Hitable::BVHNode(n), y);
        }
    } else {
        if exists|y: H| leaf_hit(query, Hitable::BVHNode(n), y) {
            let y = choose|y: H| leaf_hit(query, Hitable::BVHNode(n), y);
            lemma_nearest_is_nearest(query, leaf, hd, dv, Hitable::BVHNode(n), y);
        }
    }
}

/// The model of a ray narrowed to distance `cut`: the hits of `leaf` nearer than `cut`.
pub open spec fn cut_leaf<P, H>(leaf: spec_fn(P) -> Option<H>, hd: spec_fn(H) -> int, cut: int) -> spec_fn(P) -> Option<H> {
    |p: P|
        match leaf(p) {
            Some(y) => if hd(y) < cut {
                Some(y)
            } else {
                None
            },
            None => None,
        }
}

/// A result kept where it lies nearer than `cut`, else none.
pub open spec fn below<H>(hd: spec_fn(H) -> int, o: Option<H>, cut: int) -> Option<H> {
    match o {
        Some(y) => if hd(y) < cut {
            o
        } else {
            None
        },
        None => None,
    }
}

/// Narrowing a model further keeps of its nearest hit what lies nearer than the new cut.
pub proof fn lemma_nearest_cut<P, B, H>(leaf: spec_fn(P) -> Option<H>, hd: spec_fn(H) -> int, h: Hitable<P, B>, c1: int, c2: int)
    requires
        c2 <= c1,
    ensures
        same_distance(hd, nearest(cut_leaf(leaf, hd, c2), hd, h), below(hd, nearest(cut_leaf(leaf, hd, c1), hd, h), c2)),
    decreases h,
{
    if let Hitable::BVHNode(n) = h {
        lemma_nearest_cut(leaf, hd, *n.left, c1, c2);
        lemma_nearest_cut(leaf, hd, *n.right, c1, c2);
    } else if let Hitable::HitableList(l) = h {
        lemma_seq_nearest_cut(leaf, hd, l.hitables@, c1, c2);
    } else if payload(h) is Some {
        let p = payload(h).unwrap();
        assert(cut_leaf(leaf, hd, c2)(p) == below(hd, cut_leaf(leaf, hd, c1)(p), c2));
    }
}

/// [`lemma_nearest_cut`] for a sequence.
pub proof fn lemma_seq_nearest_cut<P, B, H>(
    leaf: spec_fn(P) -> Option<H>,
    hd: spec_fn(H) -> int,
    s: Seq<Hitable<P, B>>,
    c1: int,
    c2: int,
)
    requires
        c2 <= c1,
    ensures
        same_distance(
            hd,
            seq_nearest(cut_leaf(leaf, hd, c2), hd, s),
            below(hd, seq_nearest(cut_leaf(leaf, hd, c1), hd, s), c2),
        ),
    decreases s,
{
    if s.len() > 0 {
        lemma_seq_nearest_cut(leaf, hd, s.drop_last(), c1, c2);
        lemma_nearest_cut(leaf, hd, s[s.len() - 1], c1, c2);
    }
}

/// The nearest hit of a model cut at `c` lies nearer than `c`.
pub proof fn lemma_nearest_within_cut<P, B, H>(leaf: spec_fn(P) -> Option<H>, hd: spec_fn(H) -> int, h: Hitable<P, B>, c: int)
    ensures
        nearest(cut_leaf(leaf, hd, c), hd, h) matches Some(y) ==> hd(y) < c,
    decreases h,
{
    if let Hitable::BVHNode(n) = h {
        lemma_nearest_within_cut(leaf, hd, *n.left, c);
        lemma_nearest_within_cut(leaf, hd, *n.right, c);
    } else if let Hitable::HitableList(l) = h {
        lemma_seq_nearest_within_cut(leaf, hd, l.hitables@, c);
    }
}

/// [`lemma_nearest_within_cut`] for a sequence.
pub proof fn lemma_seq_nearest_within_cut<P, B, H>(leaf: spec_fn(P) -> Option<H>, hd: spec_fn(H) -> int, s: Seq<Hitable<P, B>>, c: int)
    ensures
        seq_nearest(cut_leaf(leaf, hd, c), hd, s) matches Some(y) ==> hd(y) < c,
    decreases s,
{
    if s.len() > 0 {
        lemma_seq_nearest_within_cut(leaf, hd, s.drop_last(), c);
        lemma_nearest_within_cut(leaf, hd, s[s.len() - 1], c);
    }
}

/// Whether a family of rays, those for which `good` holds, answer as models
/// narrowed from `leaf`: each one as `leaf` cut at its distance `cut`, with
/// every node's box bounding the hits of tree `h` below it; and narrowing a
/// good ray to the distance of a hit gives a good ray cut at that distance.
pub open spec fn narrowing_model<P, B: Clone, H, D, G: Geometry<P, B>, Q: RayQuery<P, B, H, D>>(
    geometry: &G,
    leaf: spec_fn(P) -> Option<H>,
    hd: spec_fn(H) -> int,
    dv: spec_fn(D) -> int,
    good: spec_fn(Q) -> bool,
    cut: spec_fn(Q) -> int,
    h: Hitable<P, B>,
) -> bool {
    &&& forall|q1: Q|
        #[trigger] good(q1) ==> ray_model(&q1, cut_leaf(leaf, hd, cut(q1)), hd, dv) && bounded_tree(
            geometry,
            &q1,
            cut_leaf(leaf, hd, cut(q1)),
            hd,
            dv,
            h,
        )
    &&& forall|q1: Q, x: H, d: D, q2: Q|
        #![trigger call_ensures(Q::hit_distance, (&q1, &x), d), call_ensures(Q::narrowed, (&q1, &d), q2)]
        good(q1) && call_ensures(Q::hit_distance, (&q1, &x), d) && call_ensures(Q::narrowed, (&q1, &d), q2) ==> good(q2)
            && cut(q2) == dv(d)
}

/// Under a narrowing model, the counting search of a tree gives
/// a hit exactly where the tree has a nearest one for the ray, at its distance.
#[verifier::rlimit(100)]
#[verifier::spinoff_prover]
pub proof fn lemma_count_nearest<P, B: Clone, H, D, G: Geometry<P, B>, Q: RayQuery<P, B, H, D>>(
    geometry: &G,
    query: &Q,
    leaf: spec_fn(P) -> Option<H>,
    hd: spec_fn(H) -> int,
    dv: spec_fn(D) -> int,
    good: spec_fn(Q) -> bool,
    cut: spec_fn(Q) -> int,
    h: Hitable<P, B>,
    r: Option<H>,
    k: nat,
)
    requires
        good(*query),
        narrowing_model(geometry, leaf, hd, dv, good, cut, h),
        count_result(geometry, query, h, r, k),
    ensures
        same_distance(hd, r, nearest(cut_leaf(leaf, hd, cut(*query)), hd, h)),
    decreases h,
{
    let ml = cut_leaf(leaf, hd, cut(*query));
    assert(ray_model(query, ml, hd, dv) && bounded_tree(geometry, query, ml, hd, dv, h));
    if !(h is BVHNode) {
        lemma_nearest_hit(geometry, query, ml, hd, dv, h, r);
        return;
    }
    let n = h->BVHNode_0;
    let nl = nearest(ml, hd, *n.left);
    let nr = nearest(ml, hd, *n.right);
    assert(nearest(ml, hd, h) == nearer(hd, nl, nr));
    assert(child_bounds(geometry, query, ml, hd, dv, *n.left));
    assert(child_bounds(geometry, query, ml, hd, dv, *n.right));
    assert(narrowing_model(geometry, leaf, hd, dv, good, cut, *n.left)) by {
        assert forall|q1: Q| #[trigger] good(q1) implies ray_model(&q1, cut_leaf(leaf, hd, cut(q1)), hd, dv) && bounded_tree(
            geometry,
            &q1,
            cut_leaf(leaf, hd, cut(q1)),
            hd,
            dv,
            *n.left,
        ) by {
            assert(bounded_tree(geometry, &q1, cut_leaf(leaf, hd, cut(q1)), hd, dv, h));
        }
    }
    assert(narrowing_model(geometry, leaf, hd, dv, good, cut, *n.right)) by {
        assert forall|q1: Q| #[trigger] good(q1) implies ray_model(&q1, cut_leaf(leaf, hd, cut(q1)), hd, dv) && bounded_tree(
            geometry,
            &q1,
            cut_leaf(leaf, hd, cut(q1)),
            hd,
            dv,
            *n.right,
        ) by {
            assert(bounded_tree(geometry, &q1, cut_leaf(leaf, hd, cut(q1)), hd, dv, h));
        }
    }
    assert(count_node_result(geometry, query, n, r, k));
    let b = choose|b: bool|
        #[trigger] call_ensures(Q::box_hit, (query, &n.aabb), b) && if b {
            k >= 1 && count_children_result(geometry, query, n, r, (k - 1) as nat)
        } else {
            r is None && k == 1
        };
    if !b {
        if nearer(hd, nl, nr) is Some {
            assert(must_hit_box(query, n.aabb));
        }
        return;
    }
    let k1 = (k - 1) as nat;
    let (lo, ro) = choose|lo: Option<B>, ro: Option<B>|
        #![trigger aabb_result(geometry, *n.left, lo), aabb_result(geometry, *n.right, ro)]
        aabb_result(geometry, *n.left, lo) && aabb_result(geometry, *n.right, ro) && match (lo, ro) {
            (None, None) => r is None && k1 == 0,
            (Some(_), None) => count_result(geometry, query, *n.left, r, k1),
            (None, Some(_)) => count_result(geometry, query, *n.right, r, k1),
            (Some(lb), Some(rb)) => count_boxes_result(geometry, query, n, lb, rb, r, k1),
        };
    match (lo, ro) {
        (None, None) => {},
        (Some(_), None) => {
            lemma_count_nearest(geometry, query, leaf, hd, dv, good, cut, *n.left, r, k1);
        },
        (None, Some(_)) => {
            lemma_count_nearest(geometry, query, leaf, hd, dv, good, cut, *n.right, r, k1);
        },
        (Some(lb), Some(rb)) => {
            let (dl, dr) = choose|dl: Option<D>, dr: Option<D>|
                #![trigger call_ensures(Q::box_distance, (query, &lb), dl), call_ensures(Q::box_distance, (query, &rb), dr)]
                call_ensures(Q::box_distance, (query, &lb), dl) && call_ensures(Q::box_distance, (query, &rb), dr)
                    && match (dl, dr) {
                    (None, None) => r is None && k1 == 0,
                    (Some(_), None) => count_result(geometry, query, *n.left, r, k1),
                    (None, Some(_)) => count_result(geometry, query, *n.right, r, k1),
                    (Some(a), Some(c)) => count_entered_result(geometry, query, n, a, c, r, k1),
                };
            match (dl, dr) {
                (None, None) => {},
                (Some(_), None) => {
                    lemma_count_nearest(geometry, query, leaf, hd, dv, good, cut, *n.left, r, k1);
                },
                (None, Some(_)) => {
                    lemma_count_nearest(geometry, query, leaf, hd, dv, good, cut, *n.right, r, k1);
                },
                (Some(a), Some(c)) => {
                    let (far, left_first, ch, kc, kf) = choose|far: D, left_first: bool, ch: Option<H>, kc: nat, kf: nat|
                        #![trigger call_ensures(Q::max, (query, &a, &c), far), call_ensures(Q::less, (query, &a, &c), left_first), within(query, ch, far), count_sum(kc, kf)]
                        #![trigger call_ensures(Q::max, (query, &a, &c), far), call_ensures(Q::less, (query, &a, &c), left_first), beyond(query, ch, far), count_sum(kc, kf)]
                        call_ensures(Q::max, (query, &a, &c), far) && call_ensures(Q::less, (query, &a, &c), left_first)
                            && count_result(geometry, query, first_child(n, left_first), ch, kc) && k1 == count_sum(kc, kf)
                            && {
                            ||| within(query, ch, far) && r == ch && kf == 0
                            ||| beyond(query, ch, far) && exists|fh: Option<H>|
                                #[trigger] closer_hit(query, ch, fh, r) && match ch {
                                    None => count_result(geometry, query, first_child(n, !left_first), fh, kf),
                                    Some(x) => exists|d: D, narrowed: Q|
                                        #![trigger call_ensures(Q::hit_distance, (query, &x), d), call_ensures(Q::narrowed, (query, &d), narrowed)]
                                        call_ensures(Q::hit_distance, (query, &x), d) && call_ensures(
                                            Q::narrowed,
                                            (query, &d),
                                            narrowed,
                                        ) && count_result(geometry, &narrowed, first_child(n, !left_first), fh, kf),
                                }
                        };
                    if left_first {
                        lemma_count_nearest(geometry, query, leaf, hd, dv, good, cut, *n.left, ch, kc);
                    } else {
                        lemma_count_nearest(geometry, query, leaf, hd, dv, good, cut, *n.right, ch, kc);
                    }
                    if within(query, ch, far) && r == ch && kf == 0 {
                        let x = ch->0;
                        let dx = choose|dx: D|
                            #![trigger call_ensures(Q::hit_distance, (query, &x), dx)]
                            call_ensures(Q::hit_distance, (query, &x), dx) && call_ensures(Q::less, (query, &dx, &far), true);
                        assert(hd(x) < dv(far));
                    } else {
                        let fh = choose|fh: Option<H>|
                            #[trigger] closer_hit(query, ch, fh, r) && match ch {
                                None => count_result(geometry, query, first_child(n, !left_first), fh, kf),
                                Some(x) => exists|d: D, narrowed: Q|
                                    #![trigger call_ensures(Q::hit_distance, (query, &x), d), call_ensures(Q::narrowed, (query, &d), narrowed)]
                                    call_ensures(Q::hit_distance, (query, &x), d) && call_ensures(
                                        Q::narrowed,
                                        (query, &d),
                                        narrowed,
                                    ) && count_result(geometry, &narrowed, first_child(n, !left_first), fh, kf),
                            };
                        let other = first_child(n, !left_first);
                        assert(other == *n.left || other == *n.right);
                        if ch is None {
                            lemma_count_nearest(geometry, query, leaf, hd, dv, good, cut, other, fh, kf);
                        } else {
                            let x = ch->0;
                            let (d, narrowed) = choose|d: D, narrowed: Q|
                                #![trigger call_ensures(Q::hit_distance, (query, &x), d), call_ensures(Q::narrowed, (query, &d), narrowed)]
                                call_ensures(Q::hit_distance, (query, &x), d) && call_ensures(Q::narrowed, (query, &d), narrowed)
                                    && count_result(geometry, &narrowed, other, fh, kf);
                            assert(good(narrowed) && cut(narrowed) == dv(d));
                            assert(dv(d) == hd(x));
                            lemma_count_nearest(geometry, &narrowed, leaf, hd, dv, good, cut, other, fh, kf);
                            lemma_nearest_within_cut(leaf, hd, first_child(n, left_first), cut(*query));
                            lemma_nearest_cut(leaf, hd, other, cut(*query), hd(x));
                            if fh is Some {
                                let (cx, fx) = (x, fh->0);
                                let (dc, df, bb) = choose|dc: D, df: D, bb: bool|
                                    #![trigger call_ensures(Q::hit_distance, (query, &cx), dc), call_ensures(Q::hit_distance, (query, &fx), df), call_ensures(Q::less, (query, &dc, &df), bb)]
                                    call_ensures(Q::hit_distance, (query, &cx), dc) && call_ensures(Q::hit_distance, (query, &fx), df)
                                        && call_ensures(Q::less, (query, &dc, &df), bb) && r == if bb {
                                        ch
                                    } else {
                                        fh
                                    };
                                assert(bb == (hd(cx) < hd(fx)));
                            }
                        }
                    }
                },
            }
        },
    }
}

/// The counting search finds the same hit as the plain one
/// ([`BVHNode::testcount`] gives a result of [`count_node_result`],
/// [`BVHNode::hit`] one of [`node_hit_result`]): where the ray and the rays
/// narrowed from it answer as models cut from one model, and every node's box
/// bounds the hits below it for each of them, both searches of a tree
/// find a hit or both find none, and their hits lie at the same distance.
pub proof fn lemma_testcount_finds_the_same_hit<P, B: Clone, H, D, G: Geometry<P, B>, Q: RayQuery<P, B, H, D>>(
    geometry: &G,
    query: &Q,
    leaf: spec_fn(P) -> Option<H>,
    hd: spec_fn(H) -> int,
    dv: spec_fn(D) -> int,
    good: spec_fn(Q) -> bool,
    cut: spec_fn(Q) -> int,
    n: BVHNode<P, B>,
    hit: Option<H>,
    counted: Option<H>,
    k: nat,
)
    requires
        good(*query),
        narrowing_model(geometry, leaf, hd, dv, good, cut, Hitable::BVHNode(n)),
        node_hit_result(geometry, query, n, hit),
        count_node_result(geometry, query, n, counted, k),
    ensures
        same_distance(hd, counted, hit),
{
    let ml = cut_leaf(leaf, hd, cut(*query));
    assert(ray_model(query, ml, hd, dv) && bounded_tree(geometry, query, ml, hd, dv, Hitable::BVHNode(n)));
    lemma_node_nearest(geometry, query, ml, hd, dv, n, hit);
    lemma_count_nearest(geometry, query, leaf, hd, dv, good, cut, Hitable::BVHNode(n), counted, k);
}

} // verus!
