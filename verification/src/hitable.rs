//! An abstraction for things that can be hit by rays: the tree of scene entities.
//!
//! The geometry of each primitive (its floating-point shape and bounding box) is
//! a payload `P`, and bounding boxes are values of a type `B`; the library
//! handles the structure of the tree and leaves the geometry opaque.
use crate::bvh::BVHNode;
use vstd::prelude::*;
use vstd::multiset::Multiset;

verus! {

/// Empty hitable. Cannot be hit. Exists only as an internal workaround.
#[derive(Debug, Clone, Copy)]
pub struct Empty {}

impl Empty {
    /// New empty hitable
    pub fn new() -> (e: Self)
        ensures
            e == (Empty {}),
    {
        Empty {}
    }
}

/// Enumeration of all runtime entities that can be intersected aka "hit" by a ray.
///
/// Primitives carry their geometry `P`; the two composite entities, the
/// bounding volume hierarchy node and the hitable list, carry their children
/// and a bounding box `B`.
#[derive(Debug)]
pub enum Hitable<P, B> {
    Boxy(P),
    BVHNode(BVHNode<P, B>),
    ConstantMedium(P),
    MovingSphere(P),
    Quad(P),
    RotateY(P),
    Sphere(P),
    Translate(P),
    Triangle(P),
    Empty(Empty),
    GLTFTriangle(P),
    HitableList(HitableList<P, B>),
}

/// A list of `Hitable`s, occasionally used as the leaf of a `BVHNode` when
/// further splitting is not possible or beneficial.
#[derive(Debug)]
pub struct HitableList<P, B> {
    /// Hitables in the list
    pub hitables: Vec<Hitable<P, B>>,
    /// Bounding box of all the hitables in the list
    pub aabb: B,
}

/// The measure of a hitable used to bound recursion: the number of entities
/// in it, counting nested lists and their members.
pub open spec fn hitable_size<P, B>(h: Hitable<P, B>) -> nat
    decreases h,
{
    match h {
        Hitable::HitableList(l) => 1 + seq_size(l.hitables@),
        _ => 1,
    }
}

/// The summed [`hitable_size`] of a sequence of hitables.
pub open spec fn seq_size<P, B>(s: Seq<Hitable<P, B>>) -> nat
    decreases s,
{
    if s.len() == 0 {
        0
    } else {
        hitable_size(s[0]) + seq_size(s.drop_first())
    }
}

/// The flattened form of a single hitable: the hitables of a list, recursively
/// flattened, or the hitable itself.
pub open spec fn flat_hitable<P, B>(h: Hitable<P, B>) -> Seq<Hitable<P, B>>
    decreases h,
{
    match h {
        Hitable::HitableList(l) => flat_seq(l.hitables@),
        _ => seq![h],
    }
}

/// The flattened form of a sequence of hitables: the concatenation of the
/// flattened forms of its members, in order.
pub open spec fn flat_seq<P, B>(s: Seq<Hitable<P, B>>) -> Seq<Hitable<P, B>>
    decreases s,
{
    if s.len() == 0 {
        seq![]
    } else {
        flat_hitable(s[0]) + flat_seq(s.drop_first())
    }
}

/// Whether a hitable is a (possibly nested) list.
pub open spec fn is_list<P, B>(h: Hitable<P, B>) -> bool {
    h is HitableList
}

/// The floating-point geometry of a scene, which the renderer supplies for its
/// primitive payload `P` and bounding box type `B`.
///
/// The library decides the structure of a hierarchy; every numeric judgement
/// about positions and extents is delegated to these methods.
pub trait Geometry<P, B> {
    /// The bounding box of a primitive, or `None` if it is unbounded.
    fn primitive_aabb(&self, primitive: &P) -> Option<B>;

    /// The smallest bounding box containing both given boxes.
    fn combine(&self, a: &B, b: &B) -> B;

    /// The axis (0, 1 or 2) along which the given box has its largest extent.
    fn longest_axis(&self, aabb: &B) -> usize;

    /// Whether the lower end of box `a` lies strictly below that of box `b`
    /// along the given axis.
    fn min_less(&self, a: &B, b: &B, axis: usize) -> bool;

    /// For each hitable, whether it lies on the lower side of the best split
    /// found by the surface area heuristic.
    fn sah_partition(&self, hitables: &Vec<Hitable<P, B>>) -> Vec<bool>;
}

/// The geometry payload of a primitive hitable; `None` for the empty
/// hitable, a node and a list.
pub open spec fn payload<P, B>(h: Hitable<P, B>) -> Option<P> {
    match h {
        Hitable::Boxy(p) => Some(p),
        Hitable::ConstantMedium(p) => Some(p),
        Hitable::MovingSphere(p) => Some(p),
        Hitable::Quad(p) => Some(p),
        Hitable::RotateY(p) => Some(p),
        Hitable::Sphere(p) => Some(p),
        Hitable::Translate(p) => Some(p),
        Hitable::Triangle(p) => Some(p),
        Hitable::GLTFTriangle(p) => Some(p),
        _ => None,
    }
}

/// Whether every answer the geometry may give for the bounding box of a
/// primitive is a box.
pub open spec fn must_bound<P, B, G: Geometry<P, B>>(geometry: &G, p: P) -> bool {
    forall|o: Option<B>| call_ensures(G::primitive_aabb, (geometry, &p), o) ==> o is Some
}

/// Whether a hitable is sure to have a bounding box: a node or a list, which
/// store theirs, or a primitive that the geometry always bounds.
pub open spec fn has_box<P, B, G: Geometry<P, B>>(geometry: &G, h: Hitable<P, B>) -> bool {
    match h {
        Hitable::BVHNode(_) => true,
        Hitable::HitableList(_) => true,
        Hitable::Empty(_) => false,
        _ => must_bound(geometry, payload(h).unwrap()),
    }
}

/// Whether every hitable of a sequence is sure to have a bounding box.
pub open spec fn all_have_box<P, B, G: Geometry<P, B>>(geometry: &G, s: Seq<Hitable<P, B>>) -> bool {
    forall|i: int| 0 <= i < s.len() ==> has_box(geometry, #[trigger] s[i])
}

/// Whether `c` is a box that [`Hitable::aabb`] may return for `h`: a clone
/// of the stored box of a node or a list, or a box the geometry may give for
/// a primitive.
pub open spec fn possible_box<P, B: Clone, G: Geometry<P, B>>(geometry: &G, h: Hitable<P, B>, c: B) -> bool {
    match h {
        Hitable::BVHNode(n) => cloned(n.aabb, c),
        Hitable::HitableList(l) => cloned(l.aabb, c),
        Hitable::Empty(_) => false,
        _ => call_ensures(G::primitive_aabb, (geometry, &payload(h).unwrap()), Some(c)),
    }
}

impl<P, B: Clone> Hitable<P, B> {
    /// Returns the bounding box of the entity: the stored box of a node or a
    /// list, nothing for the empty hitable, and the geometry's box for a primitive.
    pub fn aabb<G: Geometry<P, B>>(&self, geometry: &G) -> (r: Option<B>)
        ensures
            self is Empty ==> r is None,
            self matches Hitable::BVHNode(node) ==> (r matches Some(b) && cloned(node.aabb, b)),
            self matches Hitable::HitableList(list) ==> (r matches Some(b) && cloned(list.aabb, b)),
            payload(*self) matches Some(p) ==> call_ensures(G::primitive_aabb, (geometry, &p), r),
            has_box(geometry, *self) ==> r is Some,
            r matches Some(c) ==> possible_box(geometry, *self, c),
            r is None ==> may_lack_box(geometry, *self),
    {
        match self {
            Hitable::BVHNode(node) => Some(node.aabb.clone()),
            Hitable::HitableList(list) => Some(list.aabb.clone()),
            Hitable::Empty(_) => None,
            Hitable::Boxy(p) => geometry.primitive_aabb(p),
            Hitable::ConstantMedium(p) => geometry.primitive_aabb(p),
            Hitable::MovingSphere(p) => geometry.primitive_aabb(p),
            Hitable::Quad(p) => geometry.primitive_aabb(p),
            Hitable::RotateY(p) => geometry.primitive_aabb(p),
            Hitable::Sphere(p) => geometry.primitive_aabb(p),
            Hitable::Translate(p) => geometry.primitive_aabb(p),
            Hitable::Triangle(p) => geometry.primitive_aabb(p),
            Hitable::GLTFTriangle(p) => geometry.primitive_aabb(p),
        }
    }
}

/// Whether `acc` records a left fold of `G::combine` over boxes `parts` that
/// the hitables of `s` may have: `acc[0]` is the first box, and each later
/// entry is a possible `combine` of the entry before it with the next box.
pub open spec fn is_box_fold<P, B: Clone, G: Geometry<P, B>>(
    geometry: &G,
    s: Seq<Hitable<P, B>>,
    parts: Seq<B>,
    acc: Seq<B>,
) -> bool {
    &&& s.len() > 0
    &&& parts.len() == s.len()
    &&& acc.len() == s.len()
    &&& forall|i: int| 0 <= i < s.len() ==> possible_box(geometry, s[i], #[trigger] parts[i])
    &&& acc[0] == parts[0]
    &&& forall|i: int| 1 <= i < s.len() ==> call_ensures(G::combine, (geometry, &acc[i - 1], &parts[i]), #[trigger] acc[i])
}

/// Whether `b` is a box that folding `G::combine` over the boxes of the
/// hitables of `s`, from the first to the last, may give.
pub open spec fn folded_box<P, B: Clone, G: Geometry<P, B>>(geometry: &G, s: Seq<Hitable<P, B>>, b: B) -> bool {
    exists|parts: Seq<B>, acc: Seq<B>| is_box_fold(geometry, s, parts, acc) && acc.last() == b
}

/// Whether a hitable may turn out to have no bounding box: it is empty, or a
/// primitive for which the geometry may answer that it is unbounded.
pub open spec fn may_lack_box<P, B, G: Geometry<P, B>>(geometry: &G, h: Hitable<P, B>) -> bool {
    ||| h is Empty
    ||| (payload(h) matches Some(p) && call_ensures(G::primitive_aabb, (geometry, &p), None))
}

/// Whether a hitable is sure to have no bounding box: it is empty, or a
/// primitive for which every answer the geometry may give is that it is unbounded.
pub open spec fn must_lack_box<P, B, G: Geometry<P, B>>(geometry: &G, h: Hitable<P, B>) -> bool {
    ||| h is Empty
    ||| (payload(h) matches Some(p) && forall|o: Option<B>|
        #[trigger] call_ensures(G::primitive_aabb, (geometry, &p), o) ==> o is None)
}

/// Whether some hitable of a sequence may turn out to have no bounding box.
pub open spec fn some_may_lack_box<P, B, G: Geometry<P, B>>(geometry: &G, s: Seq<Hitable<P, B>>) -> bool {
    exists|i: int| 0 <= i < s.len() && may_lack_box(geometry, #[trigger] s[i])
}

/// A hitable of a sequence that may have no bounding box makes the sequence one that may.
pub proof fn lemma_member_may_lack_box<P, B, G: Geometry<P, B>>(geometry: &G, s: Seq<Hitable<P, B>>, h: Hitable<P, B>)
    requires
        s.contains(h),
        may_lack_box(geometry, h),
    ensures
        some_may_lack_box(geometry, s),
{
    let i = choose|i: int| 0 <= i < s.len() && s[i] == h;
    assert(may_lack_box(geometry, s[i]));
}

/// The bounding box of all hitables in a list, grown one hitable at a time:
/// the box of the first, combined with that of each following hitable in turn.
/// `None` if the list is empty or if any of its hitables has no bounding box.
#[verifier::rlimit(40)]
pub fn vec_bounding_box<P, B: Clone, G: Geometry<P, B>>(hitables: &Vec<Hitable<P, B>>, geometry: &G) -> (r: Option<B>)
    ensures
        hitables.len() == 0 ==> r is None,
        (exists|i: int| 0 <= i < hitables.len() && #[trigger] hitables@[i] is Empty) ==> r is None,
        (hitables.len() > 0 && forall|i: int| 0 <= i < hitables.len() ==> has_box(geometry, #[trigger] hitables@[i]))
            ==> r is Some,
        r matches Some(b) ==> folded_box(geometry, hitables@, b),
        r is None ==> hitables.len() == 0 || exists|i: int|
            0 <= i < hitables.len() && may_lack_box(geometry, #[trigger] hitables@[i]),
        (exists|i: int| 0 <= i < hitables.len() && must_lack_box(geometry, #[trigger] hitables@[i])) ==> r is None,
{
    if hitables.len() == 0 {
        return None;
    }
    let mut output_box: Option<B> = None;
    let mut i: usize = 0;
    let ghost mut parts: Seq<B> = Seq::empty();
    let ghost mut acc: Seq<B> = Seq::empty();
    while i < hitables.len()
        invariant
            0 <= i <= hitables.len(),
            forall|j: int| 0 <= j < i ==> !(#[trigger] hitables@[j] is Empty),
            i > 0 ==> output_box is Some,
            i == 0 ==> output_box is None,
            hitables.len() > 0,
            parts.len() == i,
            acc.len() == i,
            forall|j: int| 0 <= j < i ==> possible_box(geometry, hitables@[j], #[trigger] parts[j]),
            i > 0 ==> acc[0] == parts[0],
            forall|j: int| 1 <= j < i ==> call_ensures(G::combine, (geometry, &acc[j - 1], &parts[j]), #[trigger] acc[j]),
            i > 0 ==> output_box == Some(acc[i - 1]),
            forall|j: int| 0 <= j < i ==> !must_lack_box(geometry, #[trigger] hitables@[j]),
        decreases hitables.len() - i,
    {
        let bounding = match hitables[i].aabb(geometry) {
            Some(b) => b,
            None => {
                assert(may_lack_box(geometry, hitables@[i as int]));
                return None;
            },
        };
        assert(!must_lack_box(geometry, hitables@[i as int])) by {
            if payload(hitables@[i as int]) is Some {
                assert(call_ensures(G::primitive_aabb, (geometry, &payload(hitables@[i as int]).unwrap()), Some(bounding)));
            }
        }
        let ghost old_acc = acc;
        let ghost old_parts = parts;
        output_box = match output_box {
            Some(old_box) => {
                let c = geometry.combine(&old_box, &bounding);
                proof {
                    acc = old_acc.push(c);
                }
                Some(c)
            },
            None => {
                proof {
                    acc = old_acc.push(bounding);
                }
                Some(bounding)
            },
        };
        proof {
            parts = old_parts.push(bounding);
            assert(parts[i as int] == bounding);
            if i > 0 {
                assert(acc[0] == old_acc[0] && parts[0] == old_parts[0]);
            } else {
                assert(acc[0] == bounding);
            }
            assert forall|j: int| 0 <= j < i + 1 implies possible_box(geometry, hitables@[j], #[trigger] parts[j]) by {
                if j < i {
                    assert(parts[j] == old_parts[j]);
                }
            }
            assert forall|j: int| 1 <= j < i + 1 implies call_ensures(G::combine, (geometry, &acc[j - 1], &parts[j]), #[trigger] acc[j]) by {
                if j < i {
                    assert(acc[j] == old_acc[j] && acc[j - 1] == old_acc[j - 1] && parts[j] == old_parts[j]);
                }
            }
        }
        i = i + 1;
    }
    assert(is_box_fold(geometry, hitables@, parts, acc));
    output_box
}

impl<P, B: Clone> HitableList<P, B> {
    /// Creates a new `HitableList` from the given hitables, with the bounding box
    /// of all of them. The list must not be empty, and every hitable in it must
    /// have a bounding box.
    pub fn new<G: Geometry<P, B>>(hitables: Vec<Hitable<P, B>>, geometry: &G) -> (list: Self)
        requires
            hitables.len() > 0,
            forall|i: int| 0 <= i < hitables.len() ==> has_box(geometry, #[trigger] hitables@[i]),
        ensures
            list.hitables == hitables,
            folded_box(geometry, hitables@, list.aabb),
    {
        match vec_bounding_box(&hitables, geometry) {
            Some(aabb) => HitableList { hitables, aabb },
            None => vstd::pervasive::unreached(),
        }
    }
}

/// Flattening leaves no list behind.
pub proof fn lemma_flat_seq_has_no_lists<P, B>(s: Seq<Hitable<P, B>>)
    ensures
        forall|i: int| 0 <= i < flat_seq(s).len() ==> !is_list(#[trigger] flat_seq(s)[i]),
    decreases s,
{
    if s.len() > 0 {
        lemma_flat_hitable_has_no_lists(s[0]);
        lemma_flat_seq_has_no_lists(s.drop_first());
        let a = flat_hitable(s[0]);
        let b = flat_seq(s.drop_first());
        assert forall|i: int| 0 <= i < flat_seq(s).len() implies !is_list(#[trigger] flat_seq(s)[i]) by {
            if i < a.len() {
                assert(flat_seq(s)[i] == a[i]);
            } else {
                assert(flat_seq(s)[i] == b[i - a.len()]);
            }
        }
    }
}

proof fn lemma_flat_hitable_has_no_lists<P, B>(h: Hitable<P, B>)
    ensures
        forall|i: int| 0 <= i < flat_hitable(h).len() ==> !is_list(#[trigger] flat_hitable(h)[i]),
    decreases h,
{
    if let Hitable::HitableList(l) = h {
        lemma_flat_seq_has_no_lists(l.hitables@);
        assert(flat_hitable(h) == flat_seq(l.hitables@));
    } else {
        assert(flat_hitable(h) == seq![h]);
    }
}

/// A sequence without lists is its own flattened form.
pub proof fn lemma_flat_seq_of_flat<P, B>(s: Seq<Hitable<P, B>>)
    requires
        forall|i: int| 0 <= i < s.len() ==> !is_list(#[trigger] s[i]),
    ensures
        flat_seq(s) == s,
    decreases s.len(),
{
    if s.len() > 0 {
        assert(!is_list(s[0]));
        assert(flat_hitable(s[0]) == seq![s[0]]);
        lemma_flat_seq_of_flat(s.drop_first());
        assert(flat_seq(s) =~= s);
    }
}

/// Flattening twice is flattening once.
pub proof fn lemma_flat_seq_idempotent<P, B>(s: Seq<Hitable<P, B>>)
    ensures
        flat_seq(flat_seq(s)) == flat_seq(s),
{
    lemma_flat_seq_has_no_lists(s);
    lemma_flat_seq_of_flat(flat_seq(s));
}

/// The hitables that are not lists found at any depth of a hitable, each as
/// often as it occurs: the hitable itself, or those of the members of a list.
pub open spec fn leaves<P, B>(h: Hitable<P, B>) -> Multiset<Hitable<P, B>>
    decreases h,
{
    match h {
        Hitable::HitableList(l) => seq_leaves(l.hitables@),
        _ => Multiset::singleton(h),
    }
}

/// The [`leaves`] of all hitables of a sequence.
pub open spec fn seq_leaves<P, B>(s: Seq<Hitable<P, B>>) -> Multiset<Hitable<P, B>>
    decreases s,
{
    if s.len() == 0 {
        Multiset::empty()
    } else {
        leaves(s[0]).add(seq_leaves(s.drop_first()))
    }
}

/// Flattening keeps every hitable that is not a list, at any depth of
/// nesting, each as often as it occurs, and adds nothing: the flattened
/// sequence holds exactly the leaves of the sequence.
pub proof fn lemma_flat_seq_keeps_every_leaf<P, B>(s: Seq<Hitable<P, B>>)
    ensures
        flat_seq(s).to_multiset() == seq_leaves(s),
        flat_seq(s).len() == seq_leaves(s).len(),
    decreases s,
{
    broadcast use vstd::seq_lib::group_to_multiset_ensures;
    if s.len() > 0 {
        lemma_flat_hitable_keeps_every_leaf(s[0]);
        lemma_flat_seq_keeps_every_leaf(s.drop_first());
        vstd::seq_lib::lemma_multiset_commutative(flat_hitable(s[0]), flat_seq(s.drop_first()));
    } else {
        assert(flat_seq(s).to_multiset() =~= Multiset::empty());
    }
}

/// [`lemma_flat_seq_keeps_every_leaf`] for a single hitable.
pub proof fn lemma_flat_hitable_keeps_every_leaf<P, B>(h: Hitable<P, B>)
    ensures
        flat_hitable(h).to_multiset() == leaves(h),
    decreases h,
{
    broadcast use vstd::seq_lib::group_to_multiset_ensures;
    if let Hitable::HitableList(l) = h {
        lemma_flat_seq_keeps_every_leaf(l.hitables@);
    } else {
        assert(flat_hitable(h) == seq![h]);
        assert(seq![h] =~= Seq::<Hitable<P, B>>::empty().push(h));
        assert(Seq::<Hitable<P, B>>::empty().to_multiset() =~= Multiset::empty());
        assert(seq![h].to_multiset() =~= Multiset::singleton(h));
    }
}

impl<P, B> HitableList<P, B> {
    /// Recursively flattens the `HitableList` into a `Vec<Hitable>`
    pub fn flatten(self) -> (flat: Vec<Hitable<P, B>>)
        ensures
            flat@ == flat_seq(self.hitables@),
            flat@.to_multiset() == seq_leaves(self.hitables@),
            flat.len() == seq_leaves(self.hitables@).len(),
        decreases seq_size(self.hitables@),
    {
        let ghost orig = self.hitables@;
        let mut items = self.hitables;
        let mut flat: Vec<Hitable<P, B>> = Vec::new();
        while items.len() > 0
            invariant
                flat@ + flat_seq(items@) == flat_seq(orig),
                orig == self.hitables@,
                seq_size(items@) <= seq_size(orig),
            decreases items.len(),
        {
            let ghost before = items@;
            let hitable = items.remove(0);
            assert(before.drop_first() == items@);
            assert(seq_size(before) == hitable_size(hitable) + seq_size(items@));
            assert(flat_seq(before) == flat_hitable(hitable) + flat_seq(items@));
            match hitable {
                Hitable::HitableList(l) => {
                    assert(seq_size(l.hitables@) < seq_size(orig));
                    let mut inner = l.flatten();
                    flat.append(&mut inner);
                },
                h => {
                    flat.push(h);
                },
            }
        }
        proof {
            lemma_flat_seq_keeps_every_leaf(orig);
        }
        flat
    }
}

} // verus!
