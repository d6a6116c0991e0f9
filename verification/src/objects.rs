//! Objects of a scene: the empty object, mesh file descriptions, and the
//! index handling that assembles triangles from mesh files.
use vstd::prelude::*;

verus! {

/// Empty object. Cannot be hit and has no bounding box.
#[derive(Debug, Clone, Copy, PartialEq, Eq)]
pub struct Empty {}

impl Empty {
    /// New empty object
    pub fn new() -> (e: Self)
        ensures
            e == (Empty {}),
    {
        Empty {}
    }
}

impl Default for Empty {
    fn default() -> (e: Self)
        ensures
            e == (Empty {}),
    {
        Self::new()
    }
}

/// GLTF initialization structure
#[derive(Clone, Debug)]
pub struct GLTFInit {
    /// Used for multiple importance sampling
    pub priority: bool,
    /// Path of the .gltf file
    pub path: String,
}

/// The value of a property of a PLY element, as far as vertex indices are
/// concerned: integer scalars and lists keep their values, the floating-point
/// ones only their kind.
#[derive(Debug, Clone, PartialEq)]
pub enum PlyProperty {
    Char(i8),
    UChar(u8),
    Short(i16),
    UShort(u16),
    Int(i32),
    UInt(u32),
    Float,
    Double,
    ListChar(Vec<i8>),
    ListUChar(Vec<u8>),
    ListShort(Vec<i16>),
    ListUShort(Vec<u16>),
    ListInt(Vec<i32>),
    ListUInt(Vec<u32>),
    ListFloat,
    ListDouble,
}

/// Whether a property holds a list of vertex indices: a list of unsigned
/// bytes, shorts or ints, or of signed shorts or ints.
pub open spec fn is_index_list(p: PlyProperty) -> bool {
    match p {
        PlyProperty::ListUChar(_) | PlyProperty::ListUShort(_) | PlyProperty::ListUInt(_)
        | PlyProperty::ListShort(_) | PlyProperty::ListInt(_) => true,
        _ => false,
    }
}

/// The absolute value of an integer.
pub open spec fn abs(i: int) -> int {
    if i < 0 {
        -i
    } else {
        i
    }
}

/// The vertex indices that an index list property denotes: the values of an
/// unsigned list, the absolute values of a signed one.
pub open spec fn index_list_values(p: PlyProperty) -> Seq<int> {
    match p {
        PlyProperty::ListUChar(v) => v@.map_values(|u: u8| u as int),
        PlyProperty::ListUShort(v) => v@.map_values(|u: u16| u as int),
        PlyProperty::ListUInt(v) => v@.map_values(|u: u32| u as int),
        PlyProperty::ListShort(v) => v@.map_values(|i: i16| abs(i as int)),
        PlyProperty::ListInt(v) => v@.map_values(|i: i32| abs(i as int)),
        _ => Seq::empty(),
    }
}

/// Converts a PLY index list property into vertex indices.
pub fn property_to_vec_u32(p: &PlyProperty) -> (indices: Vec<usize>)
    requires
        is_index_list(*p),
    ensures
        indices@.map_values(|u: usize| u as int) == index_list_values(*p),
{
    let mut indices: Vec<usize> = Vec::new();
    let ghost target = index_list_values(*p);
    let mut i: usize = 0;
    match p {
        PlyProperty::ListUChar(v) => {
            while i < v.len()
                invariant
                    i <= v.len(),
                    indices.len() == i,
                    target == v@.map_values(|u: u8| u as int),
                    forall|j: int| 0 <= j < i ==> #[trigger] indices@[j] as int == target[j],
                decreases v.len() - i,
            {
                indices.push(v[i] as usize);
                i = i + 1;
            }
        },
        PlyProperty::ListUShort(v) => {
            while i < v.len()
                invariant
                    i <= v.len(),
                    indices.len() == i,
                    target == v@.map_values(|u: u16| u as int),
                    forall|j: int| 0 <= j < i ==> #[trigger] indices@[j] as int == target[j],
                decreases v.len() - i,
            {
                indices.push(v[i] as usize);
                i = i + 1;
            }
        },
        PlyProperty::ListUInt(v) => {
            while i < v.len()
                invariant
                    i <= v.len(),
                    indices.len() == i,
                    target == v@.map_values(|u: u32| u as int),
                    forall|j: int| 0 <= j < i ==> #[trigger] indices@[j] as int == target[j],
                decreases v.len() - i,
            {
                indices.push(v[i] as usize);
                i = i + 1;
            }
        },
        PlyProperty::ListShort(v) => {
            while i < v.len()
                invariant
                    i <= v.len(),
                    indices.len() == i,
                    target == v@.map_values(|s: i16| abs(s as int)),
                    forall|j: int| 0 <= j < i ==> #[trigger] indices@[j] as int == target[j],
                decreases v.len() - i,
            {
                let s = v[i] as i64;
                let a: usize = if s < 0 { (-s) as usize } else { s as usize };
                indices.push(a);
                i = i + 1;
            }
        },
        PlyProperty::ListInt(v) => {
            while i < v.len()
                invariant
                    i <= v.len(),
                    indices.len() == i,
                    target == v@.map_values(|s: i32| abs(s as int)),
                    forall|j: int| 0 <= j < i ==> #[trigger] indices@[j] as int == target[j],
                decreases v.len() - i,
            {
                let s = v[i] as i64;
                let a: usize = if s < 0 { (-s) as usize } else { s as usize };
                indices.push(a);
                i = i + 1;
            }
        },
        _ => {},
    }
    assert(indices@.map_values(|u: usize| u as int) =~= target);
    indices
}

/// The three corners of a face: the vertices at the face's first three indices.
pub fn triangle_corners<V: Copy>(vertices: &Vec<V>, indices: &Vec<usize>) -> (corners: [V; 3])
    requires
        indices.len() >= 3,
        forall|k: int| 0 <= k < 3 ==> #[trigger] indices@[k] < vertices.len(),
    ensures
        forall|k: int| 0 <= k < 3 ==> #[trigger] corners@[k] == vertices@[indices@[k] as int],
{
    let a = vertices[indices[0]];
    let b = vertices[indices[1]];
    let c = vertices[indices[2]];
    [a, b, c]
}

/// Reads a flat index array as triangles: consecutive triples of indices,
/// each naming the three corners of one triangle.
pub fn triangle_index_triples(indices: &Vec<usize>) -> (triples: Vec<[usize; 3]>)
    requires
        indices.len() % 3 == 0,
    ensures
        triples.len() == indices.len() / 3,
        forall|t: int|
            0 <= t < triples.len() ==> (#[trigger] triples@[t])@ == seq![indices@[3 * t], indices@[3 * t + 1], indices@[3 * t + 2]],
{
    let len = indices.len();
    let mut triples: Vec<[usize; 3]> = Vec::new();
    let mut i: usize = 0;
    while i < len
        invariant
            len == indices.len(),
            len % 3 == 0,
            i % 3 == 0,
            i <= len,
            triples.len() == i / 3,
            forall|t: int|
                0 <= t < triples.len() ==> (#[trigger] triples@[t])@ == seq![indices@[3 * t], indices@[3 * t + 1], indices@[3 * t + 2]],
        decreases len - i,
    {
        let triple = [indices[i], indices[i + 1], indices[i + 2]];
        assert(triple@ =~= seq![indices@[i as int], indices@[i + 1], indices@[i + 2]]);
        triples.push(triple);
        i = i + 3;
    }
    triples
}

} // verus!
