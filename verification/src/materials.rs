//! Materials enable different behaviors of light on objects.
//!
//! The optical behaviour of a material is floating-point work done by the
//! renderer; this module holds the materials' structure, the lookup of shared
//! materials by name, and raw texel access for image textures.
use vstd::prelude::*;

verus! {

/// Enum for the types of materials: Diffuse and Specular (i.e., matte and shiny)
#[derive(Debug, Clone, Copy, PartialEq, Eq)]
pub enum MaterialType {
    /// A matte material that does not reflect rays
    Diffuse,
    /// A shiny material that reflects some rays
    Specular,
}

/// Lambertian material. This is the default material with a smooth, matte
/// surface, coloured by its albedo texture `T`.
#[derive(Clone, Debug)]
pub struct Lambertian<T> {
    albedo: T,
}

impl<T> Lambertian<T> {
    /// The albedo texture of the material.
    pub closed spec fn spec_albedo(&self) -> T {
        self.albedo
    }

    /// Creates a new instance of the [Lambertian] material with an albedo of the given texture.
    pub fn new(albedo: T) -> (m: Self)
        ensures
            m.spec_albedo() == albedo,
    {
        Lambertian { albedo }
    }

    /// The albedo texture of the material.
    pub fn albedo(&self) -> (t: &T)
        ensures
            *t == self.spec_albedo(),
    {
        &self.albedo
    }
}

/// Isotropic material, scattering uniformly in all directions; used inside
/// constant media. Coloured by its albedo texture `T`.
#[derive(Clone, Debug)]
pub struct Isotropic<T> {
    albedo: T,
}

impl<T> Isotropic<T> {
    /// The albedo texture of the material.
    pub closed spec fn spec_albedo(&self) -> T {
        self.albedo
    }

    /// Creates a new [Isotropic] material with an albedo of the given texture.
    pub fn new(emission: T) -> (m: Self)
        ensures
            m.spec_albedo() == emission,
    {
        Isotropic { albedo: emission }
    }

    /// The albedo texture of the material.
    pub fn albedo(&self) -> (t: &T)
        ensures
            *t == self.spec_albedo(),
    {
        &self.albedo
    }
}

/// A diffuse light material. On this material, rays never scatter - the
/// material always emits light based on its texture `T`.
#[derive(Clone, Debug)]
pub struct DiffuseLight<T> {
    emit: T,
}

impl<T> DiffuseLight<T> {
    /// The emission texture of the material.
    pub closed spec fn spec_emit(&self) -> T {
        self.emit
    }

    /// Creates a new [`DiffuseLight`] material with the given texture.
    pub fn new(emission: T) -> (m: Self)
        ensures
            m.spec_emit() == emission,
    {
        DiffuseLight { emit: emission }
    }

    /// The emission texture of the material.
    pub fn emission(&self) -> (t: &T)
        ensures
            *t == self.spec_emit(),
    {
        &self.emit
    }
}

/// Initialization structure for a material `M`. Either contains a material
/// by itself, or a `name` to be found in a shared material list.
#[derive(Debug, Clone)]
pub enum MaterialInit<M> {
    /// Name of the shared material
    Shared(String),
    /// Owned material structure
    Owned(M),
}

impl<M> Default for MaterialInit<M> {
    fn default() -> (m: Self)
        ensures
            m matches MaterialInit::Shared(name) && name@ == Seq::<char>::empty(),
    {
        MaterialInit::Shared(String::new())
    }
}

/// A material that can be referred to by name for reuse across multiple objects
#[derive(Debug, Clone)]
pub struct SharedMaterial<M> {
    /// Name of the shared material
    pub name: String,
    /// The shared material itself
    pub material: M,
}

/// Whether the material at index `i` is the first one named `name`.
pub open spec fn first_named<M>(materials: Seq<SharedMaterial<M>>, name: Seq<char>, i: int) -> bool {
    &&& 0 <= i < materials.len()
    &&& materials[i].name@ == name
    &&& forall|j: int| 0 <= j < i ==> (#[trigger] materials[j]).name@ != name
}

/// Whether some material of the list is named `name`.
pub open spec fn has_name<M>(materials: Seq<SharedMaterial<M>>, name: Seq<char>) -> bool {
    exists|j: int| 0 <= j < materials.len() && (#[trigger] materials[j]).name@ == name
}

/// The position of the first material named `name`, if any.
pub fn position_by_name<M>(materials: &Vec<SharedMaterial<M>>, name: &String) -> (r: Option<usize>)
    ensures
        r matches Some(i) ==> first_named(materials@, name@, i as int),
        r is None <==> !has_name(materials@, name@),
{
    let mut i: usize = 0;
    while i < materials.len()
        invariant
            i <= materials.len(),
            forall|j: int| 0 <= j < i ==> (#[trigger] materials@[j]).name@ != name@,
        decreases materials.len() - i,
    {
        if materials[i].name == *name {
            return Some(i);
        }
        i = i + 1;
    }
    None
}

/// Finds a shared material by name. If the name is not found, the default
/// material (the first one with an empty name) is used instead; `None` if
/// there is no default material either.
pub fn shared_material_index<M>(materials: &Vec<SharedMaterial<M>>, name: &String) -> (r: Option<usize>)
    ensures
        has_name(materials@, name@) ==> (r matches Some(i) && first_named(materials@, name@, i as int)),
        !has_name(materials@, name@) ==> (match r {
            Some(i) => first_named(materials@, Seq::<char>::empty(), i as int),
            None => !has_name(materials@, Seq::<char>::empty()),
        }),
{
    match position_by_name(materials, name) {
        Some(i) => Some(i),
        None => {
            let empty = String::new();
            position_by_name(materials, &empty)
        },
    }
}

/// Pixel formats of decoded image textures.
#[derive(Debug, Clone, Copy, PartialEq, Eq)]
pub enum ImageFormat {
    R8,
    R8G8,
    R8G8B8,
    R8G8B8A8,
    R16,
    R16G16,
    R16G16B16,
    R16G16B16A16,
    R32G32B32FLOAT,
    R32G32B32A32FLOAT,
}

/// A decoded image texture: its raw pixel bytes, row by row.
#[derive(Debug, Clone)]
pub struct TextureData {
    /// The pixel bytes
    pub pixels: Vec<u8>,
    /// The layout of one pixel
    pub format: ImageFormat,
    /// Width in pixels
    pub width: u32,
    /// Height in pixels
    pub height: u32,
}

/// The number of bytes per pixel of the formats that texel sampling supports:
/// three for `R8G8B8`, four for `R8G8B8A8`.
pub open spec fn sampled_bytes_per_pixel(format: ImageFormat) -> Option<nat> {
    match format {
        ImageFormat::R8G8B8 => Some(3),
        ImageFormat::R8G8B8A8 => Some(4),
        _ => None,
    }
}

/// The index of the first byte of pixel `(x, y)` in a texture of the given
/// width, with `bytes` bytes per pixel.
pub open spec fn texel_index(bytes: nat, width: nat, x: nat, y: nat) -> nat {
    bytes * (x + width * y)
}

/// Whether the raw red, green and blue bytes of pixel `(x, y)` can be read from the texture.
pub open spec fn texel_readable(texture: TextureData, x: nat, y: nat) -> bool {
    &&& sampled_bytes_per_pixel(texture.format) is Some
    &&& texel_index(sampled_bytes_per_pixel(texture.format).unwrap(), texture.width as nat, x, y) + 2
        < texture.pixels.len()
}

/// Given a texture and pixel space coordinates, returns the raw byte triple `(r,g,b)`
pub fn sample_texture_raw(texture: &TextureData, x: usize, y: usize) -> (rgb: (u8, u8, u8))
    requires
        texel_readable(*texture, x as nat, y as nat),
    ensures
        ({
            let i = texel_index(
                sampled_bytes_per_pixel(texture.format).unwrap(),
                texture.width as nat,
                x as nat,
                y as nat,
            ) as int;
            rgb == (texture.pixels@[i], texture.pixels@[i + 1], texture.pixels@[i + 2])
        }),
{
    let bytes: usize = match texture.format {
        ImageFormat::R8G8B8 => 3,
        _ => 4,
    };
    let width = texture.width as usize;
    proof {
        let w = width as nat;
        let xn = x as nat;
        let yn = y as nat;
        assert(w * yn <= xn + w * yn);
        assert(xn + w * yn <= bytes * (xn + w * yn)) by (nonlinear_arith)
            requires
                bytes >= 1,
        ;
    }
    let index = bytes * (x + width * y);
    let r = texture.pixels[index];
    let g = texture.pixels[index + 1];
    let b = texture.pixels[index + 2];
    (r, g, b)
}

} // verus!
