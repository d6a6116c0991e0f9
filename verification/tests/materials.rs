use clovers::materials::{
    position_by_name, sample_texture_raw, shared_material_index, DiffuseLight, ImageFormat, Isotropic,
    Lambertian, MaterialInit, MaterialType, SharedMaterial, TextureData,
};
use clovers::pdf::{CosinePDF, SpherePDF, ZeroPDF, ONB};
use clovers::bvh::BvhAlgorithm;

fn library() -> Vec<SharedMaterial<u32>> {
    vec![
        SharedMaterial { name: "glass".to_string(), material: 1 },
        SharedMaterial { name: String::new(), material: 2 },
        SharedMaterial { name: "glass".to_string(), material: 3 },
        SharedMaterial { name: "metal".to_string(), material: 4 },
    ]
}

#[test]
fn shared_material_by_name() {
    let materials = library();
    assert_eq!(shared_material_index(&materials, &"glass".to_string()), Some(0));
    assert_eq!(shared_material_index(&materials, &"metal".to_string()), Some(3));
}

#[test]
fn shared_material_falls_back_to_default() {
    let materials = library();
    assert_eq!(shared_material_index(&materials, &"wood".to_string()), Some(1));
    assert_eq!(position_by_name(&materials, &"wood".to_string()), None);
    let no_default = vec![SharedMaterial { name: "a".to_string(), material: 0u32 }];
    assert_eq!(shared_material_index(&no_default, &"b".to_string()), None);
}

#[test]
fn material_constructors_keep_texture() {
    assert_eq!(*Lambertian::new(5u8).albedo(), 5);
    assert_eq!(*Isotropic::new(6u8).albedo(), 6);
    assert_eq!(*DiffuseLight::new(7u8).emission(), 7);
    let init: MaterialInit<u8> = MaterialInit::Shared("x".to_string());
    assert!(matches!(init, MaterialInit::Shared(_)));
    assert_eq!(MaterialType::Diffuse, MaterialType::Diffuse);
    let _ = SpherePDF::new();
    let _ = ZeroPDF::new();
    let _ = ZeroPDF::default();
}

#[test]
fn defaults() {
    assert_eq!(BvhAlgorithm::default(), BvhAlgorithm::LongestAxis);
    match MaterialInit::<u8>::default() {
        MaterialInit::Shared(name) => assert!(name.is_empty()),
        MaterialInit::Owned(_) => panic!("default material init should be shared"),
    }
}

#[test]
fn cosine_pdf_keeps_basis() {
    let pdf = CosinePDF::new(ONB { u: 1u8, v: 2u8, w: 3u8 });
    assert_eq!((pdf.basis().u, pdf.basis().v, pdf.basis().w), (1, 2, 3));
}

#[test]
fn sample_rgb_texture() {
    let texture = TextureData {
        pixels: (0u8..18).collect(),
        format: ImageFormat::R8G8B8,
        width: 3,
        height: 2,
    };
    assert_eq!(sample_texture_raw(&texture, 0, 0), (0, 1, 2));
    assert_eq!(sample_texture_raw(&texture, 2, 0), (6, 7, 8));
    assert_eq!(sample_texture_raw(&texture, 1, 1), (12, 13, 14));
}

#[test]
fn sample_rgba_texture() {
    let texture = TextureData {
        pixels: (0u8..16).collect(),
        format: ImageFormat::R8G8B8A8,
        width: 2,
        height: 2,
    };
    assert_eq!(sample_texture_raw(&texture, 1, 0), (4, 5, 6));
    assert_eq!(sample_texture_raw(&texture, 1, 1), (12, 13, 14));
}
