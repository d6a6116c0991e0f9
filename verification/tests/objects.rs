use clovers::objects::{property_to_vec_u32, triangle_corners, triangle_index_triples, Empty, GLTFInit, PlyProperty};

#[test]
fn unsigned_index_lists() {
    assert_eq!(property_to_vec_u32(&PlyProperty::ListUChar(vec![0, 1, 255])), vec![0, 1, 255]);
    assert_eq!(property_to_vec_u32(&PlyProperty::ListUShort(vec![7, 65535])), vec![7, 65535]);
    assert_eq!(property_to_vec_u32(&PlyProperty::ListUInt(vec![4_000_000_000])), vec![4_000_000_000]);
}

#[test]
fn signed_index_lists_use_absolute_values() {
    assert_eq!(property_to_vec_u32(&PlyProperty::ListShort(vec![-3, 4, i16::MIN])), vec![3, 4, 32768]);
    assert_eq!(property_to_vec_u32(&PlyProperty::ListInt(vec![i32::MIN, -1, 2])), vec![2_147_483_648, 1, 2]);
}

#[test]
fn corners_of_a_face() {
    let vertices = vec!['a', 'b', 'c', 'd'];
    assert_eq!(triangle_corners(&vertices, &vec![3, 0, 2]), ['d', 'a', 'c']);
    assert_eq!(triangle_corners(&vertices, &vec![1, 1, 1, 0]), ['b', 'b', 'b']);
}

#[test]
fn index_triples() {
    let triples = triangle_index_triples(&vec![0, 1, 2, 2, 3, 0]);
    assert_eq!(triples, vec![[0, 1, 2], [2, 3, 0]]);
    assert!(triangle_index_triples(&Vec::new()).is_empty());
}

#[test]
fn plain_objects() {
    assert_eq!(Empty::new(), Empty::default());
    let init = GLTFInit { priority: true, path: "scene.gltf".to_string() };
    assert!(init.priority);
}
