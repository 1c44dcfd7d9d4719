use rerecast::area::AreaType;
use rerecast::math::{dir_offset, dir_offset_x, dir_offset_z, next, prev};
use rerecast::trimesh::TriMeshTopology;

#[test]
fn direction_offsets() {
    let expected = [(-1, 0), (0, 1), (1, 0), (0, -1)];
    for d in 0..4u8 {
        assert_eq!((dir_offset_x(d), dir_offset_z(d)), expected[d as usize]);
        assert_eq!(dir_offset(expected[d as usize].0 as i32, expected[d as usize].1 as i32), d);
    }
    assert_eq!(dir_offset_x(6), 1);
    assert_eq!(dir_offset_z(5), 1);
}

#[test]
fn cyclic_neighbours() {
    assert_eq!(next(0, 3), 1);
    assert_eq!(next(2, 3), 0);
    assert_eq!(prev(0, 3), 2);
    assert_eq!(prev(2, 3), 1);
}

#[test]
fn extend_offsets_indices() {
    let mut a = TriMeshTopology { vertex_count: 3, indices: vec![(0, 1, 2)], area_types: vec![AreaType(1)] };
    let b = TriMeshTopology { vertex_count: 4, indices: vec![(0, 2, 1), (1, 2, 3)], area_types: vec![AreaType(2), AreaType(3)] };
    a.extend(b);
    assert_eq!(a.vertex_count, 7);
    assert_eq!(a.indices, vec![(0, 1, 2), (3, 5, 4), (4, 5, 6)]);
    assert_eq!(a.area_types, vec![AreaType(1), AreaType(2), AreaType(3)]);
}

#[test]
fn extend_with_empty_mesh() {
    let mut a = TriMeshTopology { vertex_count: 3, indices: vec![(0, 1, 2)], area_types: vec![AreaType(1)] };
    let before = a.clone();
    a.extend(TriMeshTopology { vertex_count: 0, indices: vec![], area_types: vec![] });
    assert_eq!(a, before);
}
