use rerecast::poly_mesh::PolygonMeshError;
use rerecast::polygon::{
    area2, between, collinear, intersect, intersect_prop, is_left, is_left_on, left, left_on, uleft, vequal, MeshVertex,
};
use rerecast::triangulation::{triangulate, CAN_REMOVE, INDEX_MASK};

fn v(x: u16, z: u16) -> MeshVertex {
    MeshVertex { x, y: 0, z }
}

#[test]
fn area2_exact_values() {
    assert_eq!(area2(v(0, 0), v(0, 10), v(10, 10)), -100);
    assert_eq!(area2(v(0, 0), v(10, 10), v(0, 10)), 100);
    assert_eq!(area2(v(0, 0), v(5, 5), v(10, 10)), 0);
}

#[test]
fn area2_is_cyclic_and_flips_on_swap() {
    let (a, b, c) = (v(3, 1), v(7, 9), v(2, 6));
    assert_eq!(area2(a, b, c), area2(b, c, a));
    assert_eq!(area2(a, b, c), area2(c, a, b));
    assert_eq!(area2(a, b, c), -area2(b, a, c));
}

#[test]
fn orientation_predicates() {
    let (a, b) = (v(0, 0), v(0, 10));
    assert!(left(a, b, v(10, 10)));
    assert!(is_left(a, b, v(10, 10)));
    assert!(uleft(a, b, v(10, 10)));
    assert!(!left(a, b, v(0, 5)));
    assert!(left_on(a, b, v(0, 5)));
    assert!(is_left_on(a, b, v(0, 20)));
    assert!(collinear(a, b, v(0, 20)));
    assert!(!collinear(a, b, v(1, 20)));
}

#[test]
fn between_and_intersections() {
    let (a, b) = (v(0, 0), v(10, 0));
    assert!(between(a, b, v(5, 0)));
    assert!(!between(a, b, v(15, 0)));
    assert!(!between(a, b, v(5, 1)));
    assert!(between(v(0, 0), v(0, 10), v(0, 3)));
    assert!(intersect_prop(v(0, 0), v(10, 10), v(0, 10), v(10, 0)));
    assert!(!intersect_prop(v(0, 0), v(10, 0), v(5, 0), v(5, 10)));
    assert!(intersect(v(0, 0), v(10, 0), v(5, 0), v(5, 10)));
    assert!(!intersect(v(0, 0), v(10, 0), v(0, 5), v(10, 5)));
    assert_eq!(
        intersect(v(0, 0), v(10, 10), v(0, 10), v(10, 0)),
        intersect(v(0, 10), v(10, 0), v(0, 0), v(10, 10))
    );
    assert!(vequal(MeshVertex { x: 1, y: 5, z: 2 }, MeshVertex { x: 1, y: 9, z: 2 }));
    assert!(!vequal(v(1, 2), v(2, 1)));
}

#[test]
fn triangulate_triangle() {
    let verts = vec![(v(0, 0), 0usize), (v(0, 10), 0), (v(10, 10), 0)];
    let mut indices: Vec<usize> = vec![0, 1, 2];
    let mut tris = vec![(9u16, 9u16, 9u16)];
    assert_eq!(triangulate(&verts, &mut indices, &mut tris), Ok(1));
    assert_eq!(tris, vec![(0, 1, 2)]);
}

#[test]
fn triangulate_square_clips_first_shortest_ear() {
    let verts = vec![(v(0, 0), 0usize), (v(0, 10), 0), (v(10, 10), 0), (v(10, 0), 0)];
    let mut indices: Vec<usize> = vec![0, 1, 2, 3];
    let mut tris = vec![(9u16, 9u16, 9u16); 3];
    assert_eq!(triangulate(&verts, &mut indices, &mut tris), Ok(2));
    // The first ear is clipped at vertex 1; its corners lose their flags.
    assert_eq!(tris[0], (0, 1, 2));
    assert_eq!(tris[1], (0, 2, 3));
    assert_eq!(tris[2], (9, 9, 9));
    assert_eq!(indices.len(), 4);
}

#[test]
fn triangulate_pentagon_counts_triangles() {
    let verts = vec![(v(0, 0), 0usize), (v(0, 10), 0), (v(5, 15), 0), (v(10, 10), 0), (v(10, 0), 0)];
    let mut indices: Vec<usize> = (0..5).collect();
    let mut tris = vec![(9u16, 9u16, 9u16); 3];
    assert_eq!(triangulate(&verts, &mut indices, &mut tris), Ok(3));
    for t in &tris {
        assert!(t.0 != t.1 && t.1 != t.2 && t.0 != t.2);
        assert!(t.0 < 5 && t.1 < 5 && t.2 < 5);
    }
    let last = tris[2];
    assert!(last.0 < last.1 && last.1 < last.2 && last.2 < 5);
}

#[test]
fn triangulate_rejects_clockwise_square() {
    let verts = vec![(v(0, 0), 0usize), (v(10, 0), 0), (v(10, 10), 0), (v(0, 10), 0)];
    let mut indices: Vec<usize> = vec![0, 1, 2, 3];
    let mut tris = vec![(0u16, 0u16, 0u16); 2];
    assert_eq!(triangulate(&verts, &mut indices, &mut tris), Err(PolygonMeshError::InvalidContour));
}

#[test]
fn index_flags() {
    assert_eq!(CAN_REMOVE & INDEX_MASK, 0);
    assert_eq!((5 | CAN_REMOVE) & INDEX_MASK, 5);
    assert_eq!(CAN_REMOVE as u16, 0);
}
