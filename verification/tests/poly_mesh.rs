use rerecast::area::AreaType;
use rerecast::poly_mesh::{
    add_vertex, compute_vertex_hash, count_poly_verts, get_poly_merge_value, merge_poly_verts, push_back, push_front,
    InternalPolygonMesh, PolyMergeValue, PolygonMesh, PolygonMeshError, RC_MESH_NULL_IDX, VERTEX_BUCKET_COUNT,
};
use rerecast::polygon::MeshVertex;
use rerecast::region::RegionId;

const N: u16 = RC_MESH_NULL_IDX;

fn mv(x: u16, y: u16, z: u16) -> MeshVertex {
    MeshVertex { x, y, z }
}

fn mesh(polygons: Vec<u16>, npolys: usize, nvp: usize, nvertices: u16) -> InternalPolygonMesh {
    InternalPolygonMesh {
        vertices: vec![MeshVertex::default(); nvertices as usize],
        nvertices,
        polygons,
        npolys,
        regions: vec![RegionId::none(); npolys],
        flags: vec![0; npolys],
        areas: vec![AreaType(1); npolys],
        max_polygons: npolys,
        vertices_per_polygon: nvp,
        border_size: 0,
    }
}

#[test]
fn counts_vertices_up_to_null_index() {
    let p = vec![4, 5, 6, N, 7, 8];
    assert_eq!(count_poly_verts(&p, 0, 4), 3);
    assert_eq!(count_poly_verts(&p, 0, 2), 2);
    assert_eq!(count_poly_verts(&p, 4, 2), 2);
    assert_eq!(count_poly_verts(&p, 1, 5), 2);
    assert_eq!(count_poly_verts(&p, 3, 4), 0);
}

#[test]
fn push_back_and_front() {
    let mut v = vec![1, 2, 3, 0, 0];
    let mut n = 3usize;
    push_back(4, &mut v, &mut n);
    assert_eq!((v.clone(), n), (vec![1, 2, 3, 4, 0], 4));
    push_front(9, &mut v, &mut n);
    assert_eq!((v, n), (vec![9, 1, 2, 3, 4], 5));
}

#[test]
fn vertex_hash_exact_values() {
    assert_eq!(compute_vertex_hash(mv(1, 2, 3)), 3362);
    assert_eq!(compute_vertex_hash(mv(0, 0, 0)), 0);
    assert_eq!(compute_vertex_hash(mv(100, 7, 200)), 43);
    assert!(compute_vertex_hash(mv(65535, 65535, 65535)) < VERTEX_BUCKET_COUNT);
}

#[test]
fn add_vertex_welds_close_heights() {
    let mut verts = vec![MeshVertex::default(); 8];
    let mut first = vec![None; VERTEX_BUCKET_COUNT];
    let mut next = vec![None; 8];
    let mut n: u16 = 0;
    assert_eq!(add_vertex(mv(1, 2, 3), &mut verts, &mut first, &mut next, &mut n), 0);
    assert_eq!(add_vertex(mv(1, 3, 3), &mut verts, &mut first, &mut next, &mut n), 0);
    assert_eq!(add_vertex(mv(1, 6, 3), &mut verts, &mut first, &mut next, &mut n), 1);
    assert_eq!(add_vertex(mv(1, 5, 3), &mut verts, &mut first, &mut next, &mut n), 1);
    assert_eq!(add_vertex(mv(2, 2, 3), &mut verts, &mut first, &mut next, &mut n), 2);
    assert_eq!(n, 3);
    assert_eq!(&verts[..3], &[mv(1, 2, 3), mv(1, 6, 3), mv(2, 2, 3)]);
    // Adding an existing vertex again gives back its index and adds nothing.
    assert_eq!(add_vertex(mv(2, 2, 3), &mut verts, &mut first, &mut next, &mut n), 2);
    assert_eq!(n, 3);
}

fn square_verts() -> Vec<MeshVertex> {
    vec![mv(0, 0, 0), mv(0, 0, 10), mv(10, 0, 10), mv(10, 0, 0)]
}

#[test]
fn merge_value_of_two_triangles() {
    let polys = vec![0, 1, 2, N, 0, 2, 3, N, N, N, N, N];
    let value = get_poly_merge_value(&polys, 0, 4, &square_verts(), 4);
    assert_eq!(value, Some(PolyMergeValue { length_squared: 200, edge_a: 2, edge_b: 0 }));
}

#[test]
fn merge_value_none_when_too_big_or_disjoint() {
    let polys = vec![0, 1, 2, N, 0, 2, 3, N];
    assert_eq!(get_poly_merge_value(&polys, 0, 4, &square_verts(), 3), None);
    let disjoint = vec![0, 1, 2, N, 3, 3, 3, N];
    assert_eq!(get_poly_merge_value(&disjoint, 0, 4, &square_verts(), 4), None);
}

#[test]
fn merge_poly_verts_joins_along_edge() {
    let mut polys = vec![0, 1, 2, N, 0, 2, 3, N, N, N, N, N];
    merge_poly_verts(&mut polys, 0, 4, 2, 0, 8, 4);
    assert_eq!(polys, vec![0, 1, 2, 3, 0, 2, 3, N, 0, 1, 2, 3]);
}

#[test]
fn merge_poly_verts_pads_with_null_index() {
    let mut polys = vec![0, 1, 2, N, N, 0, 2, 3, N, N, N, N, N, N, N];
    merge_poly_verts(&mut polys, 0, 5, 2, 0, 10, 5);
    assert_eq!(&polys[0..5], &[0, 1, 2, 3, N]);
    assert_eq!(&polys[10..15], &[0, 1, 2, 3, N]);
}

#[test]
fn merge_poly_verts_merges_triangles_into_quad() {
    let mut polys = vec![0, 1, 2, N, N, N, 2, 1, 3, N, N, N, N, N, N, N, N, N];
    merge_poly_verts(&mut polys, 0, 6, 1, 0, 12, 6);
    assert_eq!(&polys[0..6], &[2, 0, 1, 3, N, N]);
    assert_eq!(&polys[6..12], &[2, 1, 3, N, N, N]);
}

#[test]
fn adjacency_of_two_triangles() {
    let mut m = mesh(vec![0, 1, 2, N, N, N, 0, 2, 3, N, N, N], 2, 3, 4);
    assert_eq!(m.build_mesh_adjacency(), Ok(()));
    assert_eq!(m.polygons, vec![0, 1, 2, N, N, 1, 0, 2, 3, 0, N, N]);
}

#[test]
fn adjacency_of_a_fan_links_every_shared_edge() {
    let polys = vec![0, 1, 4, N, N, N, 1, 2, 4, N, N, N, 2, 3, 4, N, N, N, 3, 0, 4, N, N, N];
    let mut m = mesh(polys, 4, 3, 5);
    assert_eq!(m.build_mesh_adjacency(), Ok(()));
    assert_eq!(
        m.polygons,
        vec![0, 1, 4, N, 1, 3, 1, 2, 4, N, 2, 0, 2, 3, 4, N, 3, 1, 3, 0, 4, N, 0, 2]
    );
}

#[test]
fn adjacency_leaves_lone_polygon_alone() {
    let mut m = mesh(vec![0, 1, 2, N, N, N], 1, 3, 3);
    assert_eq!(m.build_mesh_adjacency(), Ok(()));
    assert_eq!(m.polygons, vec![0, 1, 2, N, N, N]);
}

#[test]
fn cannot_remove_triangle_tip() {
    let m = mesh(vec![0, 1, 2, N, N, N], 1, 3, 3);
    assert!(!m.can_remove_vertex(0));
}

#[test]
fn can_remove_closed_fan_centre() {
    // Every edge at the centre is shared by two triangles, so none is open.
    let polys = vec![0, 1, 4, N, N, N, 1, 2, 4, N, N, N, 2, 3, 4, N, N, N, 3, 0, 4, N, N, N];
    let m = mesh(polys, 4, 3, 5);
    assert!(m.can_remove_vertex(4));
}

#[test]
fn cannot_remove_vertex_of_two_separate_quads() {
    // The quads only meet at vertex 4: all four of its edges are open.
    let polys = vec![0, 1, 2, 4, N, N, N, N, 5, 6, 7, 4, N, N, N, N];
    let m = mesh(polys, 2, 4, 8);
    assert!(!m.can_remove_vertex(4));
}

#[test]
fn can_remove_vertex_shared_by_two_quads() {
    let polys = vec![0, 1, 2, 7, N, N, N, N, 0, 5, 6, 7, N, N, N, N];
    let m = mesh(polys, 2, 4, 8);
    assert!(m.can_remove_vertex(7));
}

#[test]
fn finished_mesh_keeps_used_parts() {
    let mut m = mesh(vec![0, 1, 2, N, N, N, 0, 2, 3, N, N, N], 2, 3, 4);
    m.vertices = square_verts();
    m.nvertices = 3;
    let pm = PolygonMesh::from_internal(m);
    assert_eq!(pm.vertices, vec![mv(0, 0, 0), mv(0, 0, 10), mv(10, 0, 10)]);
    assert_eq!(pm.polygons, vec![0, 1]);
    assert_eq!(pm.vertices_per_polygon, 3);
    assert_eq!(pm.polygon_count(), 0);
}

#[test]
fn polygon_count_divides_by_slots() {
    let pm = PolygonMesh {
        vertices: vec![],
        polygons: vec![N; 12],
        regions: vec![],
        flags: vec![],
        areas: vec![],
        max_polygons: 2,
        vertices_per_polygon: 3,
        border_size: 0,
    };
    assert_eq!(pm.polygon_count(), 2);
}

#[test]
fn error_variants_compare() {
    let e = PolygonMeshError::TooManyVertices { actual: 70000, max: 65535 };
    assert_ne!(e, PolygonMeshError::InvalidContour);
    assert_eq!(
        PolygonMeshError::TooManyPolygons { actual: 3, max: 2 },
        PolygonMeshError::TooManyPolygons { actual: 3, max: 2 }
    );
}

/// Two triangles around vertex 0 and an unrelated triangle, with room for
/// `max_tris` polygons.
fn fan_mesh(max_tris: usize) -> InternalPolygonMesh {
    let mut polygons = vec![1, 2, 0, N, N, N, 2, 3, 0, N, N, N, 5, 6, 7, N, N, N];
    polygons.resize(max_tris.max(3) * 6, N);
    InternalPolygonMesh {
        vertices: vec![
            mv(5, 0, 0),
            mv(0, 0, 0),
            mv(0, 0, 10),
            mv(10, 0, 10),
            mv(20, 0, 0),
            mv(20, 0, 5),
            mv(25, 0, 5),
            mv(25, 0, 0),
        ],
        nvertices: 8,
        polygons,
        npolys: 3,
        regions: vec![RegionId::from_bits_truncate(1), RegionId::from_bits_truncate(1), RegionId::from_bits_truncate(2), RegionId::none()],
        flags: vec![0; 4],
        areas: vec![AreaType(1), AreaType(1), AreaType(3), AreaType(0)],
        max_polygons: max_tris,
        vertices_per_polygon: 3,
        border_size: 0,
    }
}

#[test]
fn remove_vertex_refills_the_hole_and_shifts_indices() {
    let mut m = fan_mesh(4);
    assert_eq!(m.remove_vertex(0, 4), Ok(()));
    assert_eq!(m.nvertices, 7);
    assert_eq!(&m.vertices[..7], &[mv(0, 0, 0), mv(0, 0, 10), mv(10, 0, 10), mv(20, 0, 0), mv(20, 0, 5), mv(25, 0, 5), mv(25, 0, 0)]);
    assert_eq!(m.npolys, 2);
    // The untouched triangle moves to the front, its indices one lower;
    // the hole (vertices 0, 1, 2 after the shift) follows.
    assert_eq!(&m.polygons[..12], &[4, 5, 6, N, N, N, 0, 1, 2, N, N, N]);
    assert_eq!(&m.regions[..2], &[RegionId::from_bits_truncate(2), RegionId::from_bits_truncate(1)]);
    assert_eq!(&m.areas[..2], &[AreaType(3), AreaType(1)]);
}

#[test]
fn remove_vertex_hole_of_mixed_regions_has_no_region() {
    let mut m = fan_mesh(4);
    m.regions[1] = RegionId::from_bits_truncate(9);
    assert_eq!(m.remove_vertex(0, 4), Ok(()));
    assert_eq!(m.npolys, 2);
    assert_eq!(m.regions[1], RegionId::none());
    assert_eq!(m.areas[1], AreaType(1));
}

#[test]
fn remove_unused_vertex_only_shifts_indices() {
    let mut m = fan_mesh(4);
    assert_eq!(m.remove_vertex(4, 4), Ok(()));
    assert_eq!(m.nvertices, 7);
    assert_eq!(m.npolys, 3);
    assert_eq!(&m.polygons[..18], &[1, 2, 0, N, N, N, 2, 3, 0, N, N, N, 4, 5, 6, N, N, N]);
}

fn contour(vertices: Vec<(MeshVertex, usize)>, region: u16, area: u8) -> rerecast::contours::Contour {
    rerecast::contours::Contour {
        vertices,
        raw_vertices: vec![],
        region: RegionId::from_bits_truncate(region),
        area: AreaType(area),
    }
}

fn contour_set(contours: Vec<rerecast::contours::Contour>) -> rerecast::contours::ContourSet {
    rerecast::contours::ContourSet { contours, width: 20, height: 20, border_size: 0 }
}

#[test]
fn into_polygon_mesh_reports_too_many_vertices() {
    let cs = contour_set(vec![contour(vec![(mv(1, 0, 1), 0); 0x10000], 1, 1)]);
    assert_eq!(
        cs.into_polygon_mesh(6).err(),
        Some(PolygonMeshError::TooManyVertices { actual: 0x10000, max: 0xffff })
    );
}

#[test]
fn into_polygon_mesh_of_a_triangle() {
    let tri = vec![(mv(0, 0, 0), 0), (mv(0, 0, 10), 0), (mv(10, 0, 10), 0)];
    let cs = contour_set(vec![contour(tri, 1, 7), contour(vec![(mv(3, 0, 3), 0)], 2, 2)]);
    let m = cs.into_polygon_mesh(6).unwrap();
    assert_eq!(m.vertices, vec![mv(0, 0, 0), mv(0, 0, 10), mv(10, 0, 10)]);
    assert_eq!(m.polygons, vec![0, 1, 2, N, N, N, N, N, N, N, N, N]);
    assert_eq!(m.regions, vec![RegionId::from_bits_truncate(1)]);
    assert_eq!(m.areas, vec![AreaType(7)]);
    assert_eq!(m.flags, vec![0]);
    assert_eq!(m.max_polygons, 1);
    assert_eq!(m.vertices_per_polygon, 6);
}

#[test]
fn into_polygon_mesh_welds_shared_vertices() {
    // Two triangles sharing an edge; the shared corners are welded (one
    // of them 2 units higher in the second contour).
    let a = vec![(mv(0, 0, 0), 0), (mv(0, 0, 10), 0), (mv(10, 0, 10), 0)];
    let b = vec![(mv(0, 0, 0), 0), (mv(10, 2, 10), 0), (mv(10, 0, 0), 0)];
    let cs = contour_set(vec![contour(a, 1, 1), contour(b, 1, 1)]);
    let m = cs.into_polygon_mesh(3).unwrap();
    assert_eq!(m.vertices, vec![mv(0, 0, 0), mv(0, 0, 10), mv(10, 0, 10), mv(10, 0, 0)]);
    assert_eq!(m.polygons.len(), 2 * 3 * 2);
    assert_eq!(&m.polygons[0..3], &[0, 1, 2]);
    assert_eq!(&m.polygons[6..9], &[0, 2, 3]);
    // The shared edge 0-2 links the two polygons.
    assert_eq!(m.polygons[3 + 2], 1);
    assert_eq!(m.polygons[9], 0);
}

#[test]
fn into_polygon_mesh_of_no_contours() {
    let m = contour_set(vec![]).into_polygon_mesh(6).unwrap();
    assert!(m.vertices.is_empty());
    assert!(m.polygons.is_empty());
    assert!(m.regions.is_empty());
    assert_eq!(m.max_polygons, 0);
}

#[test]
fn into_polygon_mesh_merges_a_square_into_one_polygon() {
    let quad = vec![(mv(0, 0, 0), 0), (mv(0, 0, 10), 0), (mv(10, 0, 10), 0), (mv(10, 0, 0), 0)];
    let m = contour_set(vec![contour(quad, 3, 1)]).into_polygon_mesh(6).unwrap();
    assert_eq!(m.vertices.len(), 4);
    assert_eq!(m.polygons, vec![0, 1, 2, 3, N, N, N, N, N, N, N, N]);
    assert_eq!(m.regions, vec![RegionId::from_bits_truncate(3), RegionId::none()]);
    assert_eq!(m.flags, vec![0]);
    assert_eq!(m.max_polygons, 2);
}

#[test]
fn into_polygon_mesh_keeps_triangles_with_three_slots() {
    let quad = vec![(mv(0, 0, 0), 0), (mv(0, 0, 10), 0), (mv(10, 0, 10), 0), (mv(10, 0, 0), 0)];
    let m = contour_set(vec![contour(quad, 3, 1)]).into_polygon_mesh(3).unwrap();
    assert_eq!(m.polygons, vec![0, 1, 2, N, N, 1, 0, 2, 3, 0, N, N]);
}
