use rerecast::area::AreaType;
use rerecast::compact_heightfield::CompactHeightfield;
use rerecast::detail_mesh::{on_hull, set_tri_flags, Bounds, HeightPatch, SubMesh, RC_UNSET_HEIGHT};
use rerecast::heightfield::{Heightfield, SpanInsertion};
use rerecast::region::RegionId;
use rerecast::poly_mesh::PolygonMesh;
use rerecast::polygon::MeshVertex;
use rerecast::span::SpanBuilder;

fn field() -> CompactHeightfield {
    let mut hf = Heightfield::new(2, 1);
    for (x, max) in [(0u16, 2u16), (1, 3)] {
        let span = SpanBuilder { min: 0, max, area: AreaType(1), next: None }.build();
        hf.add_span(SpanInsertion { x, z: 0, flag_merge_threshold: 0, span }).unwrap();
    }
    CompactHeightfield::from_heightfield(hf, 2, 1).unwrap()
}

fn patch() -> HeightPatch {
    HeightPatch { data: vec![7, 7, 7], xmin: 0, zmin: 0, width: 2, height: 1 }
}

#[test]
fn bounds_extent() {
    let b = Bounds { xmin: 2, xmax: 9, zmin: 4, zmax: 5 };
    assert_eq!((b.width(), b.height()), (7, 1));
    assert_eq!(SubMesh::default().triangle_count, 0);
}

#[test]
fn patch_access() {
    let mut p = patch();
    assert_eq!(p.data_len(), 2);
    *p.data_at_mut(1, 0) = 4;
    assert_eq!(*p.data_at(1, 0), 4);
    assert_eq!(*p.data_at(0, 0), 7);
}

#[test]
fn hull_edges() {
    let hull = vec![0usize, 1, 2, 3];
    assert!(on_hull(0, 1, 4, &hull));
    assert!(on_hull(3, 0, 4, &hull));
    assert!(!on_hull(1, 0, 4, &hull));
    assert!(!on_hull(0, 2, 4, &hull));
    assert!(!on_hull(0, 5, 4, &hull));
    assert!(!on_hull(2, 3, 3, &hull));
}

#[test]
fn triangle_flags_mark_hull_edges() {
    let hull = vec![0usize, 1, 2, 3];
    let mut tris = vec![((0u16, 1u16, 2u16), 99usize), ((0, 2, 3), 0), ((2, 0, 1), 0)];
    set_tri_flags(&mut tris, 4, &hull);
    assert_eq!(tris, vec![((0, 1, 2), 5), ((0, 2, 3), 20), ((2, 0, 1), 20)]);
}

#[test]
fn height_data_of_region_copies_span_heights() {
    let mut chf = field();
    chf.spans[0].region = RegionId { bits: 1 };
    chf.spans[1].region = RegionId { bits: 1 };
    let mut hp = patch();
    let mut queue = Vec::new();
    hp.get_height_data(&chf, &vec![0, 1], 2, &vec![(0, 2, 0), (1, 3, 0)], 0, &mut queue, RegionId { bits: 1 });
    assert_eq!(hp.data, vec![2, 3, 7]);
    assert_eq!((hp.xmin, hp.zmin, hp.width, hp.height), (0, 0, 2, 1));
}

#[test]
fn height_data_without_region_floods_from_seed() {
    let chf = field();
    let mut hp = patch();
    let mut queue = Vec::new();
    hp.get_height_data(&chf, &vec![0, 1], 2, &vec![(0, 2, 0), (1, 3, 0)], 0, &mut queue, RegionId::none());
    assert_eq!(hp.data[2], 7);
    for h in &hp.data[..2] {
        assert!(*h == RC_UNSET_HEIGHT || *h == 2 || *h == 3);
    }
    assert_eq!(hp.data[0], 2);
}

#[test]
fn seed_is_the_span_at_the_polygon_centre() {
    let chf = field();
    let mut hp = patch();
    let mut array = Vec::new();
    hp.seed_array_with_poly_center(&chf, &vec![0, 1], 2, &vec![(0, 2, 0), (1, 3, 0)], 0, &mut array);
    assert_eq!(array, vec![(0, 0, 0)]);
    assert_eq!(hp.data, vec![2, RC_UNSET_HEIGHT, 7]);
}

#[test]
fn detail_bounds_grow_and_clip() {
    const N: u16 = 0xffff;
    let v = |x: u16, z: u16| MeshVertex { x, y: 0, z };
    let mesh = PolygonMesh {
        vertices: vec![v(1, 1), v(1, 3), v(4, 3), v(9, 9), v(8, 2)],
        polygons: vec![0, 1, 2, N, N, N, 2, 3, 4, N, N, N],
        regions: vec![RegionId::none(); 2],
        flags: vec![0; 2],
        areas: vec![AreaType(1); 2],
        max_polygons: 2,
        vertices_per_polygon: 3,
        border_size: 0,
    };
    let (bounds, maxhw, maxhh, nverts) = mesh.detail_bounds(10, 10);
    assert_eq!(bounds, vec![
        Bounds { xmin: 0, xmax: 5, zmin: 0, zmax: 4 },
        Bounds { xmin: 3, xmax: 10, zmin: 1, zmax: 10 },
    ]);
    assert_eq!((maxhw, maxhh, nverts), (7, 9, 6));
}

#[test]
fn height_data_flood_stays_inside_an_exact_patch() {
    let chf = field();
    let mut hp = HeightPatch { data: vec![7, 7], xmin: 0, zmin: 0, width: 2, height: 1 };
    let mut queue = Vec::new();
    hp.get_height_data(&chf, &vec![0, 1], 2, &vec![(0, 2, 0), (1, 3, 0)], 0, &mut queue, RegionId::none());
    assert_eq!(hp.data, vec![2, 3]);
}
