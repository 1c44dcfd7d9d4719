use rerecast::area::AreaType;
use rerecast::compact_cell::CompactCell;
use rerecast::compact_heightfield::{CompactHeightfield, CompactHeightfieldError};
use rerecast::compact_span::CompactSpan;
use rerecast::contours::{BuildContoursFlags, Contour, RegionVertexId};
use rerecast::heightfield::{Heightfield, SpanInsertion};
use rerecast::region::RegionId;
use rerecast::span::SpanBuilder;

/// Two neighbouring walkable columns, floors at 2 and 3, and one unwalkable
/// column.
fn field() -> CompactHeightfield {
    let mut hf = Heightfield::new(3, 1);
    for (x, max, area) in [(0u16, 2u16, 1u8), (1, 3, 1), (2, 3, 0)] {
        let span = SpanBuilder { min: 0, max, area: AreaType(area), next: None }.build();
        hf.add_span(SpanInsertion { x, z: 0, flag_merge_threshold: 0, span }).unwrap();
    }
    CompactHeightfield::from_heightfield(hf, 2, 1).unwrap()
}

#[test]
fn compact_field_keeps_walkable_spans() {
    let chf = field();
    assert_eq!((chf.width, chf.height), (3, 1));
    assert_eq!((chf.walkable_height, chf.walkable_climb), (2, 1));
    assert_eq!(chf.border_size, 0);
    assert_eq!(chf.cells, vec![
        CompactCell { index: 0, count: 1 },
        CompactCell { index: 1, count: 1 },
        CompactCell { index: 2, count: 0 },
    ]);
    assert_eq!(chf.spans.len(), 2);
    assert_eq!(chf.spans[0].y, 2);
    assert_eq!(chf.spans[1].y, 3);
    assert_eq!(chf.spans[0].height(), 255);
    assert_eq!(chf.areas, vec![AreaType(1), AreaType(1)]);
    assert!(chf.dist.is_empty());
}

#[test]
fn compact_field_links_climbable_neighbours() {
    let chf = field();
    assert_eq!(chf.spans[0].con(2), Some(0));
    assert_eq!(chf.spans[1].con(0), Some(0));
    assert_eq!(chf.spans[0].con(0), None);
    assert_eq!(chf.spans[0].con(1), None);
    assert_eq!(chf.spans[1].con(2), None);
    assert_eq!(chf.spans[1].con(3), None);
}

#[test]
fn compact_field_does_not_link_steep_neighbours() {
    let mut hf = Heightfield::new(2, 1);
    for (x, max) in [(0u16, 2u16), (1, 6)] {
        let span = SpanBuilder { min: 0, max, area: AreaType(1), next: None }.build();
        hf.add_span(SpanInsertion { x, z: 0, flag_merge_threshold: 0, span }).unwrap();
    }
    let chf = CompactHeightfield::from_heightfield(hf, 2, 1).unwrap();
    assert_eq!(chf.spans[0].con(2), None);
    assert_eq!(chf.spans[1].con(0), None);
}

#[test]
fn compact_field_cell_access() {
    let mut chf = field();
    assert_eq!(chf.column_index(2, 0), 2);
    assert_eq!(chf.get_cell_at(1, 0), Some(&CompactCell { index: 1, count: 1 }));
    assert_eq!(chf.get_cell_at(0, 1), None);
    assert_eq!(*chf.cell_at(0, 0), CompactCell { index: 0, count: 1 });
    chf.cell_at_mut(2, 0).set_index(2);
    chf.get_cell_at_mut(2, 0).unwrap().set_count(0);
    assert!(chf.get_cell_at_mut(3, 0).is_none());
    assert_eq!(*chf.cell_at(2, 0), CompactCell { index: 2, count: 0 });
}

#[test]
fn compact_cell_accessors() {
    let mut c = CompactCell::default();
    c.set_index(7);
    c.inc_count();
    c.inc_count();
    assert_eq!((c.index(), c.count()), (7, 2));
}

#[test]
fn compact_span_connection_round_trip() {
    let mut s = CompactSpan::default();
    s.set_height(40);
    for dir in 0..4u8 {
        s.set_con(dir, None);
    }
    s.set_con(1, Some(5));
    assert_eq!(s.con(1), Some(5));
    assert_eq!(s.con(0), None);
    assert_eq!(s.con(3), None);
    assert_eq!(s.height(), 40);
    s.set_con(1, None);
    assert_eq!(s.con(1), None);
    s.set_con(2, Some(0x45));
    assert_eq!(s.con(2), Some(5));
    assert_eq!(CompactSpan::NOT_CONNECTED, 0x3f);
}

/// A flat, walkable field of `w` by `h` columns.
fn flat_field(w: u16, h: u16) -> CompactHeightfield {
    let mut hf = Heightfield::new(w, h);
    for z in 0..h {
        for x in 0..w {
            let span = SpanBuilder { min: 0, max: 2, area: AreaType(1), next: None }.build();
            hf.add_span(SpanInsertion { x, z, flag_merge_threshold: 0, span }).unwrap();
        }
    }
    CompactHeightfield::from_heightfield(hf, 2, 1).unwrap()
}

#[test]
fn erosion_clears_boundary_spans() {
    let mut chf = field();
    chf.erode_walkable_area(0);
    assert_eq!(chf.areas, vec![AreaType(1), AreaType(1)]);
    chf.erode_walkable_area(1);
    assert_eq!(chf.areas, vec![AreaType(0), AreaType(0)]);
}

#[test]
fn erosion_keeps_spans_beyond_the_radius() {
    // The outer ring is the boundary (distance 0), the next ring lies at
    // distance 2 and the centre at distance 4.
    let mut chf = flat_field(5, 5);
    let spans = chf.spans.clone();
    chf.erode_walkable_area(2);
    let mut expected = vec![AreaType(0); 25];
    expected[12] = AreaType(1);
    assert_eq!(chf.areas, expected);
    assert_eq!(chf.spans, spans);

    let mut chf = flat_field(5, 5);
    chf.erode_walkable_area(1);
    let mut expected = vec![AreaType(1); 25];
    for z in 0..5 {
        for x in 0..5 {
            if x == 0 || x == 4 || z == 0 || z == 4 {
                expected[x + z * 5] = AreaType(0);
            }
        }
    }
    assert_eq!(chf.areas, expected);

    let mut chf = flat_field(5, 5);
    chf.erode_walkable_area(3);
    assert_eq!(chf.areas, vec![AreaType(0); 25]);
}

#[test]
fn build_regions_paints_border_strips() {
    let mut chf = field();
    chf.dist = vec![0; chf.spans.len()];
    chf.build_regions(0, 8, 0);
    assert_eq!(chf.border_size, 0);
    assert_eq!(chf.max_region, RegionId { bits: 0 });
    assert_eq!((chf.spans[0].region, chf.spans[1].region), (RegionId { bits: 0 }, RegionId { bits: 0 }));
    chf.build_regions(1, 8, 0);
    assert_eq!(chf.border_size, 1);
    assert_eq!(chf.max_region, RegionId { bits: 4 });
    // The last rows are painted last, over the first rows; in a one-row
    // field both cover every span.
    assert_eq!(chf.spans[0].region, RegionId { bits: 0x8004 });
    assert_eq!(chf.spans[1].region, RegionId { bits: 0x8004 });
    assert_eq!(chf.spans[0].y, 2);
    assert_eq!(chf.areas, vec![AreaType(1), AreaType(1)]);
}

#[test]
fn build_regions_paints_all_four_strips() {
    let mut chf = flat_field(5, 3);
    chf.dist = vec![2; chf.spans.len()];
    chf.max_distance = 2;
    chf.build_regions(1, 8, 0);
    assert_eq!(chf.max_region, RegionId { bits: 4 });
    let expected: [u16; 15] = [
        0x8003, 0x8003, 0x8003, 0x8003, 0x8003,
        0x8001, 0, 0, 0, 0x8002,
        0x8004, 0x8004, 0x8004, 0x8004, 0x8004,
    ];
    for (i, bits) in expected.iter().enumerate() {
        assert_eq!(chf.spans[i].region, RegionId { bits: *bits }, "span {i}");
    }
}

#[test]
fn mark_area_in_footprint_marks_inside_walkable_spans() {
    let mut chf = field();
    chf.mark_area_in_footprint((0, 0, 0), (2, 10, 0), &vec![true, false, true], AreaType(5));
    assert_eq!(chf.areas, vec![AreaType(5), AreaType(1)]);
    // Marking again changes nothing.
    chf.mark_area_in_footprint((0, 0, 0), (2, 10, 0), &vec![true, false, true], AreaType(5));
    assert_eq!(chf.areas, vec![AreaType(5), AreaType(1)]);
}

#[test]
fn mark_area_respects_height_range_and_grid() {
    let mut chf = field();
    chf.mark_area_in_footprint((0, 3, 0), (2, 10, 0), &vec![true, true, true], AreaType(6));
    assert_eq!(chf.areas, vec![AreaType(1), AreaType(6)]);
    chf.mark_area_in_footprint((5, 0, 0), (9, 10, 0), &vec![true, true, true], AreaType(7));
    assert_eq!(chf.areas, vec![AreaType(1), AreaType(6)]);
}

#[test]
fn corner_height_takes_highest_neighbour() {
    let chf = field();
    assert_eq!(chf.get_corner_height(0, 0, 0, 2), (3, false));
    // Direction 1 finds the +x neighbour through the next direction, 2.
    assert_eq!(chf.get_corner_height(0, 0, 0, 1), (3, false));
    assert_eq!(chf.get_corner_height(0, 0, 0, 0), (2, false));
    assert_eq!(chf.get_corner_height(1, 0, 1, 0), (3, false));
}

#[test]
fn build_contours_without_regions() {
    let mut chf = field();
    let set = chf.build_contours(12, BuildContoursFlags::default());
    assert!(set.contours.is_empty());
    assert_eq!((set.width, set.height, set.border_size), (3, 1, 0));
    assert_eq!(Contour::empty().vertices.len(), 0);
}

#[test]
fn contour_flags() {
    let f = BuildContoursFlags::tessellate_solid_wall_edges().union(BuildContoursFlags::tessellate_area_edges());
    assert_eq!(f.bits, 3);
    assert!(f.contains(BuildContoursFlags::tessellate_area_edges()));
    assert!(!BuildContoursFlags::default_flags().contains(BuildContoursFlags::tessellate_area_edges()));
    let v = RegionVertexId::from_region(RegionId::from_bits_truncate(0x1234)).union(RegionVertexId::border_vertex());
    assert_eq!(v.bits, 0x11234);
    assert_eq!(v.region(), RegionId { bits: 0x1234 });
    assert!(v.contains(RegionVertexId::border_vertex()));
    assert!(!v.contains(RegionVertexId::area_border()));
    assert_eq!(RegionVertexId::none().bits, 0);
    assert_eq!(RegionVertexId { bits: v.bits & RegionVertexId::region_mask().bits }.region(), v.region());
}

#[test]
fn region_ids() {
    assert_eq!(RegionId::none().bits(), 0);
    assert_eq!(RegionId::border_region().bits(), 0x8000);
    assert_eq!(RegionId::max_id().bits(), 0xffff);
    let r = RegionId { bits: 3 }.union(RegionId::border_region());
    assert_eq!(r.bits, 0x8003);
    assert!(r.contains(RegionId::border_region()));
    assert!(r.contains(RegionId { bits: 3 }));
    assert!(!RegionId { bits: 3 }.contains(r));
    assert!(r.intersects(RegionId { bits: 1 }));
    assert!(!r.intersects(RegionId { bits: 4 }));
    assert_eq!(RegionId { bits: 1 } + 2, RegionId { bits: 3 });
    let mut id = RegionId { bits: 9 };
    id += 1;
    assert_eq!(id.bits, 10);
    assert_eq!(RegionId::default(), RegionId::none());
    assert_eq!(RegionId::from(5u16), RegionId { bits: 5 });
}

#[test]
fn too_many_layers_is_an_error() {
    let mut hf = Heightfield::new(2, 1);
    let top = SpanBuilder { min: 0, max: 139, area: AreaType(1), next: None }.build();
    hf.add_span(SpanInsertion { x: 0, z: 0, flag_merge_threshold: 0, span: top }).unwrap();
    for i in 0..70u16 {
        let span = SpanBuilder { min: 2 * i, max: 2 * i + 1, area: AreaType(1), next: None }.build();
        hf.add_span(SpanInsertion { x: 1, z: 0, flag_merge_threshold: 0, span }).unwrap();
    }
    let r = CompactHeightfield::from_heightfield(hf, 1, 1);
    assert_eq!(r.err(), Some(CompactHeightfieldError::TooManyLayers { max_layer_index: 62, layer_index: 69 }));
}

#[test]
fn compact_field_links_neighbour_at_last_layer() {
    let mut hf = Heightfield::new(2, 1);
    let span = SpanBuilder { min: 0, max: 621, area: AreaType(1), next: None }.build();
    hf.add_span(SpanInsertion { x: 0, z: 0, flag_merge_threshold: 0, span }).unwrap();
    for k in 0..63u16 {
        let span = SpanBuilder { min: k * 10, max: k * 10 + 1, area: AreaType(1), next: None }.build();
        hf.add_span(SpanInsertion { x: 1, z: 0, flag_merge_threshold: 0, span }).unwrap();
    }
    let chf = CompactHeightfield::from_heightfield(hf, 2, 1).unwrap();
    assert_eq!(chf.cells[1].count, 63);
    assert_eq!(chf.spans[0].con(2), Some(62));
}
