use rerecast::area::AreaType;
use rerecast::heightfield::{Heightfield, SpanInsertion, SpanInsertionError};
use rerecast::span::{Span, SpanBuilder};

/// The grid of a field spanning -5..5 on each axis with unit cells.
fn height_field() -> Heightfield {
    Heightfield::new(10, 10)
}

fn span_low() -> SpanBuilder {
    SpanBuilder { min: 2, max: 4, area: AreaType(2), next: None }
}

fn span_mid() -> SpanBuilder {
    SpanBuilder { min: 4, max: 7, area: AreaType(2), next: None }
}

fn span_high() -> SpanBuilder {
    SpanBuilder { min: 7, max: 10, area: AreaType(2), next: None }
}

fn assert_eq_without_next(span: &Span, expected_span: &Span) {
    assert_eq!(span.min(), expected_span.min(), "min is not equal");
    assert_eq!(span.max(), expected_span.max(), "max is not equal");
    assert_eq!(span.area(), expected_span.area(), "area is not equal");
}

#[test]
fn heightfield_can_create_heightfield() {
    let _heightfield = height_field();
}

#[test]
fn heightfield_can_add_span() {
    let mut heightfield = height_field();
    let expected_span = span_low().build();
    heightfield
        .add_span(SpanInsertion { x: 1, z: 3, flag_merge_threshold: 0, span: expected_span.clone() })
        .unwrap();
    let span = heightfield.span_at(1, 3).unwrap();
    assert_eq!(*span, expected_span);

    let empty_span = heightfield.span_at(3, 1);
    assert_eq!(empty_span, None);
}

#[test]
fn heightfield_can_add_multiple_spans_next_to_each_other() {
    let mut heightfield = height_field();
    let expected_span_1 = span_low().build();
    heightfield
        .add_span(SpanInsertion { x: 1, z: 3, flag_merge_threshold: 0, span: expected_span_1.clone() })
        .unwrap();

    let expected_span_2 = span_mid().build();
    heightfield
        .add_span(SpanInsertion { x: 2, z: 3, flag_merge_threshold: 0, span: expected_span_2.clone() })
        .unwrap();

    let span = heightfield.span_at(1, 3).unwrap();
    assert_eq!(*span, expected_span_1);
    let span = heightfield.span_at(2, 3).unwrap();
    assert_eq!(*span, expected_span_2);

    let empty_span = heightfield.span_at(3, 1);
    assert_eq!(empty_span, None);
}

#[test]
fn heightfield_can_add_higher_span_in_same_column() {
    let mut heightfield = height_field();
    let span_low = span_low().build();
    heightfield
        .add_span(SpanInsertion { x: 1, z: 3, flag_merge_threshold: 0, span: span_low.clone() })
        .unwrap();

    let span_high = span_high().build();
    heightfield
        .add_span(SpanInsertion { x: 1, z: 3, flag_merge_threshold: 0, span: span_high.clone() })
        .unwrap();

    let span = heightfield.span_at(1, 3).unwrap();
    assert_eq_without_next(span, &span_low);
    let next_span = span.next().unwrap();
    let next_span = heightfield.span(next_span);
    assert_eq_without_next(next_span, &span_high);

    let empty_span = heightfield.span_at(3, 1);
    assert_eq!(empty_span, None);
}

#[test]
fn heightfield_can_add_lower_span_in_same_column() {
    let mut heightfield = height_field();
    let span_high = span_high().build();
    heightfield
        .add_span(SpanInsertion { x: 1, z: 3, flag_merge_threshold: 0, span: span_high.clone() })
        .unwrap();

    let span_low = span_low().build();
    heightfield
        .add_span(SpanInsertion { x: 1, z: 3, flag_merge_threshold: 0, span: span_low.clone() })
        .unwrap();

    let span = heightfield.span_at(1, 3).unwrap();
    assert_eq_without_next(span, &span_low);
    let next_span = span.next().unwrap();
    let next_span = heightfield.span(next_span);
    assert_eq_without_next(next_span, &span_high);

    let empty_span = heightfield.span_at(3, 1);
    assert_eq!(empty_span, None);
}

#[test]
fn heightfield_can_merge_spans() {
    let mut heightfield = height_field();
    let span_low = span_low().build();
    heightfield
        .add_span(SpanInsertion { x: 1, z: 3, flag_merge_threshold: 0, span: span_low.clone() })
        .unwrap();

    let span_mid: Span = span_mid().build();
    heightfield
        .add_span(SpanInsertion { x: 1, z: 3, flag_merge_threshold: 0, span: span_mid.clone() })
        .unwrap();

    let merged_span = SpanBuilder {
        min: span_low.min(),
        max: span_mid.max(),
        area: span_mid.area(),
        next: None,
    }
    .build();

    let span = heightfield.span_at(1, 3).unwrap();
    assert_eq!(*span, merged_span);

    let empty_span = heightfield.span_at(3, 1);
    assert_eq!(empty_span, None);
}

#[test]
fn heightfield_rejects_span_outside_the_grid() {
    let mut heightfield = height_field();
    let r = heightfield.add_span(SpanInsertion { x: 0, z: 10, flag_merge_threshold: 0, span: span_low().build() });
    assert_eq!(r, Err(SpanInsertionError::ColumnIndexOutOfBounds { x: 0, y: 10 }));
    assert_eq!(heightfield.span_at(0, 1), None);
}

#[test]
fn heightfield_merge_takes_higher_area_within_threshold() {
    let mut heightfield = height_field();
    let a = SpanBuilder { min: 2, max: 5, area: AreaType(7), next: None }.build();
    let b = SpanBuilder { min: 3, max: 6, area: AreaType(3), next: None }.build();
    heightfield.add_span(SpanInsertion { x: 0, z: 0, flag_merge_threshold: 1, span: a }).unwrap();
    heightfield.add_span(SpanInsertion { x: 0, z: 0, flag_merge_threshold: 1, span: b }).unwrap();
    let span = heightfield.span_at(0, 0).unwrap();
    assert_eq!(span.min(), 2);
    assert_eq!(span.max(), 6);
    assert_eq!(span.area(), AreaType(7));
    assert_eq!(span.next(), None);
}

#[test]
fn heightfield_merge_keeps_new_area_beyond_threshold() {
    let mut heightfield = height_field();
    let a = SpanBuilder { min: 2, max: 5, area: AreaType(7), next: None }.build();
    let b = SpanBuilder { min: 3, max: 9, area: AreaType(3), next: None }.build();
    heightfield.add_span(SpanInsertion { x: 0, z: 0, flag_merge_threshold: 1, span: a }).unwrap();
    heightfield.add_span(SpanInsertion { x: 0, z: 0, flag_merge_threshold: 1, span: b }).unwrap();
    let span = heightfield.span_at(0, 0).unwrap();
    assert_eq!((span.min(), span.max(), span.area()), (2, 9, AreaType(3)));
}

#[test]
fn heightfield_column_queries() {
    let heightfield = height_field();
    assert_eq!(heightfield.column_index(3, 2), 23);
    assert!(heightfield.contains(9, 9));
    assert!(!heightfield.contains(10, 0));
    assert!(!heightfield.contains(-1, 0));
    assert_eq!(heightfield.span_key_at(4, 4), None);
}

#[test]
fn heightfield_span_at_mut_changes_the_span() {
    let mut heightfield = height_field();
    heightfield.add_span(SpanInsertion { x: 2, z: 2, flag_merge_threshold: 0, span: span_low().build() }).unwrap();
    {
        let span = heightfield.span_at_mut(2, 2).unwrap();
        span.set_area(AreaType(9));
    }
    assert_eq!(heightfield.span_at(2, 2).unwrap().area(), AreaType(9));
    assert!(heightfield.span_at_mut(5, 5).is_none());
}

#[test]
fn heightfield_filter_low_hanging_obstacles_marks_climbable_span() {
    let mut heightfield = height_field();
    let walkable = SpanBuilder { min: 0, max: 2, area: AreaType(1), next: None }.build();
    let obstacle = SpanBuilder { min: 3, max: 3, area: AreaType(0), next: None }.build();
    heightfield.add_span(SpanInsertion { x: 0, z: 0, flag_merge_threshold: 0, span: walkable }).unwrap();
    heightfield.add_span(SpanInsertion { x: 0, z: 0, flag_merge_threshold: 0, span: obstacle }).unwrap();
    heightfield.filter_low_hanging_walkable_obstacles(1);
    let low = heightfield.span_at(0, 0).unwrap();
    assert_eq!(low.area(), AreaType(1));
    let high = heightfield.span(low.next().unwrap());
    assert_eq!((high.min(), high.max(), high.area()), (3, 3, AreaType(1)));
}

#[test]
fn heightfield_filter_low_hanging_obstacles_keeps_high_step() {
    let mut heightfield = height_field();
    let walkable = SpanBuilder { min: 0, max: 2, area: AreaType(1), next: None }.build();
    let obstacle = SpanBuilder { min: 4, max: 8, area: AreaType(0), next: None }.build();
    heightfield.add_span(SpanInsertion { x: 0, z: 0, flag_merge_threshold: 0, span: walkable }).unwrap();
    heightfield.add_span(SpanInsertion { x: 0, z: 0, flag_merge_threshold: 0, span: obstacle }).unwrap();
    heightfield.filter_low_hanging_walkable_obstacles(1);
    let low = heightfield.span_at(0, 0).unwrap();
    let high = heightfield.span(low.next().unwrap());
    assert_eq!(high.area(), AreaType(0));
}

#[test]
fn heightfield_insertion_keeps_spans_apart_from_it() {
    let mut heightfield = height_field();
    let bottom = SpanBuilder { min: 0, max: 2, area: AreaType(4), next: None }.build();
    let middle = SpanBuilder { min: 5, max: 6, area: AreaType(5), next: None }.build();
    let top = SpanBuilder { min: 10, max: 12, area: AreaType(6), next: None }.build();
    for span in [bottom.clone(), top.clone(), middle] {
        heightfield.add_span(SpanInsertion { x: 0, z: 0, flag_merge_threshold: 0, span }).unwrap();
    }
    // Touching the middle span, so merged with it.
    let touching = SpanBuilder { min: 6, max: 8, area: AreaType(1), next: None }.build();
    heightfield.add_span(SpanInsertion { x: 0, z: 0, flag_merge_threshold: 0, span: touching }).unwrap();
    let first = heightfield.span_at(0, 0).unwrap();
    assert_eq_without_next(first, &bottom);
    let second = heightfield.span(first.next().unwrap());
    assert_eq!((second.min(), second.max(), second.area()), (5, 8, AreaType(1)));
    let third = heightfield.span(second.next().unwrap());
    assert_eq_without_next(third, &top);
    assert_eq!(third.next(), None);
}
