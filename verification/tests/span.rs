use rerecast::area::AreaType;
use rerecast::span::{Span, SpanBuilder, SpanKey, Spans};

fn span() -> Span {
    SpanBuilder { min: 2, max: 10, area: AreaType(4), next: None }.build()
}

#[test]
fn can_retrieve_span_data_after_building() {
    let span = span();
    assert_eq!(span.min(), 2);
    assert_eq!(span.max(), 10);
    assert_eq!(span.area(), AreaType(4));
    assert_eq!(span.next(), None);
}

#[test]
fn can_retrieve_span_data_after_setting() {
    let mut span = span();
    let mut slotmap = Spans::with_min_capacity(0);
    let span_key: SpanKey = slotmap.insert(span.clone());

    span.set_min(1);
    span.set_max(4);
    span.set_area(3.into());
    span.set_next(Some(span_key));

    assert_eq!(span.min(), 1);
    assert_eq!(span.max(), 4);
    assert_eq!(span.area(), AreaType(3));
    assert_eq!(span.next(), Some(span_key));
}

#[test]
fn span_from_builder_keeps_fields() {
    let builder = SpanBuilder { min: 5, max: 6, area: AreaType(1), next: None };
    let span: Span = Span::from(builder);
    assert_eq!((span.min(), span.max(), span.area(), span.next()), (5, 6, AreaType(1), None));
}

#[test]
fn spans_insert_get_set_remove() {
    let mut spans = Spans::with_min_capacity(2000);
    let a = spans.insert(span());
    let b = spans.insert(SpanBuilder { min: 0, max: 1, area: AreaType(0), next: Some(a) }.build());
    assert_ne!(a, b);
    assert_eq!(*spans.get(a), span());
    assert_eq!(spans.get(b).next(), Some(a));
    spans.set(a, SpanBuilder { min: 7, max: 8, area: AreaType(2), next: None }.build());
    assert_eq!(spans.get(a).min(), 7);
    spans.get_mut(b).set_max(9);
    assert_eq!(spans.get(b).max(), 9);
    spans.remove(a);
    assert_eq!(spans.get(b).max(), 9);
}

#[test]
fn area_type_helpers() {
    assert_eq!(AreaType::not_walkable(), AreaType(0));
    assert_eq!(AreaType::default_walkable(), AreaType(255));
    assert_eq!(AreaType::default(), AreaType(0));
    assert!(!AreaType(0).is_walkable());
    assert!(AreaType(1).is_walkable());
    assert_eq!(AreaType(3).max(7), AreaType(7));
    assert_eq!(AreaType(9).max(7), AreaType(9));
    assert_eq!(AreaType::from(12u8), AreaType(12));
}
