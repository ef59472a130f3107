use blitz_dom::custom_widget::WidgetPaintContext;
use blitz_dom::layout_types::{Point, Rect, Size};
use blitz_dom::net::{ImageHandler, ImageType};
use blitz_dom::scrollbar::ScrollbarWidth;
use blitz_dom::table::RangeIter;

#[test]
fn paint_context_records_redraw_requests() {
    let mut ctx = WidgetPaintContext::new();
    assert!(!ctx.redraw_requested());
    ctx.request_redraw();
    assert!(ctx.redraw_requested());
    assert!(!WidgetPaintContext::default().redraw_requested());
}

#[test]
fn range_iter_hands_out_ids_in_order() {
    let mut it = RangeIter::new(2, 4);
    assert_eq!(it.next(), Some(2));
    assert_eq!(it.next(), Some(3));
    assert_eq!(it.next(), None);
    assert_eq!(it.next(), None);
}

#[test]
fn geometry_maps_each_component() {
    let size = Size::new(2, 3).map(|v| v * 10);
    assert_eq!((size.width, size.height), (20, 30));
    let rect = Rect::new(1, 2, 3, 4).map(|v| v + 1);
    assert_eq!((rect.left, rect.right, rect.top, rect.bottom), (2, 3, 4, 5));
    let p = Point::new(5, 6);
    assert_eq!((p.x, p.y), (5, 6));
}

#[test]
fn small_value_types() {
    assert_eq!(ImageHandler::new(ImageType::Background(2)).kind, ImageType::Background(2));
    assert_eq!(ScrollbarWidth::default(), ScrollbarWidth::Auto);
}
