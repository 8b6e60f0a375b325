use std::rc::Rc;
use kitsune_ui::context::Context;
use kitsune_ui::render::{MeshSource, Renderable};
use kitsune_ui::view::{GlobalView, PhysicalPosition, PhysicalSize, SizeHint, View};
use kitsune_ui::widget::{GlyphWidget, Widget};

fn surface(w: u32, h: u32) -> View {
    let global = GlobalView::new(PhysicalSize::new(w, h));
    global.view(PhysicalSize::new(w, h), PhysicalPosition::new(0, 0))
}

fn resolve_w(view: &View, hint: SizeHint) -> Option<u32> {
    view.physical_width_hint(hint)
}

fn resolve_h(view: &View, hint: SizeHint) -> Option<u32> {
    view.physical_height_hint(hint)
}

#[test]
fn glyph_reports_its_metric_box() {
    let view = surface(100, 100);
    let g = Widget::glyph('a', 6, 9);
    assert_eq!(resolve_w(&view, g.width_hint(&view)), Some(6));
    assert_eq!(resolve_h(&view, g.height_hint(&view)), Some(9));
}

#[test]
fn row_sums_widths_and_takes_tallest_height() {
    let view = surface(100, 100);
    let row = Widget::row(vec![Widget::glyph('a', 6, 9), Widget::glyph('b', 4, 12)]);
    assert_eq!(resolve_w(&view, row.width_hint(&view)), Some(10));
    assert_eq!(resolve_h(&view, row.height_hint(&view)), Some(12));
}

#[test]
fn column_takes_widest_width_and_sums_heights() {
    let view = surface(100, 100);
    let col = Widget::column(vec![Widget::glyph('a', 6, 9), Widget::glyph('b', 4, 12)]);
    assert_eq!(resolve_w(&view, col.width_hint(&view)), Some(6));
    assert_eq!(resolve_h(&view, col.height_hint(&view)), Some(21));
}

#[test]
fn bordered_adds_twice_its_thickness() {
    let view = surface(100, 100);
    let b = Widget::glyph('a', 6, 9).bordered(5);
    assert_eq!(resolve_w(&view, b.width_hint(&view)), Some(16));
    assert_eq!(resolve_h(&view, b.height_hint(&view)), Some(19));
}

#[test]
fn overlay_takes_the_widest_member_on_both_axes() {
    let view = surface(100, 100);
    let o = Widget::overlay(vec![Widget::glyph('a', 6, 9), Widget::glyph('b', 4, 12)]);
    assert_eq!(resolve_w(&view, o.width_hint(&view)), Some(6));
    assert_eq!(resolve_h(&view, o.height_hint(&view)), Some(12));
}

#[test]
fn wrapping_row_never_asks_for_more_than_the_line() {
    let view = surface(12, 100);
    let glyphs = vec![
        Widget::glyph('a', 5, 7),
        Widget::glyph('b', 5, 7),
        Widget::glyph('c', 5, 7),
        Widget::glyph('d', 5, 7),
    ];
    let wrap = Widget::wrapping_row(glyphs);
    // width: min(sum of children, line width) = min(20, 12) = 12
    assert_eq!(resolve_w(&view, wrap.width_hint(&view)), Some(12));
}

#[test]
fn wrap_groups_four_fives_under_twelve_into_two_rows() {
    // widths [5,5,5,5] under a budget of 12: 5+5 = 10 fits, the third five
    // overflows (15 > 12) and starts the next row, so the rows are
    // [5,5] and [5,5], and the stacked height is two rows of 7.
    let view = surface(12, 100);
    let wrap = Widget::wrapping_row(vec![
        Widget::glyph('a', 5, 7),
        Widget::glyph('b', 5, 7),
        Widget::glyph('c', 5, 7),
        Widget::glyph('d', 5, 7),
    ]);
    assert_eq!(resolve_h(&view, wrap.height_hint(&view)), Some(14));
    let mut wrap = wrap;
    let r = wrap.get_renderable(&view);
    match r {
        Renderable::Group(rows) => {
            assert_eq!(rows.len(), 2);
            for row in &rows {
                match row {
                    Renderable::Group(cells) => assert_eq!(cells.len(), 2),
                    _ => panic!("row should be a group"),
                }
            }
        }
        _ => panic!("wrapping row should render a group of rows"),
    }
}

#[test]
fn oversized_first_glyph_flushes_an_empty_leading_row() {
    // a glyph wider than the line overflows immediately; the flush closes an
    // empty row and the glyph starts the next one.
    let view = surface(12, 100);
    let wrap = Widget::wrapping_row(vec![Widget::glyph('w', 20, 7), Widget::glyph('x', 5, 7)]);
    let mut wrap = wrap;
    let r = wrap.get_renderable(&view);
    match r {
        Renderable::Group(rows) => {
            assert_eq!(rows.len(), 2);
            match &rows[0] {
                Renderable::Group(cells) => assert_eq!(cells.len(), 0),
                _ => panic!("row should be a group"),
            }
            match &rows[1] {
                Renderable::Group(cells) => assert_eq!(cells.len(), 2),
                _ => panic!("row should be a group"),
            }
        }
        _ => panic!("wrapping row should render a group of rows"),
    }
}

#[test]
fn glyph_renders_one_quad_with_its_character() {
    let view = surface(100, 100);
    let mut g = Widget::glyph('q', 6, 9);
    let r = g.get_renderable(&view);
    match r {
        Renderable::Mesh(mesh) => {
            assert_eq!(mesh.source, MeshSource::Glyph('q'));
            assert_eq!(mesh.vertices.len(), 4);
            assert_eq!(mesh.indices, vec![0, 1, 2, 2, 3, 0]);
        }
        _ => panic!("a glyph renders a single mesh"),
    }
}

#[test]
fn bordered_renders_frame_then_child() {
    let view = surface(100, 100);
    let mut b = Widget::glyph('a', 6, 9).bordered(5);
    let r = b.get_renderable(&view);
    match r {
        Renderable::Group(parts) => {
            assert_eq!(parts.len(), 2);
            match &parts[0] {
                Renderable::Mesh(mesh) => {
                    assert_eq!(mesh.source, MeshSource::Border);
                    assert_eq!(mesh.vertices.len(), 8);
                    assert_eq!(mesh.indices.len(), 24);
                }
                _ => panic!("the frame is a mesh"),
            }
        }
        _ => panic!("a border renders a frame and its child"),
    }
}

fn as_shared(r: &Renderable) -> &Rc<Renderable> {
    match r {
        Renderable::Shared(rc) => rc,
        _ => panic!("a cached widget hands out shares"),
    }
}

#[test]
fn cache_reuses_identical_geometry_until_mutated() {
    let view = surface(100, 100);
    let mut w = Widget::glyph('a', 6, 9).cached();
    let r1 = w.get_renderable(&view);
    let r2 = w.get_renderable(&view);
    // two renders without an intervening mutable access share one allocation
    assert!(Rc::ptr_eq(as_shared(&r1), as_shared(&r2)));
    // a mutable access (resize) invalidates the cache
    w.resize(100, 100);
    let r3 = w.get_renderable(&view);
    assert!(!Rc::ptr_eq(as_shared(&r1), as_shared(&r3)));
}

#[test]
fn row_width_equals_column_height_for_square_children() {
    let view = surface(100, 100);
    let squares = || vec![Widget::glyph('a', 8, 8), Widget::glyph('b', 3, 3)];
    let row = Widget::row(squares());
    let col = Widget::column(squares());
    let rw = resolve_w(&view, row.width_hint(&view));
    let ch = resolve_h(&view, col.height_hint(&view));
    assert_eq!(rw, ch);
    assert_eq!(rw, Some(11));
}

#[test]
fn text_builds_a_wrapping_row_of_glyphs() {
    let view = surface(100, 100);
    let text = Widget::text(vec![
        GlyphWidget::new('h', 5, 7),
        GlyphWidget::new('i', 2, 7),
    ]);
    assert_eq!(resolve_w(&view, text.width_hint(&view)), Some(7));
    assert_eq!(resolve_h(&view, text.height_hint(&view)), Some(7));
}

#[test]
fn row_renders_children_in_adjacent_slots() {
    let view = surface(100, 100);
    let mut row = Widget::row(vec![Widget::glyph('a', 6, 9), Widget::glyph('b', 4, 9)]);
    let r = row.get_renderable(&view);
    match r {
        Renderable::Group(cells) => assert_eq!(cells.len(), 2),
        _ => panic!("a row renders a group"),
    }
}

#[test]
fn context_wraps_a_stage() {
    let mut c = Context::new(41u32);
    assert_eq!(*c.stage(), 41);
    *c.stage_mut() = 42;
    assert_eq!(*c.stage(), 42);
}

#[test]
fn empty_wrapping_row_renders_no_rows() {
    let view = surface(50, 50);
    let mut wrap = Widget::wrapping_row(Vec::new());
    match wrap.get_renderable(&view) {
        Renderable::Group(rows) => assert_eq!(rows.len(), 0),
        _ => panic!("a wrapping row renders a group"),
    }
}

#[test]
fn nested_caches_invalidate_through_the_spine() {
    let view = surface(100, 100);
    let mut w = Widget::glyph('a', 6, 9).cached().bordered(5).cached();
    let r1 = w.get_renderable(&view);
    let r2 = w.get_renderable(&view);
    assert!(Rc::ptr_eq(as_shared(&r1), as_shared(&r2)));
    w.resize(100, 100);
    let r3 = w.get_renderable(&view);
    assert!(!Rc::ptr_eq(as_shared(&r1), as_shared(&r3)));
}
