use kitsune_ui::view::{
    Frac, GlobalView, PhysicalPosition, PhysicalSize, SizeHint, VirtualPosition,
};

fn surface(w: u32, h: u32) -> kitsune_ui::view::View {
    let global = GlobalView::new(PhysicalSize::new(w, h));
    global.view(PhysicalSize::new(w, h), PhysicalPosition::new(0, 0))
}

#[test]
fn physical_hints_resolve_to_pixels() {
    let view = surface(100, 80);
    assert_eq!(view.physical_width_hint(SizeHint::Physical(10)), Some(10));
    assert_eq!(view.physical_width_hint(SizeHint::Unresolved), None);
    assert_eq!(
        view.physical_width_hint(SizeHint::Virtual(Frac::new(1, 2))),
        Some(50)
    );
    assert_eq!(
        view.physical_height_hint(SizeHint::Virtual(Frac::new(1, 4))),
        Some(20)
    );
}

#[test]
fn aggregates_fold_and_skip_unresolved() {
    let view = surface(100, 80);
    let max = SizeHint::Max(vec![
        SizeHint::Physical(10),
        SizeHint::Unresolved,
        SizeHint::Physical(30),
    ]);
    assert_eq!(view.physical_width_hint(max), Some(30));
    let min = SizeHint::Min(vec![SizeHint::Physical(10), SizeHint::Physical(30)]);
    assert_eq!(view.physical_width_hint(min), Some(10));
    let sum = SizeHint::Sum(vec![
        SizeHint::Physical(10),
        SizeHint::Unresolved,
        SizeHint::Virtual(Frac::new(1, 2)),
    ]);
    assert_eq!(view.physical_width_hint(sum), Some(60));
}

#[test]
fn sum_of_empty_list_is_unresolved_not_zero() {
    let view = surface(100, 80);
    assert_eq!(view.physical_width_hint(SizeHint::Sum(Vec::new())), None);
    assert_eq!(view.physical_width_hint(SizeHint::Max(Vec::new())), None);
    assert_eq!(view.physical_width_hint(SizeHint::Min(Vec::new())), None);
}

#[test]
fn min_of_list_stays_below_max_of_same_list() {
    let view = surface(100, 80);
    let items = || {
        vec![
            SizeHint::Physical(42),
            SizeHint::Virtual(Frac::new(1, 5)),
            SizeHint::Physical(7),
        ]
    };
    let lo = view.physical_width_hint(SizeHint::Min(items())).unwrap();
    let hi = view.physical_width_hint(SizeHint::Max(items())).unwrap();
    assert!(lo <= hi);
    assert_eq!(lo, 7);
    assert_eq!(hi, 42);
}

#[test]
fn split_row_places_consecutive_sub_views() {
    let view = surface(100, 80);
    let views = view.split_row(vec![
        SizeHint::Physical(30),
        SizeHint::Unresolved,
        SizeHint::Virtual(Frac::new(1, 2)),
    ]);
    assert_eq!(views.len(), 3);
    assert_eq!(views[0].size.width, 30);
    assert_eq!(views[0].offset.x, 0);
    assert_eq!(views[1].size.width, 0);
    assert_eq!(views[1].offset.x, 30);
    assert_eq!(views[2].size.width, 50);
    assert_eq!(views[2].offset.x, 30);
    for v in &views {
        assert_eq!(v.size.height, 80);
        assert_eq!(v.offset.y, 0);
    }
}

#[test]
fn split_column_places_consecutive_sub_views() {
    let view = surface(100, 90);
    let views = view.split_column(vec![SizeHint::Physical(30), SizeHint::Physical(20)]);
    assert_eq!(views.len(), 2);
    assert_eq!(views[0].size.height, 30);
    assert_eq!(views[0].offset.y, 0);
    assert_eq!(views[1].size.height, 20);
    assert_eq!(views[1].offset.y, 30);
    for v in &views {
        assert_eq!(v.size.width, 100);
        assert_eq!(v.offset.x, 0);
    }
}

#[test]
fn bordered_insets_by_thickness_on_each_side() {
    let view = surface(100, 80);
    let (outer, inner) = view.bordered(10);
    assert_eq!(outer.size.width, 100);
    assert_eq!(outer.size.height, 80);
    assert_eq!(inner.size.width, 80);
    assert_eq!(inner.size.height, 60);
    assert_eq!(inner.offset.x, 10);
    assert_eq!(inner.offset.y, 10);
}

#[test]
fn from_size_hints_shrinks_but_never_grows() {
    let view = surface(100, 80);
    let shrunk = view.from_size_hints(SizeHint::Physical(40), SizeHint::Physical(500));
    assert_eq!(shrunk.size.width, 40);
    assert_eq!(shrunk.size.height, 80);
    assert_eq!(shrunk.offset.x, 0);
    let kept = view.from_size_hints(SizeHint::Unresolved, SizeHint::Unresolved);
    assert_eq!(kept.size.width, 100);
    assert_eq!(kept.size.height, 80);
}

#[test]
fn corner_round_trip_hits_clip_extremes() {
    let view = surface(64, 48);
    // virtualize each physical corner, globalize it, and compare against the
    // documented convention: top-left (-1, 1), bottom-right (1, -1).
    let tl = view.globalize(view.virtualize(PhysicalPosition::new(0, 0)));
    assert_eq!(tl.x.num, -tl.x.den);
    assert_eq!(tl.y.num, tl.y.den);
    let br = view.globalize(view.virtualize(PhysicalPosition::new(64, 48)));
    assert_eq!(br.x.num, br.x.den);
    assert_eq!(br.y.num, -br.y.den);
    let bl = view.globalize(view.virtualize(PhysicalPosition::new(0, 48)));
    assert_eq!(bl.x.num, -bl.x.den);
    assert_eq!(bl.y.num, -bl.y.den);
    let tr = view.globalize(view.virtualize(PhysicalPosition::new(64, 0)));
    assert_eq!(tr.x.num, tr.x.den);
    assert_eq!(tr.y.num, tr.y.den);
}

#[test]
fn globalize_maps_center_to_origin() {
    let view = surface(100, 100);
    let center = view.globalize(VirtualPosition::new(Frac::new(1, 2), Frac::new(1, 2)));
    assert_eq!(center.x.num, 0);
    assert_eq!(center.y.num, 0);
}

#[test]
fn corners_are_counter_clockwise_with_texture_coordinates() {
    let view = surface(10, 10);
    let corners = view.corners();
    assert_eq!(corners.len(), 4);
    assert_eq!((corners[0].tex_x, corners[0].tex_y), (0, 0));
    assert_eq!((corners[1].tex_x, corners[1].tex_y), (0, 1));
    assert_eq!((corners[2].tex_x, corners[2].tex_y), (1, 1));
    assert_eq!((corners[3].tex_x, corners[3].tex_y), (1, 0));
    // top-left corner sits at (-1, 1) for the surface-filling view
    assert_eq!(corners[0].position.x.num, -corners[0].position.x.den);
    assert_eq!(corners[0].position.y.num, corners[0].position.y.den);
}

#[test]
fn virtual_resolution_keeps_exact_fractions() {
    let view = surface(100, 80);
    let r = view.virtualize_width_hint(SizeHint::Physical(25)).unwrap();
    assert_eq!((r.num, r.den), (25, 100));
    let s = view
        .virtualize_width_hint(SizeHint::Sum(vec![
            SizeHint::Virtual(Frac::new(1, 4)),
            SizeHint::Virtual(Frac::new(1, 4)),
        ]))
        .unwrap();
    // exact rational addition over the common denominator
    assert_eq!((s.num, s.den), (8, 16));
    assert_eq!(view.virtualize_height_hint(SizeHint::Unresolved), None);
    let m = view
        .virtualize_height_hint(SizeHint::Max(vec![
            SizeHint::Virtual(Frac::new(1, 3)),
            SizeHint::Virtual(Frac::new(2, 3)),
        ]))
        .unwrap();
    assert_eq!((m.num, m.den), (2, 3));
}

#[test]
fn mixed_units_compare_in_one_aggregate() {
    let view = surface(100, 80);
    // a quarter of a 100-pixel line is narrower than 30 pixels
    let min = SizeHint::Min(vec![
        SizeHint::Virtual(Frac::new(1, 4)),
        SizeHint::Physical(30),
    ]);
    assert_eq!(view.physical_width_hint(min), Some(25));
    let vmax = view
        .virtualize_width_hint(SizeHint::Max(vec![
            SizeHint::Virtual(Frac::new(1, 4)),
            SizeHint::Physical(30),
        ]))
        .unwrap();
    // 30/100 beats 1/4; the winning representation is kept as is
    assert_eq!((vmax.num, vmax.den), (30, 100));
}
