use vstd::prelude::*;
use vstd::view::View as SpecView;
use std::rc::Rc;
use crate::render::{
    GeomModel, Mesh, MeshModel, MeshSource, Renderable, geom_model, geom_models,
    lemma_geom_models_index, share_handle,
};
use crate::view::{
    HintModel, PhysicalPosition, PhysicalSize, SizeHint, View, corners_spec, from_hints_view,
    hint_models, hint_ok, hint_seq_ok, lemma_hint_models_index, resolve_ok, resolve_seq_ok,
    resolved_or, split_column_view, split_prefix, split_row_view,
};

verus! {

// ---------------------------------------------------------------------------
// The widget tree
// ---------------------------------------------------------------------------

/// A single-character leaf with its measured pixel bounding box.  The box
/// comes from the font metrics service at a fixed font scale; the layout
/// engine treats it as given data.
#[derive(Clone, Copy, Debug, PartialEq, Eq, Structural)]
pub struct GlyphWidget {
    pub character: char,
    pub width: u32,
    pub height: u32,
}

impl GlyphWidget {
    pub fn new(character: char, width: u32, height: u32) -> (r: Self)
        ensures
            r == (GlyphWidget { character, width, height }),
    {
        Self { character, width, height }
    }
}

/// The widget composition tree: a glyph leaf, horizontal and line-breaking
/// rows, a vertical column, a fixed-thickness border around one child, a
/// geometry-memoizing wrapper, and a parallel composition that hands the
/// same view to every member.
pub enum Widget {
    Glyph(GlyphWidget),
    Row(Vec<Widget>),
    WrappingRow(Vec<Widget>),
    Column(Vec<Widget>),
    Bordered(Box<Widget>, u32),
    Cached(Box<Widget>, Option<Rc<Renderable>>),
    Overlay(Vec<Widget>),
}

/// The mathematical shape of a widget tree; a cache is modeled by the
/// geometry it holds.
pub enum WidgetModel {
    Glyph(char, int, int),
    Row(Seq<WidgetModel>),
    WrappingRow(Seq<WidgetModel>),
    Column(Seq<WidgetModel>),
    Bordered(Box<WidgetModel>, int),
    Cached(Box<WidgetModel>, Option<GeomModel>),
    Overlay(Seq<WidgetModel>),
}

pub open spec fn widget_models(l: Seq<Widget>) -> Seq<WidgetModel>
    decreases l,
{
    if l.len() == 0 {
        Seq::empty()
    } else {
        widget_models(l.drop_last()).push(widget_model(l.last()))
    }
}

pub open spec fn widget_model(w: Widget) -> WidgetModel
    decreases w,
{
    match w {
        Widget::Glyph(g) => WidgetModel::Glyph(g.character, g.width as int, g.height as int),
        Widget::Row(l) => WidgetModel::Row(widget_models(l@)),
        Widget::WrappingRow(l) => WidgetModel::WrappingRow(widget_models(l@)),
        Widget::Column(l) => WidgetModel::Column(widget_models(l@)),
        Widget::Bordered(c, t) => WidgetModel::Bordered(Box::new(widget_model(*c)), t as int),
        Widget::Cached(c, g) => WidgetModel::Cached(
            Box::new(widget_model(*c)),
            match g {
                Option::Some(rc) => Option::Some(geom_model(*rc)),
                Option::None => Option::None,
            },
        ),
        Widget::Overlay(l) => WidgetModel::Overlay(widget_models(l@)),
    }
}

impl vstd::view::View for Widget {
    type V = WidgetModel;

    open spec fn view(&self) -> WidgetModel {
        widget_model(*self)
    }
}

/// `widget_models` maps the sequence pointwise.
pub proof fn lemma_widget_models_index(l: Seq<Widget>)
    ensures
        widget_models(l).len() == l.len(),
        forall|i: int| 0 <= i < l.len() ==> #[trigger] widget_models(l)[i] == widget_model(l[i]),
    decreases l,
{
    if l.len() > 0 {
        lemma_widget_models_index(l.drop_last());
    }
}

/// Structural bounds a widget tree built from machine values satisfies:
/// glyph metrics fit a `u32`, and a doubled border thickness does too.
pub open spec fn widget_ok(m: WidgetModel) -> bool
    decreases m, 0int,
{
    match m {
        WidgetModel::Glyph(c, w, h) => 0 <= w <= u32::MAX && 0 <= h <= u32::MAX,
        WidgetModel::Row(ms) => widgets_ok(ms),
        WidgetModel::WrappingRow(ms) => widgets_ok(ms),
        WidgetModel::Column(ms) => widgets_ok(ms),
        WidgetModel::Bordered(c, t) => 0 <= t && 2 * t <= u32::MAX && widget_ok(*c),
        WidgetModel::Cached(c, g) => widget_ok(*c),
        WidgetModel::Overlay(ms) => widgets_ok(ms),
    }
}

pub open spec fn widgets_ok(ms: Seq<WidgetModel>) -> bool
    decreases ms, 1int,
{
    forall|i: int| 0 <= i < ms.len() ==> widget_ok(#[trigger] ms[i])
}

// ---------------------------------------------------------------------------
// The greedy line-breaking pass, over plain integers
// ---------------------------------------------------------------------------

/// Sum of `ws[i..j)`.
pub open spec fn sum_range(ws: Seq<int>, i: int, j: int) -> int
    decreases j - i,
{
    if i >= j {
        0
    } else {
        ws[i] + sum_range(ws, i + 1, j)
    }
}

/// The state of the greedy pass after its first `n` steps: the indices at
/// which rows were flushed, and the running width.  Step `k` adds width
/// `ws[k]` to the running width; when that exceeds the budget the current
/// row is flushed (the flush index is `k`) and the width resets to zero
/// before element `k` starts the next row, so the element that caused the
/// overflow is not measured against the fresh row.
pub open spec fn wrap_state(ws: Seq<int>, budget: int, n: int) -> (Seq<int>, int)
    decreases n,
{
    if n <= 0 {
        (Seq::empty(), 0)
    } else {
        let prev = wrap_state(ws, budget, n - 1);
        let acc = prev.1 + ws[n - 1];
        if acc > budget {
            (prev.0.push(n - 1), 0)
        } else {
            (prev.0, acc)
        }
    }
}

/// The end index (exclusive) of each wrapped row: every flush index, plus
/// the tail row when it is non-empty.
pub open spec fn wrap_ends(ws: Seq<int>, budget: int) -> Seq<int> {
    let n = ws.len() as int;
    let bs = wrap_state(ws, budget, n).0;
    let last = if bs.len() == 0 { 0int } else { bs.last() };
    if last < n {
        bs.push(n)
    } else {
        bs
    }
}

/// The start index of row `k`, given the row ends.
pub open spec fn wrap_start(ends: Seq<int>, k: int) -> int {
    if k <= 0 {
        0
    } else {
        ends[k - 1]
    }
}

/// Flush indices are strictly increasing positions within the prefix, and
/// the running width never exceeds the budget (once the budget is
/// non-negative and the widths are non-negative).
pub proof fn lemma_wrap_state_bounds(ws: Seq<int>, budget: int, n: int)
    requires
        0 <= n <= ws.len(),
    ensures
        ({
            let bs = wrap_state(ws, budget, n).0;
            &&& forall|k: int| 0 <= k < bs.len() ==> 0 <= #[trigger] bs[k] < n
            &&& forall|k1: int, k2: int| 0 <= k1 < k2 < bs.len() ==> #[trigger] bs[k1] < #[trigger] bs[k2]
        }),
    decreases n,
{
    if n > 0 {
        lemma_wrap_state_bounds(ws, budget, n - 1);
        let prev = wrap_state(ws, budget, n - 1);
        let cur = wrap_state(ws, budget, n);
        if prev.1 + ws[n - 1] > budget {
            assert(cur.0 == prev.0.push(n - 1));
            assert forall|k: int| 0 <= k < cur.0.len() implies 0 <= #[trigger] cur.0[k] < n by {
                if k < prev.0.len() {
                    assert(cur.0[k] == prev.0[k]);
                } else {
                    assert(cur.0[k] == n - 1);
                }
            };
            assert forall|k1: int, k2: int| 0 <= k1 < k2 < cur.0.len()
                implies #[trigger] cur.0[k1] < #[trigger] cur.0[k2] by {
                assert(cur.0[k1] == prev.0[k1]);
                if k2 < prev.0.len() {
                    assert(cur.0[k2] == prev.0[k2]);
                } else {
                    assert(cur.0[k2] == n - 1);
                }
            };
        } else {
            assert(cur.0 == prev.0);
        }
    }
}

/// Row bounds are nested inside the width list: every row runs from its
/// start to its end, rows are consecutive, and the last row ends at the end
/// of the list.
pub proof fn lemma_wrap_ends_bounds(ws: Seq<int>, budget: int)
    ensures
        ({
            let ends = wrap_ends(ws, budget);
            &&& forall|j: int| 0 <= j < ends.len()
                ==> 0 <= wrap_start(ends, j) <= #[trigger] ends[j] <= ws.len()
            &&& forall|j1: int, j2: int| 0 <= j1 < j2 < ends.len()
                ==> #[trigger] ends[j1] < #[trigger] ends[j2]
            &&& (ws.len() > 0 ==> ends.len() > 0 && ends.last() == ws.len())
            &&& (ws.len() == 0 ==> ends.len() == 0)
        }),
{
    let n = ws.len() as int;
    lemma_wrap_state_bounds(ws, budget, n);
    let bs = wrap_state(ws, budget, n).0;
    let ends = wrap_ends(ws, budget);
    if n > 0 {
        assert(bs.len() == 0 ==> ends == bs.push(n));
        if bs.len() > 0 {
            assert(bs.last() < n);
            assert(ends == bs.push(n));
        }
    }
}

// ---------------------------------------------------------------------------
// Hint composition
// ---------------------------------------------------------------------------

/// The width hints of a widget list, in order.
pub open spec fn whints_of(ms: Seq<WidgetModel>, v: View) -> Seq<HintModel>
    decreases ms, 1int, 0int,
{
    if ms.len() == 0 {
        Seq::empty()
    } else {
        whints_of(ms.drop_last(), v).push(width_hint_m(ms.last(), v))
    }
}

/// The height hints of a widget list, in order.
pub open spec fn hhints_of(ms: Seq<WidgetModel>, v: View) -> Seq<HintModel>
    decreases ms, 1int, 0int,
{
    if ms.len() == 0 {
        Seq::empty()
    } else {
        hhints_of(ms.drop_last(), v).push(height_hint_m(ms.last(), v))
    }
}

/// Each child's width hint resolved to pixels against `v`'s width, zero when
/// unresolved: the widths the line-breaking pass accumulates.
pub open spec fn kid_widths(ms: Seq<WidgetModel>, v: View) -> Seq<int>
    decreases ms, 1int, 0int,
{
    if ms.len() == 0 {
        Seq::empty()
    } else {
        kid_widths(ms.drop_last(), v).push(
            resolved_or(width_hint_m(ms.last(), v), v.size.width as int, 0),
        )
    }
}

/// The declared width of each widget kind: glyphs report their metric box,
/// a row sums its children, a column and an overlay take the widest child, a
/// border adds twice its thickness, a cache defers to its child, and a
/// wrapping row never asks for more than the line it was given.
pub open spec fn width_hint_m(m: WidgetModel, v: View) -> HintModel
    decreases m, 2int, 0int,
{
    match m {
        WidgetModel::Glyph(c, w, h) => HintModel::Physical(w),
        WidgetModel::Row(ms) => HintModel::Sum(whints_of(ms, v)),
        WidgetModel::WrappingRow(ms) => HintModel::Min(
            seq![HintModel::Sum(whints_of(ms, v)), HintModel::Physical(v.size.width as int)],
        ),
        WidgetModel::Column(ms) => HintModel::Max(whints_of(ms, v)),
        WidgetModel::Bordered(c, t) => HintModel::Sum(
            seq![width_hint_m(*c, v), HintModel::Physical(2 * t)],
        ),
        WidgetModel::Cached(c, g) => width_hint_m(*c, v),
        WidgetModel::Overlay(ms) => HintModel::Max(whints_of(ms, v)),
    }
}

/// The height hints of `ms[lo..hi)`, guarding against out-of-range bounds.
pub open spec fn hhints_range(ms: Seq<WidgetModel>, v: View, lo: int, hi: int) -> Seq<HintModel>
    decreases ms, 1int, hi - lo,
{
    if lo < 0 || hi > ms.len() || lo >= hi {
        Seq::empty()
    } else {
        hhints_range(ms, v, lo, hi - 1).push(height_hint_m(ms[hi - 1], v))
    }
}

/// Row `k`'s height hint and onwards: the tallest member of each wrapped
/// row, one hint per row.
pub open spec fn wrap_height_hints(ms: Seq<WidgetModel>, v: View, ends: Seq<int>, k: int) -> Seq<HintModel>
    decreases ms, 3int, ends.len() - k,
{
    if k >= ends.len() {
        Seq::empty()
    } else {
        seq![
            HintModel::Max(hhints_range(ms, v, wrap_start(ends, k), ends[k]))
        ] + wrap_height_hints(ms, v, ends, k + 1)
    }
}

/// The declared height of each widget kind; a wrapping row stacks its
/// wrapped rows, each as tall as its tallest member, mirroring exactly the
/// grouping the reflow pass performs.
pub open spec fn height_hint_m(m: WidgetModel, v: View) -> HintModel
    decreases m, 2int, 0int,
{
    match m {
        WidgetModel::Glyph(c, w, h) => HintModel::Physical(h),
        WidgetModel::Row(ms) => HintModel::Max(hhints_of(ms, v)),
        WidgetModel::WrappingRow(ms) => HintModel::Sum(
            wrap_height_hints(ms, v, wrap_ends(kid_widths(ms, v), v.size.width as int), 0),
        ),
        WidgetModel::Column(ms) => HintModel::Sum(hhints_of(ms, v)),
        WidgetModel::Bordered(c, t) => HintModel::Sum(
            seq![height_hint_m(*c, v), HintModel::Physical(2 * t)],
        ),
        WidgetModel::Cached(c, g) => height_hint_m(*c, v),
        WidgetModel::Overlay(ms) => HintModel::Max(hhints_of(ms, v)),
    }
}

/// `whints_of` and `hhints_of` map their sequences pointwise.
pub proof fn lemma_whints_index(ms: Seq<WidgetModel>, v: View)
    ensures
        whints_of(ms, v).len() == ms.len(),
        forall|i: int| 0 <= i < ms.len() ==> #[trigger] whints_of(ms, v)[i] == width_hint_m(ms[i], v),
    decreases ms,
{
    if ms.len() > 0 {
        lemma_whints_index(ms.drop_last(), v);
    }
}

pub proof fn lemma_hhints_index(ms: Seq<WidgetModel>, v: View)
    ensures
        hhints_of(ms, v).len() == ms.len(),
        forall|i: int| 0 <= i < ms.len() ==> #[trigger] hhints_of(ms, v)[i] == height_hint_m(ms[i], v),
    decreases ms,
{
    if ms.len() > 0 {
        lemma_hhints_index(ms.drop_last(), v);
    }
}

/// `hhints_range` maps `ms[lo..hi)` pointwise.
pub proof fn lemma_hhints_range_index(ms: Seq<WidgetModel>, v: View, lo: int, hi: int)
    requires
        0 <= lo <= hi <= ms.len(),
    ensures
        hhints_range(ms, v, lo, hi).len() == hi - lo,
        forall|j: int| 0 <= j < hi - lo ==> #[trigger] hhints_range(ms, v, lo, hi)[j]
            == height_hint_m(ms[lo + j], v),
    decreases hi - lo,
{
    if lo < hi {
        lemma_hhints_range_index(ms, v, lo, hi - 1);
    }
}

pub proof fn lemma_kid_widths_index(ms: Seq<WidgetModel>, v: View)
    ensures
        kid_widths(ms, v).len() == ms.len(),
        forall|i: int| 0 <= i < ms.len() ==> #[trigger] kid_widths(ms, v)[i]
            == resolved_or(width_hint_m(ms[i], v), v.size.width as int, 0),
    decreases ms,
{
    if ms.len() > 0 {
        lemma_kid_widths_index(ms.drop_last(), v);
    }
}

pub proof fn lemma_wrap_height_hints_index(ms: Seq<WidgetModel>, v: View, ends: Seq<int>, k: int)
    requires
        0 <= k <= ends.len(),
    ensures
        wrap_height_hints(ms, v, ends, k).len() == ends.len() - k,
        forall|j: int| k <= j < ends.len() ==> #[trigger] wrap_height_hints(ms, v, ends, k)[j - k]
            == HintModel::Max(hhints_range(ms, v, wrap_start(ends, j), ends[j])),
    decreases ends.len() - k,
{
    if k < ends.len() {
        lemma_wrap_height_hints_index(ms, v, ends, k + 1);
        let head = seq![HintModel::Max(hhints_range(ms, v, wrap_start(ends, k), ends[k]))];
        let rest = wrap_height_hints(ms, v, ends, k + 1);
        assert(wrap_height_hints(ms, v, ends, k) == head + rest);
        assert forall|j: int| k <= j < ends.len()
            implies #[trigger] wrap_height_hints(ms, v, ends, k)[j - k]
                == HintModel::Max(hhints_range(ms, v, wrap_start(ends, j), ends[j])) by {
            if j == k {
                assert((head + rest)[0] == head[0]);
            } else {
                assert((head + rest)[j - k] == rest[j - k - 1]);
                assert(rest[j - (k + 1)] == HintModel::Max(
                    hhints_range(ms, v, wrap_start(ends, j), ends[j])));
            }
        };
    }
}

/// Hints composed from a well-formed widget tree are themselves well-formed.
pub proof fn lemma_widget_hint_ok(m: WidgetModel, v: View)
    requires
        widget_ok(m),
    ensures
        hint_ok(width_hint_m(m, v)),
        hint_ok(height_hint_m(m, v)),
    decreases m, 2int, 0int,
{
    match m {
        WidgetModel::Row(ms) => lemma_widgets_hint_ok(ms, v),
        WidgetModel::WrappingRow(ms) => {
            lemma_widgets_hint_ok(ms, v);
            let ws = kid_widths(ms, v);
            let ends = wrap_ends(ws, v.size.width as int);
            lemma_kid_widths_index(ms, v);
            lemma_wrap_ends_bounds(ws, v.size.width as int);
            lemma_wrap_groups_hint_ok(ms, v, ends, 0);
            lemma_wrap_height_hints_index(ms, v, ends, 0);
            let hh = wrap_height_hints(ms, v, ends, 0);
            assert forall|i: int| 0 <= i < hh.len() implies hint_ok(#[trigger] hh[i]) by {
                assert(hh[i - 0] == hh[i]);
            };
            assert(hint_seq_ok(hh));
            let wlist = seq![
                HintModel::Sum(whints_of(ms, v)),
                HintModel::Physical(v.size.width as int),
            ];
            assert forall|i: int| 0 <= i < wlist.len() implies hint_ok(#[trigger] wlist[i]) by {
                if i == 0 {
                    assert(wlist[i] == HintModel::Sum(whints_of(ms, v)));
                } else {
                    assert(wlist[i] == HintModel::Physical(v.size.width as int));
                }
            };
            assert(hint_seq_ok(wlist));
        }
        WidgetModel::Column(ms) => lemma_widgets_hint_ok(ms, v),
        WidgetModel::Bordered(c, t) => {
            lemma_widget_hint_ok(*c, v);
            let wlist = seq![width_hint_m(*c, v), HintModel::Physical(2 * t)];
            let hlist = seq![height_hint_m(*c, v), HintModel::Physical(2 * t)];
            assert forall|i: int| 0 <= i < wlist.len() implies hint_ok(#[trigger] wlist[i]) by {
                if i == 0 {
                    assert(wlist[i] == width_hint_m(*c, v));
                } else {
                    assert(wlist[i] == HintModel::Physical(2 * t));
                }
            };
            assert forall|i: int| 0 <= i < hlist.len() implies hint_ok(#[trigger] hlist[i]) by {
                if i == 0 {
                    assert(hlist[i] == height_hint_m(*c, v));
                } else {
                    assert(hlist[i] == HintModel::Physical(2 * t));
                }
            };
            assert(hint_seq_ok(wlist));
            assert(hint_seq_ok(hlist));
        }
        WidgetModel::Cached(c, g) => lemma_widget_hint_ok(*c, v),
        WidgetModel::Overlay(ms) => lemma_widgets_hint_ok(ms, v),
        _ => {}
    }
}

pub proof fn lemma_widgets_hint_ok(ms: Seq<WidgetModel>, v: View)
    requires
        widgets_ok(ms),
    ensures
        hint_seq_ok(whints_of(ms, v)),
        hint_seq_ok(hhints_of(ms, v)),
    decreases ms, 1int, 0int,
{
    lemma_whints_index(ms, v);
    lemma_hhints_index(ms, v);
    assert forall|i: int| 0 <= i < ms.len() implies hint_ok(#[trigger] whints_of(ms, v)[i]) by {
        lemma_widget_hint_ok(ms[i], v);
    };
    assert forall|i: int| 0 <= i < ms.len() implies hint_ok(#[trigger] hhints_of(ms, v)[i]) by {
        lemma_widget_hint_ok(ms[i], v);
    };
}

pub proof fn lemma_wrap_groups_hint_ok(ms: Seq<WidgetModel>, v: View, ends: Seq<int>, k: int)
    requires
        widgets_ok(ms),
        0 <= k <= ends.len(),
        forall|j: int| 0 <= j < ends.len() ==> 0 <= wrap_start(ends, j) <= #[trigger] ends[j] <= ms.len(),
    ensures
        forall|j: int| k <= j < ends.len() ==> hint_ok(#[trigger] wrap_height_hints(ms, v, ends, k)[j - k]),
    decreases ms, 3int, ends.len() - k,
{
    lemma_wrap_height_hints_index(ms, v, ends, k);
    assert forall|j: int| k <= j < ends.len()
        implies hint_ok(#[trigger] wrap_height_hints(ms, v, ends, k)[j - k]) by {
        let lo = wrap_start(ends, j);
        let hi = ends[j];
        lemma_hhints_range_index(ms, v, lo, hi);
        assert forall|i: int| 0 <= i < hhints_range(ms, v, lo, hi).len()
            implies hint_ok(#[trigger] hhints_range(ms, v, lo, hi)[i]) by {
            lemma_widget_hint_ok(ms[lo + i], v);
        };
        assert(hint_seq_ok(hhints_range(ms, v, lo, hi)));
    };
}


// ---------------------------------------------------------------------------
// Evaluability of hints
// ---------------------------------------------------------------------------

/// Machine-limit side conditions for computing a widget's hints against `v`:
/// the line-breaking pass inside a wrapping row resolves each child's width
/// hint, so those resolutions must stay within machine bounds.
pub open spec fn hints_ok(m: WidgetModel, v: View) -> bool
    decreases m, 2int, 0int,
{
    match m {
        WidgetModel::Glyph(c, w, h) => true,
        WidgetModel::Row(ms) => kids_hints_ok(ms, v),
        WidgetModel::WrappingRow(ms) => kids_hints_ok(ms, v)
            && resolve_seq_ok(whints_of(ms, v), v.size.width as int),
        WidgetModel::Column(ms) => kids_hints_ok(ms, v),
        WidgetModel::Bordered(c, t) => hints_ok(*c, v),
        WidgetModel::Cached(c, g) => hints_ok(*c, v),
        WidgetModel::Overlay(ms) => kids_hints_ok(ms, v),
    }
}

pub open spec fn kids_hints_ok(ms: Seq<WidgetModel>, v: View) -> bool
    decreases ms, 1int, 0int,
{
    forall|i: int| 0 <= i < ms.len() ==> hints_ok(#[trigger] ms[i], v)
}

/// The same, restricted to `ms[lo..hi)`.
pub open spec fn kids_hints_ok_range(ms: Seq<WidgetModel>, v: View, lo: int, hi: int) -> bool {
    forall|i: int| lo <= i < hi && 0 <= i < ms.len() ==> hints_ok(#[trigger] ms[i], v)
}

/// The integer values of a width list.
pub open spec fn widths_int(s: Seq<u32>) -> Seq<int> {
    s.map_values(|x: u32| x as int)
}

// ---------------------------------------------------------------------------
// Executable widgets
// ---------------------------------------------------------------------------

impl Widget {
    /// A single-character leaf with the given metric box.
    pub fn glyph(character: char, width: u32, height: u32) -> (r: Widget)
        ensures
            r@ == WidgetModel::Glyph(character, width as int, height as int),
    {
        Widget::Glyph(GlyphWidget::new(character, width, height))
    }

    /// An unwrapped horizontal sequence.
    pub fn row(values: Vec<Widget>) -> (r: Widget)
        ensures
            r@ == WidgetModel::Row(widget_models(values@)),
    {
        Widget::Row(values)
    }

    /// A horizontal sequence that line-breaks under its view's width.
    pub fn wrapping_row(values: Vec<Widget>) -> (r: Widget)
        ensures
            r@ == WidgetModel::WrappingRow(widget_models(values@)),
    {
        Widget::WrappingRow(values)
    }

    /// A vertical sequence.
    pub fn column(values: Vec<Widget>) -> (r: Widget)
        ensures
            r@ == WidgetModel::Column(widget_models(values@)),
    {
        Widget::Column(values)
    }

    /// A parallel composition: every member is laid out in the same view.
    pub fn overlay(values: Vec<Widget>) -> (r: Widget)
        ensures
            r@ == WidgetModel::Overlay(widget_models(values@)),
    {
        Widget::Overlay(values)
    }

    /// A piece of text: a wrapping row of glyph leaves.
    pub fn text(glyphs: Vec<GlyphWidget>) -> (r: Widget)
        ensures
            r@ matches WidgetModel::WrappingRow(ms) && ms.len() == glyphs@.len()
                && forall|i: int| 0 <= i < glyphs@.len() ==> #[trigger] ms[i]
                    == WidgetModel::Glyph(glyphs@[i].character, glyphs@[i].width as int, glyphs@[i].height as int),
    {
        let mut values: Vec<Widget> = Vec::new();
        let mut i: usize = 0;
        while i < glyphs.len()
            invariant
                i <= glyphs@.len(),
                values@.len() == i,
                forall|j: int| 0 <= j < i ==> #[trigger] values@[j] == Widget::Glyph(glyphs@[j]),
            decreases glyphs@.len() - i,
        {
            values.push(Widget::Glyph(*vstd::slice::slice_index_get(glyphs.as_slice(), i)));
            i = i + 1;
        }
        proof {
            lemma_widget_models_index(values@);
        }
        Widget::WrappingRow(values)
    }

    /// Wraps this widget in an inset frame of the given pixel thickness.
    pub fn bordered(self, size: u32) -> (r: Widget)
        ensures
            r@ == WidgetModel::Bordered(Box::new(self@), size as int),
    {
        Widget::Bordered(Box::new(self), size)
    }

    /// Wraps this widget so its produced geometry is memoized until the next
    /// mutable access.
    pub fn cached(self) -> (r: Widget)
        ensures
            r@ == WidgetModel::Cached(Box::new(self@), Option::None),
    {
        Widget::Cached(Box::new(self), Option::None)
    }

    /// This widget's preferred width, as a hint against `view`.
    pub fn width_hint(&self, view: &View) -> (r: SizeHint)
        requires
            widget_ok(self@),
        ensures
            r@ == width_hint_m(self@, *view),
        decreases self, 2int,
    {
        match self {
            Widget::Glyph(g) => SizeHint::Physical(g.width),
            Widget::Row(vals) => SizeHint::Sum(Self::width_hints_of(vals, view)),
            Widget::WrappingRow(vals) => {
                let sum = SizeHint::Sum(Self::width_hints_of(vals, view));
                let pair = vec![sum, SizeHint::Physical(view.width())];
                proof {
                    lemma_hint_models_index(pair@);
                    assert(hint_models(pair@) =~= seq![
                        HintModel::Sum(whints_of(widget_models(vals@), *view)),
                        HintModel::Physical(view.size.width as int),
                    ]);
                }
                SizeHint::Min(pair)
            }
            Widget::Column(vals) => SizeHint::Max(Self::width_hints_of(vals, view)),
            Widget::Bordered(c, t) => {
                let pair = vec![(&**c).width_hint(view), SizeHint::Physical(2 * *t)];
                proof {
                    lemma_hint_models_index(pair@);
                    assert(hint_models(pair@) =~= seq![
                        width_hint_m(widget_model(**c), *view),
                        HintModel::Physical(2 * (*t as int)),
                    ]);
                }
                SizeHint::Sum(pair)
            }
            Widget::Cached(c, _) => (&**c).width_hint(view),
            Widget::Overlay(vals) => SizeHint::Max(Self::width_hints_of(vals, view)),
        }
    }

    /// The width hints of a widget list, in order.
    fn width_hints_of(vals: &Vec<Widget>, view: &View) -> (r: Vec<SizeHint>)
        requires
            widgets_ok(widget_models(vals@)),
        ensures
            hint_models(r@) == whints_of(widget_models(vals@), *view),
        decreases vals, 1int,
    {
        proof {
            lemma_widget_models_index(vals@);
        }
        let ghost ms = widget_models(vals@);
        let mut r: Vec<SizeHint> = Vec::new();
        let mut i: usize = 0;
        while i < vals.len()
            invariant
                i <= vals@.len(),
                ms == widget_models(vals@),
                ms.len() == vals@.len(),
                forall|j: int| 0 <= j < vals@.len() ==> #[trigger] ms[j] == widget_model(vals@[j]),
                widgets_ok(ms),
                r@.len() == i,
                forall|j: int| 0 <= j < i ==> #[trigger] r@[j]@ == width_hint_m(ms[j], *view),
            decreases vals@.len() - i,
        {
            proof {
                assert(ms[i as int] == widget_model(vals@[i as int]));
            }
            let h = vals[i].width_hint(view);
            r.push(h);
            i = i + 1;
        }
        proof {
            lemma_hint_models_index(r@);
            lemma_whints_index(ms, *view);
            assert forall|j: int| 0 <= j < r@.len()
                implies #[trigger] hint_models(r@)[j] == whints_of(ms, *view)[j] by {
                assert(r@[j]@ == width_hint_m(ms[j], *view));
            };
            assert(hint_models(r@) =~= whints_of(ms, *view));
        }
        r
    }

    /// This widget's preferred height, as a hint against `view`.
    #[verifier::rlimit(50)]
    pub fn height_hint(&self, view: &View) -> (r: SizeHint)
        requires
            widget_ok(self@),
            hints_ok(self@, *view),
        ensures
            r@ == height_hint_m(self@, *view),
        decreases self, 2int,
    {
        match self {
            Widget::Glyph(g) => SizeHint::Physical(g.height),
            Widget::Row(vals) => SizeHint::Max(Self::height_hints_of(vals, view)),
            Widget::WrappingRow(vals) => {
                let ghost ms = widget_models(vals@);
                let ws = Self::kid_widths_exec(vals, view);
                let bounds = Self::wrap_bounds_exec(&ws, view.width());
                proof {
                    lemma_widget_models_index(vals@);
                    lemma_kid_widths_index(ms, *view);
                    assert forall|j: int| 0 <= j < ws@.len()
                        implies #[trigger] widths_int(ws@)[j] == kid_widths(ms, *view)[j] by {
                        assert(ws@[j] as int == kid_widths(ms, *view)[j]);
                    };
                    assert(widths_int(ws@) =~= kid_widths(ms, *view));
                    lemma_wrap_ends_bounds(kid_widths(ms, *view), view.size.width as int);
                }
                let ghost ends = wrap_ends(kid_widths(ms, *view), view.size.width as int);
                let mut rows: Vec<SizeHint> = Vec::new();
                let mut k: usize = 0;
                while k < bounds.len()
                    invariant
                        *self is WrappingRow,
                        (*self)->WrappingRow_0 == *vals,
                        k <= bounds@.len(),
                        ms == widget_models(vals@),
                        ms.len() == vals@.len(),
                        forall|j: int| 0 <= j < vals@.len() ==> #[trigger] ms[j] == widget_model(vals@[j]),
                        widgets_ok(ms),
                        kids_hints_ok(ms, *view),
                        ends == wrap_ends(kid_widths(ms, *view), view.size.width as int),
                        bounds@.len() == ends.len(),
                        forall|j: int| 0 <= j < ends.len() ==> #[trigger] bounds@[j] as int == ends[j],
                        forall|j: int| 0 <= j < ends.len()
                            ==> 0 <= wrap_start(ends, j) <= #[trigger] ends[j] <= ms.len(),
                        rows@.len() == k,
                        forall|j: int| 0 <= j < k ==> #[trigger] rows@[j]@
                            == HintModel::Max(hhints_range(ms, *view, wrap_start(ends, j), ends[j])),
                    decreases bounds@.len() - k,
                {
                    let start: usize = if k == 0 { 0 } else { bounds[k - 1] };
                    let end: usize = bounds[k];
                    proof {
                        assert((*self)->WrappingRow_0 == *vals);
                        assert(decreases_to!(*self => *vals));
                        assert forall|j2: int| start <= j2 < end && 0 <= j2 < ms.len()
                            implies hints_ok(#[trigger] ms[j2], *view) by {
                        };
                    }
                    let heights = Self::height_hints_range(vals, view, start, end);
                    rows.push(SizeHint::Max(heights));
                    k = k + 1;
                }
                proof {
                    lemma_hint_models_index(rows@);
                    lemma_wrap_height_hints_index(ms, *view, ends, 0);
                    assert forall|j: int| 0 <= j < rows@.len()
                        implies #[trigger] hint_models(rows@)[j]
                            == wrap_height_hints(ms, *view, ends, 0)[j] by {
                        assert(rows@[j]@ == HintModel::Max(
                            hhints_range(ms, *view, wrap_start(ends, j), ends[j])));
                        assert(wrap_height_hints(ms, *view, ends, 0)[j - 0] == HintModel::Max(
                            hhints_range(ms, *view, wrap_start(ends, j), ends[j])));
                    };
                    assert(hint_models(rows@) =~= wrap_height_hints(ms, *view, ends, 0));
                }
                SizeHint::Sum(rows)
            }
            Widget::Column(vals) => SizeHint::Sum(Self::height_hints_of(vals, view)),
            Widget::Bordered(c, t) => {
                let pair = vec![(&**c).height_hint(view), SizeHint::Physical(2 * *t)];
                proof {
                    lemma_hint_models_index(pair@);
                    assert(hint_models(pair@) =~= seq![
                        height_hint_m(widget_model(**c), *view),
                        HintModel::Physical(2 * (*t as int)),
                    ]);
                }
                SizeHint::Sum(pair)
            }
            Widget::Cached(c, _) => (&**c).height_hint(view),
            Widget::Overlay(vals) => SizeHint::Max(Self::height_hints_of(vals, view)),
        }
    }

    /// The height hints of a widget list, in order.
    fn height_hints_of(vals: &Vec<Widget>, view: &View) -> (r: Vec<SizeHint>)
        requires
            widgets_ok(widget_models(vals@)),
            kids_hints_ok(widget_models(vals@), *view),
        ensures
            hint_models(r@) == hhints_of(widget_models(vals@), *view),
        decreases vals, 1int,
    {
        proof {
            lemma_widget_models_index(vals@);
        }
        let ghost ms = widget_models(vals@);
        let mut r: Vec<SizeHint> = Vec::new();
        let mut i: usize = 0;
        while i < vals.len()
            invariant
                i <= vals@.len(),
                ms == widget_models(vals@),
                ms.len() == vals@.len(),
                forall|j: int| 0 <= j < vals@.len() ==> #[trigger] ms[j] == widget_model(vals@[j]),
                widgets_ok(ms),
                kids_hints_ok(ms, *view),
                r@.len() == i,
                forall|j: int| 0 <= j < i ==> #[trigger] r@[j]@ == height_hint_m(ms[j], *view),
            decreases vals@.len() - i,
        {
            proof {
                assert(ms[i as int] == widget_model(vals@[i as int]));
            }
            let h = vals[i].height_hint(view);
            r.push(h);
            i = i + 1;
        }
        proof {
            lemma_hint_models_index(r@);
            lemma_hhints_index(ms, *view);
            assert forall|j: int| 0 <= j < r@.len()
                implies #[trigger] hint_models(r@)[j] == hhints_of(ms, *view)[j] by {
                assert(r@[j]@ == height_hint_m(ms[j], *view));
            };
            assert(hint_models(r@) =~= hhints_of(ms, *view));
        }
        r
    }

    /// The height hints of `vals[start..end)`, in order.
    fn height_hints_range(vals: &Vec<Widget>, view: &View, start: usize, end: usize) -> (r: Vec<SizeHint>)
        requires
            start <= end <= vals@.len(),
            widgets_ok(widget_models(vals@)),
            kids_hints_ok_range(widget_models(vals@), *view, start as int, end as int),
        ensures
            hint_models(r@) == hhints_range(widget_models(vals@), *view, start as int, end as int),
        decreases vals, 1int,
    {
        proof {
            lemma_widget_models_index(vals@);
        }
        let ghost ms = widget_models(vals@);
        let mut r: Vec<SizeHint> = Vec::new();
        let mut j: usize = start;
        while j < end
            invariant
                start <= j <= end,
                end <= vals@.len(),
                ms == widget_models(vals@),
                ms.len() == vals@.len(),
                forall|j2: int| 0 <= j2 < vals@.len() ==> #[trigger] ms[j2] == widget_model(vals@[j2]),
                widgets_ok(ms),
                kids_hints_ok_range(ms, *view, start as int, end as int),
                r@.len() == j - start,
                forall|j2: int| 0 <= j2 < j - start ==> #[trigger] r@[j2]@
                    == height_hint_m(ms[start + j2], *view),
            decreases end - j,
        {
            proof {
                assert(ms[j as int] == widget_model(vals@[j as int]));
            }
            let h = vals[j].height_hint(view);
            r.push(h);
            j = j + 1;
        }
        proof {
            lemma_hint_models_index(r@);
            lemma_hhints_range_index(ms, *view, start as int, end as int);
            assert forall|j2: int| 0 <= j2 < r@.len()
                implies #[trigger] hint_models(r@)[j2]
                    == hhints_range(ms, *view, start as int, end as int)[j2] by {
                assert(r@[j2]@ == height_hint_m(ms[start + j2], *view));
            };
            assert(hint_models(r@) =~= hhints_range(ms, *view, start as int, end as int));
        }
        r
    }

    /// Each child's width hint resolved to pixels against `view`'s width,
    /// zero when unresolved.
    fn kid_widths_exec(vals: &Vec<Widget>, view: &View) -> (r: Vec<u32>)
        requires
            widgets_ok(widget_models(vals@)),
            resolve_seq_ok(whints_of(widget_models(vals@), *view), view.size.width as int),
        ensures
            r@.len() == vals@.len(),
            forall|i: int| 0 <= i < vals@.len()
                ==> #[trigger] r@[i] as int == kid_widths(widget_models(vals@), *view)[i],
        decreases vals, 3int,
    {
        proof {
            lemma_widget_models_index(vals@);
            lemma_whints_index(widget_models(vals@), *view);
            lemma_kid_widths_index(widget_models(vals@), *view);
        }
        let ghost ms = widget_models(vals@);
        let mut r: Vec<u32> = Vec::new();
        let mut i: usize = 0;
        while i < vals.len()
            invariant
                i <= vals@.len(),
                ms == widget_models(vals@),
                ms.len() == vals@.len(),
                forall|j: int| 0 <= j < vals@.len() ==> #[trigger] ms[j] == widget_model(vals@[j]),
                widgets_ok(ms),
                resolve_seq_ok(whints_of(ms, *view), view.size.width as int),
                whints_of(ms, *view).len() == ms.len(),
                forall|j: int| 0 <= j < ms.len() ==> #[trigger] whints_of(ms, *view)[j]
                    == width_hint_m(ms[j], *view),
                kid_widths(ms, *view).len() == ms.len(),
                forall|j: int| 0 <= j < ms.len() ==> #[trigger] kid_widths(ms, *view)[j]
                    == resolved_or(width_hint_m(ms[j], *view), view.size.width as int, 0),
                r@.len() == i,
                forall|j: int| 0 <= j < i ==> #[trigger] r@[j] as int == kid_widths(ms, *view)[j],
            decreases vals@.len() - i,
        {
            proof {
                assert(ms[i as int] == widget_model(vals@[i as int]));
            }
            let h = vals[i].width_hint(view);
            proof {
                lemma_widget_hint_ok(ms[i as int], *view);
                assert(resolve_ok(whints_of(ms, *view)[i as int], view.size.width as int));
            }
            let w = match view.physical_width_hint(h) {
                Option::Some(x) => x,
                Option::None => 0,
            };
            r.push(w);
            i = i + 1;
        }
        r
    }

    /// One greedy pass over the widths: the exclusive end index of each
    /// wrapped row.
    fn wrap_bounds_exec(ws: &Vec<u32>, budget: u32) -> (r: Vec<usize>)
        ensures
            r@.len() == wrap_ends(widths_int(ws@), budget as int).len(),
            forall|k: int| 0 <= k < r@.len()
                ==> #[trigger] r@[k] as int == wrap_ends(widths_int(ws@), budget as int)[k],
    {
        let ghost wi = widths_int(ws@);
        let mut bs: Vec<usize> = Vec::new();
        let mut acc: u64 = 0;
        let mut i: usize = 0;
        while i < ws.len()
            invariant
                i <= ws@.len(),
                wi == widths_int(ws@),
                wi.len() == ws@.len(),
                forall|j: int| 0 <= j < ws@.len() ==> #[trigger] wi[j] == ws@[j] as int,
                acc as int == wrap_state(wi, budget as int, i as int).1,
                acc <= budget,
                bs@.len() == wrap_state(wi, budget as int, i as int).0.len(),
                forall|k: int| 0 <= k < bs@.len()
                    ==> #[trigger] bs@[k] as int == wrap_state(wi, budget as int, i as int).0[k],
            decreases ws@.len() - i,
        {
            let w = *vstd::slice::slice_index_get(ws.as_slice(), i);
            let next = acc + (w as u64);
            if next > (budget as u64) {
                bs.push(i);
                acc = 0;
            } else {
                acc = next;
            }
            i = i + 1;
        }
        let n = ws.len();
        let last: usize = if bs.len() == 0 { 0 } else { bs[bs.len() - 1] };
        proof {
            lemma_wrap_state_bounds(wi, budget as int, wi.len() as int);
        }
        if last < n {
            bs.push(n);
        }
        bs
    }


    /// The width hints of `vals[start..end)`, in order.
    fn width_hints_range(vals: &Vec<Widget>, view: &View, start: usize, end: usize) -> (r: Vec<SizeHint>)
        requires
            start <= end <= vals@.len(),
            widgets_ok(widget_models(vals@)),
        ensures
            hint_models(r@) == whints_range(widget_models(vals@), *view, start as int, end as int),
        decreases vals, 1int,
    {
        proof {
            lemma_widget_models_index(vals@);
        }
        let ghost ms = widget_models(vals@);
        let mut r: Vec<SizeHint> = Vec::new();
        let mut j: usize = start;
        while j < end
            invariant
                start <= j <= end,
                end <= vals@.len(),
                ms == widget_models(vals@),
                ms.len() == vals@.len(),
                forall|j2: int| 0 <= j2 < vals@.len() ==> #[trigger] ms[j2] == widget_model(vals@[j2]),
                widgets_ok(ms),
                r@.len() == j - start,
                forall|j2: int| 0 <= j2 < j - start ==> #[trigger] r@[j2]@
                    == width_hint_m(ms[start + j2], *view),
            decreases end - j,
        {
            proof {
                assert(ms[j as int] == widget_model(vals@[j as int]));
            }
            let h = vals[j].width_hint(view);
            r.push(h);
            j = j + 1;
        }
        proof {
            lemma_hint_models_index(r@);
            lemma_whints_range_index(ms, *view, start as int, end as int);
            assert forall|j2: int| 0 <= j2 < r@.len()
                implies #[trigger] hint_models(r@)[j2]
                    == whints_range(ms, *view, start as int, end as int)[j2] by {
                assert(r@[j2]@ == width_hint_m(ms[start + j2], *view));
            };
            assert(hint_models(r@) =~= whints_range(ms, *view, start as int, end as int));
        }
        r
    }

    /// The row layout pass over the whole list: shrink the view to the row's
    /// preferred size, split it horizontally, and render every child in its
    /// slot, in place.  Returns the children's geometry in order.
    fn render_row_exec(vals: &mut Vec<Widget>, view: &View) -> (r: Vec<Renderable>)
        requires
            widgets_ok(widget_models(old(vals)@)),
            render_row_range_ok(widget_models(old(vals)@), *view, 0, old(vals)@.len() as int),
        ensures
            widget_models(final(vals)@)
                == render_row_range(widget_models(old(vals)@), *view, 0, old(vals)@.len() as int).0,
            geom_models(r@)
                == render_row_range(widget_models(old(vals)@), *view, 0, old(vals)@.len() as int).1,
        decreases old(vals)@, 2int, 0int,
    {
        let ghost vs0 = vals@;
        let ghost ms = widget_models(vs0);
        let n = vals.len();
        proof {
            lemma_widget_models_index(vs0);
            lemma_range_hints_ok(ms, *view, 0, n as int);
        }
        let whv = Self::width_hints_range(vals, view, 0, n);
        let hhv = Self::height_hints_range(vals, view, 0, n);
        let ghost wh = HintModel::Sum(whints_range(ms, *view, 0, n as int));
        let ghost hh = HintModel::Max(hhints_range(ms, *view, 0, n as int));
        let shrunk = view.from_size_hints(SizeHint::Sum(whv), SizeHint::Max(hhv));
        let ghost shr = from_hints_view(*view, wh, hh);
        proof {
            assert(shrunk == shr);
            lemma_range_hints_ok(ms, shr, 0, n as int);
            lemma_whints_range_index(ms, shr, 0, n as int);
        }
        let hints2 = Self::width_hints_range(vals, &shrunk, 0, n);
        let ghost hs = whints_range(ms, shr, 0, n as int);
        proof {
            lemma_hint_models_index(hints2@);
            assert(hints2@.len() == n);
        }
        let views = shrunk.split_row(hints2);
        let ghost full = render_kids_row(ms, shr, 0, n as int, 0);
        proof {
            lemma_render_kids_row_index(ms, shr, 0, n as int, 0);
            assert forall|i: int| 0 <= i < n
                implies #[trigger] full.0[i] == render_m(ms[i], split_row_view(shr, hs, i)).0 by {
                assert(full.0[i - 0] == render_m(ms[i], split_row_view(shr, hs, i - 0)).0);
            };
            assert forall|i: int| 0 <= i < n
                implies #[trigger] full.1[i] == render_m(ms[i], split_row_view(shr, hs, i)).1 by {
                assert(full.1[i - 0] == render_m(ms[i], split_row_view(shr, hs, i - 0)).1);
            };
        }
        let mut out: Vec<Renderable> = Vec::new();
        let mut j: usize = 0;
        while j < n
            invariant
                j <= n,
                vs0 == old(vals)@,
                n == vals@.len(),
                n == vs0.len(),
                ms == widget_models(vs0),
                ms.len() == n as int,
                forall|i: int| 0 <= i < n ==> #[trigger] ms[i] == widget_model(vs0[i]),
                widgets_ok(ms),
                hs == whints_range(ms, shr, 0, n as int),
                full == render_kids_row(ms, shr, 0, n as int, 0),
                full.0.len() == n,
                full.1.len() == n,
                forall|i: int| 0 <= i < n ==> #[trigger] full.0[i]
                    == render_m(ms[i], split_row_view(shr, hs, i)).0,
                forall|i: int| 0 <= i < n ==> #[trigger] full.1[i]
                    == render_m(ms[i], split_row_view(shr, hs, i)).1,
                views@.len() == n,
                forall|i: int| 0 <= i < n ==> #[trigger] views@[i] == split_row_view(shr, hs, i),
                render_kids_row_ok(ms, shr, 0, n as int, j as int),
                forall|i: int| j <= i < n ==> #[trigger] vals@[i] == vs0[i],
                forall|i: int| 0 <= i < j ==> #[trigger] widget_model(vals@[i]) == full.0[i],
                out@.len() == j,
                forall|i: int| 0 <= i < j ==> #[trigger] geom_model(out@[i]) == full.1[i],
            decreases n - j,
        {
            proof {
                lemma_render_kids_row_ok_unfold(ms, shr, 0, n as int, j as int);
                assert(ms[j as int] == widget_model(vs0[j as int]));
                assert(vals@[j as int] == vs0[j as int]);
                assert(decreases_to!(vs0 => vs0[j as int]));
            }
            let mut child = Widget::Row(Vec::new());
            core::mem::swap(&mut vals[j], &mut child);
            let pair = Self::render_owned(child, &views[j]);
            let mut back = pair.0;
            let rj = pair.1;
            core::mem::swap(&mut vals[j], &mut back);
            out.push(rj);
            j = j + 1;
        }
        proof {
            lemma_widget_models_index(vals@);
            lemma_geom_models_index(out@);
            assert forall|i: int| 0 <= i < n
                implies #[trigger] widget_models(vals@)[i] == full.0[i] by {
                assert(widget_model(vals@[i]) == full.0[i]);
            };
            assert(widget_models(vals@) =~= full.0);
            assert forall|i: int| 0 <= i < n
                implies #[trigger] geom_models(out@)[i] == full.1[i] by {
                assert(geom_model(out@[i]) == full.1[i]);
            };
            assert(geom_models(out@) =~= full.1);
        }
        out
    }

    /// The column layout pass over the whole list, the vertical mirror image
    /// of the row pass.
    fn render_col_exec(vals: &mut Vec<Widget>, view: &View) -> (r: Vec<Renderable>)
        requires
            widgets_ok(widget_models(old(vals)@)),
            render_col_range_ok(widget_models(old(vals)@), *view, 0, old(vals)@.len() as int),
        ensures
            widget_models(final(vals)@)
                == render_col_range(widget_models(old(vals)@), *view, 0, old(vals)@.len() as int).0,
            geom_models(r@)
                == render_col_range(widget_models(old(vals)@), *view, 0, old(vals)@.len() as int).1,
        decreases old(vals)@, 2int, 0int,
    {
        let ghost vs0 = vals@;
        let ghost ms = widget_models(vs0);
        let n = vals.len();
        proof {
            lemma_widget_models_index(vs0);
            lemma_range_hints_ok(ms, *view, 0, n as int);
        }
        let whv = Self::width_hints_range(vals, view, 0, n);
        let hhv = Self::height_hints_range(vals, view, 0, n);
        let ghost wh = HintModel::Max(whints_range(ms, *view, 0, n as int));
        let ghost hh = HintModel::Sum(hhints_range(ms, *view, 0, n as int));
        let shrunk = view.from_size_hints(SizeHint::Max(whv), SizeHint::Sum(hhv));
        let ghost shr = from_hints_view(*view, wh, hh);
        proof {
            assert(shrunk == shr);
            lemma_range_hints_ok(ms, shr, 0, n as int);
            lemma_hhints_range_index(ms, shr, 0, n as int);
        }
        let hints2 = Self::height_hints_range(vals, &shrunk, 0, n);
        let ghost hs = hhints_range(ms, shr, 0, n as int);
        proof {
            lemma_hint_models_index(hints2@);
            assert(hints2@.len() == n);
        }
        let views = shrunk.split_column(hints2);
        let ghost full = render_kids_col(ms, shr, 0, n as int, 0);
        proof {
            lemma_render_kids_col_index(ms, shr, 0, n as int, 0);
            assert forall|i: int| 0 <= i < n
                implies #[trigger] full.0[i] == render_m(ms[i], split_column_view(shr, hs, i)).0 by {
                assert(full.0[i - 0] == render_m(ms[i], split_column_view(shr, hs, i - 0)).0);
            };
            assert forall|i: int| 0 <= i < n
                implies #[trigger] full.1[i] == render_m(ms[i], split_column_view(shr, hs, i)).1 by {
                assert(full.1[i - 0] == render_m(ms[i], split_column_view(shr, hs, i - 0)).1);
            };
        }
        let mut out: Vec<Renderable> = Vec::new();
        let mut j: usize = 0;
        while j < n
            invariant
                j <= n,
                vs0 == old(vals)@,
                n == vals@.len(),
                n == vs0.len(),
                ms == widget_models(vs0),
                ms.len() == n as int,
                forall|i: int| 0 <= i < n ==> #[trigger] ms[i] == widget_model(vs0[i]),
                widgets_ok(ms),
                hs == hhints_range(ms, shr, 0, n as int),
                full == render_kids_col(ms, shr, 0, n as int, 0),
                full.0.len() == n,
                full.1.len() == n,
                forall|i: int| 0 <= i < n ==> #[trigger] full.0[i]
                    == render_m(ms[i], split_column_view(shr, hs, i)).0,
                forall|i: int| 0 <= i < n ==> #[trigger] full.1[i]
                    == render_m(ms[i], split_column_view(shr, hs, i)).1,
                views@.len() == n,
                forall|i: int| 0 <= i < n ==> #[trigger] views@[i] == split_column_view(shr, hs, i),
                render_kids_col_ok(ms, shr, 0, n as int, j as int),
                forall|i: int| j <= i < n ==> #[trigger] vals@[i] == vs0[i],
                forall|i: int| 0 <= i < j ==> #[trigger] widget_model(vals@[i]) == full.0[i],
                out@.len() == j,
                forall|i: int| 0 <= i < j ==> #[trigger] geom_model(out@[i]) == full.1[i],
            decreases n - j,
        {
            proof {
                lemma_render_kids_col_ok_unfold(ms, shr, 0, n as int, j as int);
                assert(ms[j as int] == widget_model(vs0[j as int]));
                assert(vals@[j as int] == vs0[j as int]);
                assert(decreases_to!(vs0 => vs0[j as int]));
            }
            let mut child = Widget::Row(Vec::new());
            core::mem::swap(&mut vals[j], &mut child);
            let pair = Self::render_owned(child, &views[j]);
            let mut back = pair.0;
            let rj = pair.1;
            core::mem::swap(&mut vals[j], &mut back);
            out.push(rj);
            j = j + 1;
        }
        proof {
            lemma_widget_models_index(vals@);
            lemma_geom_models_index(out@);
            assert forall|i: int| 0 <= i < n
                implies #[trigger] widget_models(vals@)[i] == full.0[i] by {
                assert(widget_model(vals@[i]) == full.0[i]);
            };
            assert(widget_models(vals@) =~= full.0);
            assert forall|i: int| 0 <= i < n
                implies #[trigger] geom_models(out@)[i] == full.1[i] by {
                assert(geom_model(out@[i]) == full.1[i]);
            };
            assert(geom_models(out@) =~= full.1);
        }
        out
    }

    /// The overlay pass: every member is rendered in the same shrunk view.
    fn render_overlay_exec(vals: &mut Vec<Widget>, shrunk: &View) -> (r: Vec<Renderable>)
        requires
            widgets_ok(widget_models(old(vals)@)),
            render_kids_overlay_ok(widget_models(old(vals)@), *shrunk, 0),
        ensures
            widget_models(final(vals)@)
                == render_kids_overlay(widget_models(old(vals)@), *shrunk, 0).0,
            geom_models(r@)
                == render_kids_overlay(widget_models(old(vals)@), *shrunk, 0).1,
        decreases old(vals)@, 2int, 0int,
    {
        let ghost vs0 = vals@;
        let ghost ms = widget_models(vs0);
        let n = vals.len();
        proof {
            lemma_widget_models_index(vs0);
        }
        let ghost full = render_kids_overlay(ms, *shrunk, 0);
        proof {
            lemma_render_kids_overlay_index(ms, *shrunk, 0);
            assert forall|i: int| 0 <= i < n
                implies #[trigger] full.0[i] == render_m(ms[i], *shrunk).0 by {
                assert(full.0[i - 0] == render_m(ms[i], *shrunk).0);
            };
            assert forall|i: int| 0 <= i < n
                implies #[trigger] full.1[i] == render_m(ms[i], *shrunk).1 by {
                assert(full.1[i - 0] == render_m(ms[i], *shrunk).1);
            };
        }
        let mut out: Vec<Renderable> = Vec::new();
        let mut j: usize = 0;
        while j < n
            invariant
                j <= n,
                vs0 == old(vals)@,
                n == vals@.len(),
                n == vs0.len(),
                ms == widget_models(vs0),
                ms.len() == n as int,
                forall|i: int| 0 <= i < n ==> #[trigger] ms[i] == widget_model(vs0[i]),
                widgets_ok(ms),
                full == render_kids_overlay(ms, *shrunk, 0),
                full.0.len() == n,
                full.1.len() == n,
                forall|i: int| 0 <= i < n ==> #[trigger] full.0[i] == render_m(ms[i], *shrunk).0,
                forall|i: int| 0 <= i < n ==> #[trigger] full.1[i] == render_m(ms[i], *shrunk).1,
                render_kids_overlay_ok(ms, *shrunk, j as int),
                forall|i: int| j <= i < n ==> #[trigger] vals@[i] == vs0[i],
                forall|i: int| 0 <= i < j ==> #[trigger] widget_model(vals@[i]) == full.0[i],
                out@.len() == j,
                forall|i: int| 0 <= i < j ==> #[trigger] geom_model(out@[i]) == full.1[i],
            decreases n - j,
        {
            proof {
                assert(ms[j as int] == widget_model(vs0[j as int]));
                assert(vals@[j as int] == vs0[j as int]);
                assert(decreases_to!(vs0 => vs0[j as int]));
            }
            let mut child = Widget::Row(Vec::new());
            core::mem::swap(&mut vals[j], &mut child);
            let pair = Self::render_owned(child, shrunk);
            let mut back = pair.0;
            let rj = pair.1;
            core::mem::swap(&mut vals[j], &mut back);
            out.push(rj);
            j = j + 1;
        }
        proof {
            lemma_widget_models_index(vals@);
            lemma_geom_models_index(out@);
            assert forall|i: int| 0 <= i < n
                implies #[trigger] widget_models(vals@)[i] == full.0[i] by {
                assert(widget_model(vals@[i]) == full.0[i]);
            };
            assert(widget_models(vals@) =~= full.0);
            assert forall|i: int| 0 <= i < n
                implies #[trigger] geom_models(out@)[i] == full.1[i] by {
                assert(geom_model(out@[i]) == full.1[i]);
            };
            assert(geom_models(out@) =~= full.1);
        }
        out
    }


    /// Renders an owned widget: the workhorse behind `get_renderable`.
    #[verifier::rlimit(100)]
    fn render_owned(w: Widget, view: &View) -> (res: (Widget, Renderable))
        requires
            widget_ok(w@),
            render_ok(w@, *view),
        ensures
            res.0@ == render_m(w@, *view).0,
            res.1@ == render_m(w@, *view).1,
        decreases w, 4int, 0int,
    {
        let ghost w0 = w;
        let ghost m = w@;
        match w {
            Widget::Glyph(g) => {
                let target = view.from_size_hints(
                    SizeHint::Physical(g.width),
                    SizeHint::Physical(g.height),
                );
                let co = target.corners();
                let verts = vec![co[0], co[1], co[2], co[3]];
                let indices = vec![0u16, 1u16, 2u16, 2u16, 3u16, 0u16];
                proof {
                    assert(verts@ =~= corners_spec(target));
                    assert(indices@ =~= seq![0u16, 1u16, 2u16, 2u16, 3u16, 0u16]);
                }
                let mesh = Mesh {
                    vertices: verts,
                    indices,
                    source: MeshSource::Glyph(g.character),
                };
                (Widget::Glyph(g), Renderable::Mesh(mesh))
            }
            Widget::Row(mut vals) => {
                proof {
                    assert(w0 == Widget::Row(vals));
                    lemma_widget_models_index(vals@);
                    assert(m == WidgetModel::Row(widget_models(vals@)));
                    assert(render_row_range_ok(widget_models(vals@), *view, 0, vals@.len() as int));
                    assert(decreases_to!(w0 => vals));
                    assert(decreases_to!(vals => vals@));
                }
                let r = Self::render_row_exec(&mut vals, view);
                (Widget::Row(vals), Renderable::Group(r))
            }
            Widget::Column(mut vals) => {
                proof {
                    assert(w0 == Widget::Column(vals));
                    lemma_widget_models_index(vals@);
                    assert(m == WidgetModel::Column(widget_models(vals@)));
                    assert(render_col_range_ok(widget_models(vals@), *view, 0, vals@.len() as int));
                    assert(decreases_to!(w0 => vals));
                    assert(decreases_to!(vals => vals@));
                }
                let r = Self::render_col_exec(&mut vals, view);
                (Widget::Column(vals), Renderable::Group(r))
            }
            Widget::Overlay(mut vals) => {
                let ghost ms = widget_models(vals@);
                let n = vals.len();
                proof {
                    assert(w0 == Widget::Overlay(vals));
                    lemma_widget_models_index(vals@);
                    assert(m == WidgetModel::Overlay(widget_models(vals@)));
                    assert(decreases_to!(w0 => vals));
                    assert(decreases_to!(vals => vals@));
                    lemma_range_hints_ok(ms, *view, 0, n as int);
                }
                let whv = Self::width_hints_range(&vals, view, 0, n);
                let hhv = Self::height_hints_range(&vals, view, 0, n);
                let ghost wh = HintModel::Max(whints_range(ms, *view, 0, n as int));
                let ghost hh = HintModel::Max(hhints_range(ms, *view, 0, n as int));
                let shrunk = view.from_size_hints(SizeHint::Max(whv), SizeHint::Max(hhv));
                proof {
                    assert(shrunk == from_hints_view(*view, wh, hh));
                }
                let r = Self::render_overlay_exec(&mut vals, &shrunk);
                (Widget::Overlay(vals), Renderable::Group(r))
            }
            Widget::Bordered(c, t) => {
                let ghost cm = widget_model(*c);
                let wpair = vec![(&*c).width_hint(view), SizeHint::Physical(2 * t)];
                let hpair = vec![(&*c).height_hint(view), SizeHint::Physical(2 * t)];
                let ghost wh = HintModel::Sum(seq![width_hint_m(cm, *view), HintModel::Physical(2 * (t as int))]);
                let ghost hh = HintModel::Sum(seq![height_hint_m(cm, *view), HintModel::Physical(2 * (t as int))]);
                proof {
                    lemma_hint_models_index(wpair@);
                    lemma_hint_models_index(hpair@);
                    assert(hint_models(wpair@)
                        =~= seq![width_hint_m(cm, *view), HintModel::Physical(2 * (t as int))]);
                    assert(hint_models(hpair@)
                        =~= seq![height_hint_m(cm, *view), HintModel::Physical(2 * (t as int))]);
                    lemma_widget_hint_ok(cm, *view);
                    assert forall|i: int| 0 <= i < hint_models(wpair@).len()
                        implies hint_ok(#[trigger] hint_models(wpair@)[i]) by {
                        if i == 0 {
                            assert(hint_models(wpair@)[i] == width_hint_m(cm, *view));
                        } else {
                            assert(hint_models(wpair@)[i] == HintModel::Physical(2 * (t as int)));
                        }
                    };
                    assert(hint_seq_ok(hint_models(wpair@)));
                    assert forall|i: int| 0 <= i < hint_models(hpair@).len()
                        implies hint_ok(#[trigger] hint_models(hpair@)[i]) by {
                        if i == 0 {
                            assert(hint_models(hpair@)[i] == height_hint_m(cm, *view));
                        } else {
                            assert(hint_models(hpair@)[i] == HintModel::Physical(2 * (t as int)));
                        }
                    };
                    assert(hint_seq_ok(hint_models(hpair@)));
                }
                let outer = view.from_size_hints(SizeHint::Sum(wpair), SizeHint::Sum(hpair));
                proof {
                    assert(outer == from_hints_view(*view, wh, hh));
                }
                let both = outer.bordered(t);
                let inner = both.1;
                proof {
                    assert(inner == inset_view(outer, t as int));
                    assert(w0 == Widget::Bordered(c, t));
                    assert(decreases_to!(w0 => c));
                }
                let pair = Self::render_owned(*c, &inner);
                let co = outer.corners();
                let ci = inner.corners();
                let verts = vec![co[0], co[1], co[2], co[3], ci[0], ci[1], ci[2], ci[3]];
                let indices = vec![
                    0u16, 1u16, 4u16, 1u16, 5u16, 4u16,
                    0u16, 4u16, 3u16, 4u16, 7u16, 3u16,
                    3u16, 7u16, 6u16, 3u16, 6u16, 2u16,
                    1u16, 6u16, 5u16, 1u16, 2u16, 6u16,
                ];
                proof {
                    assert(verts@ =~= corners_spec(outer) + corners_spec(inner));
                    assert(indices@ =~= border_indices());
                }
                let frame = Renderable::Mesh(Mesh {
                    vertices: verts,
                    indices,
                    source: MeshSource::Border,
                });
                let group = vec![frame, pair.1];
                proof {
                    lemma_geom_models_index(group@);
                    assert(geom_models(group@)
                        =~= seq![border_geom(outer, inner), render_m(cm, inner).1]);
                }
                (Widget::Bordered(Box::new(pair.0), t), Renderable::Group(group))
            }
            Widget::Cached(c, gopt) => match gopt {
                Option::Some(rc) => {
                    let share = share_handle(&rc);
                    (Widget::Cached(c, Option::Some(rc)), Renderable::Shared(share))
                }
                Option::None => {
                    proof {
                        assert(w0 == Widget::Cached(c, Option::None::<Rc<Renderable>>));
                        assert(decreases_to!(w0 => c));
                    }
                    let pair = Self::render_owned(*c, view);
                    let rc = Rc::new(pair.1);
                    let share = share_handle(&rc);
                    (
                        Widget::Cached(Box::new(pair.0), Option::Some(share)),
                        Renderable::Shared(rc),
                    )
                }
            },
            Widget::WrappingRow(vals) => {
                proof {
                    assert(w0 == Widget::WrappingRow(vals));
                    lemma_widget_models_index(vals@);
                    assert(m == WidgetModel::WrappingRow(widget_models(vals@)));
                    assert(decreases_to!(w0 => vals));
                    assert(decreases_to!(vals => vals@));
                }
                let pair = Self::render_wrapping_exec(vals, view);
                (Widget::WrappingRow(pair.0), Renderable::Group(pair.1))
            }
        }
    }

    /// The line-breaking pass: group the children greedily by their resolved
    /// widths, then lay the rows out as a column of rows.
    #[verifier::rlimit(100)]
    fn render_wrapping_exec(vals: Vec<Widget>, view: &View) -> (res: (Vec<Widget>, Vec<Renderable>))
        requires
            widgets_ok(widget_models(vals@)),
            render_ok(WidgetModel::WrappingRow(widget_models(vals@)), *view),
        ensures
            WidgetModel::WrappingRow(widget_models(res.0@))
                == render_m(WidgetModel::WrappingRow(widget_models(vals@)), *view).0,
            GeomModel::Group(geom_models(res.1@))
                == render_m(WidgetModel::WrappingRow(widget_models(vals@)), *view).1,
        decreases vals@, 4int, 0int,
    {
        {
                let mut vals = vals;
                let ghost vs0 = vals@;
                let mut vals = vals;
                let ghost vs0 = vals@;
                let ghost ms = widget_models(vs0);
                let n = vals.len();
                proof {
                    lemma_widget_models_index(vs0);
                    lemma_whints_full(ms, *view);
                }
                let ws = Self::kid_widths_exec(&vals, view);
                let bounds = Self::wrap_bounds_exec(&ws, view.width());
                let ghost wsq = kid_widths(ms, *view);
                proof {
                    lemma_kid_widths_index(ms, *view);
                    assert forall|i: int| 0 <= i < ws@.len()
                        implies #[trigger] widths_int(ws@)[i] == wsq[i] by {
                        assert(ws@[i] as int == wsq[i]);
                    };
                    assert(widths_int(ws@) =~= wsq);
                    lemma_wrap_ends_bounds(wsq, view.size.width as int);
                }
                let ghost ends = wrap_ends(wsq, view.size.width as int);
                let ghost colw = HintModel::Max(row_whints(ms, *view, ends, 0));
                let ghost colh = HintModel::Sum(wrap_height_hints(ms, *view, ends, 0));
                proof {
                    lemma_row_whints_index(ms, *view, ends, 0);
                    lemma_wrap_height_hints_index(ms, *view, ends, 0);
                    assert forall|i: int| 0 <= i < ends.len()
                        implies #[trigger] row_whints(ms, *view, ends, 0)[i]
                            == HintModel::Sum(whints_range(ms, *view, wrap_start(ends, i), ends[i])) by {
                        assert(row_whints(ms, *view, ends, 0)[i - 0]
                            == HintModel::Sum(whints_range(ms, *view, wrap_start(ends, i), ends[i])));
                    };
                    assert forall|i: int| 0 <= i < ends.len()
                        implies #[trigger] wrap_height_hints(ms, *view, ends, 0)[i]
                            == HintModel::Max(hhints_range(ms, *view, wrap_start(ends, i), ends[i])) by {
                        assert(wrap_height_hints(ms, *view, ends, 0)[i - 0]
                            == HintModel::Max(hhints_range(ms, *view, wrap_start(ends, i), ends[i])));
                    };
                }
                // the rows' own hints against the given view
                let nk = bounds.len();
                let mut rowsw: Vec<SizeHint> = Vec::new();
                let mut rowsh: Vec<SizeHint> = Vec::new();
                let mut k: usize = 0;
                while k < nk
                    invariant
                        k <= nk,
                        n == vals@.len(),
                        vs0 == vals@,
                        ms == widget_models(vs0),
                        ms.len() == n as int,
                        widgets_ok(ms),
                        kids_hints_ok_range(ms, *view, 0, n as int),
                        ends == wrap_ends(wsq, view.size.width as int),
                        nk == ends.len(),
                        forall|i: int| 0 <= i < ends.len() ==> #[trigger] bounds@[i] as int == ends[i],
                        bounds@.len() == ends.len(),
                        forall|i: int| 0 <= i < ends.len()
                            ==> 0 <= wrap_start(ends, i) <= #[trigger] ends[i] <= n as int,
                        row_whints(ms, *view, ends, 0).len() == ends.len(),
                        forall|i: int| 0 <= i < ends.len() ==> #[trigger] row_whints(ms, *view, ends, 0)[i]
                            == HintModel::Sum(whints_range(ms, *view, wrap_start(ends, i), ends[i])),
                        wrap_height_hints(ms, *view, ends, 0).len() == ends.len(),
                        forall|i: int| 0 <= i < ends.len() ==> #[trigger] wrap_height_hints(ms, *view, ends, 0)[i]
                            == HintModel::Max(hhints_range(ms, *view, wrap_start(ends, i), ends[i])),
                        rowsw@.len() == k,
                        rowsh@.len() == k,
                        forall|i: int| 0 <= i < k ==> #[trigger] rowsw@[i]@
                            == row_whints(ms, *view, ends, 0)[i],
                        forall|i: int| 0 <= i < k ==> #[trigger] rowsh@[i]@
                            == wrap_height_hints(ms, *view, ends, 0)[i],
                    decreases nk - k,
                {
                    let start: usize = if k == 0 { 0 } else { bounds[k - 1] };
                    let end: usize = bounds[k];
                    let rw = Self::width_hints_range(&vals, view, start, end);
                    let rh = Self::height_hints_range(&vals, view, start, end);
                    rowsw.push(SizeHint::Sum(rw));
                    rowsh.push(SizeHint::Max(rh));
                    k = k + 1;
                }
                proof {
                    lemma_hint_models_index(rowsw@);
                    lemma_hint_models_index(rowsh@);
                    assert forall|i: int| 0 <= i < rowsw@.len()
                        implies #[trigger] hint_models(rowsw@)[i] == row_whints(ms, *view, ends, 0)[i] by {
                        assert(rowsw@[i]@ == row_whints(ms, *view, ends, 0)[i]);
                    };
                    assert(hint_models(rowsw@) =~= row_whints(ms, *view, ends, 0));
                    assert forall|i: int| 0 <= i < rowsh@.len()
                        implies #[trigger] hint_models(rowsh@)[i] == wrap_height_hints(ms, *view, ends, 0)[i] by {
                        assert(rowsh@[i]@ == wrap_height_hints(ms, *view, ends, 0)[i]);
                    };
                    assert(hint_models(rowsh@) =~= wrap_height_hints(ms, *view, ends, 0));
                    // the column hints are well-formed
                    assert forall|i: int| 0 <= i < row_whints(ms, *view, ends, 0).len()
                        implies hint_ok(#[trigger] row_whints(ms, *view, ends, 0)[i]) by {
                        lemma_range_hints_ok(ms, *view, wrap_start(ends, i), ends[i]);
                    };
                    assert(hint_seq_ok(row_whints(ms, *view, ends, 0)));
                    lemma_wrap_groups_hint_ok(ms, *view, ends, 0);
                    assert forall|i: int| 0 <= i < wrap_height_hints(ms, *view, ends, 0).len()
                        implies hint_ok(#[trigger] wrap_height_hints(ms, *view, ends, 0)[i]) by {
                        assert(wrap_height_hints(ms, *view, ends, 0)[i - 0]
                            == wrap_height_hints(ms, *view, ends, 0)[i]);
                    };
                    assert(hint_seq_ok(wrap_height_hints(ms, *view, ends, 0)));
                }
                let shrunk = view.from_size_hints(SizeHint::Max(rowsw), SizeHint::Sum(rowsh));
                let ghost shr = from_hints_view(*view, colw, colh);
                proof {
                    assert(shrunk == shr);
                    lemma_wrap_height_hints_index(ms, shr, ends, 0);
                    assert forall|i: int| 0 <= i < ends.len()
                        implies #[trigger] wrap_height_hints(ms, shr, ends, 0)[i]
                            == HintModel::Max(hhints_range(ms, shr, wrap_start(ends, i), ends[i])) by {
                        assert(wrap_height_hints(ms, shr, ends, 0)[i - 0]
                            == HintModel::Max(hhints_range(ms, shr, wrap_start(ends, i), ends[i])));
                    };
                }
                // the rows' height hints against the shrunk view drive the split
                let mut rowsh2: Vec<SizeHint> = Vec::new();
                let mut k2: usize = 0;
                while k2 < nk
                    invariant
                        k2 <= nk,
                        n == vals@.len(),
                        vs0 == vals@,
                        shrunk == shr,
                        ms == widget_models(vs0),
                        ms.len() == n as int,
                        widgets_ok(ms),
                        kids_hints_ok_range(ms, shr, 0, n as int),
                        ends == wrap_ends(wsq, view.size.width as int),
                        nk == ends.len(),
                        bounds@.len() == ends.len(),
                        forall|i: int| 0 <= i < ends.len() ==> #[trigger] bounds@[i] as int == ends[i],
                        forall|i: int| 0 <= i < ends.len()
                            ==> 0 <= wrap_start(ends, i) <= #[trigger] ends[i] <= n as int,
                        wrap_height_hints(ms, shr, ends, 0).len() == ends.len(),
                        forall|i: int| 0 <= i < ends.len() ==> #[trigger] wrap_height_hints(ms, shr, ends, 0)[i]
                            == HintModel::Max(hhints_range(ms, shr, wrap_start(ends, i), ends[i])),
                        rowsh2@.len() == k2,
                        forall|i: int| 0 <= i < k2 ==> #[trigger] rowsh2@[i]@
                            == wrap_height_hints(ms, shr, ends, 0)[i],
                    decreases nk - k2,
                {
                    let start: usize = if k2 == 0 { 0 } else { bounds[k2 - 1] };
                    let end: usize = bounds[k2];
                    let rh = Self::height_hints_range(&vals, &shrunk, start, end);
                    rowsh2.push(SizeHint::Max(rh));
                    k2 = k2 + 1;
                }
                let ghost rowhints = wrap_height_hints(ms, shr, ends, 0);
                proof {
                    lemma_hint_models_index(rowsh2@);
                    assert forall|i: int| 0 <= i < rowsh2@.len()
                        implies #[trigger] hint_models(rowsh2@)[i] == rowhints[i] by {
                        assert(rowsh2@[i]@ == rowhints[i]);
                    };
                    assert(hint_models(rowsh2@) =~= rowhints);
                    lemma_wrap_groups_hint_ok(ms, shr, ends, 0);
                    assert forall|i: int| 0 <= i < rowhints.len()
                        implies hint_ok(#[trigger] rowhints[i]) by {
                        assert(wrap_height_hints(ms, shr, ends, 0)[i - 0] == rowhints[i]);
                    };
                    assert(hint_seq_ok(rowhints));
                }
                let views = shrunk.split_column(rowsh2);
                proof {
                    assert(vs0.subrange(0, n as int) =~= vs0);
                    assert(ms.subrange(0, ms.len() as int) =~= ms);
                    assert(wrap_start(ends, 0) == 0);
                    assert(decreases_to!(vals => vals@));
                }
                let pair2 = Self::render_wrap_rows_exec(
                    vals, &bounds, &views, 0, Ghost(ms), Ghost(shr), Ghost(ends));
                pair2
        }
    }


    /// Renders wrapped row `k` and onwards: `vals` holds the children from
    /// row `k`'s start to the end; each row is split off, laid out as a row
    /// in its vertical slot, and the rendered children are stitched back
    /// together in order.
    #[verifier::rlimit(100)]
    #[verifier::spinoff_prover]
    fn render_wrap_rows_exec(
        vals: Vec<Widget>,
        bounds: &Vec<usize>,
        views: &Vec<View>,
        k: usize,
        Ghost(ms): Ghost<Seq<WidgetModel>>,
        Ghost(shr): Ghost<View>,
        Ghost(ends): Ghost<Seq<int>>,
    ) -> (res: (Vec<Widget>, Vec<Renderable>))
        requires
            k <= ends.len(),
            bounds@.len() == ends.len(),
            forall|i: int| 0 <= i < ends.len() ==> #[trigger] bounds@[i] as int == ends[i],
            forall|i: int| 0 <= i < ends.len()
                ==> 0 <= wrap_start(ends, i) <= #[trigger] ends[i] <= ms.len(),
            forall|i1: int, i2: int| 0 <= i1 < i2 < ends.len()
                ==> #[trigger] ends[i1] < #[trigger] ends[i2],
            ends.len() > 0 ==> ends.last() == ms.len(),
            ends.len() == 0 ==> ms.len() == 0,
            views@.len() == ends.len(),
            forall|i: int| 0 <= i < ends.len() ==> #[trigger] views@[i]
                == split_column_view(shr, wrap_height_hints(ms, shr, ends, 0), i),
            widgets_ok(ms),
            widget_models(vals@) == ms.subrange(wrap_start(ends, k as int), ms.len() as int),
            render_wrap_rows_ok(ms, shr, ends, k as int),
        ensures
            widget_models(res.0@) == render_wrap_rows(ms, shr, ends, k as int).0,
            geom_models(res.1@) == render_wrap_rows(ms, shr, ends, k as int).1,
        decreases vals@, 3int, ends.len() - k,
    {
        let ghost vstart = wrap_start(ends, k as int);
        proof {
            lemma_widget_models_index(vals@);
        }
        if k >= bounds.len() {
            proof {
                assert(vals@.len() == ms.len() - vstart);
                assert(vals@.len() == 0);
                assert(widget_models(vals@) =~= Seq::<WidgetModel>::empty());
                lemma_geom_models_index(Seq::<Renderable>::empty());
            }
            let empty_g: Vec<Renderable> = Vec::new();
            proof {
                assert(geom_models(empty_g@) =~= Seq::<GeomModel>::empty());
            }
            (vals, empty_g)
        } else {
            let ghost vs0 = vals@;
            let start: usize = if k == 0 { 0 } else { bounds[k - 1] };
            let end: usize = bounds[k];
            let row_len: usize = end - start;
            let mut row = vals;
            let tail = row.split_off(row_len);
            let ghost sub = ms.subrange(start as int, end as int);
            let ghost vk = split_column_view(shr, wrap_height_hints(ms, shr, ends, 0), k as int);
            proof {
                assert(row@ =~= vs0.subrange(0, row_len as int));
                lemma_widget_models_subrange(vs0, 0, row_len as int);
                assert(widget_models(row@) =~= sub);
                lemma_wrap_row_pre(ms, shr, ends, k as int);
                if (row_len as int) < vs0.len() {
                    assert(decreases_to!(vs0 => vs0.subrange(0, row_len as int)));
                } else {
                    assert(vs0.subrange(0, row_len as int) =~= vs0);
                }
            }
            let rgeoms = Self::render_row_exec(&mut row, &views[k]);
            proof {
                if 0 < row_len as int {
                    assert(decreases_to!(vs0 => vs0.subrange(row_len as int, vs0.len() as int)));
                } else {
                    assert(vs0.subrange(row_len as int, vs0.len() as int) =~= vs0);
                }
                assert(tail@ == vs0.subrange(row_len as int, vs0.len() as int));
                lemma_widget_models_subrange(vs0, row_len as int, vs0.len() as int);
                assert(widget_models(tail@) =~= ms.subrange(end as int, ms.len() as int));
                assert(wrap_start(ends, k + 1) == end as int);
            }
            let rest = Self::render_wrap_rows_exec(
                tail, bounds, views, k + 1, Ghost(ms), Ghost(shr), Ghost(ends));
            let mut acc = row;
            let mut rest0 = rest.0;
            let ghost acc_before = acc@;
            let ghost rest0s = rest0@;
            acc.append(&mut rest0);
            let mut geoms: Vec<Renderable> = Vec::new();
            geoms.push(Renderable::Group(rgeoms));
            let mut restg = rest.1;
            let ghost restgs = restg@;
            geoms.append(&mut restg);
            proof {
                let rowp = render_row_range(ms, vk, start as int, end as int);
                let restp = render_wrap_rows(ms, shr, ends, k + 1);
                let stepp = render_wrap_rows(ms, shr, ends, k as int);
                assert(stepp.0 == rowp.0 + restp.0);
                assert(stepp.1 == seq![GeomModel::Group(rowp.1)] + restp.1);
                lemma_widget_models_concat(acc_before, rest0s);
                assert(widget_models(acc@) == widget_models(acc_before) + widget_models(rest0s));
                assert(widget_models(acc@) =~= stepp.0);
                assert(geoms@ =~= seq![Renderable::Group(rgeoms)] + restgs);
                lemma_geom_models_cons(Renderable::Group(rgeoms), restgs);
                assert(geom_model(Renderable::Group(rgeoms)) == GeomModel::Group(rowp.1));
                assert(geom_models(geoms@) =~= stepp.1);
            }
            (acc, geoms)
        }
    }


    /// One layout-and-render pass: computes the geometry this widget
    /// produces in `view`, filling every empty cache along the way.
    pub fn get_renderable(&mut self, view: &View) -> (r: Renderable)
        requires
            widget_ok(old(self)@),
            render_ok(old(self)@, *view),
        ensures
            final(self)@ == render_m(old(self)@, *view).0,
            r@ == render_m(old(self)@, *view).1,
    {
        let mut tmp = Widget::Row(Vec::new());
        core::mem::swap(self, &mut tmp);
        let pair = Self::render_owned(tmp, view);
        let mut back = pair.0;
        core::mem::swap(self, &mut back);
        pair.1
    }

    /// Notifies the tree of a new surface size: a border shrinks the size it
    /// hands on by twice its thickness, and a cache forgets its memoized
    /// geometry because its child was reached mutably.  Other widgets keep
    /// no size state.
    pub fn resize(&mut self, width: u32, height: u32)
        requires
            resize_ok(old(self)@, width as int, height as int),
        ensures
            final(self)@ == resize_m(old(self)@, width as int, height as int),
        decreases *old(self),
    {
        match self {
            Widget::Bordered(c, t) => {
                let tv = *t;
                (&mut **c).resize(width - 2 * tv, height - 2 * tv);
            }
            Widget::Cached(c, g) => {
                *g = Option::None;
                (&mut **c).resize(width, height);
            }
            _ => {}
        }
    }
}

/// What a resize notification does to the tree: borders pass on a size
/// shrunk by their thickness, caches are invalidated by the mutable access
/// and pass the size through; everything else is untouched.
pub open spec fn resize_m(m: WidgetModel, width: int, height: int) -> WidgetModel
    decreases m,
{
    match m {
        WidgetModel::Bordered(c, t) => WidgetModel::Bordered(
            Box::new(resize_m(*c, width - 2 * t, height - 2 * t)),
            t,
        ),
        WidgetModel::Cached(c, g) => WidgetModel::Cached(
            Box::new(resize_m(*c, width, height)),
            Option::None,
        ),
        _ => m,
    }
}

/// The shrinking size never underflows along the border spine.
pub open spec fn resize_ok(m: WidgetModel, width: int, height: int) -> bool
    decreases m,
{
    match m {
        WidgetModel::Bordered(c, t) => 0 <= t && 2 * t <= width && 2 * t <= height
            && resize_ok(*c, width - 2 * t, height - 2 * t),
        WidgetModel::Cached(c, g) => resize_ok(*c, width, height),
        _ => true,
    }
}


// ---------------------------------------------------------------------------
// Rendering: the layout semantics
// ---------------------------------------------------------------------------

/// The width hints of `ms[lo..hi)`, guarding against out-of-range bounds.
pub open spec fn whints_range(ms: Seq<WidgetModel>, v: View, lo: int, hi: int) -> Seq<HintModel>
    decreases ms, 1int, hi - lo,
{
    if lo < 0 || hi > ms.len() || lo >= hi {
        Seq::empty()
    } else {
        whints_range(ms, v, lo, hi - 1).push(width_hint_m(ms[hi - 1], v))
    }
}

/// `whints_range` maps `ms[lo..hi)` pointwise.
pub proof fn lemma_whints_range_index(ms: Seq<WidgetModel>, v: View, lo: int, hi: int)
    requires
        0 <= lo <= hi <= ms.len(),
    ensures
        whints_range(ms, v, lo, hi).len() == hi - lo,
        forall|j: int| 0 <= j < hi - lo ==> #[trigger] whints_range(ms, v, lo, hi)[j]
            == width_hint_m(ms[lo + j], v),
    decreases hi - lo,
{
    if lo < hi {
        lemma_whints_range_index(ms, v, lo, hi - 1);
    }
}

/// Row `k`'s width hint and onwards: the summed widths of each wrapped row.
pub open spec fn row_whints(ms: Seq<WidgetModel>, v: View, ends: Seq<int>, k: int) -> Seq<HintModel>
    decreases ms, 3int, ends.len() - k,
{
    if k >= ends.len() {
        Seq::empty()
    } else {
        seq![
            HintModel::Sum(whints_range(ms, v, wrap_start(ends, k), ends[k]))
        ] + row_whints(ms, v, ends, k + 1)
    }
}

pub proof fn lemma_row_whints_index(ms: Seq<WidgetModel>, v: View, ends: Seq<int>, k: int)
    requires
        0 <= k <= ends.len(),
    ensures
        row_whints(ms, v, ends, k).len() == ends.len() - k,
        forall|j: int| k <= j < ends.len() ==> #[trigger] row_whints(ms, v, ends, k)[j - k]
            == HintModel::Sum(whints_range(ms, v, wrap_start(ends, j), ends[j])),
    decreases ends.len() - k,
{
    if k < ends.len() {
        lemma_row_whints_index(ms, v, ends, k + 1);
        let head = seq![HintModel::Sum(whints_range(ms, v, wrap_start(ends, k), ends[k]))];
        let rest = row_whints(ms, v, ends, k + 1);
        assert forall|j: int| k <= j < ends.len()
            implies #[trigger] row_whints(ms, v, ends, k)[j - k]
                == HintModel::Sum(whints_range(ms, v, wrap_start(ends, j), ends[j])) by {
            if j == k {
                assert((head + rest)[0] == head[0]);
            } else {
                assert((head + rest)[j - k] == rest[j - k - 1]);
                assert(rest[j - (k + 1)] == HintModel::Sum(
                    whints_range(ms, v, wrap_start(ends, j), ends[j])));
            }
        };
    }
}

/// Every hint drawn from a well-formed widget range is well-formed.
pub proof fn lemma_range_hints_ok(ms: Seq<WidgetModel>, v: View, lo: int, hi: int)
    requires
        widgets_ok(ms),
        0 <= lo <= hi <= ms.len(),
    ensures
        hint_seq_ok(whints_range(ms, v, lo, hi)),
        hint_seq_ok(hhints_range(ms, v, lo, hi)),
{
    lemma_whints_range_index(ms, v, lo, hi);
    lemma_hhints_range_index(ms, v, lo, hi);
    assert forall|j: int| 0 <= j < hi - lo
        implies hint_ok(#[trigger] whints_range(ms, v, lo, hi)[j]) by {
        lemma_widget_hint_ok(ms[lo + j], v);
    };
    assert forall|j: int| 0 <= j < hi - lo
        implies hint_ok(#[trigger] hhints_range(ms, v, lo, hi)[j]) by {
        lemma_widget_hint_ok(ms[lo + j], v);
    };
}

/// The view a border leaves for its child: shrunk by the thickness on every
/// side.
pub open spec fn inset_view(v: View, t: int) -> View {
    View {
        global: v.global,
        size: PhysicalSize {
            width: (v.size.width - 2 * t) as u32,
            height: (v.size.height - 2 * t) as u32,
        },
        offset: PhysicalPosition {
            x: (v.offset.x + t) as u32,
            y: (v.offset.y + t) as u32,
        },
    }
}

/// The quad a glyph produces: the corners of the view shrunk to the glyph's
/// metric box, as two triangles.
pub open spec fn glyph_geom(c: char, w: int, h: int, view: View) -> GeomModel {
    let target = from_hints_view(view, HintModel::Physical(w), HintModel::Physical(h));
    GeomModel::Mesh(MeshModel {
        vertices: corners_spec(target),
        indices: seq![0u16, 1u16, 2u16, 2u16, 3u16, 0u16],
        source: MeshSource::Glyph(c),
    })
}

/// The triangulation of a border frame over its eight corner vertices (four
/// outer, then four inner): each outer edge is connected to the matching
/// inner edge by two triangles.
pub open spec fn border_indices() -> Seq<u16> {
    seq![
        0u16, 1u16, 4u16, 1u16, 5u16, 4u16,
        0u16, 4u16, 3u16, 4u16, 7u16, 3u16,
        3u16, 7u16, 6u16, 3u16, 6u16, 2u16,
        1u16, 6u16, 5u16, 1u16, 2u16, 6u16,
    ]
}

/// The frame mesh of a border: the outer view's corners followed by the
/// inner view's corners, triangulated by `border_indices`.
pub open spec fn border_geom(outer: View, inner: View) -> GeomModel {
    GeomModel::Mesh(MeshModel {
        vertices: corners_spec(outer) + corners_spec(inner),
        indices: border_indices(),
        source: MeshSource::Border,
    })
}

/// Renders each widget of `ms[lo..hi)` in its horizontal slot: widget `j`
/// gets the `j - lo`-th sub-view of `shrunk` split by the range's width
/// hints.  Yields the widgets after rendering and their geometry, in order.
pub open spec fn render_kids_row(ms: Seq<WidgetModel>, shrunk: View, lo: int, hi: int, j: int)
    -> (Seq<WidgetModel>, Seq<GeomModel>)
    decreases ms, 1int, hi - j,
{
    if j < lo || j >= hi || hi > ms.len() || lo < 0 {
        (Seq::empty(), Seq::empty())
    } else {
        let p = render_m(ms[j], split_row_view(shrunk, whints_range(ms, shrunk, lo, hi), j - lo));
        let rest = render_kids_row(ms, shrunk, lo, hi, j + 1);
        (seq![p.0] + rest.0, seq![p.1] + rest.1)
    }
}

/// Renders each widget of `ms[lo..hi)` in its vertical slot.
pub open spec fn render_kids_col(ms: Seq<WidgetModel>, shrunk: View, lo: int, hi: int, j: int)
    -> (Seq<WidgetModel>, Seq<GeomModel>)
    decreases ms, 1int, hi - j,
{
    if j < lo || j >= hi || hi > ms.len() || lo < 0 {
        (Seq::empty(), Seq::empty())
    } else {
        let p = render_m(ms[j], split_column_view(shrunk, hhints_range(ms, shrunk, lo, hi), j - lo));
        let rest = render_kids_col(ms, shrunk, lo, hi, j + 1);
        (seq![p.0] + rest.0, seq![p.1] + rest.1)
    }
}

/// Renders each widget of `ms[j..)` in the same view.
pub open spec fn render_kids_overlay(ms: Seq<WidgetModel>, shrunk: View, j: int)
    -> (Seq<WidgetModel>, Seq<GeomModel>)
    decreases ms, 1int, ms.len() - j,
{
    if j < 0 || j >= ms.len() {
        (Seq::empty(), Seq::empty())
    } else {
        let p = render_m(ms[j], shrunk);
        let rest = render_kids_overlay(ms, shrunk, j + 1);
        (seq![p.0] + rest.0, seq![p.1] + rest.1)
    }
}

/// The row layout pass on `ms[lo..hi)`: shrink the view to the row's own
/// preferred size, split it horizontally by the members' width hints
/// (recomputed against the shrunk view), and render each member in its slot.
pub open spec fn render_row_range(ms: Seq<WidgetModel>, view: View, lo: int, hi: int)
    -> (Seq<WidgetModel>, Seq<GeomModel>)
    decreases ms, 2int, 0int,
{
    let wh = HintModel::Sum(whints_range(ms, view, lo, hi));
    let hh = HintModel::Max(hhints_range(ms, view, lo, hi));
    let shrunk = from_hints_view(view, wh, hh);
    render_kids_row(ms, shrunk, lo, hi, lo)
}

/// The column layout pass on `ms[lo..hi)`, the vertical mirror image.
pub open spec fn render_col_range(ms: Seq<WidgetModel>, view: View, lo: int, hi: int)
    -> (Seq<WidgetModel>, Seq<GeomModel>)
    decreases ms, 2int, 0int,
{
    let wh = HintModel::Max(whints_range(ms, view, lo, hi));
    let hh = HintModel::Sum(hhints_range(ms, view, lo, hi));
    let shrunk = from_hints_view(view, wh, hh);
    render_kids_col(ms, shrunk, lo, hi, lo)
}

/// Renders wrapped row `k` and onwards: row `k` covers the children between
/// its wrap bounds and is laid out as a row inside the `k`-th vertical slot
/// of `shrunk`.  The widgets come back concatenated in their original order,
/// the geometry one group per row.
pub open spec fn render_wrap_rows(ms: Seq<WidgetModel>, shrunk: View, ends: Seq<int>, k: int)
    -> (Seq<WidgetModel>, Seq<GeomModel>)
    decreases ms, 3int, ends.len() - k,
{
    if k >= ends.len() {
        (Seq::empty(), Seq::empty())
    } else {
        let rowhints = wrap_height_hints(ms, shrunk, ends, 0);
        let vk = split_column_view(shrunk, rowhints, k);
        let row = render_row_range(ms, vk, wrap_start(ends, k), ends[k]);
        let rest = render_wrap_rows(ms, shrunk, ends, k + 1);
        (row.0 + rest.0, seq![GeomModel::Group(row.1)] + rest.1)
    }
}

/// One layout-and-render pass of a widget in a view: what the widget becomes
/// (caches filled along the way) and the geometry it produces.
pub open spec fn render_m(m: WidgetModel, view: View) -> (WidgetModel, GeomModel)
    decreases m, 4int, 0int,
{
    match m {
        WidgetModel::Glyph(c, w, h) => (m, glyph_geom(c, w, h, view)),
        WidgetModel::Row(ms) => {
            let p = render_row_range(ms, view, 0, ms.len() as int);
            (WidgetModel::Row(p.0), GeomModel::Group(p.1))
        }
        WidgetModel::Column(ms) => {
            let p = render_col_range(ms, view, 0, ms.len() as int);
            (WidgetModel::Column(p.0), GeomModel::Group(p.1))
        }
        WidgetModel::Overlay(ms) => {
            let wh = HintModel::Max(whints_range(ms, view, 0, ms.len() as int));
            let hh = HintModel::Max(hhints_range(ms, view, 0, ms.len() as int));
            let shrunk = from_hints_view(view, wh, hh);
            let p = render_kids_overlay(ms, shrunk, 0);
            (WidgetModel::Overlay(p.0), GeomModel::Group(p.1))
        }
        WidgetModel::Bordered(c, t) => {
            let wh = HintModel::Sum(seq![width_hint_m(*c, view), HintModel::Physical(2 * t)]);
            let hh = HintModel::Sum(seq![height_hint_m(*c, view), HintModel::Physical(2 * t)]);
            let outer = from_hints_view(view, wh, hh);
            let inner = inset_view(outer, t);
            let p = render_m(*c, inner);
            (
                WidgetModel::Bordered(Box::new(p.0), t),
                GeomModel::Group(seq![border_geom(outer, inner), p.1]),
            )
        }
        WidgetModel::Cached(c, gopt) => match gopt {
            Option::Some(g) => (m, g),
            Option::None => {
                let p = render_m(*c, view);
                (WidgetModel::Cached(Box::new(p.0), Option::Some(p.1)), p.1)
            }
        },
        WidgetModel::WrappingRow(ms) => {
            let ws = kid_widths(ms, view);
            let ends = wrap_ends(ws, view.size.width as int);
            let colw = HintModel::Max(row_whints(ms, view, ends, 0));
            let colh = HintModel::Sum(wrap_height_hints(ms, view, ends, 0));
            let shrunk = from_hints_view(view, colw, colh);
            let p = render_wrap_rows(ms, shrunk, ends, 0);
            (WidgetModel::WrappingRow(p.0), GeomModel::Group(p.1))
        }
    }
}


/// `widget_models` distributes over concatenation.
pub proof fn lemma_widget_models_concat(a: Seq<Widget>, b: Seq<Widget>)
    ensures
        widget_models(a + b) == widget_models(a) + widget_models(b),
{
    lemma_widget_models_index(a);
    lemma_widget_models_index(b);
    lemma_widget_models_index(a + b);
    assert forall|i: int| 0 <= i < (a + b).len()
        implies #[trigger] widget_models(a + b)[i] == (widget_models(a) + widget_models(b))[i] by {
        if i < a.len() {
            assert((a + b)[i] == a[i]);
        } else {
            assert((a + b)[i] == b[i - a.len()]);
        }
    };
    assert(widget_models(a + b) =~= widget_models(a) + widget_models(b));
}

/// What one wrapped row needs before it is laid out: its widgets are
/// well-formed, its side conditions hold, and laying it out over the
/// extracted sub-sequence agrees with laying it out in place.
pub proof fn lemma_wrap_row_pre(ms: Seq<WidgetModel>, shr: View, ends: Seq<int>, k: int)
    requires
        widgets_ok(ms),
        0 <= k < ends.len(),
        forall|i: int| 0 <= i < ends.len()
            ==> 0 <= wrap_start(ends, i) <= #[trigger] ends[i] <= ms.len(),
        render_wrap_rows_ok(ms, shr, ends, k),
    ensures
        ({
            let lo = wrap_start(ends, k);
            let hi = ends[k];
            let sub = ms.subrange(lo, hi);
            let vk = split_column_view(shr, wrap_height_hints(ms, shr, ends, 0), k);
            &&& widgets_ok(sub)
            &&& render_row_range_ok(sub, vk, 0, hi - lo)
            &&& render_row_range(sub, vk, 0, hi - lo) == render_row_range(ms, vk, lo, hi)
        }),
{
    let lo = wrap_start(ends, k);
    let hi = ends[k];
    let sub = ms.subrange(lo, hi);
    let vk = split_column_view(shr, wrap_height_hints(ms, shr, ends, 0), k);
    assert forall|i: int| 0 <= i < sub.len() implies widget_ok(#[trigger] sub[i]) by {
        assert(sub[i] == ms[lo + i]);
    };
    lemma_render_row_shift(ms, vk, lo, hi);
}

/// Prepending one renderable prepends its model.
pub proof fn lemma_geom_models_cons(g: crate::render::Renderable, rest: Seq<crate::render::Renderable>)
    ensures
        geom_models(seq![g] + rest) == seq![geom_model(g)] + geom_models(rest),
{
    lemma_geom_models_index(seq![g] + rest);
    lemma_geom_models_index(rest);
    assert forall|i: int| 0 <= i < rest.len() + 1
        implies #[trigger] geom_models(seq![g] + rest)[i]
            == (seq![geom_model(g)] + geom_models(rest))[i] by {
        if i == 0 {
            assert((seq![g] + rest)[0] == g);
        } else {
            assert((seq![g] + rest)[i] == rest[i - 1]);
        }
    };
    assert(geom_models(seq![g] + rest) =~= seq![geom_model(g)] + geom_models(rest));
}

/// Hints over a range agree with hints over the extracted sub-sequence.
pub proof fn lemma_hints_range_shift(ms: Seq<WidgetModel>, v: View, lo: int, hi: int)
    requires
        0 <= lo <= hi <= ms.len(),
    ensures
        whints_range(ms, v, lo, hi) == whints_range(ms.subrange(lo, hi), v, 0, hi - lo),
        hhints_range(ms, v, lo, hi) == hhints_range(ms.subrange(lo, hi), v, 0, hi - lo),
{
    let sub = ms.subrange(lo, hi);
    lemma_whints_range_index(ms, v, lo, hi);
    lemma_whints_range_index(sub, v, 0, hi - lo);
    lemma_hhints_range_index(ms, v, lo, hi);
    lemma_hhints_range_index(sub, v, 0, hi - lo);
    assert forall|j: int| 0 <= j < hi - lo
        implies #[trigger] whints_range(ms, v, lo, hi)[j] == whints_range(sub, v, 0, hi - lo)[j] by {
        assert(sub[j] == ms[lo + j]);
    };
    assert forall|j: int| 0 <= j < hi - lo
        implies #[trigger] hhints_range(ms, v, lo, hi)[j] == hhints_range(sub, v, 0, hi - lo)[j] by {
        assert(sub[j] == ms[lo + j]);
    };
    assert(whints_range(ms, v, lo, hi) =~= whints_range(sub, v, 0, hi - lo));
    assert(hhints_range(ms, v, lo, hi) =~= hhints_range(sub, v, 0, hi - lo));
}

/// Rendering a range of widgets sees only the widgets inside the range.
pub proof fn lemma_render_kids_row_shift(ms: Seq<WidgetModel>, shrunk: View, lo: int, hi: int, j: int)
    requires
        0 <= lo <= j,
        j <= hi <= ms.len(),
    ensures
        render_kids_row(ms, shrunk, lo, hi, j)
            == render_kids_row(ms.subrange(lo, hi), shrunk, 0, hi - lo, j - lo),
        render_kids_row_ok(ms, shrunk, lo, hi, j)
            == render_kids_row_ok(ms.subrange(lo, hi), shrunk, 0, hi - lo, j - lo),
    decreases hi - j,
{
    lemma_hints_range_shift(ms, shrunk, lo, hi);
    if j < hi {
        let sub = ms.subrange(lo, hi);
        assert(sub[j - lo] == ms[j]);
        lemma_render_kids_row_shift(ms, shrunk, lo, hi, j + 1);
    }
}

pub proof fn lemma_render_row_shift(ms: Seq<WidgetModel>, view: View, lo: int, hi: int)
    requires
        0 <= lo <= hi <= ms.len(),
    ensures
        render_row_range(ms, view, lo, hi)
            == render_row_range(ms.subrange(lo, hi), view, 0, hi - lo),
        render_row_range_ok(ms, view, lo, hi)
            == render_row_range_ok(ms.subrange(lo, hi), view, 0, hi - lo),
{
    lemma_hints_range_shift(ms, view, lo, hi);
    let wh = HintModel::Sum(whints_range(ms, view, lo, hi));
    let hh = HintModel::Max(hhints_range(ms, view, lo, hi));
    let shrunk = from_hints_view(view, wh, hh);
    lemma_hints_range_shift(ms, shrunk, lo, hi);
    lemma_render_kids_row_shift(ms, shrunk, lo, hi, lo);
    assert(kids_hints_ok_range(ms, view, lo, hi)
        == kids_hints_ok_range(ms.subrange(lo, hi), view, 0, hi - lo)) by {
        let sub = ms.subrange(lo, hi);
        if kids_hints_ok_range(ms, view, lo, hi) {
            assert forall|i: int| 0 <= i < hi - lo && 0 <= i < sub.len()
                implies hints_ok(#[trigger] sub[i], view) by {
                assert(sub[i] == ms[lo + i]);
            };
        }
        if kids_hints_ok_range(sub, view, 0, hi - lo) {
            assert forall|i: int| lo <= i < hi && 0 <= i < ms.len()
                implies hints_ok(#[trigger] ms[i], view) by {
                assert(sub[i - lo] == ms[i]);
            };
        }
    };
}


/// Pointwise characterization of a row's child rendering.
pub proof fn lemma_render_kids_row_index(ms: Seq<WidgetModel>, shrunk: View, lo: int, hi: int, j: int)
    requires
        0 <= lo <= j <= hi <= ms.len(),
    ensures
        render_kids_row(ms, shrunk, lo, hi, j).0.len() == hi - j,
        render_kids_row(ms, shrunk, lo, hi, j).1.len() == hi - j,
        forall|i: int| j <= i < hi ==> #[trigger] render_kids_row(ms, shrunk, lo, hi, j).0[i - j]
            == render_m(ms[i], split_row_view(shrunk, whints_range(ms, shrunk, lo, hi), i - lo)).0,
        forall|i: int| j <= i < hi ==> #[trigger] render_kids_row(ms, shrunk, lo, hi, j).1[i - j]
            == render_m(ms[i], split_row_view(shrunk, whints_range(ms, shrunk, lo, hi), i - lo)).1,
    decreases hi - j,
{
    if j < hi {
        lemma_render_kids_row_index(ms, shrunk, lo, hi, j + 1);
        let p = render_m(ms[j], split_row_view(shrunk, whints_range(ms, shrunk, lo, hi), j - lo));
        let rest = render_kids_row(ms, shrunk, lo, hi, j + 1);
        assert(render_kids_row(ms, shrunk, lo, hi, j).0 == seq![p.0] + rest.0);
        assert(render_kids_row(ms, shrunk, lo, hi, j).1 == seq![p.1] + rest.1);
        assert forall|i: int| j <= i < hi
            implies #[trigger] render_kids_row(ms, shrunk, lo, hi, j).0[i - j]
                == render_m(ms[i], split_row_view(shrunk, whints_range(ms, shrunk, lo, hi), i - lo)).0 by {
            if i == j {
                assert((seq![p.0] + rest.0)[0] == p.0);
            } else {
                assert((seq![p.0] + rest.0)[i - j] == rest.0[i - j - 1]);
                assert(rest.0[i - (j + 1)] == render_m(ms[i],
                    split_row_view(shrunk, whints_range(ms, shrunk, lo, hi), i - lo)).0);
            }
        };
        assert forall|i: int| j <= i < hi
            implies #[trigger] render_kids_row(ms, shrunk, lo, hi, j).1[i - j]
                == render_m(ms[i], split_row_view(shrunk, whints_range(ms, shrunk, lo, hi), i - lo)).1 by {
            if i == j {
                assert((seq![p.1] + rest.1)[0] == p.1);
            } else {
                assert((seq![p.1] + rest.1)[i - j] == rest.1[i - j - 1]);
                assert(rest.1[i - (j + 1)] == render_m(ms[i],
                    split_row_view(shrunk, whints_range(ms, shrunk, lo, hi), i - lo)).1);
            }
        };
    }
}

/// Pointwise characterization of a column's child rendering.
pub proof fn lemma_render_kids_col_index(ms: Seq<WidgetModel>, shrunk: View, lo: int, hi: int, j: int)
    requires
        0 <= lo <= j <= hi <= ms.len(),
    ensures
        render_kids_col(ms, shrunk, lo, hi, j).0.len() == hi - j,
        render_kids_col(ms, shrunk, lo, hi, j).1.len() == hi - j,
        forall|i: int| j <= i < hi ==> #[trigger] render_kids_col(ms, shrunk, lo, hi, j).0[i - j]
            == render_m(ms[i], split_column_view(shrunk, hhints_range(ms, shrunk, lo, hi), i - lo)).0,
        forall|i: int| j <= i < hi ==> #[trigger] render_kids_col(ms, shrunk, lo, hi, j).1[i - j]
            == render_m(ms[i], split_column_view(shrunk, hhints_range(ms, shrunk, lo, hi), i - lo)).1,
    decreases hi - j,
{
    if j < hi {
        lemma_render_kids_col_index(ms, shrunk, lo, hi, j + 1);
        let p = render_m(ms[j], split_column_view(shrunk, hhints_range(ms, shrunk, lo, hi), j - lo));
        let rest = render_kids_col(ms, shrunk, lo, hi, j + 1);
        assert(render_kids_col(ms, shrunk, lo, hi, j).0 == seq![p.0] + rest.0);
        assert(render_kids_col(ms, shrunk, lo, hi, j).1 == seq![p.1] + rest.1);
        assert forall|i: int| j <= i < hi
            implies #[trigger] render_kids_col(ms, shrunk, lo, hi, j).0[i - j]
                == render_m(ms[i], split_column_view(shrunk, hhints_range(ms, shrunk, lo, hi), i - lo)).0 by {
            if i == j {
                assert((seq![p.0] + rest.0)[0] == p.0);
            } else {
                assert((seq![p.0] + rest.0)[i - j] == rest.0[i - j - 1]);
                assert(rest.0[i - (j + 1)] == render_m(ms[i],
                    split_column_view(shrunk, hhints_range(ms, shrunk, lo, hi), i - lo)).0);
            }
        };
        assert forall|i: int| j <= i < hi
            implies #[trigger] render_kids_col(ms, shrunk, lo, hi, j).1[i - j]
                == render_m(ms[i], split_column_view(shrunk, hhints_range(ms, shrunk, lo, hi), i - lo)).1 by {
            if i == j {
                assert((seq![p.1] + rest.1)[0] == p.1);
            } else {
                assert((seq![p.1] + rest.1)[i - j] == rest.1[i - j - 1]);
                assert(rest.1[i - (j + 1)] == render_m(ms[i],
                    split_column_view(shrunk, hhints_range(ms, shrunk, lo, hi), i - lo)).1);
            }
        };
    }
}

/// Pointwise characterization of an overlay's child rendering.
pub proof fn lemma_render_kids_overlay_index(ms: Seq<WidgetModel>, shrunk: View, j: int)
    requires
        0 <= j <= ms.len(),
    ensures
        render_kids_overlay(ms, shrunk, j).0.len() == ms.len() - j,
        render_kids_overlay(ms, shrunk, j).1.len() == ms.len() - j,
        forall|i: int| j <= i < ms.len() ==> #[trigger] render_kids_overlay(ms, shrunk, j).0[i - j]
            == render_m(ms[i], shrunk).0,
        forall|i: int| j <= i < ms.len() ==> #[trigger] render_kids_overlay(ms, shrunk, j).1[i - j]
            == render_m(ms[i], shrunk).1,
    decreases ms.len() - j,
{
    if j < ms.len() {
        lemma_render_kids_overlay_index(ms, shrunk, j + 1);
        let p = render_m(ms[j], shrunk);
        let rest = render_kids_overlay(ms, shrunk, j + 1);
        assert(render_kids_overlay(ms, shrunk, j).0 == seq![p.0] + rest.0);
        assert(render_kids_overlay(ms, shrunk, j).1 == seq![p.1] + rest.1);
        assert forall|i: int| j <= i < ms.len()
            implies #[trigger] render_kids_overlay(ms, shrunk, j).0[i - j] == render_m(ms[i], shrunk).0 by {
            if i == j {
                assert((seq![p.0] + rest.0)[0] == p.0);
            } else {
                assert((seq![p.0] + rest.0)[i - j] == rest.0[i - j - 1]);
                assert(rest.0[i - (j + 1)] == render_m(ms[i], shrunk).0);
            }
        };
        assert forall|i: int| j <= i < ms.len()
            implies #[trigger] render_kids_overlay(ms, shrunk, j).1[i - j] == render_m(ms[i], shrunk).1 by {
            if i == j {
                assert((seq![p.1] + rest.1)[0] == p.1);
            } else {
                assert((seq![p.1] + rest.1)[i - j] == rest.1[i - j - 1]);
                assert(rest.1[i - (j + 1)] == render_m(ms[i], shrunk).1);
            }
        };
    }
}

/// Stepwise unfolding of the per-child side conditions.
pub proof fn lemma_render_kids_row_ok_unfold(ms: Seq<WidgetModel>, shrunk: View, lo: int, hi: int, j: int)
    requires
        0 <= lo <= j < hi <= ms.len(),
        render_kids_row_ok(ms, shrunk, lo, hi, j),
    ensures
        render_ok(ms[j], split_row_view(shrunk, whints_range(ms, shrunk, lo, hi), j - lo)),
        render_kids_row_ok(ms, shrunk, lo, hi, j + 1),
{
}

pub proof fn lemma_render_kids_col_ok_unfold(ms: Seq<WidgetModel>, shrunk: View, lo: int, hi: int, j: int)
    requires
        0 <= lo <= j < hi <= ms.len(),
        render_kids_col_ok(ms, shrunk, lo, hi, j),
    ensures
        render_ok(ms[j], split_column_view(shrunk, hhints_range(ms, shrunk, lo, hi), j - lo)),
        render_kids_col_ok(ms, shrunk, lo, hi, j + 1),
{
}


/// The full-list width hints agree with the full range.
pub proof fn lemma_whints_full(ms: Seq<WidgetModel>, v: View)
    ensures
        whints_of(ms, v) == whints_range(ms, v, 0, ms.len() as int),
        hhints_of(ms, v) == hhints_range(ms, v, 0, ms.len() as int),
{
    lemma_whints_index(ms, v);
    lemma_hhints_index(ms, v);
    lemma_whints_range_index(ms, v, 0, ms.len() as int);
    lemma_hhints_range_index(ms, v, 0, ms.len() as int);
    assert(whints_of(ms, v) =~= whints_range(ms, v, 0, ms.len() as int));
    assert(hhints_of(ms, v) =~= hhints_range(ms, v, 0, ms.len() as int));
}

/// Taking models commutes with taking a sub-sequence.
pub proof fn lemma_widget_models_subrange(l: Seq<Widget>, a: int, b: int)
    requires
        0 <= a <= b <= l.len(),
    ensures
        widget_models(l.subrange(a, b)) == widget_models(l).subrange(a, b),
{
    lemma_widget_models_index(l);
    lemma_widget_models_index(l.subrange(a, b));
    assert forall|i: int| 0 <= i < b - a
        implies #[trigger] widget_models(l.subrange(a, b))[i] == widget_models(l).subrange(a, b)[i] by {
        assert(l.subrange(a, b)[i] == l[a + i]);
    };
    assert(widget_models(l.subrange(a, b)) =~= widget_models(l).subrange(a, b));
}

// ---------------------------------------------------------------------------
// Rendering: machine-limit side conditions
// ---------------------------------------------------------------------------

/// A view a render pass can work in: representable edges and a non-empty
/// surface (clip-space conversion divides by the surface size).
pub open spec fn view_ok(v: View) -> bool {
    v.wf() && v.global.size.width >= 1 && v.global.size.height >= 1
}

pub open spec fn render_kids_row_ok(ms: Seq<WidgetModel>, shrunk: View, lo: int, hi: int, j: int) -> bool
    decreases ms, 1int, hi - j,
{
    if j < lo || j >= hi || hi > ms.len() || lo < 0 {
        true
    } else {
        render_ok(ms[j], split_row_view(shrunk, whints_range(ms, shrunk, lo, hi), j - lo))
            && render_kids_row_ok(ms, shrunk, lo, hi, j + 1)
    }
}

pub open spec fn render_kids_col_ok(ms: Seq<WidgetModel>, shrunk: View, lo: int, hi: int, j: int) -> bool
    decreases ms, 1int, hi - j,
{
    if j < lo || j >= hi || hi > ms.len() || lo < 0 {
        true
    } else {
        render_ok(ms[j], split_column_view(shrunk, hhints_range(ms, shrunk, lo, hi), j - lo))
            && render_kids_col_ok(ms, shrunk, lo, hi, j + 1)
    }
}

pub open spec fn render_kids_overlay_ok(ms: Seq<WidgetModel>, shrunk: View, j: int) -> bool
    decreases ms, 1int, ms.len() - j,
{
    if j < 0 || j >= ms.len() {
        true
    } else {
        render_ok(ms[j], shrunk) && render_kids_overlay_ok(ms, shrunk, j + 1)
    }
}

pub open spec fn render_row_range_ok(ms: Seq<WidgetModel>, view: View, lo: int, hi: int) -> bool
    decreases ms, 2int, 0int,
{
    let wh = HintModel::Sum(whints_range(ms, view, lo, hi));
    let hh = HintModel::Max(hhints_range(ms, view, lo, hi));
    let shrunk = from_hints_view(view, wh, hh);
    let hints = whints_range(ms, shrunk, lo, hi);
    &&& view_ok(view)
    &&& kids_hints_ok_range(ms, view, lo, hi)
    &&& resolve_ok(wh, view.size.width as int)
    &&& resolve_ok(hh, view.size.height as int)
    &&& resolve_seq_ok(hints, shrunk.size.width as int)
    &&& shrunk.offset.x + split_prefix(hints, shrunk.size.width as int, hi - lo) <= u32::MAX
    &&& render_kids_row_ok(ms, shrunk, lo, hi, lo)
}

pub open spec fn render_col_range_ok(ms: Seq<WidgetModel>, view: View, lo: int, hi: int) -> bool
    decreases ms, 2int, 0int,
{
    let wh = HintModel::Max(whints_range(ms, view, lo, hi));
    let hh = HintModel::Sum(hhints_range(ms, view, lo, hi));
    let shrunk = from_hints_view(view, wh, hh);
    let hints = hhints_range(ms, shrunk, lo, hi);
    &&& view_ok(view)
    &&& kids_hints_ok_range(ms, view, lo, hi)
    &&& kids_hints_ok_range(ms, shrunk, lo, hi)
    &&& resolve_ok(wh, view.size.width as int)
    &&& resolve_ok(hh, view.size.height as int)
    &&& resolve_seq_ok(hints, shrunk.size.height as int)
    &&& shrunk.offset.y + split_prefix(hints, shrunk.size.height as int, hi - lo) <= u32::MAX
    &&& render_kids_col_ok(ms, shrunk, lo, hi, lo)
}

pub open spec fn render_wrap_rows_ok(ms: Seq<WidgetModel>, shrunk: View, ends: Seq<int>, k: int) -> bool
    decreases ms, 3int, ends.len() - k,
{
    if k >= ends.len() {
        true
    } else {
        let rowhints = wrap_height_hints(ms, shrunk, ends, 0);
        let vk = split_column_view(shrunk, rowhints, k);
        render_row_range_ok(ms, vk, wrap_start(ends, k), ends[k])
            && render_wrap_rows_ok(ms, shrunk, ends, k + 1)
    }
}

/// Everything a render pass of `m` in `view` computes stays within machine
/// bounds: aggregate hints resolve within `u32`, split offsets stay
/// representable, and a border is never thicker than the space it was
/// granted (the layout fails loudly on such a tree instead of wrapping
/// around zero).
pub open spec fn render_ok(m: WidgetModel, view: View) -> bool
    decreases m, 4int, 0int,
{
    match m {
        WidgetModel::Glyph(c, w, h) => view_ok(view),
        WidgetModel::Row(ms) => render_row_range_ok(ms, view, 0, ms.len() as int),
        WidgetModel::Column(ms) => render_col_range_ok(ms, view, 0, ms.len() as int),
        WidgetModel::Overlay(ms) => {
            let wh = HintModel::Max(whints_range(ms, view, 0, ms.len() as int));
            let hh = HintModel::Max(hhints_range(ms, view, 0, ms.len() as int));
            let shrunk = from_hints_view(view, wh, hh);
            &&& view_ok(view)
            &&& kids_hints_ok_range(ms, view, 0, ms.len() as int)
            &&& resolve_ok(wh, view.size.width as int)
            &&& resolve_ok(hh, view.size.height as int)
            &&& render_kids_overlay_ok(ms, shrunk, 0)
        }
        WidgetModel::Bordered(c, t) => {
            let wh = HintModel::Sum(seq![width_hint_m(*c, view), HintModel::Physical(2 * t)]);
            let hh = HintModel::Sum(seq![height_hint_m(*c, view), HintModel::Physical(2 * t)]);
            let outer = from_hints_view(view, wh, hh);
            &&& view_ok(view)
            &&& hints_ok(*c, view)
            &&& resolve_ok(wh, view.size.width as int)
            &&& resolve_ok(hh, view.size.height as int)
            &&& 2 * t <= outer.size.width
            &&& 2 * t <= outer.size.height
            &&& render_ok(*c, inset_view(outer, t))
        }
        WidgetModel::Cached(c, gopt) => match gopt {
            Option::Some(g) => view_ok(view),
            Option::None => render_ok(*c, view),
        },
        WidgetModel::WrappingRow(ms) => {
            let ws = kid_widths(ms, view);
            let ends = wrap_ends(ws, view.size.width as int);
            let colw = HintModel::Max(row_whints(ms, view, ends, 0));
            let colh = HintModel::Sum(wrap_height_hints(ms, view, ends, 0));
            let shrunk = from_hints_view(view, colw, colh);
            let rowhints = wrap_height_hints(ms, shrunk, ends, 0);
            &&& view_ok(view)
            &&& kids_hints_ok_range(ms, view, 0, ms.len() as int)
            &&& kids_hints_ok_range(ms, shrunk, 0, ms.len() as int)
            &&& resolve_seq_ok(whints_range(ms, view, 0, ms.len() as int), view.size.width as int)
            &&& resolve_ok(colw, view.size.width as int)
            &&& resolve_ok(colh, view.size.height as int)
            &&& resolve_seq_ok(rowhints, shrunk.size.height as int)
            &&& shrunk.offset.y + split_prefix(rowhints, shrunk.size.height as int, ends.len() as int) <= u32::MAX
            &&& render_wrap_rows_ok(ms, shrunk, ends, 0)
        }
    }
}


// ---------------------------------------------------------------------------
// Laws of wrapping, caching and composition
// ---------------------------------------------------------------------------

/// Extending a width sum by one element.
pub proof fn lemma_sum_range_snoc(ws: Seq<int>, i: int, j: int)
    requires
        i <= j,
        0 <= j < ws.len(),
    ensures
        sum_range(ws, i, j + 1) == sum_range(ws, i, j) + ws[j],
    decreases j - i,
{
    if i < j {
        lemma_sum_range_snoc(ws, i + 1, j);
    } else {
        assert(sum_range(ws, j + 1, j + 1) == 0);
        assert(sum_range(ws, i, j) == 0);
    }
}

/// The slack property of every row the greedy pass has closed after `n`
/// steps, together with the running width of the open row: a closed row
/// carries at most `budget` pixels beyond its first member, and the open
/// row's measured width never exceeds the budget either.
pub proof fn lemma_wrap_rows_within(ws: Seq<int>, budget: int, n: int)
    requires
        budget >= 0,
        forall|i: int| 0 <= i < ws.len() ==> #[trigger] ws[i] >= 0,
        0 <= n <= ws.len(),
    ensures
        ({
            let bs = wrap_state(ws, budget, n).0;
            let acc = wrap_state(ws, budget, n).1;
            let cs = if bs.len() == 0 { 0int } else { bs.last() + 1 };
            &&& 0 <= acc <= budget
            &&& acc == sum_range(ws, cs, n)
            &&& forall|k: int| 0 <= k < bs.len() ==> #[trigger] row_within(ws, budget, bs, k)
        }),
    decreases n,
{
    lemma_wrap_state_bounds(ws, budget, n);
    if n > 0 {
        lemma_wrap_rows_within(ws, budget, n - 1);
        lemma_wrap_state_bounds(ws, budget, n - 1);
        let prev = wrap_state(ws, budget, n - 1);
        let cur = wrap_state(ws, budget, n);
        let cs = if prev.0.len() == 0 { 0int } else { prev.0.last() + 1 };
        lemma_sum_range_snoc(ws, cs, n - 1);
        if prev.1 + ws[n - 1] > budget {
            assert(cur.0 == prev.0.push(n - 1));
            assert(sum_range(ws, n, n) == 0);
            assert forall|k: int| 0 <= k < cur.0.len()
                implies #[trigger] row_within(ws, budget, cur.0, k) by {
                if k < prev.0.len() {
                    assert(row_within(ws, budget, prev.0, k));
                    assert(cur.0[k] == prev.0[k]);
                    if k > 0 {
                        assert(cur.0[k - 1] == prev.0[k - 1]);
                    }
                } else {
                    assert(cur.0[k] == n - 1);
                    if k > 0 {
                        assert(cur.0[k - 1] == prev.0[k - 1]);
                        assert(cur.0[k - 1] + 1 == cs);
                    }
                }
            };
        } else {
            assert(cur.0 == prev.0);
        }
    }
}

/// Whether closed row `k` (ending at flush index `bs[k]`) stays within the
/// budget, not counting its first member when the row was begun by a flush.
pub open spec fn row_within(ws: Seq<int>, budget: int, bs: Seq<int>, k: int) -> bool {
    if k == 0 {
        sum_range(ws, 0, bs[0]) <= budget
    } else {
        sum_range(ws, bs[k - 1] + 1, bs[k]) <= budget
    }
}

/// Wrap never exceeds the line, modulo the one-element slack: every wrapped
/// row's width, not counting the first member of a row that was begun by a
/// flush, stays within the budget.  (The element that caused an overflow
/// starts the next row without being measured against it, so a row may carry
/// exactly one element more than would fit.)
pub proof fn lemma_wrap_never_exceeds(ws: Seq<int>, budget: int, k: int)
    requires
        budget >= 0,
        forall|i: int| 0 <= i < ws.len() ==> #[trigger] ws[i] >= 0,
        0 <= k < wrap_ends(ws, budget).len(),
    ensures
        ({
            let ends = wrap_ends(ws, budget);
            &&& (k == 0 ==> sum_range(ws, 0, ends[0]) <= budget)
            &&& (k >= 1 ==> sum_range(ws, wrap_start(ends, k) + 1, ends[k]) <= budget)
        }),
{
    let n = ws.len() as int;
    lemma_wrap_state_bounds(ws, budget, n);
    lemma_wrap_rows_within(ws, budget, n);
    let bs = wrap_state(ws, budget, n).0;
    let ends = wrap_ends(ws, budget);
    if k < bs.len() {
        assert(row_within(ws, budget, bs, k));
        assert(ends[k] == bs[k]);
        if k > 0 {
            assert(ends[k - 1] == bs[k - 1]);
        }
    } else {
        assert(ends[k] == n);
        let cs = if bs.len() == 0 { 0int } else { bs.last() + 1 };
        assert(wrap_state(ws, budget, n).1 == sum_range(ws, cs, n));
        if k > 0 {
            assert(ends[k - 1] == bs[k - 1]);
        }
    }
}

/// Cache reuse: a populated cache returns its stored geometry unchanged and
/// leaves the tree as it is, so a second render without an intervening
/// mutable access repeats the first result without recomputation; rendering
/// an empty cache stores exactly the geometry it hands out; and a mutable
/// access through `resize` drops the stored geometry.
pub proof fn lemma_cache_reuse(c: Box<WidgetModel>, g: GeomModel, v: View, width: int, height: int)
    ensures
        render_m(WidgetModel::Cached(c, Option::Some(g)), v)
            == (WidgetModel::Cached(c, Option::Some(g)), g),
        ({
            let p = render_m(*c, v);
            render_m(WidgetModel::Cached(c, Option::None), v)
                == (WidgetModel::Cached(Box::new(p.0), Option::Some(p.1)), p.1)
        }),
        resize_m(WidgetModel::Cached(c, Option::Some(g)), width, height)
            == WidgetModel::Cached(Box::new(resize_m(*c, width, height)), Option::None::<GeomModel>),
{
}

/// Row/Column hint duality: over one list of children whose width hints
/// mirror their height hints, a row asks for exactly the width that a
/// column asks for as height (a sum along the main axis both times).
pub proof fn lemma_row_column_duality(ms: Seq<WidgetModel>, v: View)
    requires
        forall|i: int| 0 <= i < ms.len()
            ==> width_hint_m(#[trigger] ms[i], v) == height_hint_m(ms[i], v),
    ensures
        width_hint_m(WidgetModel::Row(ms), v) == height_hint_m(WidgetModel::Column(ms), v),
{
    lemma_whints_index(ms, v);
    lemma_hhints_index(ms, v);
    assert forall|i: int| 0 <= i < ms.len()
        implies #[trigger] whints_of(ms, v)[i] == hhints_of(ms, v)[i] by {
        assert(width_hint_m(ms[i], v) == height_hint_m(ms[i], v));
    };
    assert(whints_of(ms, v) =~= hhints_of(ms, v));
}

} // verus!
