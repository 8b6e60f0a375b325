use vstd::prelude::*;
use vstd::math::{max, min};
use vstd::view::View as SpecView;

verus! {

// ---------------------------------------------------------------------------
// Plain geometric value types
// ---------------------------------------------------------------------------

/// A size in physical pixels.
#[derive(Clone, Copy, Debug, PartialEq, Eq, Structural)]
pub struct PhysicalSize {
    pub width: u32,
    pub height: u32,
}

impl PhysicalSize {
    pub fn new(width: u32, height: u32) -> (r: Self)
        ensures
            r == (PhysicalSize { width, height }),
    {
        Self { width, height }
    }
}

/// An offset from the surface origin, in physical pixels.
#[derive(Clone, Copy, Debug, PartialEq, Eq, Structural)]
pub struct PhysicalPosition {
    pub x: u32,
    pub y: u32,
}

impl PhysicalPosition {
    pub fn new(x: u32, y: u32) -> (r: Self)
        ensures
            r == (PhysicalPosition { x, y }),
    {
        Self { x, y }
    }
}

/// An exact non-negative fraction `num / den`.
///
/// Normalized coordinates and size hints are fractions of a view's extent;
/// keeping them as exact rationals lets every conversion be stated and proved
/// without rounding error.
#[derive(Clone, Copy, Debug, PartialEq, Eq, Structural)]
pub struct Frac {
    pub num: u32,
    pub den: u32,
}

impl Frac {
    /// A fraction is meaningful once its denominator is positive.
    pub open spec fn wf(self) -> bool {
        self.den >= 1
    }

    /// A proper fraction lies in [0, 1].
    pub open spec fn proper(self) -> bool {
        self.wf() && self.num <= self.den
    }

    pub fn new(num: u32, den: u32) -> (r: Self)
        requires
            den >= 1,
        ensures
            r == (Frac { num, den }),
            r.wf(),
    {
        Self { num, den }
    }
}

/// A point in [0,1] x [0,1], local to one view.
#[derive(Clone, Copy, Debug, PartialEq, Eq, Structural)]
pub struct VirtualPosition {
    pub x: Frac,
    pub y: Frac,
}

impl VirtualPosition {
    pub open spec fn wf(self) -> bool {
        self.x.proper() && self.y.proper()
    }

    pub fn new(x: Frac, y: Frac) -> (r: Self)
        ensures
            r == (VirtualPosition { x, y }),
    {
        Self { x, y }
    }
}

/// An exact signed fraction `num / den`: one coordinate in the renderer's
/// clip space, where the drawing surface spans [-1, 1] on both axes.
#[derive(Clone, Copy, Debug, PartialEq, Eq, Structural)]
pub struct ClipCoord {
    pub num: i128,
    pub den: i128,
}

impl ClipCoord {
    pub open spec fn wf(self) -> bool {
        self.den >= 1
    }

    /// Two clip coordinates denote the same point when they agree as
    /// rationals.
    pub open spec fn same_value(self, other: ClipCoord) -> bool {
        self.num * other.den == other.num * self.den
    }
}

/// A point in clip space, derived from a virtual position by `globalize`.
#[derive(Clone, Copy, Debug, PartialEq, Eq, Structural)]
pub struct GlobalPosition {
    pub x: ClipCoord,
    pub y: ClipCoord,
}

/// A corner vertex: a clip-space position paired with a normalized texture
/// coordinate (each texture component is 0 or 1).
#[derive(Clone, Copy, Debug, PartialEq, Eq, Structural)]
pub struct Vertex {
    pub position: GlobalPosition,
    pub tex_x: u32,
    pub tex_y: u32,
}

impl Vertex {
    pub fn new(position: GlobalPosition, tex_x: u32, tex_y: u32) -> (r: Self)
        ensures
            r == (Vertex { position, tex_x, tex_y }),
    {
        Self { position, tex_x, tex_y }
    }
}

// ---------------------------------------------------------------------------
// Size hints and their mathematical model
// ---------------------------------------------------------------------------

/// A widget's declared preference for its extent along one axis.
///
/// `Unresolved` states no preference; `Physical` is a pixel count; `Virtual`
/// is a fraction of the reference view's extent; the aggregates fold a list
/// of hints with numeric max, min or addition, skipping members that do not
/// resolve.
pub enum SizeHint {
    Unresolved,
    Physical(u32),
    Virtual(Frac),
    Max(Vec<SizeHint>),
    Min(Vec<SizeHint>),
    Sum(Vec<SizeHint>),
}

/// The mathematical shape of a `SizeHint`, over unbounded integers.
pub enum HintModel {
    Unresolved,
    Physical(int),
    Virtual(int, int),
    Max(Seq<HintModel>),
    Min(Seq<HintModel>),
    Sum(Seq<HintModel>),
}

pub open spec fn hint_models(l: Seq<SizeHint>) -> Seq<HintModel>
    decreases l,
{
    if l.len() == 0 {
        Seq::empty()
    } else {
        hint_models(l.drop_last()).push(hint_model(l.last()))
    }
}

pub open spec fn hint_model(h: SizeHint) -> HintModel
    decreases h,
{
    match h {
        SizeHint::Unresolved => HintModel::Unresolved,
        SizeHint::Physical(p) => HintModel::Physical(p as int),
        SizeHint::Virtual(f) => HintModel::Virtual(f.num as int, f.den as int),
        SizeHint::Max(l) => HintModel::Max(hint_models(l@)),
        SizeHint::Min(l) => HintModel::Min(hint_models(l@)),
        SizeHint::Sum(l) => HintModel::Sum(hint_models(l@)),
    }
}

impl vstd::view::View for SizeHint {
    type V = HintModel;

    open spec fn view(&self) -> HintModel {
        hint_model(*self)
    }
}

/// Well-formedness of a hint model: every leaf carries a pixel count that
/// fits the machine word, and every fraction is proper.
pub open spec fn hint_ok(h: HintModel) -> bool
    decreases h, 0int,
{
    match h {
        HintModel::Unresolved => true,
        HintModel::Physical(p) => 0 <= p <= u32::MAX,
        HintModel::Virtual(n, d) => 1 <= d <= u32::MAX && 0 <= n <= d,
        HintModel::Max(l) => hint_seq_ok(l),
        HintModel::Min(l) => hint_seq_ok(l),
        HintModel::Sum(l) => hint_seq_ok(l),
    }
}

pub open spec fn hint_seq_ok(l: Seq<HintModel>) -> bool
    decreases l, 1int,
{
    forall|i: int| 0 <= i < l.len() ==> hint_ok(#[trigger] l[i])
}

// ---------------------------------------------------------------------------
// Resolution to physical pixels
// ---------------------------------------------------------------------------

/// The numeric operation an aggregate hint folds with.
#[derive(Clone, Copy, Debug, PartialEq, Eq, Structural)]
pub enum Agg {
    MaxAgg,
    MinAgg,
    SumAgg,
}

pub open spec fn agg_apply(op: Agg, a: int, b: int) -> int {
    match op {
        Agg::MaxAgg => max(a, b),
        Agg::MinAgg => min(a, b),
        Agg::SumAgg => a + b,
    }
}

/// Folds the first `n` members of `l`, resolved against extent `ext`, with
/// `op`, skipping members that do not resolve; `None` when none resolves.
pub open spec fn resolve_fold(l: Seq<HintModel>, ext: int, n: int, op: Agg) -> Option<int>
    decreases l, 0int, n,
        when n <= l.len()
{
    if n <= 0 {
        Option::None
    } else {
        match (resolve_fold(l, ext, n - 1, op), resolve_hint(l[n - 1], ext)) {
            (Option::Some(a), Option::Some(b)) => Option::Some(agg_apply(op, a, b)),
            (Option::Some(a), Option::None) => Option::Some(a),
            (Option::None, Option::Some(b)) => Option::Some(b),
            (Option::None, Option::None) => Option::None,
        }
    }
}

/// Resolves a hint to a pixel count relative to an axis extent of `ext`
/// pixels: `Physical` is already in pixels, `Virtual` is converted by the
/// extent (rounding down), and the aggregates fold their members.
pub open spec fn resolve_hint(h: HintModel, ext: int) -> Option<int>
    decreases h, 1int, 0int,
{
    match h {
        HintModel::Unresolved => Option::None,
        HintModel::Physical(p) => Option::Some(p),
        HintModel::Virtual(n, d) => Option::Some(n * ext / d),
        HintModel::Max(l) => resolve_fold(l, ext, l.len() as int, Agg::MaxAgg),
        HintModel::Min(l) => resolve_fold(l, ext, l.len() as int, Agg::MinAgg),
        HintModel::Sum(l) => resolve_fold(l, ext, l.len() as int, Agg::SumAgg),
    }
}

/// Machine-limit side condition: every `Sum` node in the hint resolves, if it
/// resolves at all, to a value that fits in a `u32`.
pub open spec fn resolve_ok(h: HintModel, ext: int) -> bool
    decreases h, 0int,
{
    match h {
        HintModel::Unresolved => true,
        HintModel::Physical(p) => true,
        HintModel::Virtual(n, d) => true,
        HintModel::Max(l) => resolve_seq_ok(l, ext),
        HintModel::Min(l) => resolve_seq_ok(l, ext),
        HintModel::Sum(l) => resolve_seq_ok(l, ext)
            && (resolve_fold(l, ext, l.len() as int, Agg::SumAgg) matches Option::Some(s) ==> s <= u32::MAX),
    }
}

pub open spec fn resolve_seq_ok(l: Seq<HintModel>, ext: int) -> bool
    decreases l, 1int,
{
    forall|i: int| 0 <= i < l.len() ==> resolve_ok(#[trigger] l[i], ext)
}

/// The pixel value of an `Option<u32>`, as an unbounded-integer option.
pub open spec fn opt_int(r: Option<u32>) -> Option<int> {
    match r {
        Option::Some(x) => Option::Some(x as int),
        Option::None => Option::None,
    }
}

// ---------------------------------------------------------------------------
// Facts about resolution
// ---------------------------------------------------------------------------

/// Every resolved value is non-negative.
pub proof fn lemma_resolve_nonneg(h: HintModel, ext: int)
    requires
        hint_ok(h),
        ext >= 0,
    ensures
        resolve_hint(h, ext) matches Option::Some(x) ==> x >= 0,
    decreases h, 1int, 0int,
{
    match h {
        HintModel::Virtual(n, d) => {
            assert(n * ext >= 0) by (nonlinear_arith)
                requires
                    n >= 0 && ext >= 0,
            ;
            assert(n * ext / d >= 0) by (nonlinear_arith)
                requires
                    n * ext >= 0 && d >= 1,
            ;
        }
        HintModel::Max(l) => lemma_resolve_fold_nonneg(l, ext, l.len() as int, Agg::MaxAgg),
        HintModel::Min(l) => lemma_resolve_fold_nonneg(l, ext, l.len() as int, Agg::MinAgg),
        HintModel::Sum(l) => lemma_resolve_fold_nonneg(l, ext, l.len() as int, Agg::SumAgg),
        _ => {}
    }
}

pub proof fn lemma_resolve_fold_nonneg(l: Seq<HintModel>, ext: int, n: int, op: Agg)
    requires
        hint_seq_ok(l),
        ext >= 0,
        n <= l.len(),
    ensures
        resolve_fold(l, ext, n, op) matches Option::Some(x) ==> x >= 0,
    decreases l, 0int, n,
{
    if n > 0 {
        lemma_resolve_fold_nonneg(l, ext, n - 1, op);
        lemma_resolve_nonneg(l[n - 1], ext);
    }
}

/// Prefixes of a `Sum` fold never exceed the whole fold, and a resolving
/// prefix forces the whole fold to resolve.
pub proof fn lemma_sum_prefix_le(l: Seq<HintModel>, ext: int, n: int)
    requires
        hint_seq_ok(l),
        ext >= 0,
        0 <= n <= l.len(),
    ensures
        match (resolve_fold(l, ext, n, Agg::SumAgg), resolve_fold(l, ext, l.len() as int, Agg::SumAgg)) {
            (Option::Some(p), Option::Some(t)) => p <= t,
            (Option::Some(p), Option::None) => false,
            _ => true,
        },
    decreases l.len() - n,
{
    if n < l.len() {
        lemma_resolve_nonneg(l[n], ext);
        lemma_sum_prefix_le(l, ext, n + 1);
    }
}

/// `hint_models` maps the sequence pointwise.
pub proof fn lemma_hint_models_index(l: Seq<SizeHint>)
    ensures
        hint_models(l).len() == l.len(),
        forall|i: int| 0 <= i < l.len() ==> #[trigger] hint_models(l)[i] == hint_model(l[i]),
    decreases l,
{
    if l.len() > 0 {
        lemma_hint_models_index(l.drop_last());
    }
}

/// Converting a proper fraction of a `u32` extent stays within the extent.
pub proof fn lemma_frac_scale(n: int, d: int, ext: int)
    requires
        0 <= n <= d,
        1 <= d,
        0 <= ext,
    ensures
        0 <= n * ext / d <= ext,
{
    vstd::arithmetic::mul::lemma_mul_inequality(n, d, ext);
    vstd::arithmetic::mul::lemma_mul_nonnegative(n, ext);
    vstd::arithmetic::div_mod::lemma_div_is_ordered(n * ext, d * ext, d);
    vstd::arithmetic::div_mod::lemma_div_pos_is_pos(n * ext, d);
    vstd::arithmetic::div_mod::lemma_div_multiples_vanish(ext, d);
    assert(d * ext == ext * d) by (nonlinear_arith);
}



// ---------------------------------------------------------------------------
// Resolution to normalized fractions
// ---------------------------------------------------------------------------

/// The fraction value of an `Option<Frac>`, as a pair of unbounded integers.
pub open spec fn opt_frac(r: Option<Frac>) -> Option<(int, int)> {
    match r {
        Option::Some(f) => Option::Some((f.num as int, f.den as int)),
        Option::None => Option::None,
    }
}

/// Exact rational combination used by aggregate hints under normalized
/// resolution: max and min select by cross-multiplication (keeping the first
/// operand on ties), and sum places both over the common denominator.
pub open spec fn vagg_apply(op: Agg, a: (int, int), b: (int, int)) -> (int, int) {
    match op {
        Agg::MaxAgg => if a.0 * b.1 >= b.0 * a.1 { a } else { b },
        Agg::MinAgg => if a.0 * b.1 <= b.0 * a.1 { a } else { b },
        Agg::SumAgg => (a.0 * b.1 + b.0 * a.1, a.1 * b.1),
    }
}

/// Folds the first `n` members of `l`, resolved to fractions of `ext`, with
/// `op`, skipping members that do not resolve.
pub open spec fn vresolve_fold(l: Seq<HintModel>, ext: int, n: int, op: Agg) -> Option<(int, int)>
    decreases l, 0int, n,
        when n <= l.len()
{
    if n <= 0 {
        Option::None
    } else {
        match (vresolve_fold(l, ext, n - 1, op), vresolve_hint(l[n - 1], ext)) {
            (Option::Some(a), Option::Some(b)) => Option::Some(vagg_apply(op, a, b)),
            (Option::Some(a), Option::None) => Option::Some(a),
            (Option::None, Option::Some(b)) => Option::Some(b),
            (Option::None, Option::None) => Option::None,
        }
    }
}

/// Resolves a hint to an exact fraction of an axis extent of `ext` pixels:
/// `Virtual` is already a fraction, `Physical` becomes `pixels / ext`, and
/// the aggregates fold their members.
pub open spec fn vresolve_hint(h: HintModel, ext: int) -> Option<(int, int)>
    decreases h, 1int, 0int,
{
    match h {
        HintModel::Unresolved => Option::None,
        HintModel::Physical(p) => Option::Some((p, ext)),
        HintModel::Virtual(n, d) => Option::Some((n, d)),
        HintModel::Max(l) => vresolve_fold(l, ext, l.len() as int, Agg::MaxAgg),
        HintModel::Min(l) => vresolve_fold(l, ext, l.len() as int, Agg::MinAgg),
        HintModel::Sum(l) => vresolve_fold(l, ext, l.len() as int, Agg::SumAgg),
    }
}

/// Machine-limit side condition for normalized resolution: every `Sum`
/// node's folded numerator and denominator fit in a `u32`.
pub open spec fn vresolve_ok(h: HintModel, ext: int) -> bool
    decreases h, 0int,
{
    match h {
        HintModel::Unresolved => true,
        HintModel::Physical(p) => true,
        HintModel::Virtual(n, d) => true,
        HintModel::Max(l) => vresolve_seq_ok(l, ext),
        HintModel::Min(l) => vresolve_seq_ok(l, ext),
        HintModel::Sum(l) => vresolve_seq_ok(l, ext)
            && (vresolve_fold(l, ext, l.len() as int, Agg::SumAgg)
                matches Option::Some(f) ==> f.0 <= u32::MAX && f.1 <= u32::MAX),
    }
}

pub open spec fn vresolve_seq_ok(l: Seq<HintModel>, ext: int) -> bool
    decreases l, 1int,
{
    forall|i: int| 0 <= i < l.len() ==> vresolve_ok(#[trigger] l[i], ext)
}

/// Every resolved fraction has a non-negative numerator and a positive
/// denominator bounded by the leaves' denominators.
pub proof fn lemma_vresolve_wf(h: HintModel, ext: int)
    requires
        hint_ok(h),
        ext >= 1,
    ensures
        vresolve_hint(h, ext) matches Option::Some(f) ==> f.0 >= 0 && f.1 >= 1,
    decreases h, 1int, 0int,
{
    match h {
        HintModel::Max(l) => lemma_vresolve_fold_wf(l, ext, l.len() as int, Agg::MaxAgg),
        HintModel::Min(l) => lemma_vresolve_fold_wf(l, ext, l.len() as int, Agg::MinAgg),
        HintModel::Sum(l) => lemma_vresolve_fold_wf(l, ext, l.len() as int, Agg::SumAgg),
        _ => {}
    }
}

pub proof fn lemma_vresolve_fold_wf(l: Seq<HintModel>, ext: int, n: int, op: Agg)
    requires
        hint_seq_ok(l),
        ext >= 1,
        n <= l.len(),
    ensures
        vresolve_fold(l, ext, n, op) matches Option::Some(f) ==> f.0 >= 0 && f.1 >= 1,
    decreases l, 0int, n,
{
    if n > 0 {
        lemma_vresolve_fold_wf(l, ext, n - 1, op);
        lemma_vresolve_wf(l[n - 1], ext);
        match (vresolve_fold(l, ext, n - 1, op), vresolve_hint(l[n - 1], ext)) {
            (Option::Some(a), Option::Some(b)) => {
                if op == Agg::SumAgg {
                    assert(a.0 * b.1 >= 0 && b.0 * a.1 >= 0 && a.1 * b.1 >= 1) by (nonlinear_arith)
                        requires
                            a.0 >= 0 && a.1 >= 1 && b.0 >= 0 && b.1 >= 1,
                    ;
                }
            }
            _ => {}
        }
    }
}

/// Under `Sum`, prefix folds stay within the whole fold, component by
/// component, and a resolving prefix forces the whole fold to resolve.
pub proof fn lemma_vsum_prefix_le(l: Seq<HintModel>, ext: int, n: int)
    requires
        hint_seq_ok(l),
        ext >= 1,
        0 <= n <= l.len(),
    ensures
        match (vresolve_fold(l, ext, n, Agg::SumAgg), vresolve_fold(l, ext, l.len() as int, Agg::SumAgg)) {
            (Option::Some(p), Option::Some(t)) => p.0 <= t.0 && p.1 <= t.1,
            (Option::Some(p), Option::None) => false,
            _ => true,
        },
    decreases l.len() - n,
{
    if n < l.len() {
        lemma_vresolve_wf(l[n], ext);
        lemma_vresolve_fold_wf(l, ext, n, Agg::SumAgg);
        match (vresolve_fold(l, ext, n, Agg::SumAgg), vresolve_hint(l[n], ext)) {
            (Option::Some(p), Option::Some(b)) => {
                assert(p.0 * b.1 + b.0 * p.1 >= p.0 && p.1 * b.1 >= p.1) by (nonlinear_arith)
                    requires
                        p.0 >= 0 && p.1 >= 1 && b.0 >= 0 && b.1 >= 1,
                ;
            }
            _ => {}
        }
        lemma_vsum_prefix_le(l, ext, n + 1);
    }
}

// ---------------------------------------------------------------------------
// Derived-view specifications
// ---------------------------------------------------------------------------

/// The resolved value of a hint, or `fallback` when it does not resolve.
pub open spec fn resolved_or(h: HintModel, ext: int, fallback: int) -> int {
    match resolve_hint(h, ext) {
        Option::Some(x) => x,
        Option::None => fallback,
    }
}

/// Sum of the first `n` hints' resolved extents, unresolved counting as zero.
pub open spec fn split_prefix(hs: Seq<HintModel>, ext: int, n: int) -> int
    decreases n,
{
    if n <= 0 {
        0
    } else {
        split_prefix(hs, ext, n - 1) + resolved_or(hs[n - 1], ext, 0)
    }
}

/// Prefix sums of resolved extents are non-negative and monotone.
pub proof fn lemma_split_prefix_bounds(hs: Seq<HintModel>, ext: int, n: int)
    requires
        hint_seq_ok(hs),
        ext >= 0,
        0 <= n <= hs.len(),
    ensures
        0 <= split_prefix(hs, ext, n) <= split_prefix(hs, ext, hs.len() as int),
{
    lemma_split_prefix_mono(hs, ext, 0, n);
    lemma_split_prefix_mono(hs, ext, n, hs.len() as int);
}

pub proof fn lemma_split_prefix_mono(hs: Seq<HintModel>, ext: int, i: int, j: int)
    requires
        hint_seq_ok(hs),
        ext >= 0,
        0 <= i <= j <= hs.len(),
    ensures
        split_prefix(hs, ext, i) <= split_prefix(hs, ext, j),
    decreases j - i,
{
    if i < j {
        lemma_resolve_nonneg(hs[j - 1], ext);
        lemma_split_prefix_mono(hs, ext, i, j - 1);
    }
}

/// The i-th sub-view of a horizontal split.
pub open spec fn split_row_view(v: View, hs: Seq<HintModel>, i: int) -> View {
    View {
        global: v.global,
        size: PhysicalSize {
            width: resolved_or(hs[i], v.size.width as int, 0) as u32,
            height: v.size.height,
        },
        offset: PhysicalPosition {
            x: (v.offset.x + split_prefix(hs, v.size.width as int, i)) as u32,
            y: v.offset.y,
        },
    }
}

/// The i-th sub-view of a vertical split.
pub open spec fn split_column_view(v: View, hs: Seq<HintModel>, i: int) -> View {
    View {
        global: v.global,
        size: PhysicalSize {
            width: v.size.width,
            height: resolved_or(hs[i], v.size.height as int, 0) as u32,
        },
        offset: PhysicalPosition {
            x: v.offset.x,
            y: (v.offset.y + split_prefix(hs, v.size.height as int, i)) as u32,
        },
    }
}

/// The view shrunk per axis to `min(resolved hint or current extent, current
/// extent)`, keeping the offset.
pub open spec fn from_hints_view(v: View, wm: HintModel, hm: HintModel) -> View {
    View {
        global: v.global,
        size: PhysicalSize {
            width: min(
                resolved_or(wm, v.size.width as int, v.size.width as int),
                v.size.width as int,
            ) as u32,
            height: min(
                resolved_or(hm, v.size.height as int, v.size.height as int),
                v.size.height as int,
            ) as u32,
        },
        offset: v.offset,
    }
}

/// The exact clip-space image of a view-local normalized position: with
/// surface size (W, H), view size (w, h), offset (ox, oy) and fraction
/// (nx/dx, ny/dy), the x image is 2*(nx*w + dx*ox)/(dx*W) - 1 and the y
/// image is -2*(ny*h + dy*oy)/(dy*H) + 1, written over a common denominator.
pub open spec fn globalize_spec(v: View, pos: VirtualPosition) -> GlobalPosition {
    GlobalPosition {
        x: ClipCoord {
            num: (2 * (pos.x.num * v.size.width + pos.x.den * v.offset.x)
                - pos.x.den * v.global.size.width) as i128,
            den: (pos.x.den * v.global.size.width) as i128,
        },
        y: ClipCoord {
            num: (pos.y.den * v.global.size.height
                - 2 * (pos.y.num * v.size.height + pos.y.den * v.offset.y)) as i128,
            den: (pos.y.den * v.global.size.height) as i128,
        },
    }
}

/// Bounds needed to evaluate `globalize_spec` in machine arithmetic.
pub proof fn lemma_globalize_bounds(v: View, pos: VirtualPosition)
    requires
        pos.wf(),
        v.global.size.width >= 1,
        v.global.size.height >= 1,
    ensures
        0 <= pos.x.num * v.size.width <= 0xffff_ffff_0000_0000,
        0 <= pos.x.den * v.offset.x <= 0xffff_ffff_0000_0000,
        1 <= pos.x.den * v.global.size.width <= 0xffff_ffff_0000_0000,
        0 <= pos.y.num * v.size.height <= 0xffff_ffff_0000_0000,
        0 <= pos.y.den * v.offset.y <= 0xffff_ffff_0000_0000,
        1 <= pos.y.den * v.global.size.height <= 0xffff_ffff_0000_0000,
{
    let m = u32::MAX as int;
    vstd::arithmetic::mul::lemma_mul_upper_bound(pos.x.num as int, m, v.size.width as int, m);
    vstd::arithmetic::mul::lemma_mul_upper_bound(pos.x.den as int, m, v.offset.x as int, m);
    vstd::arithmetic::mul::lemma_mul_upper_bound(pos.x.den as int, m, v.global.size.width as int, m);
    vstd::arithmetic::mul::lemma_mul_upper_bound(pos.y.num as int, m, v.size.height as int, m);
    vstd::arithmetic::mul::lemma_mul_upper_bound(pos.y.den as int, m, v.offset.y as int, m);
    vstd::arithmetic::mul::lemma_mul_upper_bound(pos.y.den as int, m, v.global.size.height as int, m);
    vstd::arithmetic::mul::lemma_mul_nonnegative(pos.x.num as int, v.size.width as int);
    vstd::arithmetic::mul::lemma_mul_nonnegative(pos.x.den as int, v.offset.x as int);
    vstd::arithmetic::mul::lemma_mul_nonnegative(pos.y.num as int, v.size.height as int);
    vstd::arithmetic::mul::lemma_mul_nonnegative(pos.y.den as int, v.offset.y as int);
    assert(pos.x.den * v.global.size.width >= 1) by (nonlinear_arith)
        requires
            pos.x.den >= 1 && v.global.size.width >= 1,
    ;
    assert(pos.y.den * v.global.size.height >= 1) by (nonlinear_arith)
        requires
            pos.y.den >= 1 && v.global.size.height >= 1,
    ;
}

/// The four corner vertices of a view, counter-clockwise from the top-left,
/// with texture coordinates (0,0), (0,1), (1,1), (1,0).
pub open spec fn corners_spec(v: View) -> Seq<Vertex> {
    let zero = Frac { num: 0, den: 1 };
    let one = Frac { num: 1, den: 1 };
    seq![
        Vertex { position: globalize_spec(v, VirtualPosition { x: zero, y: zero }), tex_x: 0, tex_y: 0 },
        Vertex { position: globalize_spec(v, VirtualPosition { x: zero, y: one }), tex_x: 0, tex_y: 1 },
        Vertex { position: globalize_spec(v, VirtualPosition { x: one, y: one }), tex_x: 1, tex_y: 1 },
        Vertex { position: globalize_spec(v, VirtualPosition { x: one, y: zero }), tex_x: 1, tex_y: 0 },
    ]
}

// ---------------------------------------------------------------------------
// Views
// ---------------------------------------------------------------------------

/// The physical pixel size of the whole drawing surface.
#[derive(Clone, Copy, Debug, PartialEq, Eq, Structural)]
pub struct GlobalView {
    pub size: PhysicalSize,
}

impl GlobalView {
    pub fn new(size: PhysicalSize) -> (r: Self)
        ensures
            r == (GlobalView { size }),
    {
        Self { size }
    }

    /// Constructs a child view of this surface; the caller must ensure the
    /// region fits inside the surface.
    pub fn view(&self, size: PhysicalSize, offset: PhysicalPosition) -> (r: View)
        requires
            offset.x + size.width <= self.size.width,
            offset.y + size.height <= self.size.height,
        ensures
            r == (View { global: *self, size, offset }),
            r.wf(),
    {
        View { global: *self, size, offset }
    }
}

/// A rectangular region of the drawing surface: a reference to the surface,
/// a physical size, and a physical offset from the surface origin.
#[derive(Clone, Copy, Debug, PartialEq, Eq, Structural)]
pub struct View {
    pub global: GlobalView,
    pub size: PhysicalSize,
    pub offset: PhysicalPosition,
}

impl View {
    /// The region's right and bottom edges are representable in pixels.
    pub open spec fn wf(self) -> bool {
        self.offset.x + self.size.width <= u32::MAX
            && self.offset.y + self.size.height <= u32::MAX
    }

    pub fn width(&self) -> (r: u32)
        ensures
            r == self.size.width,
    {
        self.size.width
    }

    pub fn height(&self) -> (r: u32)
        ensures
            r == self.size.height,
    {
        self.size.height
    }

    /// Resolves a hint against an extent of `ext` pixels.
    fn resolve_len(hint: &SizeHint, ext: u32) -> (r: Option<u32>)
        requires
            hint_ok(hint@),
            resolve_ok(hint@, ext as int),
        ensures
            opt_int(r) == resolve_hint(hint@, ext as int),
        decreases hint, 1int,
    {
        match hint {
            SizeHint::Unresolved => Option::None,
            SizeHint::Physical(p) => Option::Some(*p),
            SizeHint::Virtual(f) => {
                proof {
                    vstd::arithmetic::mul::lemma_mul_upper_bound(
                        f.num as int, u32::MAX as int, ext as int, u32::MAX as int);
                    lemma_frac_scale(f.num as int, f.den as int, ext as int);
                }
                let v = ((f.num as u64) * (ext as u64)) / (f.den as u64);
                Option::Some(v as u32)
            }
            SizeHint::Max(l) => {
                proof {
                    lemma_hint_models_index(l@);
                }
                Self::fold_hints(l, ext, Agg::MaxAgg)
            }
            SizeHint::Min(l) => {
                proof {
                    lemma_hint_models_index(l@);
                }
                Self::fold_hints(l, ext, Agg::MinAgg)
            }
            SizeHint::Sum(l) => {
                proof {
                    lemma_hint_models_index(l@);
                }
                Self::fold_hints(l, ext, Agg::SumAgg)
            }
        }
    }

    /// Folds a whole hint list, skipping members that do not resolve.
    fn fold_hints(l: &Vec<SizeHint>, ext: u32, op: Agg) -> (r: Option<u32>)
        requires
            hint_seq_ok(hint_models(l@)),
            resolve_seq_ok(hint_models(l@), ext as int),
            op == Agg::SumAgg ==> (resolve_fold(hint_models(l@), ext as int, l@.len() as int, Agg::SumAgg)
                matches Option::Some(s) ==> s <= u32::MAX),
        ensures
            opt_int(r) == resolve_fold(hint_models(l@), ext as int, l@.len() as int, op),
        decreases l, 0int,
    {
        proof {
            lemma_hint_models_index(l@);
        }
        let ghost ms = hint_models(l@);
        let mut acc: Option<u32> = Option::None;
        let mut i: usize = 0;
        while i < l.len()
            invariant
                i <= l@.len(),
                ms == hint_models(l@),
                ms.len() == l@.len(),
                forall|j: int| 0 <= j < l@.len() ==> #[trigger] ms[j] == hint_model(l@[j]),
                hint_seq_ok(ms),
                resolve_seq_ok(ms, ext as int),
                op == Agg::SumAgg ==> (resolve_fold(ms, ext as int, l@.len() as int, Agg::SumAgg)
                    matches Option::Some(s) ==> s <= u32::MAX),
                opt_int(acc) == resolve_fold(ms, ext as int, i as int, op),
            decreases l@.len() - i,
        {
            proof {
                assert(ms[i as int] == hint_model(l@[i as int]));
                assert(hint_ok(hint_model(l@[i as int])));
                assert(resolve_ok(hint_model(l@[i as int]), ext as int));
            }
            let cur = Self::resolve_len(&l[i], ext);
            acc = match (acc, cur) {
                (Option::Some(a), Option::Some(b)) => {
                    let c = match op {
                        Agg::MaxAgg => if a >= b { a } else { b },
                        Agg::MinAgg => if a <= b { a } else { b },
                        Agg::SumAgg => {
                            proof {
                                lemma_sum_prefix_le(ms, ext as int, i + 1);
                            }
                            a + b
                        }
                    };
                    Option::Some(c)
                }
                (Option::Some(a), Option::None) => Option::Some(a),
                (Option::None, Option::Some(b)) => Option::Some(b),
                (Option::None, Option::None) => Option::None,
            };
            i = i + 1;
        }
        acc
    }

    /// Converts a physical position inside this view to the view-local
    /// normalized space, dividing by the view's own size.
    pub fn virtualize(&self, pos: PhysicalPosition) -> (r: VirtualPosition)
        requires
            self.size.width >= 1,
            self.size.height >= 1,
            pos.x <= self.size.width,
            pos.y <= self.size.height,
        ensures
            r == (VirtualPosition {
                x: Frac { num: pos.x, den: self.size.width },
                y: Frac { num: pos.y, den: self.size.height },
            }),
            r.wf(),
    {
        VirtualPosition {
            x: Frac { num: pos.x, den: self.size.width },
            y: Frac { num: pos.y, den: self.size.height },
        }
    }

    /// Maps a view-local normalized position to clip space: normalize by the
    /// surface size, then remap x to 2x - 1 and y to -2y + 1 (top-left-origin
    /// fractions to bottom-left-origin clip coordinates).
    pub fn globalize(&self, pos: VirtualPosition) -> (r: GlobalPosition)
        requires
            pos.wf(),
            self.global.size.width >= 1,
            self.global.size.height >= 1,
        ensures
            r == globalize_spec(*self, pos),
            r.x.wf(),
            r.y.wf(),
    {
        proof {
            lemma_globalize_bounds(*self, pos);
        }
        let xa: i128 = (pos.x.num as i128) * (self.size.width as i128);
        let xb: i128 = (pos.x.den as i128) * (self.offset.x as i128);
        let xd: i128 = (pos.x.den as i128) * (self.global.size.width as i128);
        let ya: i128 = (pos.y.num as i128) * (self.size.height as i128);
        let yb: i128 = (pos.y.den as i128) * (self.offset.y as i128);
        let yd: i128 = (pos.y.den as i128) * (self.global.size.height as i128);
        GlobalPosition {
            x: ClipCoord { num: 2 * (xa + xb) - xd, den: xd },
            y: ClipCoord { num: yd - 2 * (ya + yb), den: yd },
        }
    }

    /// The four corners of this view in clip space, counter-clockwise from
    /// the view-local origin, each paired with its texture coordinate.
    pub fn corners(&self) -> (r: [Vertex; 4])
        requires
            self.global.size.width >= 1,
            self.global.size.height >= 1,
        ensures
            r@ == corners_spec(*self),
    {
        let zero = Frac { num: 0, den: 1 };
        let one = Frac { num: 1, den: 1 };
        let r = [
            Vertex::new(self.globalize(VirtualPosition { x: zero, y: zero }), 0, 0),
            Vertex::new(self.globalize(VirtualPosition { x: zero, y: one }), 0, 1),
            Vertex::new(self.globalize(VirtualPosition { x: one, y: one }), 1, 1),
            Vertex::new(self.globalize(VirtualPosition { x: one, y: zero }), 1, 0),
        ];
        proof {
            assert(r@ =~= corners_spec(*self));
        }
        r
    }

    /// Splits off an inset frame: returns this view unchanged together with
    /// an inner view shrunk by `width` pixels on every side.
    pub fn bordered(self, width: u32) -> (r: (View, View))
        requires
            self.wf(),
            2 * width <= self.size.width,
            2 * width <= self.size.height,
        ensures
            r.0 == self,
            r.1 == (View {
                global: self.global,
                size: PhysicalSize {
                    width: (self.size.width - 2 * width) as u32,
                    height: (self.size.height - 2 * width) as u32,
                },
                offset: PhysicalPosition {
                    x: (self.offset.x + width) as u32,
                    y: (self.offset.y + width) as u32,
                },
            }),
            r.1.wf(),
    {
        let size = PhysicalSize::new(self.size.width - 2 * width, self.size.height - 2 * width);
        let offset = PhysicalPosition::new(self.offset.x + width, self.offset.y + width);
        let inner = View { global: self.global, size, offset };
        (self, inner)
    }

    /// Shrinks this view to its preferred size: per axis the resolved hint,
    /// falling back to the current extent, but never more than the space the
    /// view already has.  The offset is unchanged.
    pub fn from_size_hints(self, width: SizeHint, height: SizeHint) -> (r: View)
        requires
            self.wf(),
            hint_ok(width@),
            hint_ok(height@),
            resolve_ok(width@, self.size.width as int),
            resolve_ok(height@, self.size.height as int),
        ensures
            r == from_hints_view(self, width@, height@),
            r.wf(),
    {
        let w = match self.physical_width_hint(width) {
            Option::Some(x) => if x < self.size.width { x } else { self.size.width },
            Option::None => self.size.width,
        };
        let h = match self.physical_height_hint(height) {
            Option::Some(x) => if x < self.size.height { x } else { self.size.height },
            Option::None => self.size.height,
        };
        View {
            global: self.global,
            size: PhysicalSize { width: w, height: h },
            offset: self.offset,
        }
    }

    /// Partitions this view into adjacent sub-views along the horizontal
    /// axis, one per hint, in input order: each sub-view keeps the parent's
    /// height and takes the resolved width (zero when unresolved), starting
    /// at the parent's offset and advancing by each width in turn.
    pub fn split_row(self, hints: Vec<SizeHint>) -> (r: Vec<View>)
        requires
            self.wf(),
            hint_seq_ok(hint_models(hints@)),
            resolve_seq_ok(hint_models(hints@), self.size.width as int),
            self.offset.x + split_prefix(hint_models(hints@), self.size.width as int, hints@.len() as int) <= u32::MAX,
        ensures
            r@.len() == hints@.len(),
            forall|i: int| 0 <= i < hints@.len()
                ==> #[trigger] r@[i] == split_row_view(self, hint_models(hints@), i),
    {
        proof {
            lemma_hint_models_index(hints@);
        }
        let ghost ms = hint_models(hints@);
        let ext = self.size.width;
        let mut values: Vec<View> = Vec::new();
        let mut offset: u32 = 0;
        let mut i: usize = 0;
        while i < hints.len()
            invariant
                i <= hints@.len(),
                ms == hint_models(hints@),
                ms.len() == hints@.len(),
                forall|j: int| 0 <= j < hints@.len() ==> #[trigger] ms[j] == hint_model(hints@[j]),
                hint_seq_ok(ms),
                resolve_seq_ok(ms, ext as int),
                ext == self.size.width,
                self.offset.x + split_prefix(ms, ext as int, ms.len() as int) <= u32::MAX,
                offset == split_prefix(ms, ext as int, i as int),
                values@.len() == i,
                forall|j: int| 0 <= j < i ==> #[trigger] values@[j] == split_row_view(self, ms, j),
            decreases hints@.len() - i,
        {
            proof {
                lemma_split_prefix_bounds(ms, ext as int, i as int);
                lemma_split_prefix_bounds(ms, ext as int, i + 1);
            }
            let w = match Self::resolve_len(&hints[i], ext) {
                Option::Some(x) => x,
                Option::None => 0,
            };
            let sub = View {
                global: self.global,
                size: PhysicalSize { width: w, height: self.size.height },
                offset: PhysicalPosition { x: self.offset.x + offset, y: self.offset.y },
            };
            values.push(sub);
            offset = offset + w;
            i = i + 1;
        }
        values
    }

    /// Partitions this view into adjacent sub-views along the vertical axis,
    /// the mirror image of `split_row`.
    pub fn split_column(self, hints: Vec<SizeHint>) -> (r: Vec<View>)
        requires
            self.wf(),
            hint_seq_ok(hint_models(hints@)),
            resolve_seq_ok(hint_models(hints@), self.size.height as int),
            self.offset.y + split_prefix(hint_models(hints@), self.size.height as int, hints@.len() as int) <= u32::MAX,
        ensures
            r@.len() == hints@.len(),
            forall|i: int| 0 <= i < hints@.len()
                ==> #[trigger] r@[i] == split_column_view(self, hint_models(hints@), i),
    {
        proof {
            lemma_hint_models_index(hints@);
        }
        let ghost ms = hint_models(hints@);
        let ext = self.size.height;
        let mut values: Vec<View> = Vec::new();
        let mut offset: u32 = 0;
        let mut i: usize = 0;
        while i < hints.len()
            invariant
                i <= hints@.len(),
                ms == hint_models(hints@),
                ms.len() == hints@.len(),
                forall|j: int| 0 <= j < hints@.len() ==> #[trigger] ms[j] == hint_model(hints@[j]),
                hint_seq_ok(ms),
                resolve_seq_ok(ms, ext as int),
                ext == self.size.height,
                self.offset.y + split_prefix(ms, ext as int, ms.len() as int) <= u32::MAX,
                offset == split_prefix(ms, ext as int, i as int),
                values@.len() == i,
                forall|j: int| 0 <= j < i ==> #[trigger] values@[j] == split_column_view(self, ms, j),
            decreases hints@.len() - i,
        {
            proof {
                lemma_split_prefix_bounds(ms, ext as int, i as int);
                lemma_split_prefix_bounds(ms, ext as int, i + 1);
            }
            let h = match Self::resolve_len(&hints[i], ext) {
                Option::Some(x) => x,
                Option::None => 0,
            };
            let sub = View {
                global: self.global,
                size: PhysicalSize { width: self.size.width, height: h },
                offset: PhysicalPosition { x: self.offset.x, y: self.offset.y + offset },
            };
            values.push(sub);
            offset = offset + h;
            i = i + 1;
        }
        values
    }

    /// Resolves a hint to an exact fraction of an extent of `ext` pixels.
    fn vresolve_len(hint: &SizeHint, ext: u32) -> (r: Option<Frac>)
        requires
            ext >= 1,
            hint_ok(hint@),
            vresolve_ok(hint@, ext as int),
        ensures
            opt_frac(r) == vresolve_hint(hint@, ext as int),
            r matches Option::Some(f) ==> f.wf(),
        decreases hint, 1int,
    {
        proof {
            lemma_vresolve_wf(hint@, ext as int);
        }
        match hint {
            SizeHint::Unresolved => Option::None,
            SizeHint::Physical(p) => Option::Some(Frac { num: *p, den: ext }),
            SizeHint::Virtual(f) => Option::Some(*f),
            SizeHint::Max(l) => {
                proof {
                    lemma_hint_models_index(l@);
                }
                Self::vfold_hints(l, ext, Agg::MaxAgg)
            }
            SizeHint::Min(l) => {
                proof {
                    lemma_hint_models_index(l@);
                }
                Self::vfold_hints(l, ext, Agg::MinAgg)
            }
            SizeHint::Sum(l) => {
                proof {
                    lemma_hint_models_index(l@);
                }
                Self::vfold_hints(l, ext, Agg::SumAgg)
            }
        }
    }

    /// Folds a whole hint list to a fraction, skipping members that do not
    /// resolve.
    fn vfold_hints(l: &Vec<SizeHint>, ext: u32, op: Agg) -> (r: Option<Frac>)
        requires
            ext >= 1,
            hint_seq_ok(hint_models(l@)),
            vresolve_seq_ok(hint_models(l@), ext as int),
            op == Agg::SumAgg ==> (vresolve_fold(hint_models(l@), ext as int, l@.len() as int, Agg::SumAgg)
                matches Option::Some(f) ==> f.0 <= u32::MAX && f.1 <= u32::MAX),
        ensures
            opt_frac(r) == vresolve_fold(hint_models(l@), ext as int, l@.len() as int, op),
            r matches Option::Some(f) ==> f.wf(),
        decreases l, 0int,
    {
        proof {
            lemma_hint_models_index(l@);
        }
        let ghost ms = hint_models(l@);
        let mut acc: Option<Frac> = Option::None;
        let mut i: usize = 0;
        while i < l.len()
            invariant
                i <= l@.len(),
                ext >= 1,
                ms == hint_models(l@),
                ms.len() == l@.len(),
                forall|j: int| 0 <= j < l@.len() ==> #[trigger] ms[j] == hint_model(l@[j]),
                hint_seq_ok(ms),
                vresolve_seq_ok(ms, ext as int),
                op == Agg::SumAgg ==> (vresolve_fold(ms, ext as int, l@.len() as int, Agg::SumAgg)
                    matches Option::Some(f) ==> f.0 <= u32::MAX && f.1 <= u32::MAX),
                opt_frac(acc) == vresolve_fold(ms, ext as int, i as int, op),
                acc matches Option::Some(f) ==> f.wf(),
            decreases l@.len() - i,
        {
            proof {
                assert(ms[i as int] == hint_model(l@[i as int]));
                lemma_vresolve_fold_wf(ms, ext as int, i as int, op);
                lemma_vresolve_wf(ms[i as int], ext as int);
            }
            let cur = Self::vresolve_len(&l[i], ext);
            acc = match (acc, cur) {
                (Option::Some(a), Option::Some(b)) => {
                    proof {
                        vstd::arithmetic::mul::lemma_mul_upper_bound(
                            a.num as int, u32::MAX as int, b.den as int, u32::MAX as int);
                        vstd::arithmetic::mul::lemma_mul_upper_bound(
                            b.num as int, u32::MAX as int, a.den as int, u32::MAX as int);
                        vstd::arithmetic::mul::lemma_mul_upper_bound(
                            a.den as int, u32::MAX as int, b.den as int, u32::MAX as int);
                        vstd::arithmetic::mul::lemma_mul_nonnegative(a.num as int, b.den as int);
                        vstd::arithmetic::mul::lemma_mul_nonnegative(b.num as int, a.den as int);
                        assert(a.den as int * (b.den as int) >= 1) by (nonlinear_arith)
                            requires
                                a.den >= 1 && b.den >= 1,
                        ;
                    }
                    let c = match op {
                        Agg::MaxAgg => {
                            let lhs = (a.num as u64) * (b.den as u64);
                            let rhs = (b.num as u64) * (a.den as u64);
                            if lhs >= rhs { a } else { b }
                        }
                        Agg::MinAgg => {
                            let lhs = (a.num as u64) * (b.den as u64);
                            let rhs = (b.num as u64) * (a.den as u64);
                            if lhs <= rhs { a } else { b }
                        }
                        Agg::SumAgg => {
                            proof {
                                lemma_vsum_prefix_le(ms, ext as int, i + 1);
                            }
                            let num = (a.num as u64) * (b.den as u64) + (b.num as u64) * (a.den as u64);
                            let den = (a.den as u64) * (b.den as u64);
                            Frac { num: num as u32, den: den as u32 }
                        }
                    };
                    Option::Some(c)
                }
                (Option::Some(a), Option::None) => Option::Some(a),
                (Option::None, Option::Some(b)) => Option::Some(b),
                (Option::None, Option::None) => Option::None,
            };
            i = i + 1;
        }
        acc
    }

    /// Resolves a hint to an exact fraction of this view's own width.
    pub fn virtualize_width_hint(&self, hint: SizeHint) -> (r: Option<Frac>)
        requires
            self.size.width >= 1,
            hint_ok(hint@),
            vresolve_ok(hint@, self.size.width as int),
        ensures
            opt_frac(r) == vresolve_hint(hint@, self.size.width as int),
            r matches Option::Some(f) ==> f.wf(),
    {
        Self::vresolve_len(&hint, self.size.width)
    }

    /// Resolves a hint to an exact fraction of this view's own height.
    pub fn virtualize_height_hint(&self, hint: SizeHint) -> (r: Option<Frac>)
        requires
            self.size.height >= 1,
            hint_ok(hint@),
            vresolve_ok(hint@, self.size.height as int),
        ensures
            opt_frac(r) == vresolve_hint(hint@, self.size.height as int),
            r matches Option::Some(f) ==> f.wf(),
    {
        Self::vresolve_len(&hint, self.size.height)
    }

    /// Resolves a hint to a pixel width relative to this view's own width.
    pub fn physical_width_hint(&self, hint: SizeHint) -> (r: Option<u32>)
        requires
            hint_ok(hint@),
            resolve_ok(hint@, self.size.width as int),
        ensures
            opt_int(r) == resolve_hint(hint@, self.size.width as int),
    {
        Self::resolve_len(&hint, self.size.width)
    }

    /// Resolves a hint to a pixel height relative to this view's own height.
    pub fn physical_height_hint(&self, hint: SizeHint) -> (r: Option<u32>)
        requires
            hint_ok(hint@),
            resolve_ok(hint@, self.size.height as int),
        ensures
            opt_int(r) == resolve_hint(hint@, self.size.height as int),
    {
        Self::resolve_len(&hint, self.size.height)
    }
}


// ---------------------------------------------------------------------------
// Laws of resolution and partitioning
// ---------------------------------------------------------------------------

/// A `Sum` (or any aggregate) of an empty list is unresolved, not zero.
pub proof fn lemma_empty_aggregate_unresolved(ext: int)
    ensures
        resolve_hint(HintModel::Sum(Seq::empty()), ext) is None,
        resolve_hint(HintModel::Max(Seq::empty()), ext) is None,
        resolve_hint(HintModel::Min(Seq::empty()), ext) is None,
{
}

/// `Min` and `Max` folds over the same list resolve together, and the `Min`
/// fold never exceeds the `Max` fold.
pub proof fn lemma_fold_min_le_max(l: Seq<HintModel>, ext: int, n: int)
    requires
        0 <= n <= l.len(),
    ensures
        match (resolve_fold(l, ext, n, Agg::MinAgg), resolve_fold(l, ext, n, Agg::MaxAgg)) {
            (Option::Some(a), Option::Some(b)) => a <= b,
            (Option::None, Option::None) => true,
            _ => false,
        },
    decreases n,
{
    if n > 0 {
        lemma_fold_min_le_max(l, ext, n - 1);
    }
}

/// Whenever `Min(L)` and `Max(L)` both resolve, the former is at most the
/// latter; over one list they always resolve together.
pub proof fn lemma_min_le_max(l: Seq<HintModel>, ext: int)
    ensures
        match (resolve_hint(HintModel::Min(l), ext), resolve_hint(HintModel::Max(l), ext)) {
            (Option::Some(a), Option::Some(b)) => a <= b,
            (Option::None, Option::None) => true,
            _ => false,
        },
{
    lemma_fold_min_le_max(l, ext, l.len() as int);
}


/// Transitivity of the rational order over positive denominators.
pub proof fn lemma_frac_le_trans(a: (int, int), b: (int, int), c: (int, int))
    requires
        a.1 >= 1,
        b.1 >= 1,
        c.1 >= 1,
        a.0 * b.1 <= b.0 * a.1,
        b.0 * c.1 <= c.0 * b.1,
    ensures
        a.0 * c.1 <= c.0 * a.1,
{
    assert(a.0 * c.1 <= c.0 * a.1) by (nonlinear_arith)
        requires
            a.1 >= 1 && b.1 >= 1 && c.1 >= 1
                && a.0 * b.1 <= b.0 * a.1 && b.0 * c.1 <= c.0 * b.1,
    ;
}

/// `Min` and `Max` folds under normalized resolution resolve together, and
/// the `Min` fold never exceeds the `Max` fold as a rational.
pub proof fn lemma_vfold_min_le_max(l: Seq<HintModel>, ext: int, n: int)
    requires
        hint_seq_ok(l),
        ext >= 1,
        0 <= n <= l.len(),
    ensures
        match (vresolve_fold(l, ext, n, Agg::MinAgg), vresolve_fold(l, ext, n, Agg::MaxAgg)) {
            (Option::Some(a), Option::Some(b)) => a.1 >= 1 && b.1 >= 1 && a.0 * b.1 <= b.0 * a.1,
            (Option::None, Option::None) => true,
            _ => false,
        },
    decreases n,
{
    if n > 0 {
        lemma_vfold_min_le_max(l, ext, n - 1);
        lemma_vresolve_wf(l[n - 1], ext);
        lemma_vresolve_fold_wf(l, ext, n - 1, Agg::MinAgg);
        lemma_vresolve_fold_wf(l, ext, n - 1, Agg::MaxAgg);
        match (
            vresolve_fold(l, ext, n - 1, Agg::MinAgg),
            vresolve_fold(l, ext, n - 1, Agg::MaxAgg),
            vresolve_hint(l[n - 1], ext),
        ) {
            (Option::Some(a), Option::Some(b), Option::Some(c)) => {
                let lo = vagg_apply(Agg::MinAgg, a, c);
                let hi = vagg_apply(Agg::MaxAgg, b, c);
                assert(lo.0 * c.1 <= c.0 * lo.1);
                assert(c.0 * hi.1 <= hi.0 * c.1);
                lemma_frac_le_trans(lo, c, hi);
            }
            _ => {}
        }
    }
}

/// Whenever `Min(L)` and `Max(L)` both resolve to fractions, the former is
/// at most the latter; over one list they always resolve together.
pub proof fn lemma_vmin_le_vmax(l: Seq<HintModel>, ext: int)
    requires
        hint_seq_ok(l),
        ext >= 1,
    ensures
        match (vresolve_hint(HintModel::Min(l), ext), vresolve_hint(HintModel::Max(l), ext)) {
            (Option::Some(a), Option::Some(b)) => a.0 * b.1 <= b.0 * a.1,
            (Option::None, Option::None) => true,
            _ => false,
        },
{
    lemma_vfold_min_le_max(l, ext, l.len() as int);
}

/// Strict growth of prefix sums when every width in between is positive.
pub proof fn lemma_split_prefix_strict(hs: Seq<HintModel>, ext: int, i: int, j: int)
    requires
        0 <= i < j <= hs.len(),
        forall|k: int| i <= k < j ==> resolved_or(#[trigger] hs[k], ext, 0) >= 1,
    ensures
        split_prefix(hs, ext, i) < split_prefix(hs, ext, j),
    decreases j - i,
{
    if i + 1 < j {
        lemma_split_prefix_strict(hs, ext, i + 1, j);
    }
}

/// Sub-views of a horizontal split cover consecutive, non-overlapping pixel
/// ranges in input order: each sub-view ends where the next begins or
/// earlier, and offsets grow strictly once every width in between is
/// positive.
pub proof fn lemma_split_row_disjoint(v: View, hs: Seq<HintModel>, i: int, j: int)
    requires
        hint_seq_ok(hs),
        v.offset.x + split_prefix(hs, v.size.width as int, hs.len() as int) <= u32::MAX,
        0 <= i < j < hs.len(),
    ensures
        split_row_view(v, hs, i).offset.x + split_row_view(v, hs, i).size.width
            <= split_row_view(v, hs, j).offset.x,
        split_row_view(v, hs, i).offset.x
            == v.offset.x + split_prefix(hs, v.size.width as int, i),
        (forall|k: int| i <= k < j ==> resolved_or(#[trigger] hs[k], v.size.width as int, 0) >= 1)
            ==> split_row_view(v, hs, i).offset.x < split_row_view(v, hs, j).offset.x,
{
    let ext = v.size.width as int;
    lemma_split_prefix_bounds(hs, ext, i);
    lemma_split_prefix_bounds(hs, ext, i + 1);
    lemma_split_prefix_bounds(hs, ext, j);
    lemma_split_prefix_mono(hs, ext, i + 1, j);
    lemma_resolve_nonneg(hs[i], ext);
    if forall|k: int| i <= k < j ==> resolved_or(#[trigger] hs[k], ext, 0) >= 1 {
        lemma_split_prefix_strict(hs, ext, i, j);
    }
}

/// The mirror statement for vertical splits.
pub proof fn lemma_split_column_disjoint(v: View, hs: Seq<HintModel>, i: int, j: int)
    requires
        hint_seq_ok(hs),
        v.offset.y + split_prefix(hs, v.size.height as int, hs.len() as int) <= u32::MAX,
        0 <= i < j < hs.len(),
    ensures
        split_column_view(v, hs, i).offset.y + split_column_view(v, hs, i).size.height
            <= split_column_view(v, hs, j).offset.y,
        split_column_view(v, hs, i).offset.y
            == v.offset.y + split_prefix(hs, v.size.height as int, i),
        (forall|k: int| i <= k < j ==> resolved_or(#[trigger] hs[k], v.size.height as int, 0) >= 1)
            ==> split_column_view(v, hs, i).offset.y < split_column_view(v, hs, j).offset.y,
{
    let ext = v.size.height as int;
    lemma_split_prefix_bounds(hs, ext, i);
    lemma_split_prefix_bounds(hs, ext, i + 1);
    lemma_split_prefix_bounds(hs, ext, j);
    lemma_split_prefix_mono(hs, ext, i + 1, j);
    lemma_resolve_nonneg(hs[i], ext);
    if forall|k: int| i <= k < j ==> resolved_or(#[trigger] hs[k], ext, 0) >= 1 {
        lemma_split_prefix_strict(hs, ext, i, j);
    }
}

/// Round trip through the coordinate spaces: virtualizing a physical corner
/// of the surface-filling view and globalizing the result lands exactly on
/// the corresponding clip-space extreme, (-1, 1) at the view-local origin
/// (top-left) down to (1, -1) at the opposite corner (bottom-right).
pub proof fn lemma_corner_round_trip(v: View)
    requires
        v.offset.x == 0,
        v.offset.y == 0,
        v.size == v.global.size,
        v.size.width >= 1,
        v.size.height >= 1,
    ensures
        ({
            let w = v.size.width;
            let h = v.size.height;
            let top_left = globalize_spec(v, VirtualPosition {
                x: Frac { num: 0, den: w }, y: Frac { num: 0, den: h } });
            let bottom_left = globalize_spec(v, VirtualPosition {
                x: Frac { num: 0, den: w }, y: Frac { num: h, den: h } });
            let bottom_right = globalize_spec(v, VirtualPosition {
                x: Frac { num: w, den: w }, y: Frac { num: h, den: h } });
            let top_right = globalize_spec(v, VirtualPosition {
                x: Frac { num: w, den: w }, y: Frac { num: 0, den: h } });
            top_left.x.num == -top_left.x.den && top_left.y.num == top_left.y.den
                && bottom_left.x.num == -bottom_left.x.den && bottom_left.y.num == -bottom_left.y.den
                && bottom_right.x.num == bottom_right.x.den && bottom_right.y.num == -bottom_right.y.den
                && top_right.x.num == top_right.x.den && top_right.y.num == top_right.y.den
        }),
{
    let w = v.size.width as int;
    let h = v.size.height as int;
    assert(0 * w == 0) by (nonlinear_arith);
    assert(0 * h == 0) by (nonlinear_arith);
    assert(w * w >= 1 && w * w <= 0xffff_ffff_0000_0000) by (nonlinear_arith)
        requires
            1 <= w <= 0xffff_ffff,
    ;
    assert(h * h >= 1 && h * h <= 0xffff_ffff_0000_0000) by (nonlinear_arith)
        requires
            1 <= h <= 0xffff_ffff,
    ;
}

} // verus!
