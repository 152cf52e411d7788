//! The order-independent transparency compositor: per view, two auxiliary
//! accumulation surfaces (wide-gamut colour, single-channel coverage), an
//! additive-blended accumulate pass over every draw batch, and a resolve
//! pass that blends the accumulated surfaces onto the final target exactly
//! once, strictly after the last accumulate draw.
//!
//! No draw order is ever needed: the colour surface accumulates by
//! addition and the coverage surface by multiplication, and both are
//! commutative and associative, which is proved here over the exact
//! fixed-point model of the blending (`lemma_pass_order_independent`). The
//! physical surfaces round to their texel formats; the exact model is the
//! quantity that reorderings preserve.
//!
//! A view's resolution is snapshotted once per frame when its pass begins,
//! so a resize between accumulate and resolve cannot tear the pair of
//! surfaces. Surfaces are reused frame to frame and recreated, never
//! partially overwritten, when the resolution changes.

use vstd::prelude::*;
use vstd::arithmetic::mul::{lemma_mul_is_associative, lemma_mul_is_commutative};

verus! {

/// The fixed-point scale of blend factors: this many units stand for 1.0.
pub const BLEND_SCALE: u32 = 65536;

/// The blend factors the compositor's pipelines use.
#[derive(Clone, Copy, Debug, PartialEq, Eq, Structural)]
pub enum BlendFactor {
    Zero,
    One,
    SrcAlpha,
    OneMinusSrcAlpha,
}

/// The compositor only ever adds weighted terms.
#[derive(Clone, Copy, Debug, PartialEq, Eq, Structural)]
pub enum BlendOperation {
    Add,
}

/// One blend equation: `dst' = src * src_factor + dst * dst_factor`.
#[derive(Clone, Copy, Debug, PartialEq, Eq, Structural)]
pub struct BlendComponent {
    pub src_factor: BlendFactor,
    pub dst_factor: BlendFactor,
    pub operation: BlendOperation,
}

/// The texel formats of the compositor's targets.
#[derive(Clone, Copy, Debug, PartialEq, Eq, Structural)]
pub enum SurfaceFormat {
    Rgba16Float,
    R16Float,
    Rgba8UnormSrgb,
}

/// The blend of the accumulate pass's colour target: plain addition,
/// `dst += src`.
pub open spec fn accumulation_colour_blend_spec() -> BlendComponent {
    BlendComponent {
        src_factor: BlendFactor::One,
        dst_factor: BlendFactor::One,
        operation: BlendOperation::Add,
    }
}

/// The blend of the accumulate pass's coverage target: a multiplicative
/// dissolve, `dst *= (1 - srcAlpha)`.
pub open spec fn accumulation_coverage_blend_spec() -> BlendComponent {
    BlendComponent {
        src_factor: BlendFactor::Zero,
        dst_factor: BlendFactor::OneMinusSrcAlpha,
        operation: BlendOperation::Add,
    }
}

/// The blend of the resolve pass onto the final target: standard alpha
/// compositing weighted by the accumulated coverage.
pub open spec fn resolve_blend_spec() -> BlendComponent {
    BlendComponent {
        src_factor: BlendFactor::OneMinusSrcAlpha,
        dst_factor: BlendFactor::SrcAlpha,
        operation: BlendOperation::Add,
    }
}

pub fn accumulation_colour_blend() -> (c: BlendComponent)
    ensures
        c == accumulation_colour_blend_spec(),
{
    BlendComponent {
        src_factor: BlendFactor::One,
        dst_factor: BlendFactor::One,
        operation: BlendOperation::Add,
    }
}

pub fn accumulation_coverage_blend() -> (c: BlendComponent)
    ensures
        c == accumulation_coverage_blend_spec(),
{
    BlendComponent {
        src_factor: BlendFactor::Zero,
        dst_factor: BlendFactor::OneMinusSrcAlpha,
        operation: BlendOperation::Add,
    }
}

pub fn resolve_blend() -> (c: BlendComponent)
    ensures
        c == resolve_blend_spec(),
{
    BlendComponent {
        src_factor: BlendFactor::OneMinusSrcAlpha,
        dst_factor: BlendFactor::SrcAlpha,
        operation: BlendOperation::Add,
    }
}

/// The colour accumulation surface is wide-gamut floating point.
pub fn colour_surface_format() -> (f: SurfaceFormat)
    ensures
        f == SurfaceFormat::Rgba16Float,
{
    SurfaceFormat::Rgba16Float
}

/// The coverage accumulation surface is a single channel.
pub fn coverage_surface_format() -> (f: SurfaceFormat)
    ensures
        f == SurfaceFormat::R16Float,
{
    SurfaceFormat::R16Float
}

/// The resolve pass blends onto the standard-range final colour target.
pub fn resolve_target_format() -> (f: SurfaceFormat)
    ensures
        f == SurfaceFormat::Rgba8UnormSrgb,
{
    SurfaceFormat::Rgba8UnormSrgb
}

/// The colour surface clears to neutral zero (nothing accumulated).
pub fn clear_colour() -> (v: u32)
    ensures
        v == 0,
{
    0
}

/// The coverage surface clears to neutral one (fully transparent).
pub fn clear_coverage() -> (v: u32)
    ensures
        v == BLEND_SCALE,
{
    BLEND_SCALE
}

/// The weight a blend factor contributes, scaled by `BLEND_SCALE`.
pub open spec fn factor_value(f: BlendFactor, src_alpha: int) -> int {
    match f {
        BlendFactor::Zero => 0,
        BlendFactor::One => BLEND_SCALE as int,
        BlendFactor::SrcAlpha => src_alpha,
        BlendFactor::OneMinusSrcAlpha => BLEND_SCALE - src_alpha,
    }
}

/// One application of a blend equation over the fixed-point domain.
pub open spec fn blend_eval(c: BlendComponent, src: int, src_alpha: int, dst: int) -> int {
    match c.operation {
        BlendOperation::Add => (src * factor_value(c.src_factor, src_alpha) + dst * factor_value(
            c.dst_factor,
            src_alpha,
        )) / (BLEND_SCALE as int),
    }
}

/// The configured colour blend accumulates by exact addition, whatever the
/// fragment's alpha.
pub proof fn lemma_colour_blend_accumulates(src: int, src_alpha: int, dst: int)
    ensures
        blend_eval(accumulation_colour_blend_spec(), src, src_alpha, dst) == dst + src,
{
    let s = BLEND_SCALE as int;
    assert(src * s + dst * s == (src + dst) * s) by (nonlinear_arith);
    assert(((src + dst) * s) / s == src + dst) by (nonlinear_arith)
        requires
            s > 0,
    ;
}

/// The configured coverage blend dissolves the target by one minus the
/// fragment's alpha.
pub proof fn lemma_coverage_blend_dissolves(src: int, src_alpha: int, dst: int)
    ensures
        blend_eval(accumulation_coverage_blend_spec(), src, src_alpha, dst) == (dst * (
        BLEND_SCALE - src_alpha)) / (BLEND_SCALE as int),
{
    assert(src * 0 == 0) by (nonlinear_arith);
}

/// Resolving neutral surfaces changes nothing: with accumulated coverage
/// still at its clear value (fully transparent), the resolve blend leaves
/// every target pixel as it was, whatever the colour surface holds.
pub proof fn lemma_resolve_neutral_identity(src: int, dst: int)
    ensures
        blend_eval(resolve_blend_spec(), src, BLEND_SCALE as int, dst) == dst,
{
    let s = BLEND_SCALE as int;
    assert(src * 0 == 0) by (nonlinear_arith);
    assert((dst * s) / s == dst) by (nonlinear_arith)
        requires
            s > 0,
    ;
}

/// What one draw contributes to a pixel of the accumulation surfaces: a
/// colour summand and a transmittance factor (one minus the fragment's
/// alpha, scaled by `BLEND_SCALE`). The fragment shader computes both from
/// material parameters the core does not interpret.
#[derive(Clone, Copy, Debug, PartialEq, Eq, Structural)]
pub struct Contribution {
    pub colour: u32,
    pub transmittance: u32,
}

/// The accumulated colour: the exact sum of the contributions.
pub open spec fn colour_sum(s: Seq<Contribution>) -> int
    decreases s.len(),
{
    if s.len() == 0 {
        0
    } else {
        colour_sum(s.drop_last()) + s.last().colour
    }
}

/// The accumulated coverage: the exact product of the transmittances (with
/// an implicit denominator of `BLEND_SCALE` to the number of draws).
pub open spec fn coverage_product(s: Seq<Contribution>) -> int
    decreases s.len(),
{
    if s.len() == 0 {
        1
    } else {
        coverage_product(s.drop_last()) * s.last().transmittance
    }
}

/// Removing one element takes its summand out of the sum.
pub proof fn lemma_colour_sum_remove(s: Seq<Contribution>, i: int)
    requires
        0 <= i < s.len(),
    ensures
        colour_sum(s) == colour_sum(s.remove(i)) + s[i].colour,
    decreases s.len(),
{
    if i == s.len() - 1 {
        assert(s.remove(i) =~= s.drop_last());
    } else {
        assert(s.remove(i).drop_last() =~= s.drop_last().remove(i));
        assert(s.remove(i).last() == s.last());
        lemma_colour_sum_remove(s.drop_last(), i);
    }
}

/// Removing one element divides its factor out of the product.
pub proof fn lemma_coverage_product_remove(s: Seq<Contribution>, i: int)
    requires
        0 <= i < s.len(),
    ensures
        coverage_product(s) == coverage_product(s.remove(i)) * s[i].transmittance,
    decreases s.len(),
{
    if i == s.len() - 1 {
        assert(s.remove(i) =~= s.drop_last());
    } else {
        assert(s.remove(i).drop_last() =~= s.drop_last().remove(i));
        assert(s.remove(i).last() == s.last());
        lemma_coverage_product_remove(s.drop_last(), i);
        let p = coverage_product(s.drop_last().remove(i));
        let f = s[i].transmittance as int;
        let l = s.last().transmittance as int;
        lemma_mul_is_associative(p, f, l);
        lemma_mul_is_commutative(f, l);
        lemma_mul_is_associative(p, l, f);
    }
}

/// Accumulation is order-independent: two draw lists with the same
/// contributions in any order accumulate the same colour sum and the same
/// coverage product, so the resolve pass — a function of the two
/// accumulated surfaces alone — produces the same final pixels. This is
/// why no depth sort is needed.
pub proof fn lemma_accumulation_order_independent(s: Seq<Contribution>, t: Seq<Contribution>)
    requires
        s.to_multiset() == t.to_multiset(),
    ensures
        colour_sum(s) == colour_sum(t),
        coverage_product(s) == coverage_product(t),
    decreases s.len(),
{
    broadcast use vstd::multiset::group_multiset_axioms;

    s.to_multiset_ensures();
    t.to_multiset_ensures();
    if s.len() == 0 {
        assert(t.len() == 0);
    } else {
        let x = s.last();
        let i = s.len() - 1;
        assert(s[i] == x);
        assert(s.to_multiset().count(x) > 0);
        assert(t.to_multiset().count(x) > 0);
        assert(t.contains(x));
        let j = choose|j: int| 0 <= j < t.len() && t[j] == x;
        lemma_colour_sum_remove(s, i);
        lemma_colour_sum_remove(t, j);
        lemma_coverage_product_remove(s, i);
        lemma_coverage_product_remove(t, j);
        vstd::seq_lib::to_multiset_remove(s, i);
        vstd::seq_lib::to_multiset_remove(t, j);
        lemma_accumulation_order_independent(s.remove(i), t.remove(j));
    }
}

/// Reference accumulation of the colour surface for one pixel.
pub fn accumulated_colour(entries: &Vec<Contribution>) -> (r: u64)
    requires
        colour_sum(entries@) <= u64::MAX,
    ensures
        r == colour_sum(entries@),
{
    proof {
        assert(entries@.take(0) =~= Seq::<Contribution>::empty());
    }
    let mut acc: u64 = 0;
    let mut i: usize = 0;
    while i < entries.len()
        invariant
            i <= entries@.len(),
            colour_sum(entries@) <= u64::MAX,
            acc == colour_sum(entries@.take(i as int)),
        decreases entries@.len() - i,
    {
        proof {
            assert(entries@.take(i as int + 1).drop_last() =~= entries@.take(i as int));
            assert(entries@.take(i as int + 1).last() == entries@[i as int]);
            lemma_colour_sum_prefix_bound(entries@, i as int + 1);
        }
        acc = acc + entries[i].colour as u64;
        i = i + 1;
    }
    proof {
        assert(entries@.take(entries@.len() as int) =~= entries@);
    }
    acc
}

/// A prefix sum never exceeds the whole sum.
pub proof fn lemma_colour_sum_prefix_bound(s: Seq<Contribution>, p: int)
    requires
        0 <= p <= s.len(),
    ensures
        colour_sum(s.take(p)) <= colour_sum(s),
    decreases s.len() - p,
{
    if p == s.len() {
        assert(s.take(p) =~= s);
    } else {
        lemma_colour_sum_prefix_bound(s, p + 1);
        assert(s.take(p + 1).drop_last() =~= s.take(p));
        assert(s.take(p + 1).last() == s[p]);
    }
}

/// Reference accumulation of the coverage surface for one pixel. Every
/// prefix product must fit, since a later zero transmittance can shrink
/// the final product below an intermediate one.
pub fn accumulated_coverage(entries: &Vec<Contribution>) -> (r: u64)
    requires
        forall|p: int|
            0 <= p <= entries@.len() ==> coverage_product(#[trigger] entries@.take(p)) <= u64::MAX,
        forall|p: int|
            0 <= p <= entries@.len() ==> coverage_product(#[trigger] entries@.take(p)) >= 0,
    ensures
        r == coverage_product(entries@),
{
    proof {
        assert(entries@.take(0) =~= Seq::<Contribution>::empty());
    }
    let mut acc: u64 = 1;
    let mut i: usize = 0;
    while i < entries.len()
        invariant
            i <= entries@.len(),
            forall|p: int|
                0 <= p <= entries@.len() ==> coverage_product(#[trigger] entries@.take(p))
                    <= u64::MAX,
            forall|p: int|
                0 <= p <= entries@.len() ==> coverage_product(#[trigger] entries@.take(p)) >= 0,
            acc == coverage_product(entries@.take(i as int)),
        decreases entries@.len() - i,
    {
        proof {
            assert(entries@.take(i as int + 1).drop_last() =~= entries@.take(i as int));
            assert(entries@.take(i as int + 1).last() == entries@[i as int]);
        }
        acc = acc * entries[i].transmittance as u64;
        i = i + 1;
    }
    proof {
        assert(entries@.take(entries@.len() as int) =~= entries@);
    }
    acc
}

/// Reference resolve of one target pixel: the resolve blend applied to the
/// accumulated colour and coverage.
pub fn resolve_pixel(dst: u32, src: u32, src_alpha: u32) -> (r: u64)
    requires
        src_alpha <= BLEND_SCALE,
    ensures
        r == blend_eval(resolve_blend_spec(), src as int, src_alpha as int, dst as int),
{
    let s: u64 = BLEND_SCALE as u64;
    let f_src: u64 = s - src_alpha as u64;
    let f_dst: u64 = src_alpha as u64;
    proof {
        assert(src as u64 * f_src <= 0xFFFF_FFFFu64 * 0x1_0000u64) by (nonlinear_arith)
            requires
                src as u64 <= 0xFFFF_FFFFu64,
                f_src <= 0x1_0000u64,
        ;
        assert(dst as u64 * f_dst <= 0xFFFF_FFFFu64 * 0x1_0000u64) by (nonlinear_arith)
            requires
                dst as u64 <= 0xFFFF_FFFFu64,
                f_dst <= 0x1_0000u64,
        ;
    }
    (src as u64 * f_src + dst as u64 * f_dst) / s
}

/// The per-view pair of accumulation render targets, reused frame to frame
/// and recreated whenever the view's resolution or sampling changes. The
/// generation counts recreations: a changed generation means fresh
/// textures, never a partial overwrite of ones an in-flight frame reads.
#[derive(Clone, Copy, Debug, PartialEq, Eq, Structural)]
pub struct AccumulationSurfaces {
    pub width: u32,
    pub height: u32,
    pub samples: u32,
    pub generation: u64,
}

impl AccumulationSurfaces {
    /// Fresh surfaces for a view of the given resolution.
    pub fn new(width: u32, height: u32, samples: u32) -> (s: AccumulationSurfaces)
        ensures
            s == (AccumulationSurfaces { width, height, samples, generation: 0u64 }),
    {
        AccumulationSurfaces { width, height, samples, generation: 0 }
    }

    /// Size the surfaces to the view: reuse them when nothing changed,
    /// recreate them (a new generation) when the resolution or sample
    /// count moved.
    pub fn prepare(&mut self, width: u32, height: u32, samples: u32)
        requires
            old(self).generation < u64::MAX,
        ensures
            final(self).width == width,
            final(self).height == height,
            final(self).samples == samples,
            (old(self).width == width && old(self).height == height && old(self).samples
                == samples) ==> final(self).generation == old(self).generation,
            !(old(self).width == width && old(self).height == height && old(self).samples
                == samples) ==> final(self).generation == old(self).generation + 1,
    {
        if self.width == width && self.height == height && self.samples == samples {
            return ;
        }
        self.width = width;
        self.height = height;
        self.samples = samples;
        self.generation = self.generation + 1;
    }
}

/// One view's pass through the compositor for one frame. The resolution is
/// snapshotted when the pass begins, before either phase runs; draws
/// accumulate while the pass is open; the resolve runs exactly once,
/// strictly after the last draw, and closes the pass.
pub struct ViewPass {
    pub width: u32,
    pub height: u32,
    pub samples: u32,
    pub entries: Vec<Contribution>,
    pub resolved: bool,
}

impl ViewPass {
    /// The accumulated surfaces this pass resolves: the exact colour sum
    /// and coverage product of its draws.
    pub open spec fn output(self) -> (int, int) {
        (colour_sum(self.entries@), coverage_product(self.entries@))
    }

    /// Open the pass, snapshotting the view's resolution: both phases use
    /// this snapshot even if the view is resized mid-frame.
    pub fn begin(surfaces: &AccumulationSurfaces) -> (p: ViewPass)
        ensures
            p.width == surfaces.width,
            p.height == surfaces.height,
            p.samples == surfaces.samples,
            p.entries@ =~= Seq::<Contribution>::empty(),
            !p.resolved,
    {
        ViewPass {
            width: surfaces.width,
            height: surfaces.height,
            samples: surfaces.samples,
            entries: Vec::new(),
            resolved: false,
        }
    }

    /// Accumulate one draw's contribution. Only open passes accept draws:
    /// nothing accumulates after the resolve.
    pub fn draw(&mut self, c: Contribution)
        requires
            !old(self).resolved,
        ensures
            final(self).entries@ == old(self).entries@.push(c),
            final(self).resolved == false,
            final(self).width == old(self).width,
            final(self).height == old(self).height,
            final(self).samples == old(self).samples,
    {
        self.entries.push(c);
    }

    /// Close the pass: the resolve runs once, after every accumulate draw,
    /// and the accumulated output is fixed from the draws alone.
    pub fn resolve(&mut self)
        requires
            !old(self).resolved,
        ensures
            final(self).resolved,
            final(self).entries@ == old(self).entries@,
            final(self).width == old(self).width,
            final(self).height == old(self).height,
            final(self).samples == old(self).samples,
            final(self).output() == old(self).output(),
    {
        self.resolved = true;
    }
}

/// Two passes over the same draws in different orders accumulate
/// identical surfaces, hence identical resolved frames.
pub proof fn lemma_pass_order_independent(first: ViewPass, second: ViewPass)
    requires
        first.entries@.to_multiset() == second.entries@.to_multiset(),
    ensures
        first.output() == second.output(),
{
    lemma_accumulation_order_independent(first.entries@, second.entries@);
}

/// A view with no draws resolves to an unmodified target: its surfaces
/// hold the clear values (colour zero, coverage one), and the resolve
/// blend with fully transparent coverage returns every target pixel
/// unchanged — the same image as skipping both passes.
pub proof fn lemma_empty_view_identity(pass: ViewPass, src: int, dst: int)
    requires
        pass.entries@.len() == 0,
    ensures
        pass.output() == (0int, 1int),
        blend_eval(resolve_blend_spec(), src, BLEND_SCALE as int, dst) == dst,
{
    lemma_resolve_neutral_identity(src, dst);
}

} // verus!
