//! The effect compositor: a closed set of effect descriptors and one
//! dispatch operation that mutates a pixel buffer in place.
//!
//! Time is a non-negative count of thousandths of a time unit. Every effect
//! has a nominal lifetime of two time units, so the blend factor of a fade is
//! the fraction `time / 2000`, clamped into `[0, 1]`; channel arithmetic
//! truncates toward zero exactly as the specifications below state.

use crate::entity::{Entity, Point};
use crate::pixel::{Pixel, PixelBuffer};
use vstd::arithmetic::div_mod::{
    lemma_div_is_ordered, lemma_div_multiples_vanish, lemma_div_multiples_vanish_fancy,
    lemma_div_pos_is_pos,
};
use vstd::arithmetic::mul::lemma_mul_inequality;
use vstd::prelude::*;

verus! {

/// Nominal duration of a fade-in, in thousandths of a time unit.
pub const FADE_IN_LIFETIME_MILLIS: u32 = 2000;

/// Nominal duration of a fade-out, in thousandths of a time unit.
pub const FADE_OUT_LIFETIME_MILLIS: u32 = 2000;

/// Nominal duration of a color mask, in thousandths of a time unit.
pub const COLOR_MASK_LIFETIME_MILLIS: u32 = 2000;

/// An effect descriptor. Immutable once constructed; it carries no time
/// state of its own — elapsed time is supplied per invocation.
#[derive(Clone, Copy, Debug, PartialEq, Eq, Hash)]
pub enum VisualEffect {
    /// Brighten the whole frame from black, reaching the unmodified frame at
    /// the end of the lifetime.
    FadeIn,
    /// Darken the whole frame toward black, reaching black at the end of the
    /// lifetime.
    FadeOut,
    /// Pull the border pixels of an entity's silhouette toward a target
    /// color. A zero component is a sentinel meaning "leave that channel
    /// alone", not a literal target of black.
    ColorMask { color: [u8; 3] },
}

/// Numerator of the fade-in blend factor over the lifetime denominator:
/// `time` clamped to the lifetime, so the factor `numer / 2000` rises from 0
/// to 1 and then stays there.
pub open spec fn fade_in_numer(t: u32) -> int {
    if t >= FADE_IN_LIFETIME_MILLIS {
        FADE_IN_LIFETIME_MILLIS as int
    } else {
        t as int
    }
}

/// Numerator of the fade-out blend factor: the complement of the fade-in
/// numerator, so the factor falls from 1 to 0 and then stays there. The
/// normalization deliberately shares the fade-in lifetime; the two fades have
/// one duration.
pub open spec fn fade_out_numer(t: u32) -> int {
    FADE_IN_LIFETIME_MILLIS - fade_in_numer(t)
}

/// One channel scaled by the blend factor `numer / 2000`, truncating toward
/// zero.
pub open spec fn scaled_channel(c: u8, numer: int) -> int {
    (numer * c) / (FADE_IN_LIFETIME_MILLIS as int)
}

/// A whole pixel scaled by the blend factor `numer / 2000`: a global fade
/// touches all four channels, alpha included.
pub open spec fn fade_pixel(p: Pixel, numer: int) -> Pixel {
    Pixel {
        r: scaled_channel(p.r, numer) as u8,
        g: scaled_channel(p.g, numer) as u8,
        b: scaled_channel(p.b, numer) as u8,
        a: scaled_channel(p.a, numer) as u8,
    }
}

/// The exact value a masked channel interpolates to, before truncation:
/// `2000` times `(1 - t/2000) * c + (t/2000) * target`. The weight is not
/// clamped, so past the lifetime this extrapolates beyond the target.
pub open spec fn mask_raw(c: u8, target: u8, t: u32) -> int {
    c * (COLOR_MASK_LIFETIME_MILLIS as int) + t * (target - c)
}

/// A masked channel: the linear interpolation from the channel's current
/// value toward `target` with unclamped weight `t / 2000`, truncated toward
/// zero and saturated into the 8-bit channel range.
pub open spec fn mask_channel(c: u8, target: u8, t: u32) -> int {
    let raw = mask_raw(c, target, t);
    if raw < 0 {
        0
    } else if raw / (COLOR_MASK_LIFETIME_MILLIS as int) > 255 {
        255
    } else {
        raw / (COLOR_MASK_LIFETIME_MILLIS as int)
    }
}

/// A whole pixel under the color mask: each color channel whose target
/// component is positive is interpolated toward that component; a zero
/// component and the alpha channel are never touched.
pub open spec fn mask_pixel(p: Pixel, color: [u8; 3], t: u32) -> Pixel {
    Pixel {
        r: if color[0] > 0 {
            mask_channel(p.r, color[0], t) as u8
        } else {
            p.r
        },
        g: if color[1] > 0 {
            mask_channel(p.g, color[1], t) as u8
        } else {
            p.g
        },
        b: if color[2] > 0 {
            mask_channel(p.b, color[2], t) as u8
        } else {
            p.b
        },
        a: p.a,
    }
}

/// Whether the silhouette `hb` contains coordinate `(x, y)` flagged as a
/// border pixel.
pub open spec fn border_at(hb: Seq<(Point, bool)>, x: int, y: int) -> bool {
    exists|k: int|
        0 <= k < hb.len() && (#[trigger] hb[k]).0.x == x && hb[k].0.y == y && hb[k].1
}

impl VisualEffect {
    /// What a global application of this effect leaves at a pixel that held
    /// `p`: the fades scale every channel; the color mask is entity-scoped
    /// and leaves a global pass unchanged.
    pub open spec fn global_pixel(self, p: Pixel, t: u32) -> Pixel {
        match self {
            VisualEffect::FadeIn => fade_pixel(p, fade_in_numer(t)),
            VisualEffect::FadeOut => fade_pixel(p, fade_out_numer(t)),
            VisualEffect::ColorMask { .. } => p,
        }
    }

    /// What one application of this effect leaves at coordinate `(x, y)`
    /// that held `p`, given the entity's silhouette `hb`: the fades act
    /// everywhere; the color mask acts exactly on border pixels of the
    /// silhouette.
    pub open spec fn apply_pixel(
        self,
        hb: Seq<(Point, bool)>,
        p: Pixel,
        x: int,
        y: int,
        t: u32,
    ) -> Pixel {
        match self {
            VisualEffect::ColorMask { color } => if border_at(hb, x, y) {
                mask_pixel(p, color, t)
            } else {
                p
            },
            _ => self.global_pixel(p, t),
        }
    }
}

/// One channel scaled by `numer / 2000`, truncating.
fn scaled_channel_exec(c: u8, numer: u32) -> (r: u8)
    requires
        numer <= FADE_IN_LIFETIME_MILLIS,
    ensures
        r == scaled_channel(c, numer as int),
{
    proof {
        lemma_scaled_channel_in_range(c, numer as int);
    }
    (((numer as u64) * (c as u64)) / (FADE_IN_LIFETIME_MILLIS as u64)) as u8
}

/// A blend numerator within the lifetime scales a channel to a value between
/// zero and the channel itself.
pub proof fn lemma_scaled_channel_in_range(c: u8, numer: int)
    requires
        0 <= numer <= FADE_IN_LIFETIME_MILLIS,
    ensures
        0 <= scaled_channel(c, numer) <= c,
{
    let l = FADE_IN_LIFETIME_MILLIS as int;
    lemma_div_pos_is_pos(numer * c, l);
    lemma_mul_inequality(numer, l, c as int);
    lemma_div_is_ordered(numer * c, l * c, l);
    lemma_div_multiples_vanish(c as int, l);
}

/// One channel interpolated toward `target` with unclamped weight
/// `t / 2000`, truncated and saturated.
fn mask_channel_exec(c: u8, target: u8, t: u32) -> (r: u8)
    ensures
        r == mask_channel(c, target, t),
{
    let l: u64 = COLOR_MASK_LIFETIME_MILLIS as u64;
    let ghost li = COLOR_MASK_LIFETIME_MILLIS as int;
    if target >= c {
        let d: u64 = (target - c) as u64;
        proof {
            assert((t as u64) * d <= 0xff_ffff_ffffu64) by (nonlinear_arith)
                requires
                    d <= 255,
                    t as u64 <= 0xffff_ffffu64,
            ;
        }
        let grow: u64 = (t as u64) * d;
        let raw: u64 = (c as u64) * l + grow;
        let q: u64 = raw / l;
        proof {
            assert(raw as int == mask_raw(c, target, t));
            lemma_div_pos_is_pos(raw as int, li);
        }
        if q > 255 {
            255
        } else {
            q as u8
        }
    } else {
        let d: u64 = (c - target) as u64;
        proof {
            assert((t as u64) * d <= 0xff_ffff_ffffu64) by (nonlinear_arith)
                requires
                    d <= 255,
                    t as u64 <= 0xffff_ffffu64,
            ;
        }
        let shrink: u64 = (t as u64) * d;
        let base: u64 = (c as u64) * l;
        proof {
            assert((t as int) * ((target as int) - (c as int)) == -((t as int) * ((c as int)
                - (target as int)))) by (nonlinear_arith);
            assert(mask_raw(c, target, t) == base - shrink);
        }
        if shrink >= base {
            0
        } else {
            let q: u64 = (base - shrink) / l;
            proof {
                let raw = mask_raw(c, target, t);
                lemma_div_pos_is_pos(raw, li);
                lemma_div_is_ordered(raw, (c as int) * li, li);
                lemma_div_multiples_vanish(c as int, li);
            }
            q as u8
        }
    }
}

/// Scale every channel of every pixel by the blend factor `numer / 2000`.
fn scale_buffer(img: &mut PixelBuffer, numer: u32)
    requires
        old(img).wf(),
        numer <= FADE_IN_LIFETIME_MILLIS,
    ensures
        final(img).wf(),
        final(img).width == old(img).width,
        final(img).height == old(img).height,
        forall|x: int, y: int|
            0 <= x < old(img).width && 0 <= y < old(img).height
                ==> #[trigger] final(img).pixel_at(x, y) == fade_pixel(
                old(img).pixel_at(x, y),
                numer as int,
            ),
{
    let ghost orig = *img;
    let w = img.width();
    let h = img.height();
    let mut x: usize = 0;
    while x < w
        invariant
            img.wf(),
            img.width == orig.width,
            img.height == orig.height,
            w == orig.width,
            h == orig.height,
            orig.wf(),
            numer <= FADE_IN_LIFETIME_MILLIS,
            x <= w,
            forall|i: int, j: int|
                0 <= i < w && 0 <= j < h ==> #[trigger] img.pixel_at(i, j) == (if i < x {
                    fade_pixel(orig.pixel_at(i, j), numer as int)
                } else {
                    orig.pixel_at(i, j)
                }),
        decreases w - x,
    {
        let mut y: usize = 0;
        while y < h
            invariant
                img.wf(),
                img.width == orig.width,
                img.height == orig.height,
                w == orig.width,
                h == orig.height,
                orig.wf(),
                numer <= FADE_IN_LIFETIME_MILLIS,
                x < w,
                y <= h,
                forall|i: int, j: int|
                    0 <= i < w && 0 <= j < h ==> #[trigger] img.pixel_at(i, j) == (if i < x || (i
                        == x && j < y) {
                        fade_pixel(orig.pixel_at(i, j), numer as int)
                    } else {
                        orig.pixel_at(i, j)
                    }),
            decreases h - y,
        {
            let p = img.get(x, y);
            let q = Pixel {
                r: scaled_channel_exec(p.r, numer),
                g: scaled_channel_exec(p.g, numer),
                b: scaled_channel_exec(p.b, numer),
                a: scaled_channel_exec(p.a, numer),
            };
            img.put(x, y, q);
            y = y + 1;
        }
        x = x + 1;
    }
}

impl VisualEffect {
    /// Apply this effect as a full-frame post-process: both fades scale
    /// every pixel of the buffer by their blend factor; the color mask is
    /// entity-scoped and leaves a global pass untouched.
    pub fn apply_global_effect(&self, img: &mut PixelBuffer, time_millis: u32)
        requires
            old(img).wf(),
        ensures
            final(img).wf(),
            final(img).width == old(img).width,
            final(img).height == old(img).height,
            forall|x: int, y: int|
                0 <= x < old(img).width && 0 <= y < old(img).height
                    ==> #[trigger] final(img).pixel_at(x, y) == self.global_pixel(
                    old(img).pixel_at(x, y),
                    time_millis,
                ),
    {
        match self {
            VisualEffect::FadeIn => {
                let numer = if time_millis >= FADE_IN_LIFETIME_MILLIS {
                    FADE_IN_LIFETIME_MILLIS
                } else {
                    time_millis
                };
                scale_buffer(img, numer);
            }
            VisualEffect::FadeOut => {
                let clamped = if time_millis >= FADE_IN_LIFETIME_MILLIS {
                    FADE_IN_LIFETIME_MILLIS
                } else {
                    time_millis
                };
                scale_buffer(img, FADE_IN_LIFETIME_MILLIS - clamped);
            }
            VisualEffect::ColorMask { .. } => {},
        }
    }

    /// Apply this effect for one entity: the fades ignore the entity and
    /// sweep the whole frame; the color mask rewrites exactly the border
    /// pixels of the entity's silhouette, interpolating each positively
    /// masked channel toward its target component.
    ///
    /// The silhouette must name each coordinate at most once and lie within
    /// the buffer: the surrounding render step guarantees both.
    pub fn apply<T: Entity>(&self, entity: &T, img: &mut PixelBuffer, time_millis: u32)
        requires
            old(img).wf(),
            forall|k: int|
                0 <= k < entity.hit_box_spec().len()
                    ==> (#[trigger] entity.hit_box_spec()[k]).0.x < old(img).width
                    && entity.hit_box_spec()[k].0.y < old(img).height,
            forall|k1: int, k2: int|
                0 <= k1 < k2 < entity.hit_box_spec().len()
                    ==> (#[trigger] entity.hit_box_spec()[k1]).0 != (
                    #[trigger] entity.hit_box_spec()[k2]).0,
        ensures
            final(img).wf(),
            final(img).width == old(img).width,
            final(img).height == old(img).height,
            forall|x: int, y: int|
                0 <= x < old(img).width && 0 <= y < old(img).height
                    ==> #[trigger] final(img).pixel_at(x, y) == self.apply_pixel(
                    entity.hit_box_spec(),
                    old(img).pixel_at(x, y),
                    x,
                    y,
                    time_millis,
                ),
    {
        match self {
            VisualEffect::FadeIn => {
                self.apply_global_effect(img, time_millis);
            }
            VisualEffect::FadeOut => {
                self.apply_global_effect(img, time_millis);
            }
            VisualEffect::ColorMask { color } => {
                let hb = entity.hit_box();
                let ghost hbs = entity.hit_box_spec();
                let ghost orig = *img;
                let n = hb.len();
                let mut k: usize = 0;
                while k < n
                    invariant
                        img.wf(),
                        img.width == orig.width,
                        img.height == orig.height,
                        orig.wf(),
                        hb@ == hbs,
                        n == hbs.len(),
                        k <= n,
                        forall|m: int|
                            0 <= m < hbs.len() ==> (#[trigger] hbs[m]).0.x < orig.width
                                && hbs[m].0.y < orig.height,
                        forall|k1: int, k2: int|
                            0 <= k1 < k2 < hbs.len() ==> (#[trigger] hbs[k1]).0 != (
                            #[trigger] hbs[k2]).0,
                        forall|x: int, y: int|
                            0 <= x < orig.width && 0 <= y < orig.height
                                ==> #[trigger] img.pixel_at(x, y) == (if border_at(
                                hbs.take(k as int),
                                x,
                                y,
                            ) {
                                mask_pixel(orig.pixel_at(x, y), *color, time_millis)
                            } else {
                                orig.pixel_at(x, y)
                            }),
                    decreases n - k,
                {
                    let (point, is_border) = hb[k];
                    proof {
                        // The silhouette names each coordinate once, so the
                        // pixel this entry addresses is still the original.
                        assert(!border_at(hbs.take(k as int), point.x as int, point.y as int))
                            by {
                            if border_at(hbs.take(k as int), point.x as int, point.y as int) {
                                let m = choose|m: int|
                                    0 <= m < hbs.take(k as int).len() && (#[trigger] hbs.take(
                                        k as int,
                                    )[m]).0.x == point.x && hbs.take(k as int)[m].0.y == point.y
                                        && hbs.take(k as int)[m].1;
                                assert(hbs[m].0 == hbs[k as int].0);
                            }
                        }
                    }
                    if is_border {
                        let p = img.get(point.x, point.y);
                        let q = mask_pixel_exec(p, color, time_millis);
                        img.put(point.x, point.y, q);
                    }
                    proof {
                        lemma_border_at_extend(hbs, k as int);
                    }
                    k = k + 1;
                }
                proof {
                    assert(hbs.take(n as int) =~= hbs);
                }
            }
        }
    }
}

/// Extending a silhouette prefix by one entry marks exactly that entry's
/// coordinate as border (when it is flagged so) beyond what the prefix
/// already marked.
proof fn lemma_border_at_extend(hb: Seq<(Point, bool)>, k: int)
    requires
        0 <= k < hb.len(),
    ensures
        forall|x: int, y: int|
            #[trigger] border_at(hb.take(k + 1), x, y) <==> (border_at(hb.take(k), x, y) || (
            hb[k].0.x == x && hb[k].0.y == y && hb[k].1)),
{
    assert forall|x: int, y: int|
        #[trigger] border_at(hb.take(k + 1), x, y) <==> (border_at(hb.take(k), x, y) || (
        hb[k].0.x == x && hb[k].0.y == y && hb[k].1)) by {
        let pre = hb.take(k);
        let ext = hb.take(k + 1);
        if border_at(ext, x, y) {
            let m = choose|m: int|
                0 <= m < ext.len() && (#[trigger] ext[m]).0.x == x && ext[m].0.y == y && ext[m].1;
            if m < k {
                assert(pre[m] == ext[m]);
                assert(border_at(pre, x, y));
            } else {
                assert(ext[m] == hb[k]);
            }
        }
        if border_at(pre, x, y) {
            let m = choose|m: int|
                0 <= m < pre.len() && (#[trigger] pre[m]).0.x == x && pre[m].0.y == y && pre[m].1;
            assert(ext[m] == pre[m]);
            assert(border_at(ext, x, y));
        }
        if hb[k].0.x == x && hb[k].0.y == y && hb[k].1 {
            assert(ext[k] == hb[k]);
            assert(border_at(ext, x, y));
        }
    }
}

/// A whole pixel under the color mask.
fn mask_pixel_exec(p: Pixel, color: &[u8; 3], t: u32) -> (r: Pixel)
    ensures
        r == mask_pixel(p, *color, t),
{
    Pixel {
        r: if color[0] > 0 {
            mask_channel_exec(p.r, color[0], t)
        } else {
            p.r
        },
        g: if color[1] > 0 {
            mask_channel_exec(p.g, color[1], t)
        } else {
            p.g
        },
        b: if color[2] > 0 {
            mask_channel_exec(p.b, color[2], t)
        } else {
            p.b
        },
        a: p.a,
    }
}

/// Scaling a channel by a larger blend numerator never shrinks it.
pub proof fn lemma_scaled_channel_monotone(c: u8, n1: int, n2: int)
    requires
        0 <= n1 <= n2,
    ensures
        scaled_channel(c, n1) <= scaled_channel(c, n2),
{
    let l = FADE_IN_LIFETIME_MILLIS as int;
    lemma_mul_inequality(n1, n2, c as int);
    lemma_div_is_ordered(n1 * c, n2 * c, l);
}

/// A fade-in at time zero blacks a pixel out entirely: all four channels,
/// alpha included, become zero.
pub proof fn lemma_fade_in_at_zero(p: Pixel)
    ensures
        fade_pixel(p, fade_in_numer(0)) == (Pixel { r: 0, g: 0, b: 0, a: 0 }),
{
}

/// A fade-in at or past the lifetime leaves a pixel exactly as it was.
pub proof fn lemma_fade_in_at_lifetime(p: Pixel, t: u32)
    requires
        t >= FADE_IN_LIFETIME_MILLIS,
    ensures
        fade_pixel(p, fade_in_numer(t)) == p,
{
    let l = FADE_IN_LIFETIME_MILLIS as int;
    lemma_div_multiples_vanish(p.r as int, l);
    lemma_div_multiples_vanish(p.g as int, l);
    lemma_div_multiples_vanish(p.b as int, l);
    lemma_div_multiples_vanish(p.a as int, l);
}

/// A fade-out at time zero is a no-op on a pixel.
pub proof fn lemma_fade_out_at_zero(p: Pixel)
    ensures
        fade_pixel(p, fade_out_numer(0)) == p,
{
    let l = FADE_IN_LIFETIME_MILLIS as int;
    lemma_div_multiples_vanish(p.r as int, l);
    lemma_div_multiples_vanish(p.g as int, l);
    lemma_div_multiples_vanish(p.b as int, l);
    lemma_div_multiples_vanish(p.a as int, l);
}

/// A fade-out at or past the lifetime blacks a pixel out entirely.
pub proof fn lemma_fade_out_at_lifetime(p: Pixel, t: u32)
    requires
        t >= FADE_IN_LIFETIME_MILLIS,
    ensures
        fade_pixel(p, fade_out_numer(t)) == (Pixel { r: 0, g: 0, b: 0, a: 0 }),
{
}

/// For a fade-in, every channel of the faded pixel is non-decreasing as time
/// advances; for a fade-out, non-increasing.
pub proof fn lemma_fade_monotone(p: Pixel, t1: u32, t2: u32)
    requires
        t1 <= t2,
    ensures
        fade_pixel(p, fade_in_numer(t1)).r <= fade_pixel(p, fade_in_numer(t2)).r,
        fade_pixel(p, fade_in_numer(t1)).g <= fade_pixel(p, fade_in_numer(t2)).g,
        fade_pixel(p, fade_in_numer(t1)).b <= fade_pixel(p, fade_in_numer(t2)).b,
        fade_pixel(p, fade_in_numer(t1)).a <= fade_pixel(p, fade_in_numer(t2)).a,
        fade_pixel(p, fade_out_numer(t1)).r >= fade_pixel(p, fade_out_numer(t2)).r,
        fade_pixel(p, fade_out_numer(t1)).g >= fade_pixel(p, fade_out_numer(t2)).g,
        fade_pixel(p, fade_out_numer(t1)).b >= fade_pixel(p, fade_out_numer(t2)).b,
        fade_pixel(p, fade_out_numer(t1)).a >= fade_pixel(p, fade_out_numer(t2)).a,
{
    let in1 = fade_in_numer(t1);
    let in2 = fade_in_numer(t2);
    let out1 = fade_out_numer(t1);
    let out2 = fade_out_numer(t2);
    lemma_scaled_channel_monotone(p.r, in1, in2);
    lemma_scaled_channel_monotone(p.g, in1, in2);
    lemma_scaled_channel_monotone(p.b, in1, in2);
    lemma_scaled_channel_monotone(p.a, in1, in2);
    lemma_scaled_channel_monotone(p.r, out2, out1);
    lemma_scaled_channel_monotone(p.g, out2, out1);
    lemma_scaled_channel_monotone(p.b, out2, out1);
    lemma_scaled_channel_monotone(p.a, out2, out1);
    lemma_scaled_channel_in_range(p.r, in1);
    lemma_scaled_channel_in_range(p.g, in1);
    lemma_scaled_channel_in_range(p.b, in1);
    lemma_scaled_channel_in_range(p.a, in1);
    lemma_scaled_channel_in_range(p.r, in2);
    lemma_scaled_channel_in_range(p.g, in2);
    lemma_scaled_channel_in_range(p.b, in2);
    lemma_scaled_channel_in_range(p.a, in2);
    lemma_scaled_channel_in_range(p.r, out1);
    lemma_scaled_channel_in_range(p.g, out1);
    lemma_scaled_channel_in_range(p.b, out1);
    lemma_scaled_channel_in_range(p.a, out1);
    lemma_scaled_channel_in_range(p.r, out2);
    lemma_scaled_channel_in_range(p.g, out2);
    lemma_scaled_channel_in_range(p.b, out2);
    lemma_scaled_channel_in_range(p.a, out2);
}

/// A masked channel always lies in the 8-bit channel range, whatever the
/// time.
pub proof fn lemma_mask_channel_in_range(c: u8, target: u8, t: u32)
    ensures
        0 <= mask_channel(c, target, t) <= 255,
{
    let l = COLOR_MASK_LIFETIME_MILLIS as int;
    let raw = mask_raw(c, target, t);
    if raw >= 0 {
        lemma_div_pos_is_pos(raw, l);
    }
}

/// A zero component of the mask color is a sentinel: that channel is never
/// touched, whatever the time; neither is alpha.
pub proof fn lemma_mask_sentinel(p: Pixel, color: [u8; 3], t: u32)
    ensures
        color[0] == 0 ==> mask_pixel(p, color, t).r == p.r,
        color[1] == 0 ==> mask_pixel(p, color, t).g == p.g,
        color[2] == 0 ==> mask_pixel(p, color, t).b == p.b,
        mask_pixel(p, color, t).a == p.a,
{
}

/// At time zero the mask leaves a channel exactly as it was.
pub proof fn lemma_mask_channel_at_zero(c: u8, target: u8)
    ensures
        mask_channel(c, target, 0) == c,
{
    let l = COLOR_MASK_LIFETIME_MILLIS as int;
    lemma_div_multiples_vanish(c as int, l);
}

/// At exactly the lifetime the mask brings a channel to its target.
pub proof fn lemma_mask_channel_at_lifetime(c: u8, target: u8)
    ensures
        mask_channel(c, target, COLOR_MASK_LIFETIME_MILLIS) == target,
{
    let l = COLOR_MASK_LIFETIME_MILLIS as int;
    lemma_div_multiples_vanish(target as int, l);
}

/// Within the lifetime a masked channel moves monotonically from its old
/// value toward the target, never leaving the interval between them.
pub proof fn lemma_mask_channel_moves_toward_target(c: u8, target: u8, t1: u32, t2: u32)
    requires
        t1 <= t2 <= COLOR_MASK_LIFETIME_MILLIS,
    ensures
        c <= target ==> c <= mask_channel(c, target, t1) <= mask_channel(c, target, t2)
            <= target,
        c >= target ==> target <= mask_channel(c, target, t2) <= mask_channel(c, target, t1)
            <= c,
{
    let l = COLOR_MASK_LIFETIME_MILLIS as int;
    let raw1 = mask_raw(c, target, t1);
    let raw2 = mask_raw(c, target, t2);
    if c <= target {
        let d = target - c;
        lemma_mul_inequality(0, t1 as int, d);
        lemma_mul_inequality(t1 as int, t2 as int, d);
        lemma_mul_inequality(t2 as int, l, d);
        assert(raw1 >= c * l);
        assert(raw2 <= target * l);
        lemma_div_is_ordered(c * l, raw1, l);
        lemma_div_is_ordered(raw1, raw2, l);
        lemma_div_is_ordered(raw2, target * l, l);
        lemma_div_multiples_vanish(c as int, l);
        lemma_div_multiples_vanish(target as int, l);
    } else {
        let e = c - target;
        assert(t1 * (target - c) == -(t1 * e) && t2 * (target - c) == -(t2 * e))
            by (nonlinear_arith)
            requires
                e == c - target,
        ;
        lemma_mul_inequality(0, t1 as int, e);
        lemma_mul_inequality(t1 as int, t2 as int, e);
        lemma_mul_inequality(t2 as int, l, e);
        assert(raw1 <= c * l);
        assert(raw2 >= target * l);
        lemma_div_is_ordered(target * l, raw2, l);
        lemma_div_is_ordered(raw2, raw1, l);
        lemma_div_is_ordered(raw1, c * l, l);
        lemma_div_multiples_vanish(c as int, l);
        lemma_div_multiples_vanish(target as int, l);
    }
}

/// Past the lifetime the unclamped interpolation weight extrapolates a
/// masked channel beyond its target (saturating at the channel range): the
/// overshoot is deliberate and pinned down here.
pub proof fn lemma_mask_overshoot(c: u8, target: u8, t: u32)
    requires
        t >= COLOR_MASK_LIFETIME_MILLIS,
    ensures
        c <= target ==> mask_channel(c, target, t) >= target,
        c >= target ==> mask_channel(c, target, t) <= target,
{
    let l = COLOR_MASK_LIFETIME_MILLIS as int;
    let raw = mask_raw(c, target, t);
    if c == target {
        assert(t * (target - c) == 0) by (nonlinear_arith)
            requires
                c == target,
        ;
        assert(raw == target * l);
        lemma_div_multiples_vanish(target as int, l);
        lemma_div_pos_is_pos(raw, l);
    } else if c < target {
        let d = target - c;
        lemma_mul_inequality(l, t as int, d);
        assert(raw >= target * l);
        lemma_div_is_ordered(target * l, raw, l);
        lemma_div_multiples_vanish(target as int, l);
    } else {
        let e = c - target;
        assert(t * (target - c) == -(t * e)) by (nonlinear_arith)
            requires
                e == c - target,
        ;
        lemma_mul_inequality(l, t as int, e);
        assert(raw <= c * l - l * e);
        assert(c * l - l * e == target * l);
        assert(raw <= target * l);
        if raw >= 0 {
            lemma_div_is_ordered(raw, target * l, l);
            lemma_div_multiples_vanish(target as int, l);
            lemma_div_pos_is_pos(raw, l);
            assert(mask_channel(c, target, t) <= target);
        } else {
            assert(mask_channel(c, target, t) == 0);
        }
    }
}

/// Repeated application is not idempotent: a second application at the same
/// time moves a channel again whenever the first application left it short
/// of the target by a coarse enough step (growing case), or left it above
/// the target with any time at all elapsed (shrinking case). Each call
/// interpolates from whatever the channel currently holds, not from a
/// snapshot.
pub proof fn lemma_mask_channel_twice_differs(c: u8, target: u8, t: u32)
    requires
        ({
            let once = mask_channel(c, target, t);
            (once < target && t * (target - once) >= COLOR_MASK_LIFETIME_MILLIS) || (once
                > target && t >= 1)
        }),
    ensures
        mask_channel(mask_channel(c, target, t) as u8, target, t) != mask_channel(c, target, t),
{
    let l = COLOR_MASK_LIFETIME_MILLIS as int;
    lemma_mask_channel_in_range(c, target, t);
    let once = mask_channel(c, target, t);
    let v = once as u8;
    let raw = mask_raw(v, target, t);
    if once < target && t * (target - once) >= l {
        assert(raw >= (v + 1) * l);
        lemma_div_is_ordered((v + 1) * l, raw, l);
        lemma_div_multiples_vanish(v as int + 1, l);
    } else {
        let e = v - target;
        assert(t * (target - v) == -(t * e)) by (nonlinear_arith)
            requires
                e == v - target,
        ;
        lemma_mul_inequality(1, t as int, e);
        assert(raw <= v * l - 1);
        if raw >= 0 {
            lemma_div_pos_is_pos(raw, l);
            lemma_div_multiples_vanish_fancy(v as int - 1, l - 1, l);
            assert(v * l - 1 == l * (v - 1) + (l - 1));
            lemma_div_is_ordered(raw, v * l - 1, l);
        }
    }
}

} // verus!
