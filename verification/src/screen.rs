//! Mapping between the part of the plane in view and screen pixels, and
//! drawing the live cells.
use vstd::prelude::*;
use crate::game::Game;
use crate::chance::random_u8;
use crate::collections::{set_contains, set_elements, set_view};
use crate::ppair::{hi_spec, lo_spec, pack_spec, topack, Pair, P16};

verus! {

/// The size of the drawing surface, in pixels.
pub const RESOLUTION: P16 = (1920, 1080);

/// Colours, as red, green, blue, alpha.
pub const RED: [u8; 4] = [0xff, 0x00, 0x00, 0xff];
pub const GREEN: [u8; 4] = [0x00, 0xff, 0x00, 0xff];
pub const BLUE: [u8; 4] = [0x00, 0x00, 0xff, 0xff];
pub const WHITE: [u8; 4] = [0xff, 0xff, 0xff, 0xff];
pub const BLACK: [u8; 4] = [0x00, 0x00, 0x00, 0xff];

/// log2 of the number of fade levels a live pixel may start at.
pub const FADERANDOMNESSEXP: u8 = 2;

/// The number of fade levels a live pixel may start at.
pub const FADERANDOMNESS: u8 = 4;

/// Integer division rounding toward zero, as Rust's `/` on signed integers.
/// (`/` on `int` is Euclidean; it agrees with truncation for a non-negative
/// dividend.)
pub open spec fn trunc_div(a: int, b: int) -> int {
    if a >= 0 {
        a / b
    } else {
        -((-a) / b)
    }
}

/// The remainder of `trunc_div`, as Rust's `%` on signed integers.
pub open spec fn trunc_rem(a: int, b: int) -> int {
    if a >= 0 {
        a % b
    } else {
        -((-a) % b)
    }
}

/// Whether `v` fits in an `i32`.
pub open spec fn fits_i32(v: int) -> bool {
    i32::MIN <= v <= i32::MAX
}

/// The screen position of plane position `loc`, where `bounds` is in view on
/// a screen of `resolution`.
pub open spec fn mapbs_spec(bounds: (Pair, Pair), loc: Pair, resolution: P16) -> Pair {
    let distx = bounds.1.0 - bounds.0.0;
    let disty = bounds.1.1 - bounds.0.1;
    (
        trunc_div((loc.0 - bounds.0.0) * resolution.0, distx) as i32,
        trunc_div((loc.1 - bounds.0.1) * resolution.1, disty) as i32,
    )
}

/// `mapbs_spec` is computed without overflow or division by zero.
pub open spec fn mapbs_ok(bounds: (Pair, Pair), loc: Pair, resolution: P16) -> bool {
    let distx = bounds.1.0 - bounds.0.0;
    let disty = bounds.1.1 - bounds.0.1;
    &&& fits_i32(distx) && distx != 0
    &&& fits_i32(disty) && disty != 0
    &&& fits_i32(loc.0 - bounds.0.0)
    &&& fits_i32(loc.1 - bounds.0.1)
    &&& fits_i32((loc.0 - bounds.0.0) * resolution.0)
    &&& fits_i32((loc.1 - bounds.0.1) * resolution.1)
    &&& !((loc.0 - bounds.0.0) * resolution.0 == i32::MIN && distx == -1)
    &&& !((loc.1 - bounds.0.1) * resolution.1 == i32::MIN && disty == -1)
}

/// The plane coordinate, along one axis, shown at screen position `s`, where
/// `lo..hi` is in view on a screen `res` pixels wide.
pub open spec fn axis_map(lo: i32, hi: i32, s: int, res: int) -> int {
    trunc_div(s * (hi - lo), res) + lo
}

/// `axis_map` is computed without overflow or division by zero.
pub open spec fn axis_ok(lo: i32, hi: i32, s: int, res: int) -> bool {
    &&& res != 0
    &&& fits_i32(hi - lo)
    &&& fits_i32(s * (hi - lo))
    &&& fits_i32(axis_map(lo, hi, s, res))
}

/// The plane position shown at screen position `scloc`.
pub open spec fn mapsb_spec(bounds: (Pair, Pair), scloc: P16, resolution: P16) -> Pair {
    (
        axis_map(bounds.0.0, bounds.1.0, scloc.0 as int, resolution.0 as int) as i32,
        axis_map(bounds.0.1, bounds.1.1, scloc.1 as int, resolution.1 as int) as i32,
    )
}

/// `mapsb_spec` is computed without overflow or division by zero.
pub open spec fn mapsb_ok(bounds: (Pair, Pair), scloc: P16, resolution: P16) -> bool {
    &&& axis_ok(bounds.0.0, bounds.1.0, scloc.0 as int, resolution.0 as int)
    &&& axis_ok(bounds.0.1, bounds.1.1, scloc.1 as int, resolution.1 as int)
}

/// Every position of a screen of `resolution` maps into the plane without
/// overflow or division by zero.
pub open spec fn screen_ok(bounds: (Pair, Pair), resolution: P16) -> bool {
    &&& forall|s: int| 0 <= s < resolution.0 ==> #[trigger] axis_ok(bounds.0.0, bounds.1.0, s, resolution.0 as int)
    &&& forall|s: int| 0 <= s < resolution.1 ==> #[trigger] axis_ok(bounds.0.1, bounds.1.1, s, resolution.1 as int)
}

/// A view exactly as wide and high as the screen shows one cell per pixel:
/// screen position `s` shows the plane position `s` shifted by the view's
/// corner, and mapping that position back gives `s` again.
pub proof fn lemma_unit_scale(bounds: (Pair, Pair), s: P16, resolution: P16)
    requires
        bounds.1.0 - bounds.0.0 == resolution.0,
        bounds.1.1 - bounds.0.1 == resolution.1,
        resolution.0 > 0,
        resolution.1 > 0,
        fits_i32(bounds.0.0 + s.0),
        fits_i32(bounds.0.1 + s.1),
    ensures
        mapsb_spec(bounds, s, resolution) == ((bounds.0.0 + s.0) as i32, (bounds.0.1 + s.1) as i32),
        mapbs_spec(bounds, mapsb_spec(bounds, s, resolution), resolution) == (s.0 as i32, s.1 as i32),
{
    let w: int = resolution.0 as int;
    let h: int = resolution.1 as int;
    assert((s.0 as int * w) / w == s.0 as int) by (nonlinear_arith)
        requires
            w > 0,
            s.0 >= 0;
    assert((s.1 as int * h) / h == s.1 as int) by (nonlinear_arith)
        requires
            h > 0,
            s.1 >= 0;
    assert(0 <= s.0 as int * w) by (nonlinear_arith)
        requires
            w > 0,
            s.0 >= 0;
    assert(0 <= s.1 as int * h) by (nonlinear_arith)
        requires
            h > 0,
            s.1 >= 0;
}

/// Whether `axis_ok` holds at one screen position.
fn axis_fits_at(lo: i32, hi: i32, s: u16, res: u16) -> (r: bool)
    ensures
        r == axis_ok(lo, hi, s as int, res as int),
{
    if res == 0 {
        return false;
    }
    let dist: i64 = hi as i64 - lo as i64;
    if dist < i32::MIN as i64 || dist > i32::MAX as i64 {
        return false;
    }
    assert(-65536 * 0x8000_0000 <= s * dist <= 65536 * 0x8000_0000) by (nonlinear_arith)
        requires
            0 <= s < 65536,
            -0x8000_0000 <= dist <= 0x7fff_ffff;
    let prod: i64 = s as i64 * dist;
    if prod < i32::MIN as i64 || prod > i32::MAX as i64 {
        return false;
    }
    let v: i64 = prod / res as i64 + lo as i64;
    assert(v == axis_map(lo, hi, s as int, res as int));
    !(v < i32::MIN as i64 || v > i32::MAX as i64)
}

/// Whether screen position `scloc` maps into the plane without overflow or
/// division by zero.
pub fn mapsb_fits(bounds: &(Pair, Pair), scloc: P16, resolution: &P16) -> (r: bool)
    ensures
        r == mapsb_ok(*bounds, scloc, *resolution),
{
    axis_fits_at(bounds.0.0, bounds.1.0, scloc.0, resolution.0) && axis_fits_at(bounds.0.1, bounds.1.1, scloc.1, resolution.1)
}

/// Whether `axis_ok` holds at every screen position `0 <= s < res`.
fn axis_fits(lo: i32, hi: i32, res: u16) -> (r: bool)
    ensures
        r == forall|s: int| 0 <= s < res ==> #[trigger] axis_ok(lo, hi, s, res as int),
{
    if res == 0 {
        return true;
    }
    let dist: i64 = hi as i64 - lo as i64;
    if dist < i32::MIN as i64 || dist > i32::MAX as i64 {
        assert(axis_ok(lo, hi, 0, res as int) == false);
        return false;
    }
    let mut s: u16 = 0;
    while s < res
        invariant
            res > 0,
            dist == hi - lo,
            fits_i32(dist as int),
            forall|t: int| 0 <= t < s ==> #[trigger] axis_ok(lo, hi, t, res as int),
        decreases res - s,
    {
        assert(-65536 * 0x8000_0000 <= s * dist <= 65536 * 0x8000_0000) by (nonlinear_arith)
            requires
                0 <= s < 65536,
                -0x8000_0000 <= dist <= 0x7fff_ffff;
        let prod: i64 = s as i64 * dist;
        if prod < i32::MIN as i64 || prod > i32::MAX as i64 {
            assert(!axis_ok(lo, hi, s as int, res as int));
            return false;
        }
        let v: i64 = prod / res as i64 + lo as i64;
        assert(v == axis_map(lo, hi, s as int, res as int));
        if v < i32::MIN as i64 || v > i32::MAX as i64 {
            assert(!axis_ok(lo, hi, s as int, res as int));
            return false;
        }
        s = s + 1;
    }
    true
}

/// The packed plane position shown at screen position `scloc`.
pub open spec fn shown_cell(bounds: (Pair, Pair), scloc: P16, resolution: P16) -> i64 {
    pack_spec(mapsb_spec(bounds, scloc, resolution).0, mapsb_spec(bounds, scloc, resolution).1)
}

/// The width of the view along one axis, at least one.
pub open spec fn span_dist(lo: i32, hi: i32) -> int {
    if hi - lo >= 1 {
        hi - lo
    } else {
        1
    }
}

/// The first screen position, along one axis, covered by plane coordinate
/// `w` when `lo..hi` is in view on `res` pixels.
pub open spec fn span_start(lo: i32, hi: i32, w: i32, res: int) -> int {
    trunc_div((w - lo) * res, span_dist(lo, hi))
}

/// One past the last screen position covered by plane coordinate `w`.
pub open spec fn span_end(lo: i32, hi: i32, w: i32, res: int) -> int {
    trunc_div((w - lo + 1) * res, span_dist(lo, hi))
}

/// `span_start` and `span_end` are computed without overflow.
pub open spec fn span_ok(lo: i32, hi: i32, w: i32, res: int) -> bool {
    &&& fits_i32(hi - lo)
    &&& fits_i32(w - lo)
    &&& fits_i32((w - lo) * res)
    &&& fits_i32(w - lo + 1)
    &&& fits_i32((w - lo + 1) * res)
}

/// The cell `p` starts on the drawing surface.
pub open spec fn cell_visible(bounds: (Pair, Pair), p: i64) -> bool {
    &&& 0 <= span_start(bounds.0.0, bounds.1.0, hi_spec(p), RESOLUTION.0 as int) < RESOLUTION.0
    &&& 0 <= span_start(bounds.0.1, bounds.1.1, lo_spec(p), RESOLUTION.1 as int) < RESOLUTION.1
}

/// The cell `p` paints pixel `(x, y)` of the drawing surface.
pub open spec fn covers(bounds: (Pair, Pair), p: i64, x: int, y: int) -> bool {
    &&& cell_visible(bounds, p)
    &&& span_start(bounds.0.0, bounds.1.0, hi_spec(p), RESOLUTION.0 as int) <= x < span_end(bounds.0.0, bounds.1.0, hi_spec(p), RESOLUTION.0 as int)
    &&& span_start(bounds.0.1, bounds.1.1, lo_spec(p), RESOLUTION.1 as int) <= y < span_end(bounds.0.1, bounds.1.1, lo_spec(p), RESOLUTION.1 as int)
}

/// Some live cell paints pixel `(x, y)`.
pub open spec fn lit(cells: Set<i64>, bounds: (Pair, Pair), x: int, y: int) -> bool {
    exists|p: i64| cells.contains(p) && #[trigger] covers(bounds, p, x, y)
}

/// Every live cell's spans are computed without overflow.
pub open spec fn raster_ok(cells: Set<i64>, bounds: (Pair, Pair)) -> bool {
    forall|p: i64| #[trigger] cells.contains(p) ==> span_ok(bounds.0.0, bounds.1.0, hi_spec(p), RESOLUTION.0 as int)
        && span_ok(bounds.0.1, bounds.1.1, lo_spec(p), RESOLUTION.1 as int)
}

/// A fade level one step down, not below zero.
pub open spec fn faded(f: i8) -> i8 {
    if f - 1 > 0 {
        (f - 1) as i8
    } else {
        0
    }
}

/// The alpha of a background pixel at fade level `f` (`0 <= f`): ten per
/// level, wrapping at 256 as `u8` arithmetic does in a release build.
pub open spec fn fade_alpha(f: i8) -> u8 {
    ((f as nat * 10) % 256) as u8
}

/// A cell that starts on a surface `res` pixels wide ends on it too.
proof fn lemma_span_end_bound(lo: i32, hi: i32, w: i32, res: int)
    requires
        span_ok(lo, hi, w, res),
        res > 0,
        0 <= span_start(lo, hi, w, res) < res,
    ensures
        span_end(lo, hi, w, res) <= res,
{
    let d = w - lo;
    let dd = span_dist(lo, hi);
    if d >= 0 {
        assert(d < dd) by (nonlinear_arith)
            requires
                (d * res) / dd < res,
                d >= 0,
                dd >= 1,
                res > 0,
        {
            if d >= dd {
                assert(d * res >= dd * res);
                assert((d * res) / dd >= (dd * res) / dd);
                assert((dd * res) / dd == res);
            }
        }
        assert(((d + 1) * res) / dd <= res) by (nonlinear_arith)
            requires
                d + 1 <= dd,
                d >= 0,
                dd >= 1,
                res > 0,
        {
            assert((d + 1) * res <= dd * res);
            assert(((d + 1) * res) / dd <= (dd * res) / dd);
            assert((dd * res) / dd == res);
        }
    } else {
        assert(d + 1 <= 0);
        assert((d + 1) * res <= 0) by (nonlinear_arith)
            requires
                d + 1 <= 0,
                res > 0;
        if (d + 1) * res == 0 {
            assert(((d + 1) * res) / dd == 0);
        } else {
            assert((-((d + 1) * res)) / dd >= 0) by (nonlinear_arith)
                requires
                    -((d + 1) * res) > 0,
                    dd >= 1;
        }
    }
}

/// The index of pixel `(x, y)` in a row-major buffer of the drawing surface.
pub open spec fn pix(x: int, y: int) -> int {
    y * (RESOLUTION.0 as int) + x
}

/// Some cell among the first `k` of `elems` paints pixel `(x, y)`.
pub open spec fn lit_by(elems: Seq<i64>, k: int, bounds: (Pair, Pair), x: int, y: int) -> bool {
    exists|j: int| 0 <= j < k && #[trigger] covers(bounds, elems[j], x, y)
}

/// The view's width and height are computed without overflow.
pub open spec fn bounds_ok(bounds: (Pair, Pair)) -> bool {
    fits_i32(bounds.1.0 - bounds.0.0) && fits_i32(bounds.1.1 - bounds.0.1)
}

proof fn lemma_pix_injective(x1: int, y1: int, x2: int, y2: int)
    requires
        0 <= x1 < RESOLUTION.0,
        0 <= x2 < RESOLUTION.0,
        pix(x1, y1) == pix(x2, y2),
    ensures
        x1 == x2 && y1 == y2,
{
}

/// Pixel `i` of a frame of 4-byte pixels holds `color`.
pub open spec fn shows(frame: Seq<u8>, i: int, color: Seq<u8>) -> bool {
    &&& frame[4 * i] == color[0]
    &&& frame[4 * i + 1] == color[1]
    &&& frame[4 * i + 2] == color[2]
    &&& frame[4 * i + 3] == color[3]
}

/// The background colour `base` at fade level `f`.
pub open spec fn background(base: [u8; 4], f: i8) -> Seq<u8> {
    seq![base[0], base[1], base[2], fade_alpha(f)]
}

/// Pixel `(x, y)` was painted from buffer value `on`: white with a fresh fade
/// level of 100 to 103 when on, else the red background at the previous level
/// faded one step.
pub open spec fn painted(frame: Seq<u8>, fade: i8, fade_before: i8, on: bool, x: int, y: int) -> bool {
    pixel_painted(frame, pix(x, y), fade, fade_before, on, RED)
}

/// Pixel `i` was painted from `on`: white with a fresh fade level of 100 to
/// 103 when on, else background colour `base` at the previous level faded one
/// step.
pub open spec fn pixel_painted(frame: Seq<u8>, i: int, fade: i8, fade_before: i8, on: bool, base: [u8; 4]) -> bool {
    if on {
        shows(frame, i, WHITE@) && 100 <= fade <= 103
    } else {
        fade == faded(fade_before) && shows(frame, i, background(base, fade))
    }
}

/// The frame is large enough for the drawing surface and the fade grid covers
/// it, with no level at the bottom of the `i8` range.
pub open spec fn canvas_ok(frame: Seq<u8>, fades: Seq<Vec<i8>>) -> bool {
    &&& frame.len() >= 4 * (RESOLUTION.0 * RESOLUTION.1)
    &&& fades.len() >= RESOLUTION.1
    &&& forall|y: int| 0 <= y < RESOLUTION.1 ==> (#[trigger] fades[y])@.len() >= RESOLUTION.0
    &&& forall|y: int, x: int| 0 <= y < RESOLUTION.1 && 0 <= x < RESOLUTION.0 ==> #[trigger] fades[y]@[x] > i8::MIN
}

/// The fade grid `b` has the shape of `a` and agrees with it outside the
/// drawing surface.
pub open spec fn same_outside(a: Seq<Vec<i8>>, b: Seq<Vec<i8>>) -> bool {
    &&& a.len() == b.len()
    &&& forall|y: int| 0 <= y < a.len() ==> (#[trigger] b[y])@.len() == a[y]@.len()
    &&& forall|y: int, x: int|
        0 <= y < a.len() && 0 <= x < a[y]@.len() && !(y < RESOLUTION.1 && x < RESOLUTION.0) ==> #[trigger] b[y]@[x] == a[y]@[x]
}

/// Paints every pixel of the drawing surface from the buffer `screen`.
fn paint(frame: &mut [u8], fades: &mut Vec<Vec<i8>>, screen: &Vec<bool>)
    requires
        canvas_ok(old(frame)@, old(fades)@),
        screen@.len() == RESOLUTION.0 * RESOLUTION.1,
    ensures
        final(frame)@.len() == old(frame)@.len(),
        forall|j: int| 4 * (RESOLUTION.0 * RESOLUTION.1) <= j < old(frame)@.len() ==> #[trigger] final(frame)@[j] == old(frame)@[j],
        same_outside(old(fades)@, final(fades)@),
        forall|x: int, y: int|
            0 <= x < RESOLUTION.0 && 0 <= y < RESOLUTION.1 ==> #[trigger] painted(
                final(frame)@,
                final(fades)@[y]@[x],
                old(fades)@[y]@[x],
                screen@[pix(x, y)],
                x,
                y,
            ),
{
    let resx: usize = RESOLUTION.0 as usize;
    let resy: usize = RESOLUTION.1 as usize;
    let ghost frame0 = frame@;
    let ghost fades0 = fades@;
    let mut idx: usize = 0;
    let mut y: usize = 0;
    while y < resy
        invariant
            resx == RESOLUTION.0,
            resy == RESOLUTION.1,
            y <= resy,
            idx == y * resx,
            screen@.len() == RESOLUTION.0 * RESOLUTION.1,
            canvas_ok(frame0, fades0),
            frame@.len() == frame0.len(),
            forall|j: int| 4 * idx <= j < frame0.len() ==> #[trigger] frame@[j] == frame0[j],
            same_outside(fades0, fades@),
            forall|xx: int, yy: int|
                0 <= xx < RESOLUTION.0 && y <= yy < RESOLUTION.1 ==> #[trigger] fades@[yy]@[xx] == fades0[yy]@[xx],
            forall|xx: int, yy: int|
                0 <= xx < RESOLUTION.0 && 0 <= yy < y ==> #[trigger] painted(frame@, fades@[yy]@[xx], fades0[yy]@[xx], screen@[pix(xx, yy)], xx, yy),
        decreases resy - y,
    {
        let mut x: usize = 0;
        while x < resx
            invariant
                resx == RESOLUTION.0,
                resy == RESOLUTION.1,
                y < resy,
                x <= resx,
                idx == y * resx + x,
                screen@.len() == RESOLUTION.0 * RESOLUTION.1,
                canvas_ok(frame0, fades0),
                frame@.len() == frame0.len(),
                forall|j: int| 4 * idx <= j < frame0.len() ==> #[trigger] frame@[j] == frame0[j],
                same_outside(fades0, fades@),
                forall|xx: int, yy: int|
                    0 <= xx < RESOLUTION.0 && y <= yy < RESOLUTION.1 && !(yy == y && xx < x) ==> #[trigger] fades@[yy]@[xx] == fades0[yy]@[xx],
                forall|xx: int, yy: int|
                    0 <= xx < RESOLUTION.0 && 0 <= yy < RESOLUTION.1 && (yy < y || (yy == y && xx < x)) ==> #[trigger] painted(frame@, fades@[yy]@[xx], fades0[yy]@[xx], screen@[pix(xx, yy)], xx, yy),
            decreases resx - x,
        {
            assert(idx == pix(x as int, y as int));
            assert(0 <= idx < RESOLUTION.0 * RESOLUTION.1) by (nonlinear_arith)
                requires
                    idx == y * 1920 + x,
                    x < 1920,
                    y < 1080;
            let ghost frame1 = frame@;
            let ghost fades1 = fades@;
            let fade_before: i8 = fades[y][x];
            assert(fade_before == fades0[y as int]@[x as int]);
            let buffer_val = screen[idx];
            let color: [u8; 4] = if buffer_val {
                let random = random_u8();
                let mask: u8 = FADERANDOMNESS - 1;
                assert(random & mask <= 3u8) by (bit_vector)
                    requires
                        mask == 3u8;
                let nf: i8 = 100 + ((random & mask) as i8);
                fades[y][x] = nf;
                WHITE
            } else {
                let nf: i8 = (fade_before - 1).max(0);
                fades[y][x] = nf;
                [RED[0], RED[1], RED[2], ((nf as u8).wrapping_mul(10) as u8).min(255)]
            };
            let fidx: usize = idx * 4;
            frame[fidx] = color[0];
            frame[fidx + 1] = color[1];
            frame[fidx + 2] = color[2];
            frame[fidx + 3] = color[3];
            proof {
                let nf = fades@[y as int]@[x as int];
                if buffer_val {
                    assert(color@ == WHITE@);
                } else {
                    assert(nf == faded(fade_before));
                    assert(color@ =~= background(RED, nf));
                }
                assert(painted(frame@, nf, fades0[y as int]@[x as int], screen@[pix(x as int, y as int)], x as int, y as int));
                assert forall|xx: int, yy: int|
                    0 <= xx < RESOLUTION.0 && 0 <= yy < RESOLUTION.1 && (yy < y || (yy == y && xx < x + 1)) implies #[trigger] painted(frame@, fades@[yy]@[xx], fades0[yy]@[xx], screen@[pix(xx, yy)], xx, yy) by {
                    if !(yy == y && xx == x) {
                        assert(painted(frame1, fades1[yy]@[xx], fades0[yy]@[xx], screen@[pix(xx, yy)], xx, yy));
                        assert(pix(xx, yy) < idx) by (nonlinear_arith)
                            requires
                                0 <= xx < 1920,
                                (yy < y || (yy == y && xx < x)),
                                idx == y * 1920 + x,
                                pix(xx, yy) == yy * 1920 + xx;
                        assert(fades@[yy]@[xx] == fades1[yy]@[xx]);
                    }
                }
            }
            x = x + 1;
            idx = idx + 1;
        }
        y = y + 1;
    }
}

/// Pixel `i` of a frame, at `(i % 1920, i / 1920)`, can be drawn: its fade
/// level exists and is above the bottom of the `i8` range, and its screen
/// position maps into the plane without overflow.
pub open spec fn draw_pixel_ok(bounds: (Pair, Pair), resolution: P16, fades: Seq<Vec<i8>>, i: int) -> bool {
    let x = i % (RESOLUTION.0 as int);
    let y = i / (RESOLUTION.0 as int);
    &&& y < fades.len()
    &&& x < fades[y]@.len()
    &&& fades[y]@[x] > i8::MIN
    &&& mapsb_ok(bounds, (x as u16, y as u16), resolution)
}

/// Whether `span_ok` holds for one coordinate.
fn span_fits(lo: i32, hi: i32, w: i32, res: u16) -> (r: bool)
    ensures
        r == span_ok(lo, hi, w, res as int),
{
    let dist: i64 = hi as i64 - lo as i64;
    let d: i64 = w as i64 - lo as i64;
    assert(-0x1_0000_0001 * 65536 <= d * res <= 0x1_0000_0001 * 65536) by (nonlinear_arith)
        requires
            -0x1_0000_0000 <= d <= 0x1_0000_0000,
            0 <= res < 65536;
    assert(-0x1_0000_0001 * 65536 <= (d + 1) * res <= 0x1_0000_0001 * 65536) by (nonlinear_arith)
        requires
            -0x1_0000_0000 <= d <= 0x1_0000_0000,
            0 <= res < 65536;
    let a: i64 = d * res as i64;
    let b: i64 = (d + 1) * res as i64;
    let lo32: i64 = i32::MIN as i64;
    let hi32: i64 = i32::MAX as i64;
    lo32 <= dist && dist <= hi32 && lo32 <= d && d <= hi32 && lo32 <= a && a <= hi32 && lo32 <= d + 1 && d + 1
        <= hi32 && lo32 <= b && b <= hi32
}

impl Game {
    /// Maps a screen position to the position in the plane shown there.
    pub fn mapsb(&self, scloc: P16, resolution: &P16) -> (r: Pair)
        requires
            mapsb_ok(self.bounds, scloc, *resolution),
        ensures
            r == mapsb_spec(self.bounds, scloc, *resolution),
    {
        let distx: i32 = self.bounds.1.0 - self.bounds.0.0;
        let disty: i32 = self.bounds.1.1 - self.bounds.0.1;
        let bx: i32 = (scloc.0 as i32 * distx) / resolution.0 as i32 + self.bounds.0.0;
        let by: i32 = (scloc.1 as i32 * disty) / resolution.1 as i32 + self.bounds.0.1;
        (bx, by)
    }

    /// Marks, in a row-major buffer the size of the drawing surface, every
    /// pixel that some live cell paints.
    fn rasterize(&self) -> (screen: Vec<bool>)
        requires
            raster_ok(set_view(self.cells), self.bounds),
            bounds_ok(self.bounds),
        ensures
            screen@.len() == RESOLUTION.0 * RESOLUTION.1,
            forall|x: int, y: int|
                0 <= x < RESOLUTION.0 && 0 <= y < RESOLUTION.1 ==> screen@[#[trigger] pix(x, y)]
                    == lit(set_view(self.cells), self.bounds, x, y),
    {
        let resx: usize = RESOLUTION.0 as usize;
        let resy: usize = RESOLUTION.1 as usize;
        let screen_size: usize = resx * resy;
        let mut screen: Vec<bool> = vec![false; screen_size];
        let (min_x, min_y) = self.bounds.0;
        let (max_x, max_y) = self.bounds.1;
        let distx: i32 = (max_x - min_x).max(1);
        let disty: i32 = (max_y - min_y).max(1);
        let ghost bounds = self.bounds;
        let elems = set_elements(&self.cells);
        let mut k: usize = 0;
        while k < elems.len()
            invariant
                k <= elems@.len(),
                resx == RESOLUTION.0,
                resy == RESOLUTION.1,
                bounds == self.bounds,
                (min_x, min_y) == bounds.0,
                (max_x, max_y) == bounds.1,
                distx == span_dist(min_x, max_x),
                disty == span_dist(min_y, max_y),
                elems@.to_set() == set_view(self.cells),
                raster_ok(set_view(self.cells), bounds),
                screen@.len() == RESOLUTION.0 * RESOLUTION.1,
                forall|x: int, y: int|
                    0 <= x < RESOLUTION.0 && 0 <= y < RESOLUTION.1 ==> screen@[#[trigger] pix(x, y)]
                        == lit_by(elems@, k as int, bounds, x, y),
            decreases elems@.len() - k,
        {
            let pp = elems[k];
            proof {
                assert(elems@.to_set().contains(pp));
                assert(set_view(self.cells).contains(pp));
            }
            let wx: i32 = (pp >> 32u64) as i32;
            let wy: i32 = ((pp & 0xffff_ffffi64) as u32) as i32;
            assert(wx == hi_spec(pp) && wy == lo_spec(pp));
            let sx: i32 = ((wx - min_x) * resx as i32) / distx;
            let sy: i32 = ((wy - min_y) * resy as i32) / disty;
            let nsx: i32 = ((wx - min_x + 1) * resx as i32) / distx;
            let nsy: i32 = ((wy - min_y + 1) * resy as i32) / disty;
            assert(sx == span_start(min_x, max_x, wx, RESOLUTION.0 as int));
            assert(sy == span_start(min_y, max_y, wy, RESOLUTION.1 as int));
            assert(nsx == span_end(min_x, max_x, wx, RESOLUTION.0 as int));
            assert(nsy == span_end(min_y, max_y, wy, RESOLUTION.1 as int));
            let ghost before = screen@;
            if sx >= 0 && sy >= 0 && (sx as usize) < resx && (sy as usize) < resy {
                proof {
                    lemma_span_end_bound(min_x, max_x, wx, RESOLUTION.0 as int);
                    lemma_span_end_bound(min_y, max_y, wy, RESOLUTION.1 as int);
                    assert(cell_visible(bounds, pp));
                }
                let mut y: i32 = sy;
                while y < nsy
                    invariant
                        sy <= y,
                        y <= nsy || y == sy,
                        0 <= sy,
                        0 <= sx,
                        nsx <= RESOLUTION.0,
                        nsy <= RESOLUTION.1,
                        resx == RESOLUTION.0,
                        screen@.len() == RESOLUTION.0 * RESOLUTION.1,
                        forall|x: int, yy: int|
                            0 <= x < RESOLUTION.0 && 0 <= yy < RESOLUTION.1 ==> screen@[#[trigger] pix(x, yy)]
                                == (before[pix(x, yy)] || (sx <= x < nsx && sy <= yy < y)),
                    decreases nsy - y,
                {
                    let mut x: i32 = sx;
                    while x < nsx
                        invariant
                            sx <= x,
                            x <= nsx || x == sx,
                            0 <= sx,
                            0 <= y < nsy,
                            nsx <= RESOLUTION.0,
                            nsy <= RESOLUTION.1,
                            sy <= y,
                            resx == RESOLUTION.0,
                            screen@.len() == RESOLUTION.0 * RESOLUTION.1,
                            forall|xx: int, yy: int|
                                0 <= xx < RESOLUTION.0 && 0 <= yy < RESOLUTION.1 ==> screen@[#[trigger] pix(xx, yy)]
                                    == (before[pix(xx, yy)] || (sx <= xx < nsx && sy <= yy < y) || (yy == y && sx <= xx < x)),
                        decreases nsx - x,
                    {
                        let ghost cur = screen@;
                        let idx: usize = (y as usize) * resx + (x as usize);
                        assert(idx == pix(x as int, y as int));
                        screen.set(idx, true);
                        proof {
                            assert forall|xx: int, yy: int|
                                0 <= xx < RESOLUTION.0 && 0 <= yy < RESOLUTION.1 implies screen@[#[trigger] pix(xx, yy)]
                                    == (before[pix(xx, yy)] || (sx <= xx < nsx && sy <= yy < y) || (yy == y && sx <= xx < x + 1)) by {
                                if pix(xx, yy) == idx {
                                    lemma_pix_injective(xx, yy, x as int, y as int);
                                } else {
                                    assert(cur[pix(xx, yy)] == screen@[pix(xx, yy)]);
                                }
                            }
                        }
                        x = x + 1;
                    }
                    y = y + 1;
                }
                proof {
                    assert forall|x: int, yy: int|
                        0 <= x < RESOLUTION.0 && 0 <= yy < RESOLUTION.1 implies screen@[#[trigger] pix(x, yy)]
                            == (before[pix(x, yy)] || covers(bounds, pp, x, yy)) by {
                    }
                }
            }
            proof {
                assert forall|x: int, yy: int|
                    0 <= x < RESOLUTION.0 && 0 <= yy < RESOLUTION.1 implies screen@[#[trigger] pix(x, yy)]
                        == (before[pix(x, yy)] || covers(bounds, pp, x, yy)) by {
                }
                assert forall|x: int, y: int|
                    0 <= x < RESOLUTION.0 && 0 <= y < RESOLUTION.1 implies screen@[#[trigger] pix(x, y)]
                        == lit_by(elems@, k + 1, bounds, x, y) by {
                    assert(before[pix(x, y)] == lit_by(elems@, k as int, bounds, x, y));
                    if covers(bounds, elems@[k as int], x, y) {
                        assert(lit_by(elems@, k + 1, bounds, x, y));
                    }
                    if lit_by(elems@, k + 1, bounds, x, y) {
                        let j = choose|j: int| 0 <= j < k + 1 && #[trigger] covers(bounds, elems@[j], x, y);
                        if j < k {
                            assert(lit_by(elems@, k as int, bounds, x, y));
                        }
                    }
                }
            }
            k = k + 1;
        }
        proof {
            assert forall|x: int, y: int|
                0 <= x < RESOLUTION.0 && 0 <= y < RESOLUTION.1 implies screen@[#[trigger] pix(x, y)]
                    == lit(set_view(self.cells), self.bounds, x, y) by {
                if lit_by(elems@, elems@.len() as int, bounds, x, y) {
                    let j = choose|j: int| 0 <= j < elems@.len() && #[trigger] covers(bounds, elems@[j], x, y);
                    assert(elems@.to_set().contains(elems@[j]));
                }
                if lit(set_view(self.cells), self.bounds, x, y) {
                    let p = choose|p: i64| set_view(self.cells).contains(p) && #[trigger] covers(bounds, p, x, y);
                    assert(elems@.to_set().contains(p));
                    let j = choose|j: int| 0 <= j < elems@.len() && elems@[j] == p;
                    assert(covers(bounds, elems@[j], x, y));
                }
            }
        }
        screen
    }

    /// Paints the drawing surface: every pixel that a live cell covers white,
    /// with a fresh fade level; every other pixel red, its fade level one step
    /// down and its alpha ten per level. `paused` is not consulted.
    pub fn draw_optimized(&mut self, frame: &mut [u8], paused: bool, fades: &mut Vec<Vec<i8>>)
        requires
            raster_ok(set_view(old(self).cells), old(self).bounds),
            bounds_ok(old(self).bounds),
            canvas_ok(old(frame)@, old(fades)@),
        ensures
            *final(self) == *old(self),
            final(frame)@.len() == old(frame)@.len(),
            forall|j: int| 4 * (RESOLUTION.0 * RESOLUTION.1) <= j < old(frame)@.len() ==> #[trigger] final(frame)@[j] == old(frame)@[j],
            same_outside(old(fades)@, final(fades)@),
            forall|x: int, y: int|
                0 <= x < RESOLUTION.0 && 0 <= y < RESOLUTION.1 ==> #[trigger] painted(
                    final(frame)@,
                    final(fades)@[y]@[x],
                    old(fades)@[y]@[x],
                    lit(set_view(old(self).cells), old(self).bounds, x, y),
                    x,
                    y,
                ),
    {
        let screen = self.rasterize();
        let ghost fades0 = fades@;
        paint(frame, fades, &screen);
        proof {
            assert forall|x: int, y: int|
                0 <= x < RESOLUTION.0 && 0 <= y < RESOLUTION.1 implies #[trigger] painted(
                    frame@,
                    fades@[y]@[x],
                    fades0[y]@[x],
                    lit(set_view(self.cells), self.bounds, x, y),
                    x,
                    y,
                ) by {
                assert(screen@[pix(x, y)] == lit(set_view(self.cells), self.bounds, x, y));
                assert(painted(frame@, fades@[y]@[x], fades0[y]@[x], screen@[pix(x, y)], x, y));
            }
        }
    }

    /// Paints each 4-byte pixel of `frame`, in rows of `RESOLUTION.0`: white,
    /// with a fresh fade level, where the cell shown there is alive, else the
    /// blue background with its fade level one step down. `paused` is not
    /// consulted.
    pub fn draw(&self, frame: &mut [u8], paused: bool, fades: &mut Vec<Vec<i8>>, resolution: &P16)
        requires
            old(frame)@.len() / 4 < 65536 * RESOLUTION.0,
            forall|i: int| 0 <= i < old(frame)@.len() / 4 ==> #[trigger] draw_pixel_ok(self.bounds, *resolution, old(fades)@, i),
        ensures
            final(frame)@.len() == old(frame)@.len(),
            forall|j: int| 4 * (old(frame)@.len() / 4) <= j < old(frame)@.len() ==> #[trigger] final(frame)@[j] == old(frame)@[j],
            final(fades)@.len() == old(fades)@.len(),
            forall|y: int| 0 <= y < old(fades)@.len() ==> (#[trigger] final(fades)@[y])@.len() == old(fades)@[y]@.len(),
            forall|y: int, x: int|
                0 <= y < old(fades)@.len() && 0 <= x < old(fades)@[y]@.len() && !(x < RESOLUTION.0 && y * RESOLUTION.0 + x < old(frame)@.len() / 4)
                    ==> #[trigger] final(fades)@[y]@[x] == old(fades)@[y]@[x],
            forall|i: int| 0 <= i < old(frame)@.len() / 4 ==> #[trigger] pixel_painted(
                final(frame)@,
                i,
                final(fades)@[i / (RESOLUTION.0 as int)]@[i % (RESOLUTION.0 as int)],
                old(fades)@[i / (RESOLUTION.0 as int)]@[i % (RESOLUTION.0 as int)],
                set_view(self.cells).contains(shown_cell(self.bounds, ((i % (RESOLUTION.0 as int)) as u16, (i / (RESOLUTION.0 as int)) as u16), *resolution)),
                BLUE,
            ),
    {
        let ghost frame0 = frame@;
        let ghost fades0 = fades@;
        let n: usize = frame.len() / 4;
        let mut x: u16 = 0;
        let mut y: u16 = 0;
        let mut i: usize = 0;
        while i < n
            invariant
                n == frame0.len() / 4,
                n < 65536 * RESOLUTION.0,
                i <= n,
                x as int == (i as int) % (RESOLUTION.0 as int),
                y as int == (i as int) / (RESOLUTION.0 as int),
                frame@.len() == frame0.len(),
                forall|j: int| 4 * i <= j < frame0.len() ==> #[trigger] frame@[j] == frame0[j],
                forall|k: int| 0 <= k < n ==> #[trigger] draw_pixel_ok(self.bounds, *resolution, fades0, k),
                fades@.len() == fades0.len(),
                forall|yy: int| 0 <= yy < fades0.len() ==> (#[trigger] fades@[yy])@.len() == fades0[yy]@.len(),
                forall|yy: int, xx: int|
                    0 <= yy < fades0.len() && 0 <= xx < fades0[yy]@.len() && !(xx < RESOLUTION.0 && yy * RESOLUTION.0 + xx < i)
                        ==> #[trigger] fades@[yy]@[xx] == fades0[yy]@[xx],
                forall|k: int| 0 <= k < i ==> #[trigger] pixel_painted(
                    frame@,
                    k,
                    fades@[k / (RESOLUTION.0 as int)]@[k % (RESOLUTION.0 as int)],
                    fades0[k / (RESOLUTION.0 as int)]@[k % (RESOLUTION.0 as int)],
                    set_view(self.cells).contains(shown_cell(self.bounds, ((k % (RESOLUTION.0 as int)) as u16, (k / (RESOLUTION.0 as int)) as u16), *resolution)),
                    BLUE,
                ),
            decreases n - i,
        {
            proof {
                assert(draw_pixel_ok(self.bounds, *resolution, fades0, i as int));
            }
            let ghost frame1 = frame@;
            let ghost fades1 = fades@;
            let fade_before: i8 = fades[y as usize][x as usize];
            assert(fade_before == fades0[y as int]@[x as int]);
            let packed = topack(&self.mapsb((x, y), resolution));
            let color: [u8; 4] = if set_contains(&self.cells, &packed) {
                let nf: i8 = 100 + (random_u8() % 4) as i8;
                fades[y as usize][x as usize] = nf;
                WHITE
            } else {
                let nf: i8 = (fade_before - 1).max(0);
                fades[y as usize][x as usize] = nf;
                [BLUE[0], BLUE[1], BLUE[2], ((nf as u8).wrapping_mul(10) as u8).min(255)]
            };
            let ghost xi = x as int;
            let ghost yi = y as int;
            x = x + 1;
            if x >= RESOLUTION.0 {
                x = 0;
                y = y + 1;
            }
            let fidx: usize = i * 4;
            frame[fidx] = color[0];
            frame[fidx + 1] = color[1];
            frame[fidx + 2] = color[2];
            frame[fidx + 3] = color[3];
            proof {
                let nf = fades@[yi]@[xi];
                let on = set_view(self.cells).contains(shown_cell(self.bounds, (xi as u16, yi as u16), *resolution));
                if on {
                    assert(color@ == WHITE@);
                } else {
                    assert(nf == faded(fade_before));
                    assert(color@ =~= background(BLUE, nf));
                }
                assert(pixel_painted(frame@, i as int, nf, fades0[yi]@[xi], on, BLUE));
                assert(yi == (i as int) / 1920 && xi == (i as int) % 1920);
                assert forall|k: int| 0 <= k < i + 1 implies #[trigger] pixel_painted(
                    frame@,
                    k,
                    fades@[k / (RESOLUTION.0 as int)]@[k % (RESOLUTION.0 as int)],
                    fades0[k / (RESOLUTION.0 as int)]@[k % (RESOLUTION.0 as int)],
                    set_view(self.cells).contains(shown_cell(self.bounds, ((k % (RESOLUTION.0 as int)) as u16, (k / (RESOLUTION.0 as int)) as u16), *resolution)),
                    BLUE,
                ) by {
                    let ky = k / (RESOLUTION.0 as int);
                    let kx = k % (RESOLUTION.0 as int);
                    if k < i {
                        assert(draw_pixel_ok(self.bounds, *resolution, fades0, k));
                        assert(ky * 1920 + kx == k);
                        assert(ky != yi || kx != xi);
                        assert(fades@[ky]@[kx] == fades1[ky]@[kx]);
                        let onk = set_view(self.cells).contains(shown_cell(self.bounds, (kx as u16, ky as u16), *resolution));
                        assert(pixel_painted(frame1, k, fades1[ky]@[kx], fades0[ky]@[kx], onk, BLUE));
                        assert(frame@[4 * k] == frame1[4 * k]);
                        assert(frame@[4 * k + 1] == frame1[4 * k + 1]);
                        assert(frame@[4 * k + 2] == frame1[4 * k + 2]);
                        assert(frame@[4 * k + 3] == frame1[4 * k + 3]);
                    } else {
                        assert(ky == yi && kx == xi);
                    }
                }
                assert forall|yy: int, xx: int|
                    0 <= yy < fades0.len() && 0 <= xx < fades0[yy]@.len() && !(xx < RESOLUTION.0 && yy * RESOLUTION.0 + xx < i + 1)
                        implies #[trigger] fades@[yy]@[xx] == fades0[yy]@[xx] by {
                    assert(fades1[yy]@[xx] == fades0[yy]@[xx]);
                    assert(yi * 1920 + xi == i);
                }
            }
            i = i + 1;
        }
    }

    /// Whether `draw_optimized` can map every live cell to the drawing surface
    /// without overflow.
    pub fn drawable(&self) -> (r: bool)
        ensures
            r == (raster_ok(set_view(self.cells), self.bounds) && bounds_ok(self.bounds)),
    {
        let (min_x, min_y) = self.bounds.0;
        let (max_x, max_y) = self.bounds.1;
        let wide: i64 = max_x as i64 - min_x as i64;
        let high: i64 = max_y as i64 - min_y as i64;
        if wide < i32::MIN as i64 || wide > i32::MAX as i64 || high < i32::MIN as i64 || high > i32::MAX as i64 {
            return false;
        }
        let elems = set_elements(&self.cells);
        let mut k: usize = 0;
        while k < elems.len()
            invariant
                k <= elems@.len(),
                elems@.to_set() == set_view(self.cells),
                (min_x, min_y) == self.bounds.0,
                (max_x, max_y) == self.bounds.1,
                forall|j: int| 0 <= j < k ==> span_ok(min_x, max_x, hi_spec(#[trigger] elems@[j]), RESOLUTION.0 as int)
                    && span_ok(min_y, max_y, lo_spec(elems@[j]), RESOLUTION.1 as int),
            decreases elems@.len() - k,
        {
            let pp = elems[k];
            let wx: i32 = (pp >> 32u64) as i32;
            let wy: i32 = ((pp & 0xffff_ffffi64) as u32) as i32;
            if !span_fits(min_x, max_x, wx, RESOLUTION.0) || !span_fits(min_y, max_y, wy, RESOLUTION.1) {
                proof {
                    assert(elems@.to_set().contains(pp));
                    assert(set_view(self.cells).contains(pp));
                }
                return false;
            }
            k = k + 1;
        }
        proof {
            assert forall|p: i64| #[trigger] set_view(self.cells).contains(p) implies span_ok(min_x, max_x, hi_spec(p), RESOLUTION.0 as int)
                && span_ok(min_y, max_y, lo_spec(p), RESOLUTION.1 as int) by {
                assert(elems@.to_set().contains(p));
                let j = choose|j: int| 0 <= j < elems@.len() && elems@[j] == p;
                assert(span_ok(min_x, max_x, hi_spec(elems@[j]), RESOLUTION.0 as int));
            }
        }
        true
    }

    /// Whether the cell shown at each position of a screen of `resolution` is
    /// alive, row by row (the terminal picture).
    pub fn display(&self, resolution: &P16) -> (r: Vec<Vec<bool>>)
        requires
            screen_ok(self.bounds, *resolution),
        ensures
            r@.len() == resolution.1,
            forall|y: int| 0 <= y < resolution.1 ==> (#[trigger] r@[y])@.len() == resolution.0,
            forall|y: int, x: int|
                0 <= y < resolution.1 && 0 <= x < resolution.0 ==> #[trigger] r@[y]@[x] == set_view(self.cells).contains(
                    shown_cell(self.bounds, (x as u16, y as u16), *resolution),
                ),
    {
        let mut rows: Vec<Vec<bool>> = Vec::new();
        let mut y: u16 = 0;
        while y < resolution.1
            invariant
                y <= resolution.1,
                screen_ok(self.bounds, *resolution),
                rows@.len() == y,
                forall|j: int| 0 <= j < y ==> (#[trigger] rows@[j])@.len() == resolution.0,
                forall|j: int, x: int|
                    0 <= j < y && 0 <= x < resolution.0 ==> #[trigger] rows@[j]@[x] == set_view(self.cells).contains(
                        shown_cell(self.bounds, (x as u16, j as u16), *resolution),
                    ),
            decreases resolution.1 - y,
        {
            let mut row: Vec<bool> = Vec::new();
            let mut x: u16 = 0;
            while x < resolution.0
                invariant
                    x <= resolution.0,
                    y < resolution.1,
                    screen_ok(self.bounds, *resolution),
                    row@.len() == x,
                    forall|i: int| 0 <= i < x ==> #[trigger] row@[i] == set_view(self.cells).contains(
                        shown_cell(self.bounds, (i as u16, y), *resolution),
                    ),
                decreases resolution.0 - x,
            {
                assert(axis_ok(self.bounds.0.0, self.bounds.1.0, x as int, resolution.0 as int));
                assert(axis_ok(self.bounds.0.1, self.bounds.1.1, y as int, resolution.1 as int));
                let packed = topack(&self.mapsb((x, y), resolution));
                row.push(set_contains(&self.cells, &packed));
                x = x + 1;
            }
            rows.push(row);
            y = y + 1;
        }
        rows
    }

    /// Whether every position of a screen of `resolution` maps into the plane
    /// without overflow or division by zero.
    pub fn screen_fits(&self, resolution: &P16) -> (r: bool)
        ensures
            r == screen_ok(self.bounds, *resolution),
    {
        axis_fits(self.bounds.0.0, self.bounds.1.0, resolution.0) && axis_fits(
            self.bounds.0.1,
            self.bounds.1.1,
            resolution.1,
        )
    }

    /// Maps a position in the plane to a position on the screen.
    pub fn mapbs(&self, location: &Pair, resolution: &P16) -> (r: Pair)
        requires
            mapbs_ok(self.bounds, *location, *resolution),
        ensures
            r == mapbs_spec(self.bounds, *location, *resolution),
    {
        let distx: i32 = self.bounds.1.0 - self.bounds.0.0;
        let disty: i32 = self.bounds.1.1 - self.bounds.0.1;
        let scx: i32 = ((location.0 - self.bounds.0.0) * resolution.0 as i32) / distx;
        let scy: i32 = ((location.1 - self.bounds.0.1) * resolution.1 as i32) / disty;
        (scx, scy)
    }
}

} // verus!
