//! Rasterizer post-processing: perceptual grayscale conversion and 1-bit
//! quantization by Stucki error-diffusion dithering, in fixed-point integer
//! arithmetic so every pass is exact and reproducible.

use vstd::prelude::*;
use vstd::arithmetic::div_mod::{lemma_fundamental_div_mod, lemma_fundamental_div_mod_converse};

verus! {

/// One RGB pixel of the rasterized scene.
#[derive(Clone, Copy, Debug, PartialEq, Eq, Structural)]
pub struct Rgb {
    pub r: u8,
    pub g: u8,
    pub b: u8,
}

/// Chroma-corrected luminance of a pixel, scaled to `0..=255`: the Rec. 709
/// weights 0.2126, 0.7152 and 0.0722 in units of one ten-thousandth.
pub open spec fn spec_luma(p: Rgb) -> int {
    (2126 * p.r + 7152 * p.g + 722 * p.b) / 10000
}

/// Chroma-corrected luminance of a pixel.
pub fn luma(p: Rgb) -> (r: i64)
    ensures
        r == spec_luma(p),
        0 <= r <= 255,
{
    let v = 2126 * (p.r as i64) + 7152 * (p.g as i64) + 722 * (p.b as i64);
    v / 10000
}

/// Division by the Stucki divisor, truncated toward zero.
pub open spec fn spec_div42(n: int) -> int {
    if n >= 0 {
        n / 42
    } else {
        -((-n) / 42)
    }
}

fn div42(n: i64) -> (r: i64)
    requires
        -1000000 <= n <= 1000000,
    ensures
        r == spec_div42(n as int),
{
    if n >= 0 {
        ((n as u64) / 42) as i64
    } else {
        -((((-n) as u64) / 42) as i64)
    }
}

/// The quantization error, kept within one full intensity step.
pub open spec fn spec_clamp_err(e: int) -> int {
    if e < -255 {
        -255
    } else if e > 255 {
        255
    } else {
        e
    }
}

/// The error portion diffused to one neighbour: `d` added to the cell at
/// `(x, y)` when that cell lies in the grid, and nothing changed otherwise.
pub open spec fn spec_spread(
    s: Seq<Seq<int>>,
    x: int,
    y: int,
    d: int,
    w: int,
    h: int,
) -> Seq<Seq<int>> {
    if 0 <= x < w && 0 <= y < h {
        s.update(y, s[y].update(x, s[y][x] + d))
    } else {
        s
    }
}

/// One dithering step at `(x, y)`: quantize the accumulated value against the
/// mid threshold and diffuse the clamped error forward with the Stucki
/// weights over the divisor 42.
pub open spec fn spec_step(s: Seq<Seq<int>>, x: int, y: int, w: int, h: int) -> Seq<Seq<int>> {
    let v = s[y][x];
    let q: int = if v >= 128 {
        255
    } else {
        0
    };
    let e = spec_clamp_err(v - q);
    let s1 = spec_spread(s, x + 1, y, spec_div42(e * 8), w, h);
    let s2 = spec_spread(s1, x + 2, y, spec_div42(e * 4), w, h);
    let s3 = spec_spread(s2, x - 2, y + 1, spec_div42(e * 2), w, h);
    let s4 = spec_spread(s3, x - 1, y + 1, spec_div42(e * 4), w, h);
    let s5 = spec_spread(s4, x, y + 1, spec_div42(e * 8), w, h);
    let s6 = spec_spread(s5, x + 1, y + 1, spec_div42(e * 4), w, h);
    let s7 = spec_spread(s6, x + 2, y + 1, spec_div42(e * 2), w, h);
    let s8 = spec_spread(s7, x - 2, y + 2, spec_div42(e * 1), w, h);
    let s9 = spec_spread(s8, x - 1, y + 2, spec_div42(e * 2), w, h);
    let s10 = spec_spread(s9, x, y + 2, spec_div42(e * 4), w, h);
    let s11 = spec_spread(s10, x + 1, y + 2, spec_div42(e * 2), w, h);
    spec_spread(s11, x + 2, y + 2, spec_div42(e * 1), w, h)
}

/// The accumulator grid after the first `k` pixels have been processed in
/// raster order.
pub open spec fn spec_state(l: Seq<Seq<int>>, w: int, h: int, k: int) -> Seq<Seq<int>>
    recommends
        w > 0,
    decreases k,
{
    if k <= 0 {
        l
    } else {
        spec_step(spec_state(l, w, h, k - 1), (k - 1) % w, (k - 1) / w, w, h)
    }
}

/// Whether pixel `(x, y)` quantizes to black: its accumulated value at its
/// turn in raster order lies below the mid threshold.
pub open spec fn spec_dither_bit(l: Seq<Seq<int>>, w: int, h: int, x: int, y: int) -> bool {
    spec_state(l, w, h, y * w + x)[y][x] < 128
}

/// The dithered monochrome grid of a luminance grid; `true` is black.
pub open spec fn spec_dither(l: Seq<Seq<int>>, w: int, h: int) -> Seq<Seq<bool>> {
    Seq::new(h as nat, |y: int| Seq::new(w as nat, |x: int| spec_dither_bit(l, w, h, x, y)))
}

/// The luminance grid of an RGB grid.
pub open spec fn spec_lumas(pixels: Seq<Vec<Rgb>>) -> Seq<Seq<int>> {
    Seq::new(pixels.len(), |y: int| Seq::new(pixels[y]@.len(), |x: int| spec_luma(pixels[y]@[x])))
}

/// The views of the accumulator rows.
pub open spec fn bviews(b: Seq<Vec<i64>>) -> Seq<Seq<int>> {
    Seq::new(b.len(), |y: int| Seq::new(b[y]@.len(), |x: int| b[y]@[x] as int))
}

/// Well-formed `w` by `h` grid.
pub open spec fn grid_dims<T>(s: Seq<Seq<T>>, w: int, h: int) -> bool {
    s.len() == h && forall|y: int| 0 <= y < h ==> (#[trigger] s[y]).len() == w
}

/// All cell magnitudes within `bound`.
pub open spec fn grid_bounded(s: Seq<Seq<int>>, w: int, h: int, bound: int) -> bool {
    forall|y: int, x: int| 0 <= y < h && 0 <= x < w ==> -bound <= #[trigger] s[y][x] <= bound
}

fn spread(buf: &mut Vec<Vec<i64>>, x: i64, y: i64, d: i64, w: usize, h: usize)
    requires
        w <= 30000,
        h <= 30000,
        grid_dims(bviews(old(buf)@), w as int, h as int),
        -48 <= d <= 48,
        grid_bounded(bviews(old(buf)@), w as int, h as int, 0x1000_0000_0000_0000),
        -3 <= x <= w + 2,
        -3 <= y <= h + 2,
    ensures
        grid_dims(bviews(final(buf)@), w as int, h as int),
        bviews(final(buf)@) =~~= spec_spread(
            bviews(old(buf)@),
            x as int,
            y as int,
            d as int,
            w as int,
            h as int,
        ),
        forall|yy: int, xx: int|
            0 <= yy < h && 0 <= xx < w ==> bviews(old(buf)@)[yy][xx] - 48 <= #[trigger] bviews(
                final(buf)@,
            )[yy][xx] <= bviews(old(buf)@)[yy][xx] + 48,
{
    if 0 <= x && x < w as i64 && 0 <= y && y < h as i64 {
        proof {
            assert(bviews(buf@).len() == buf@.len());
            assert(bviews(buf@)[y as int].len() == buf@[y as int]@.len());
        }
        let xi = x as usize;
        let yi = y as usize;
        let cur = buf[yi][xi];
        proof {
            assert(bviews(buf@)[y as int][x as int] == buf@[y as int]@[x as int] as int);
        }
        buf[yi][xi] = cur + d;
        proof {
            let pre = bviews(old(buf)@);
            let post = bviews(buf@);
            let tgt = spec_spread(pre, x as int, y as int, d as int, w as int, h as int);
            assert(post.len() == tgt.len());
            assert forall|yy: int| 0 <= yy < h implies post[yy] =~= tgt[yy] by {
                assert(post[yy].len() == buf@[yy]@.len());
                assert(pre[yy].len() == old(buf)@[yy]@.len());
                assert forall|xx: int| 0 <= xx < w implies post[yy][xx] == tgt[yy][xx] by {
                    assert(post[yy][xx] == buf@[yy]@[xx] as int);
                    assert(pre[yy][xx] == old(buf)@[yy]@[xx] as int);
                }
            }
            assert(post =~~= tgt);
        }
    } else {
        proof {
            assert(bviews(buf@) =~~= spec_spread(
                bviews(old(buf)@),
                x as int,
                y as int,
                d as int,
                w as int,
                h as int,
            ));
        }
    }
}

/// Convert a rectangular RGB grid to a 1-bit grid: perceptual grayscale, then
/// a single forward error-diffusion pass with the Stucki kernel; `true` is
/// black.
#[verifier::rlimit(100)]
pub fn dither_image(pixels: &Vec<Vec<Rgb>>) -> (r: Vec<Vec<bool>>)
    requires
        pixels@.len() <= 30000,
        forall|y: int|
            0 <= y < pixels@.len() ==> (#[trigger] pixels@[y])@.len() == pixels@[0]@.len(),
        pixels@.len() > 0 ==> pixels@[0]@.len() <= 30000,
    ensures
        r.deep_view() =~~= spec_dither(
            spec_lumas(pixels@),
            if pixels@.len() > 0 {
                pixels@[0]@.len() as int
            } else {
                0
            },
            pixels@.len() as int,
        ),
{
    let h = pixels.len();
    if h == 0 {
        let r: Vec<Vec<bool>> = Vec::new();
        proof {
            assert(r.deep_view() =~~= spec_dither(spec_lumas(pixels@), 0, 0));
        }
        return r;
    }
    let w = pixels[0].len();
    let ghost lum = spec_lumas(pixels@);

    let mut buf: Vec<Vec<i64>> = Vec::new();
    let mut y: usize = 0;
    while y < h
        invariant
            h == pixels@.len(),
            forall|yy: int| 0 <= yy < h ==> (#[trigger] pixels@[yy])@.len() == w,
            lum == spec_lumas(pixels@),
            0 <= y <= h,
            buf@.len() == y,
            forall|yy: int| 0 <= yy < y ==> (#[trigger] buf@[yy])@.len() == w,
            forall|yy: int, xx: int|
                0 <= yy < y && 0 <= xx < w ==> #[trigger] bviews(buf@)[yy][xx] == lum[yy][xx]
                    && 0 <= bviews(buf@)[yy][xx] <= 255,
        decreases h - y,
    {
        let mut row: Vec<i64> = Vec::new();
        let mut x: usize = 0;
        while x < w
            invariant
                h == pixels@.len(),
                forall|yy: int| 0 <= yy < h ==> (#[trigger] pixels@[yy])@.len() == w,
                lum == spec_lumas(pixels@),
                y < h,
                0 <= x <= w,
                row@.len() == x,
                forall|xx: int|
                    0 <= xx < x ==> #[trigger] row@[xx] == lum[y as int][xx] && 0 <= row@[xx]
                        <= 255,
            decreases w - x,
        {
            let v = luma(pixels[y][x]);
            row.push(v);
            x = x + 1;
        }
        let ghost pre = buf@;
        buf.push(row);
        proof {
            assert forall|yy: int, xx: int|
                0 <= yy < y + 1 && 0 <= xx < w implies #[trigger] bviews(buf@)[yy][xx]
                == lum[yy][xx] && 0 <= bviews(buf@)[yy][xx] <= 255 by {
                assert(bviews(buf@)[yy][xx] == buf@[yy]@[xx] as int);
                if yy < y {
                    assert(buf@[yy] == pre[yy]);
                    assert(bviews(pre)[yy][xx] == pre[yy]@[xx] as int);
                } else {
                    assert(buf@[yy]@[xx] == row@[xx]);
                }
            }
        }
        y = y + 1;
    }

    proof {
        assert(bviews(buf@) =~~= lum);
        assert(grid_dims(lum, w as int, h as int));
    }
    let mut out: Vec<Vec<bool>> = Vec::new();
    let mut py: usize = 0;
    let ghost wi = w as int;
    let ghost hi = h as int;
    while py < h
        invariant
            h == pixels@.len(),
            w <= 30000,
            h <= 30000,
            wi == w as int,
            hi == h as int,
            lum == spec_lumas(pixels@),
            grid_dims(lum, wi, hi),
            0 <= py <= h,
            grid_dims(bviews(buf@), wi, hi),
            bviews(buf@) =~~= spec_state(lum, wi, hi, (py as int) * wi),
            grid_bounded(bviews(buf@), wi, hi, 255 + 576 * ((py as int) * wi)),
            out@.len() == py,
            forall|yy: int| 0 <= yy < py ==> (#[trigger] out@[yy])@.len() == w,
            forall|yy: int, xx: int|
                0 <= yy < py && 0 <= xx < w ==> #[trigger] out@[yy]@[xx] == spec_dither_bit(
                    lum,
                    wi,
                    hi,
                    xx,
                    yy,
                ),
        decreases h - py,
    {
        let mut orow: Vec<bool> = Vec::new();
        let mut px: usize = 0;
        while px < w
            invariant
                h == pixels@.len(),
                w <= 30000,
                h <= 30000,
                wi == w as int,
                hi == h as int,
                lum == spec_lumas(pixels@),
                grid_dims(lum, wi, hi),
                py < h,
                0 <= px <= w,
                grid_dims(bviews(buf@), wi, hi),
                bviews(buf@) =~~= spec_state(lum, wi, hi, (py as int) * wi + px as int),
                grid_bounded(bviews(buf@), wi, hi, 255 + 576 * ((py as int) * wi + px as int)),
                orow@.len() == px,
                forall|xx: int|
                    0 <= xx < px ==> #[trigger] orow@[xx] == spec_dither_bit(
                        lum,
                        wi,
                        hi,
                        xx,
                        py as int,
                    ),
            decreases w - px,
        {
            let ghost k = (py as int) * wi + px as int;
            proof {
                assert(0 <= k <= wi * hi - 1) by (nonlinear_arith)
                    requires
                        k == (py as int) * wi + px as int,
                        0 <= px < wi,
                        0 <= (py as int) < hi,
                ;
                assert(255 + 576 * k <= 255 + 576 * (30000int * 30000)) by (nonlinear_arith)
                    requires
                        0 <= k <= wi * hi - 1,
                        0 < wi <= 30000,
                        0 < hi <= 30000,
                ;
            }
            proof {
                assert(bviews(buf@).len() == buf@.len());
                assert(bviews(buf@)[py as int].len() == buf@[py as int]@.len());
                assert(bviews(buf@)[py as int][px as int] == buf@[py as int]@[px as int] as int);
            }
            let v = buf[py][px];
            let q: i64 = if v >= 128 {
                255
            } else {
                0
            };
            let e0 = v - q;
            let e = if e0 < -255 {
                -255i64
            } else if e0 > 255 {
                255i64
            } else {
                e0
            };
            orow.push(v < 128);

            let ghost s0 = bviews(buf@);
            let xi = px as i64;
            let yi = py as i64;
            spread(&mut buf, xi + 1, yi, div42(e * 8), w, h);
            let ghost s1 = bviews(buf@);
            spread(&mut buf, xi + 2, yi, div42(e * 4), w, h);
            let ghost s2 = bviews(buf@);
            spread(&mut buf, xi - 2, yi + 1, div42(e * 2), w, h);
            let ghost s3 = bviews(buf@);
            spread(&mut buf, xi - 1, yi + 1, div42(e * 4), w, h);
            let ghost s4 = bviews(buf@);
            spread(&mut buf, xi, yi + 1, div42(e * 8), w, h);
            let ghost s5 = bviews(buf@);
            spread(&mut buf, xi + 1, yi + 1, div42(e * 4), w, h);
            let ghost s6 = bviews(buf@);
            spread(&mut buf, xi + 2, yi + 1, div42(e * 2), w, h);
            let ghost s7 = bviews(buf@);
            spread(&mut buf, xi - 2, yi + 2, div42(e * 1), w, h);
            let ghost s8 = bviews(buf@);
            spread(&mut buf, xi - 1, yi + 2, div42(e * 2), w, h);
            let ghost s9 = bviews(buf@);
            spread(&mut buf, xi, yi + 2, div42(e * 4), w, h);
            let ghost s10 = bviews(buf@);
            spread(&mut buf, xi + 1, yi + 2, div42(e * 2), w, h);
            let ghost s11 = bviews(buf@);
            spread(&mut buf, xi + 2, yi + 2, div42(e * 1), w, h);
            proof {
                assert(bviews(buf@) =~~= spec_step(s0, px as int, py as int, wi, hi));
                assert(spec_state(lum, wi, hi, k + 1) == spec_step(
                    spec_state(lum, wi, hi, k),
                    k % wi,
                    k / wi,
                    wi,
                    hi,
                ));
                lemma_fundamental_div_mod_converse(k, wi, py as int, px as int);
                assert(bviews(buf@) =~~= spec_state(lum, wi, hi, k + 1));
                assert(grid_bounded(bviews(buf@), wi, hi, 255 + 576 * (k + 1)));
            }
            px = px + 1;
        }
        out.push(orow);
        py = py + 1;
        proof {
            assert((py as int) * wi == ((py - 1) as int) * wi + wi) by (nonlinear_arith);
        }
    }
    proof {
        assert(out.deep_view() =~~= spec_dither(lum, wi, hi));
    }
    out
}

/// Dithering is deterministic: the output grid is a function of the input
/// grid alone, with no randomness anywhere in the pass.
pub proof fn lemma_dither_deterministic(a: Seq<Seq<int>>, b: Seq<Seq<int>>, w: int, h: int)
    requires
        a == b,
    ensures
        spec_dither(a, w, h) == spec_dither(b, w, h),
{
}

proof fn lemma_spread_zero(s: Seq<Seq<int>>, x: int, y: int, w: int, h: int)
    requires
        grid_dims(s, w, h),
    ensures
        spec_spread(s, x, y, 0, w, h) =~~= s,
{
    if 0 <= x < w && 0 <= y < h {
        assert(s[y].len() == w);
        assert(s[y].update(x, s[y][x] + 0) =~= s[y]);
    }
}

proof fn lemma_step_uniform(s: Seq<Seq<int>>, x: int, y: int, w: int, h: int, c: int)
    requires
        c == 0 || c == 255,
        grid_dims(s, w, h),
        forall|yy: int, xx: int| 0 <= yy < h && 0 <= xx < w ==> #[trigger] s[yy][xx] == c,
        0 <= x < w,
        0 <= y < h,
    ensures
        spec_step(s, x, y, w, h) =~~= s,
{
    assert(s[y][x] == c);
    let v = s[y][x];
    let q: int = if v >= 128 {
        255
    } else {
        0
    };
    assert(spec_clamp_err(v - q) == 0);
    lemma_spread_zero(s, x + 1, y, w, h);
    lemma_spread_zero(s, x + 2, y, w, h);
    lemma_spread_zero(s, x - 2, y + 1, w, h);
    lemma_spread_zero(s, x - 1, y + 1, w, h);
    lemma_spread_zero(s, x, y + 1, w, h);
    lemma_spread_zero(s, x + 1, y + 1, w, h);
    lemma_spread_zero(s, x + 2, y + 1, w, h);
    lemma_spread_zero(s, x - 2, y + 2, w, h);
    lemma_spread_zero(s, x - 1, y + 2, w, h);
    lemma_spread_zero(s, x, y + 2, w, h);
    lemma_spread_zero(s, x + 1, y + 2, w, h);
    lemma_spread_zero(s, x + 2, y + 2, w, h);
}

proof fn lemma_state_uniform(l: Seq<Seq<int>>, w: int, h: int, k: int, c: int)
    requires
        w > 0,
        h > 0,
        grid_dims(l, w, h),
        forall|yy: int, xx: int| 0 <= yy < h && 0 <= xx < w ==> #[trigger] l[yy][xx] == c,
        c == 0 || c == 255,
        0 <= k <= w * h,
    ensures
        spec_state(l, w, h, k) =~~= l,
    decreases k,
{
    if k <= 0 {
    } else {
        lemma_state_uniform(l, w, h, k - 1, c);
        let x = (k - 1) % w;
        let y = (k - 1) / w;
        lemma_fundamental_div_mod(k - 1, w);
        assert(y < h) by (nonlinear_arith)
            requires
                k - 1 == w * y + x,
                0 <= x < w,
                k <= w * h,
                w > 0,
                h > 0,
        ;
        assert(y >= 0) by (nonlinear_arith)
            requires
                k - 1 == w * y + x,
                0 <= x < w,
                k >= 1,
                w > 0,
        ;
        assert(spec_state(l, w, h, k - 1) == l);
        lemma_step_uniform(l, x, y, w, h, c);
    }
}

/// A uniform grid dithers to a uniform output with no diffused error
/// anywhere: an all-white input gives an all-false grid, an all-black input
/// an all-true one.
pub proof fn lemma_dither_uniform(l: Seq<Seq<int>>, w: int, h: int, c: int)
    requires
        w > 0,
        h > 0,
        grid_dims(l, w, h),
        forall|yy: int, xx: int| 0 <= yy < h && 0 <= xx < w ==> #[trigger] l[yy][xx] == c,
        c == 0 || c == 255,
    ensures
        forall|y: int, x: int|
            0 <= y < h && 0 <= x < w ==> #[trigger] spec_dither(l, w, h)[y][x] == (c < 128),
{
    assert forall|y: int, x: int|
        0 <= y < h && 0 <= x < w implies #[trigger] spec_dither(l, w, h)[y][x] == (c < 128) by {
        assert(y * w + x <= w * h) by (nonlinear_arith)
            requires
                0 <= y < h,
                0 <= x < w,
        ;
        assert(y * w + x >= 0) by (nonlinear_arith)
            requires
                0 <= y < h,
                0 <= x < w,
        ;
        lemma_state_uniform(l, w, h, y * w + x, c);
        assert(spec_state(l, w, h, y * w + x)[y][x] == c);
        assert(spec_dither(l, w, h)[y][x] == spec_dither_bit(l, w, h, x, y));
    }
}

} // verus!
