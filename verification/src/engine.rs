//! The Floyd–Steinberg error-diffusion engine.
//!
//! Pixels are visited in raster order (left to right within a row, top to
//! bottom across rows).  Each sample is replaced by its nearest palette
//! level, and the quantization error is diffused into the four forward
//! neighbors with the weights 7/16, 3/16, 5/16 and 1/16, written straight
//! back into the 8-bit matrix with saturation.

use vstd::prelude::*;

use crate::arith::sat_add_spec;
use crate::arith::saturating_add;
use crate::grid::grid_view;
use crate::grid::grid_wf;
use crate::grid::gset;
use crate::grid::lemma_gset_wf;
use crate::grid::grid_get;
use crate::grid::grid_set;
use crate::palette::closest_spec;
use crate::palette::find_closest_color;

verus! {

/// `(err * w) / 16` with division truncating toward zero, as the engine
/// computes it in 16-bit signed arithmetic.
pub open spec fn scaled_err(err: int, w: int) -> int {
    if err >= 0 {
        (err * w) / 16
    } else {
        -(((-err) * w) / 16)
    }
}

/// Saturated addition of an integer delta to an 8-bit sample.
pub open spec fn sat_add_u8(v: u8, d: int) -> u8 {
    sat_add_spec(v as int, d) as u8
}

/// One pixel of the Floyd–Steinberg pass on a single channel: quantize the
/// sample at `(x, y)` to the nearest palette level and diffuse the error
/// into the forward neighbors that exist.
pub open spec fn pixel_step(m: Seq<Seq<u8>>, p: Seq<u8>, h: int, w: int, y: int, x: int) -> Seq<
    Seq<u8>,
> {
    let v0 = m[y][x];
    let nv = closest_spec(p, v0);
    let err = v0 as int - nv as int;
    let m0 = gset(m, y, x, nv);
    let m1 = if x + 1 < w {
        gset(m0, y, x + 1, sat_add_u8(m0[y][x + 1], scaled_err(err, 7)))
    } else {
        m0
    };
    let m2 = if y + 1 < h && x > 0 {
        gset(m1, y + 1, x - 1, sat_add_u8(m1[y + 1][x - 1], scaled_err(err, 3)))
    } else {
        m1
    };
    let m3 = if y + 1 < h {
        gset(m2, y + 1, x, sat_add_u8(m2[y + 1][x], scaled_err(err, 5)))
    } else {
        m2
    };
    if y + 1 < h && x + 1 < w {
        gset(m3, y + 1, x + 1, sat_add_u8(m3[y + 1][x + 1], scaled_err(err, 1)))
    } else {
        m3
    }
}

/// The channel after the first `k` pixels, in raster order, have been
/// processed.  Pixel `j` sits at row `j / w`, column `j % w`.
pub open spec fn fs_upto(m: Seq<Seq<u8>>, p: Seq<u8>, h: int, w: int, k: int) -> Seq<Seq<u8>>
    recommends
        w >= 1 || k <= 0,
    decreases k,
{
    if k <= 0 {
        m
    } else {
        let j = k - 1;
        pixel_step(fs_upto(m, p, h, w, j), p, h, w, j / w, j % w)
    }
}

/// A full Floyd–Steinberg pass over one channel.
pub open spec fn fs_channel(m: Seq<Seq<u8>>, p: Seq<u8>, h: int, w: int) -> Seq<Seq<u8>> {
    fs_upto(m, p, h, w, h * w)
}

/// Replaces the sample at `(x, y)` by the nearest palette level and returns
/// the quantization error `old - new` (in `[-255, 255]`).
pub fn quantize(channel: &mut Vec<Vec<u8>>, x: usize, y: usize, palette: &Vec<u8>) -> (err: i16)
    requires
        y < grid_view(old(channel)).len(),
        x < grid_view(old(channel))[y as int].len(),
    ensures
        ({
            let m = grid_view(old(channel));
            let nv = closest_spec(palette@, m[y as int][x as int]);
            &&& grid_view(final(channel)) == gset(m, y as int, x as int, nv)
            &&& err as int == m[y as int][x as int] as int - nv as int
        }),
{
    let old_v = grid_get(channel, y, x);
    let new_v = find_closest_color(palette, old_v);
    grid_set(channel, y, x, new_v);
    old_v as i16 - new_v as i16
}

/// `(err * weight) / 16` in 16-bit arithmetic, truncating toward zero.
fn scale_err(err: i16, weight: u16) -> (d: i8)
    requires
        -255 <= err <= 255,
        weight <= 7,
    ensures
        d as int == scaled_err(err as int, weight as int),
{
    let mag: u16 = if err >= 0 {
        err as u16
    } else {
        (-err) as u16
    };
    proof {
        assert(mag * weight <= 255 * 7) by (nonlinear_arith)
            requires
                mag <= 255,
                weight <= 7,
        ;
        vstd::arithmetic::div_mod::lemma_div_is_ordered(
            mag as int * weight as int,
            255int * 7,
            16,
        );
    }
    let q: u16 = (mag * weight) / 16;
    if err >= 0 {
        q as i8
    } else {
        -(q as i8)
    }
}

/// Quantizes and diffuses one pixel of one channel.
fn fs_pixel(c: &mut Vec<Vec<u8>>, palette: &Vec<u8>, height: usize, width: usize, y: usize,
    x: usize)
    requires
        grid_wf(grid_view(old(c)), height as int, width as int),
        y < height,
        x < width,
    ensures
        grid_view(final(c)) == pixel_step(
            grid_view(old(c)),
            palette@,
            height as int,
            width as int,
            y as int,
            x as int,
        ),
        grid_wf(grid_view(final(c)), height as int, width as int),
{
    let ghost h = height as int;
    let ghost w = width as int;
    let err = quantize(c, x, y, palette);
    proof {
        lemma_gset_wf(
            grid_view(old(c)),
            h,
            w,
            y as int,
            x as int,
            closest_spec(palette@, grid_view(old(c))[y as int][x as int]),
        );
    }
    if x + 1 < width {
        let cur = grid_get(c, y, x + 1);
        let ghost before = grid_view(c);
        grid_set(c, y, x + 1, saturating_add(cur, scale_err(err, 7)));
        proof {
            lemma_gset_wf(before, h, w, y as int, x as int + 1, sat_add_u8(cur, scaled_err(err as int, 7)));
        }
    }
    if y + 1 < height {
        if x > 0 {
            let cur = grid_get(c, y + 1, x - 1);
            let ghost before = grid_view(c);
            grid_set(c, y + 1, x - 1, saturating_add(cur, scale_err(err, 3)));
            proof {
                lemma_gset_wf(before, h, w, y as int + 1, x as int - 1, sat_add_u8(cur, scaled_err(err as int, 3)));
            }
        }
        let cur = grid_get(c, y + 1, x);
        let ghost before = grid_view(c);
        grid_set(c, y + 1, x, saturating_add(cur, scale_err(err, 5)));
        proof {
            lemma_gset_wf(before, h, w, y as int + 1, x as int, sat_add_u8(cur, scaled_err(err as int, 5)));
        }
        if x + 1 < width {
            let cur = grid_get(c, y + 1, x + 1);
            let ghost before = grid_view(c);
            grid_set(c, y + 1, x + 1, saturating_add(cur, scale_err(err, 1)));
            proof {
                lemma_gset_wf(before, h, w, y as int + 1, x as int + 1, sat_add_u8(cur, scaled_err(err as int, 1)));
            }
        }
    }
}

/// Copies a channel matrix.
fn grid_copy(m: &Vec<Vec<u8>>) -> (c: Vec<Vec<u8>>)
    ensures
        grid_view(&c) == grid_view(m),
{
    let mut c: Vec<Vec<u8>> = Vec::new();
    let mut y: usize = 0;
    while y < m.len()
        invariant
            y <= m@.len(),
            c@.len() == y,
            forall|i: int| 0 <= i < y ==> (#[trigger] c@[i])@ == m@[i]@,
        decreases m@.len() - y,
    {
        let row = m[y].clone();
        proof {
            assert(row@ =~= m@[y as int]@);
        }
        c.push(row);
        y = y + 1;
    }
    proof {
        assert(grid_view(&c) =~= grid_view(m));
    }
    c
}

/// Dithers the three channel matrices in place, each one independently
/// against the shared palette, and returns copies of the result.
pub fn floyd_steinberg(
    r: &mut Vec<Vec<u8>>,
    g: &mut Vec<Vec<u8>>,
    b: &mut Vec<Vec<u8>>,
    height: usize,
    width: usize,
    palette: Vec<u8>,
) -> (out: (Vec<Vec<u8>>, Vec<Vec<u8>>, Vec<Vec<u8>>))
    requires
        grid_wf(grid_view(old(r)), height as int, width as int),
        grid_wf(grid_view(old(g)), height as int, width as int),
        grid_wf(grid_view(old(b)), height as int, width as int),
    ensures
        grid_view(final(r)) == fs_channel(
            grid_view(old(r)),
            palette@,
            height as int,
            width as int,
        ),
        grid_view(final(g)) == fs_channel(
            grid_view(old(g)),
            palette@,
            height as int,
            width as int,
        ),
        grid_view(final(b)) == fs_channel(
            grid_view(old(b)),
            palette@,
            height as int,
            width as int,
        ),
        grid_view(&out.0) == grid_view(final(r)),
        grid_view(&out.1) == grid_view(final(g)),
        grid_view(&out.2) == grid_view(final(b)),
        grid_wf(grid_view(final(r)), height as int, width as int),
        grid_wf(grid_view(final(g)), height as int, width as int),
        grid_wf(grid_view(final(b)), height as int, width as int),
{
    let ghost r0 = grid_view(r);
    let ghost g0 = grid_view(g);
    let ghost b0 = grid_view(b);
    let ghost h = height as int;
    let ghost w = width as int;
    let ghost p = palette@;
    let mut y: usize = 0;
    while y < height
        invariant
            y <= height,
            grid_wf(grid_view(r), h, w),
            grid_wf(grid_view(g), h, w),
            grid_wf(grid_view(b), h, w),
            grid_view(r) == fs_upto(r0, p, h, w, y as int * w),
            grid_view(g) == fs_upto(g0, p, h, w, y as int * w),
            grid_view(b) == fs_upto(b0, p, h, w, y as int * w),
            h == height as int,
            w == width as int,
            p == palette@,
        decreases height - y,
    {
        let mut x: usize = 0;
        while x < width
            invariant
                y < height,
                x <= width,
                grid_wf(grid_view(r), h, w),
                grid_wf(grid_view(g), h, w),
                grid_wf(grid_view(b), h, w),
                grid_view(r) == fs_upto(r0, p, h, w, y as int * w + x as int),
                grid_view(g) == fs_upto(g0, p, h, w, y as int * w + x as int),
                grid_view(b) == fs_upto(b0, p, h, w, y as int * w + x as int),
                h == height as int,
                w == width as int,
                p == palette@,
            decreases width - x,
        {
            fs_pixel(r, &palette, height, width, y, x);
            fs_pixel(g, &palette, height, width, y, x);
            fs_pixel(b, &palette, height, width, y, x);
            proof {
                let j = y as int * w + x as int;
                assert(0 <= y as int * w) by (nonlinear_arith)
                    requires
                        y >= 0,
                        w >= 1,
                ;
                vstd::arithmetic::div_mod::lemma_fundamental_div_mod_converse(
                    j,
                    w,
                    y as int,
                    x as int,
                );
                assert(fs_upto(r0, p, h, w, j + 1) == pixel_step(
                    fs_upto(r0, p, h, w, j),
                    p,
                    h,
                    w,
                    y as int,
                    x as int,
                ));
            }
            x = x + 1;
        }
        proof {
            assert(y as int * w + w == (y as int + 1) * w) by (nonlinear_arith);
        }
        y = y + 1;
    }
    proof {
        assert(y as int * w == h * w);
    }
    let out_r = grid_copy(r);
    let out_g = grid_copy(g);
    let out_b = grid_copy(b);
    (out_r, out_g, out_b)
}

} // verus!
