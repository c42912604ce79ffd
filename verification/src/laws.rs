//! Proved laws of the dithering engine.

use vstd::prelude::*;

use crate::channels::blue_of;
use crate::channels::green_of;
use crate::channels::red_of;
use crate::channels::Rgba;
use crate::engine::fs_channel;
use crate::engine::fs_upto;
use crate::engine::pixel_step;
use crate::engine::sat_add_u8;
use crate::engine::scaled_err;
use crate::grid::grid_wf;
use crate::grid::gset;
use crate::grid::lemma_gset_wf;
use crate::palette::closest_spec;
use crate::palette::lemma_closest_fixed;
use crate::palette::lemma_closest_upto_member;

verus! {

/// `v` is one of the palette's entries.
pub open spec fn in_palette(p: Seq<u8>, v: u8) -> bool {
    exists|j: int| 0 <= j < p.len() && p[j] == v
}

/// Every sample of the matrix is a palette entry.
pub open spec fn all_in_palette(m: Seq<Seq<u8>>, p: Seq<u8>, h: int, w: int) -> bool {
    forall|y: int, x: int| 0 <= y < h && 0 <= x < w ==> in_palette(p, #[trigger] m[y][x])
}

/// The nearest palette level is itself a palette entry.
pub proof fn lemma_closest_member(p: Seq<u8>, v: u8)
    requires
        p.len() > 0,
    ensures
        in_palette(p, closest_spec(p, v)),
{
    lemma_closest_upto_member(p, v, p.len() as int);
}

/// Flat raster index `i` names the in-bounds cell `(i % w, i / w)`.
proof fn lemma_flat_coords(i: int, h: int, w: int)
    requires
        0 <= i,
        w >= 1,
        i < h * w,
    ensures
        0 <= i / w < h,
        0 <= i % w < w,
        (i / w) * w + (i % w) == i,
{
    vstd::arithmetic::div_mod::lemma_fundamental_div_mod(i, w);
    vstd::arithmetic::div_mod::lemma_mod_bound(i, w);
    assert(i / w < h) by (nonlinear_arith)
        requires
            i == w * (i / w) + (i % w),
            0 <= i % w,
            i < h * w,
            w >= 1,
    ;
    assert(i / w >= 0) by (nonlinear_arith)
        requires
            i == w * (i / w) + (i % w),
            i % w < w,
            i >= 0,
            w >= 1,
    ;
}

/// One pixel step keeps the matrix well formed, writes the nearest palette
/// level at the processed cell, and leaves every cell before it in raster
/// order untouched.
pub proof fn lemma_pixel_step_props(m: Seq<Seq<u8>>, p: Seq<u8>, h: int, w: int, y: int, x: int)
    requires
        grid_wf(m, h, w),
        0 <= y < h,
        0 <= x < w,
    ensures
        grid_wf(pixel_step(m, p, h, w, y, x), h, w),
        pixel_step(m, p, h, w, y, x)[y][x] == closest_spec(p, m[y][x]),
        forall|y2: int, x2: int|
            0 <= y2 < h && 0 <= x2 < w && y2 * w + x2 < y * w + x ==> pixel_step(
                m,
                p,
                h,
                w,
                y,
                x,
            )[y2][x2] == #[trigger] m[y2][x2],
{
    let v0 = m[y][x];
    let nv = closest_spec(p, v0);
    let err = v0 as int - nv as int;
    let m0 = gset(m, y, x, nv);
    lemma_gset_wf(m, h, w, y, x, nv);
    let m1 = if x + 1 < w {
        gset(m0, y, x + 1, sat_add_u8(m0[y][x + 1], scaled_err(err, 7)))
    } else {
        m0
    };
    if x + 1 < w {
        lemma_gset_wf(m0, h, w, y, x + 1, sat_add_u8(m0[y][x + 1], scaled_err(err, 7)));
    }
    let m2 = if y + 1 < h && x > 0 {
        gset(m1, y + 1, x - 1, sat_add_u8(m1[y + 1][x - 1], scaled_err(err, 3)))
    } else {
        m1
    };
    if y + 1 < h && x > 0 {
        lemma_gset_wf(m1, h, w, y + 1, x - 1, sat_add_u8(m1[y + 1][x - 1], scaled_err(err, 3)));
    }
    let m3 = if y + 1 < h {
        gset(m2, y + 1, x, sat_add_u8(m2[y + 1][x], scaled_err(err, 5)))
    } else {
        m2
    };
    if y + 1 < h {
        lemma_gset_wf(m2, h, w, y + 1, x, sat_add_u8(m2[y + 1][x], scaled_err(err, 5)));
    }
    let m4 = if y + 1 < h && x + 1 < w {
        gset(m3, y + 1, x + 1, sat_add_u8(m3[y + 1][x + 1], scaled_err(err, 1)))
    } else {
        m3
    };
    if y + 1 < h && x + 1 < w {
        lemma_gset_wf(m3, h, w, y + 1, x + 1, sat_add_u8(m3[y + 1][x + 1], scaled_err(err, 1)));
    }
    assert(pixel_step(m, p, h, w, y, x) == m4);
    assert((y + 1) * w == y * w + w) by (nonlinear_arith);
    assert(m4[y][x] == nv);
    assert forall|y2: int, x2: int|
        0 <= y2 < h && 0 <= x2 < w && y2 * w + x2 < y * w + x implies pixel_step(
        m,
        p,
        h,
        w,
        y,
        x,
    )[y2][x2] == #[trigger] m[y2][x2] by {
        assert(!(y2 == y && x2 == x));
        assert(!(y2 == y && x2 == x + 1));
        assert(!(y2 == y + 1 && x2 == x - 1));
        assert(!(y2 == y + 1 && x2 == x));
        assert(!(y2 == y + 1 && x2 == x + 1));
    }
}

/// A well-formed matrix stays well formed under the Floyd–Steinberg pass,
/// and every pixel already processed holds a palette entry.
proof fn lemma_fs_upto_in_palette(m: Seq<Seq<u8>>, p: Seq<u8>, h: int, w: int, k: int)
    requires
        grid_wf(m, h, w),
        p.len() > 0,
        h >= 0,
        w >= 0,
        0 <= k <= h * w,
    ensures
        grid_wf(fs_upto(m, p, h, w, k), h, w),
        forall|i: int|
            0 <= i < k ==> in_palette(p, #[trigger] fs_upto(m, p, h, w, k)[i / w][i % w]),
    decreases k,
{
    if k > 0 {
        assert(w >= 1) by (nonlinear_arith)
            requires
                h * w >= 1,
                h >= 0,
                w >= 0,
        ;
        let jj = k - 1;
        lemma_fs_upto_in_palette(m, p, h, w, jj);
        let prev = fs_upto(m, p, h, w, jj);
        lemma_flat_coords(jj, h, w);
        let yy = jj / w;
        let xx = jj % w;
        lemma_pixel_step_props(prev, p, h, w, yy, xx);
        let cur = fs_upto(m, p, h, w, k);
        assert(cur == pixel_step(prev, p, h, w, yy, xx));
        lemma_closest_member(p, prev[yy][xx]);
        assert forall|i: int| 0 <= i < k implies in_palette(
            p,
            #[trigger] fs_upto(m, p, h, w, k)[i / w][i % w],
        ) by {
            lemma_flat_coords(i, h, w);
            if i < jj {
                assert((i / w) * w + (i % w) < yy * w + xx);
                assert(cur[i / w][i % w] == prev[i / w][i % w]);
            } else {
                assert(i / w == yy && i % w == xx);
                assert(cur[yy][xx] == closest_spec(p, prev[yy][xx]));
            }
        }
    }
}

/// Range closure: after a full pass every sample of the output is a palette
/// entry (and, being 8-bit, lies in `[0, 255]`).
pub proof fn lemma_output_in_palette(m: Seq<Seq<u8>>, p: Seq<u8>, h: int, w: int)
    requires
        grid_wf(m, h, w),
        p.len() > 0,
        h >= 0,
        w >= 0,
    ensures
        grid_wf(fs_channel(m, p, h, w), h, w),
        all_in_palette(fs_channel(m, p, h, w), p, h, w),
{
    assert(h * w >= 0) by (nonlinear_arith)
        requires
            h >= 0,
            w >= 0,
    ;
    lemma_fs_upto_in_palette(m, p, h, w, h * w);
    assert forall|y: int, x: int| 0 <= y < h && 0 <= x < w implies in_palette(
        p,
        #[trigger] fs_channel(m, p, h, w)[y][x],
    ) by {
        let i = y * w + x;
        assert(0 <= y * w + x && y * w + x + 1 <= h * w) by (nonlinear_arith)
            requires
                0 <= y < h,
                0 <= x < w,
        ;
        vstd::arithmetic::div_mod::lemma_fundamental_div_mod_converse(i, w, y, x);
        assert(in_palette(p, fs_upto(m, p, h, w, h * w)[i / w][i % w]));
    }
}

/// One pixel step is the identity on a matrix whose samples all are palette
/// entries: the quantization error is zero and nothing is diffused.
proof fn lemma_pixel_step_fixed(m: Seq<Seq<u8>>, p: Seq<u8>, h: int, w: int, y: int, x: int)
    requires
        grid_wf(m, h, w),
        p.len() > 0,
        0 <= y < h,
        0 <= x < w,
        all_in_palette(m, p, h, w),
    ensures
        pixel_step(m, p, h, w, y, x) == m,
{
    let v0 = m[y][x];
    lemma_closest_fixed(p, v0);
    assert(closest_spec(p, v0) == v0);
    vstd::arithmetic::div_mod::lemma_div_of0(16);
    assert(scaled_err(0, 7) == 0);
    assert(scaled_err(0, 3) == 0);
    assert(scaled_err(0, 5) == 0);
    assert(scaled_err(0, 1) == 0);
    assert forall|y2: int, x2: int|
        0 <= y2 < h && 0 <= x2 < w implies gset(m, y2, x2, m[y2][x2]) == m by {
        assert(m[y2].update(x2, m[y2][x2]) =~= m[y2]);
        assert(m.update(y2, m[y2]) =~= m);
    }
    assert forall|y2: int, x2: int|
        0 <= y2 < h && 0 <= x2 < w implies sat_add_u8(#[trigger] m[y2][x2], 0) == m[y2][x2] by {}
    assert(pixel_step(m, p, h, w, y, x) == m);
}

/// Idempotence: a matrix whose samples all are palette entries already is a
/// fixed point of the Floyd–Steinberg pass.
pub proof fn lemma_fixed_point(m: Seq<Seq<u8>>, p: Seq<u8>, h: int, w: int)
    requires
        grid_wf(m, h, w),
        p.len() > 0,
        h >= 0,
        w >= 0,
        all_in_palette(m, p, h, w),
    ensures
        fs_channel(m, p, h, w) == m,
{
    assert(h * w >= 0) by (nonlinear_arith)
        requires
            h >= 0,
            w >= 0,
    ;
    lemma_fs_upto_fixed(m, p, h, w, h * w);
}

proof fn lemma_fs_upto_fixed(m: Seq<Seq<u8>>, p: Seq<u8>, h: int, w: int, k: int)
    requires
        grid_wf(m, h, w),
        p.len() > 0,
        h >= 0,
        w >= 0,
        0 <= k <= h * w,
        all_in_palette(m, p, h, w),
    ensures
        fs_upto(m, p, h, w, k) == m,
    decreases k,
{
    if k > 0 {
        assert(w >= 1) by (nonlinear_arith)
            requires
                h * w >= 1,
                h >= 0,
                w >= 0,
        ;
        let jj = k - 1;
        lemma_fs_upto_fixed(m, p, h, w, jj);
        lemma_flat_coords(jj, h, w);
        lemma_pixel_step_fixed(m, p, h, w, jj / w, jj % w);
    }
}

/// Determinism: the pass is a mathematical function of the input matrix and
/// the palette, so equal inputs give equal outputs.
pub proof fn lemma_deterministic(
    m1: Seq<Seq<u8>>,
    m2: Seq<Seq<u8>>,
    p1: Seq<u8>,
    p2: Seq<u8>,
    h: int,
    w: int,
)
    requires
        m1 == m2,
        p1 == p2,
    ensures
        fs_channel(m1, p1, h, w) == fs_channel(m2, p2, h, w),
{
}

/// Channel independence: the red output of dithering an image equals the
/// output that any channel of a synthetic image built from the red channel
/// alone would produce, because each channel is dithered on its own.
pub proof fn lemma_channel_independence(
    img: Seq<Seq<Rgba>>,
    syn: Seq<Seq<Rgba>>,
    p: Seq<u8>,
    h: int,
    w: int,
)
    requires
        syn.len() == img.len(),
        forall|y: int| 0 <= y < img.len() ==> (#[trigger] syn[y]).len() == img[y].len(),
        forall|y: int, x: int|
            0 <= y < img.len() && 0 <= x < img[y].len() ==> {
                &&& (#[trigger] syn[y][x]).r == img[y][x].r
                &&& syn[y][x].g == img[y][x].r
                &&& syn[y][x].b == img[y][x].r
            },
    ensures
        fs_channel(red_of(syn), p, h, w) == fs_channel(red_of(img), p, h, w),
        fs_channel(green_of(syn), p, h, w) == fs_channel(red_of(img), p, h, w),
        fs_channel(blue_of(syn), p, h, w) == fs_channel(red_of(img), p, h, w),
{
    assert forall|y: int| 0 <= y < img.len() implies red_of(syn)[y] =~= #[trigger] red_of(
        img,
    )[y] by {}
    assert(red_of(syn) =~= red_of(img));
    assert forall|y: int| 0 <= y < img.len() implies green_of(syn)[y] =~= #[trigger] red_of(
        img,
    )[y] by {}
    assert(green_of(syn) =~= red_of(img));
    assert forall|y: int| 0 <= y < img.len() implies blue_of(syn)[y] =~= #[trigger] red_of(
        img,
    )[y] by {}
    assert(blue_of(syn) =~= red_of(img));
}

/// Grayscale preservation: if every pixel of the input has equal red, green
/// and blue components, the three dithered output channels are equal.
pub proof fn lemma_grayscale_preserved(img: Seq<Seq<Rgba>>, p: Seq<u8>, h: int, w: int)
    requires
        forall|y: int, x: int|
            0 <= y < img.len() && 0 <= x < img[y].len() ==> {
                &&& (#[trigger] img[y][x]).g == img[y][x].r
                &&& img[y][x].b == img[y][x].r
            },
    ensures
        fs_channel(green_of(img), p, h, w) == fs_channel(red_of(img), p, h, w),
        fs_channel(blue_of(img), p, h, w) == fs_channel(red_of(img), p, h, w),
{
    assert forall|y: int| 0 <= y < img.len() implies green_of(img)[y] =~= #[trigger] red_of(
        img,
    )[y] by {}
    assert(green_of(img) =~= red_of(img));
    assert forall|y: int| 0 <= y < img.len() implies blue_of(img)[y] =~= #[trigger] red_of(
        img,
    )[y] by {}
    assert(blue_of(img) =~= red_of(img));
}

} // verus!
