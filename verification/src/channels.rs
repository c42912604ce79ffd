//! Channel decomposition and reassembly, and the dithering pipeline.

use vstd::prelude::*;

use crate::engine::floyd_steinberg;
use crate::engine::fs_channel;
use crate::grid::grid_view;
use crate::grid::grid_wf;

verus! {

/// One 8-bit RGBA pixel of a decoded image.
#[derive(Clone, Copy, PartialEq, Eq, Structural, Debug)]
pub struct Rgba {
    pub r: u8,
    pub g: u8,
    pub b: u8,
    pub a: u8,
}

/// A decoded image: `height` rows of `width` RGBA pixels.
pub struct RgbaImage {
    pub width: usize,
    pub height: usize,
    pub rows: Vec<Vec<Rgba>>,
}

impl RgbaImage {
    /// The mathematical view of the image: one sequence of pixels per row.
    pub open spec fn pixel_view(&self) -> Seq<Seq<Rgba>> {
        Seq::new(self.rows@.len(), |y: int| self.rows@[y]@)
    }

    /// The image holds exactly `height` rows of exactly `width` pixels.
    pub open spec fn wf(&self) -> bool {
        &&& self.rows@.len() == self.height
        &&& forall|y: int| 0 <= y < self.height ==> (#[trigger] self.rows@[y])@.len() == self.width
    }
}

/// The red channel of an image, as a matrix of samples.
pub open spec fn red_of(pv: Seq<Seq<Rgba>>) -> Seq<Seq<u8>> {
    Seq::new(pv.len(), |y: int| Seq::new(pv[y].len(), |x: int| pv[y][x].r))
}

/// The green channel of an image, as a matrix of samples.
pub open spec fn green_of(pv: Seq<Seq<Rgba>>) -> Seq<Seq<u8>> {
    Seq::new(pv.len(), |y: int| Seq::new(pv[y].len(), |x: int| pv[y][x].g))
}

/// The blue channel of an image, as a matrix of samples.
pub open spec fn blue_of(pv: Seq<Seq<Rgba>>) -> Seq<Seq<u8>> {
    Seq::new(pv.len(), |y: int| Seq::new(pv[y].len(), |x: int| pv[y][x].b))
}

/// Splits an image into its three channel matrices; alpha is discarded.
pub fn split_channels(img: &RgbaImage) -> (out: (Vec<Vec<u8>>, Vec<Vec<u8>>, Vec<Vec<u8>>))
    requires
        img.wf(),
    ensures
        grid_view(&out.0) == red_of(img.pixel_view()),
        grid_view(&out.1) == green_of(img.pixel_view()),
        grid_view(&out.2) == blue_of(img.pixel_view()),
        grid_wf(grid_view(&out.0), img.height as int, img.width as int),
        grid_wf(grid_view(&out.1), img.height as int, img.width as int),
        grid_wf(grid_view(&out.2), img.height as int, img.width as int),
{
    let ghost pv = img.pixel_view();
    let mut r: Vec<Vec<u8>> = Vec::new();
    let mut g: Vec<Vec<u8>> = Vec::new();
    let mut b: Vec<Vec<u8>> = Vec::new();
    let mut y: usize = 0;
    while y < img.height
        invariant
            img.wf(),
            pv == img.pixel_view(),
            y <= img.height,
            r@.len() == y,
            g@.len() == y,
            b@.len() == y,
            forall|i: int| 0 <= i < y ==> (#[trigger] r@[i])@ == red_of(pv)[i],
            forall|i: int| 0 <= i < y ==> (#[trigger] g@[i])@ == green_of(pv)[i],
            forall|i: int| 0 <= i < y ==> (#[trigger] b@[i])@ == blue_of(pv)[i],
        decreases img.height - y,
    {
        let mut row_r: Vec<u8> = Vec::new();
        let mut row_g: Vec<u8> = Vec::new();
        let mut row_b: Vec<u8> = Vec::new();
        let mut x: usize = 0;
        while x < img.width
            invariant
                img.wf(),
                pv == img.pixel_view(),
                y < img.height,
                x <= img.width,
                row_r@.len() == x,
                row_g@.len() == x,
                row_b@.len() == x,
                forall|i: int| 0 <= i < x ==> #[trigger] row_r@[i] == pv[y as int][i].r,
                forall|i: int| 0 <= i < x ==> #[trigger] row_g@[i] == pv[y as int][i].g,
                forall|i: int| 0 <= i < x ==> #[trigger] row_b@[i] == pv[y as int][i].b,
            decreases img.width - x,
        {
            let px = img.rows[y][x];
            row_r.push(px.r);
            row_g.push(px.g);
            row_b.push(px.b);
            x = x + 1;
        }
        proof {
            assert(row_r@ =~= red_of(pv)[y as int]);
            assert(row_g@ =~= green_of(pv)[y as int]);
            assert(row_b@ =~= blue_of(pv)[y as int]);
        }
        r.push(row_r);
        g.push(row_g);
        b.push(row_b);
        y = y + 1;
    }
    proof {
        assert(grid_view(&r) =~= red_of(pv));
        assert(grid_view(&g) =~= green_of(pv));
        assert(grid_view(&b) =~= blue_of(pv));
    }
    (r, g, b)
}

/// Dithers a decoded image: splits it into channels and runs the
/// Floyd–Steinberg pass on each channel independently against `palette`.
pub fn dither(img: &RgbaImage, palette: Vec<u8>) -> (out: (Vec<Vec<u8>>, Vec<Vec<u8>>, Vec<
    Vec<u8>,
>))
    requires
        img.wf(),
    ensures
        grid_view(&out.0) == fs_channel(
            red_of(img.pixel_view()),
            palette@,
            img.height as int,
            img.width as int,
        ),
        grid_view(&out.1) == fs_channel(
            green_of(img.pixel_view()),
            palette@,
            img.height as int,
            img.width as int,
        ),
        grid_view(&out.2) == fs_channel(
            blue_of(img.pixel_view()),
            palette@,
            img.height as int,
            img.width as int,
        ),
        grid_wf(grid_view(&out.0), img.height as int, img.width as int),
        grid_wf(grid_view(&out.1), img.height as int, img.width as int),
        grid_wf(grid_view(&out.2), img.height as int, img.width as int),
{
    let (mut r, mut g, mut b) = split_channels(img);
    floyd_steinberg(&mut r, &mut g, &mut b, img.height, img.width, palette)
}

/// The flat position of the first byte of pixel `(x, y)` in a packed RGB
/// byte stream of width `w`.
pub open spec fn rgb_index(y: int, x: int, w: int) -> int {
    3 * (y * w + x)
}

/// Packs three channel matrices into a flat byte stream of 3 bytes per
/// pixel, in raster order, ready for an RGB encoder.
pub fn assemble_rgb(
    r: &Vec<Vec<u8>>,
    g: &Vec<Vec<u8>>,
    b: &Vec<Vec<u8>>,
    height: usize,
    width: usize,
) -> (bytes: Vec<u8>)
    requires
        grid_wf(grid_view(r), height as int, width as int),
        grid_wf(grid_view(g), height as int, width as int),
        grid_wf(grid_view(b), height as int, width as int),
    ensures
        bytes@.len() == 3 * (height as int * width as int),
        forall|y: int, x: int|
            0 <= y < height && 0 <= x < width ==> {
                &&& bytes@[#[trigger] rgb_index(y, x, width as int)] == grid_view(r)[y][x]
                &&& bytes@[rgb_index(y, x, width as int) + 1] == grid_view(g)[y][x]
                &&& bytes@[rgb_index(y, x, width as int) + 2] == grid_view(b)[y][x]
            },
{
    let ghost h = height as int;
    let ghost w = width as int;
    let mut bytes: Vec<u8> = Vec::new();
    let mut y: usize = 0;
    while y < height
        invariant
            y <= height,
            grid_wf(grid_view(r), h, w),
            grid_wf(grid_view(g), h, w),
            grid_wf(grid_view(b), h, w),
            h == height as int,
            w == width as int,
            bytes@.len() == 3 * (y as int * w),
            forall|yy: int, xx: int|
                0 <= yy < y && 0 <= xx < width ==> {
                    &&& bytes@[#[trigger] rgb_index(yy, xx, w)] == grid_view(r)[yy][xx]
                    &&& bytes@[rgb_index(yy, xx, w) + 1] == grid_view(g)[yy][xx]
                    &&& bytes@[rgb_index(yy, xx, w) + 2] == grid_view(b)[yy][xx]
                },
        decreases height - y,
    {
        let mut x: usize = 0;
        proof {
            assert(0 <= y as int * w <= (h - 1) * w) by (nonlinear_arith)
                requires
                    0 <= y as int <= h - 1,
                    w >= 0,
            ;
            assert((h - 1) * w + w == h * w) by (nonlinear_arith);
        }
        while x < width
            invariant
                y < height,
                x <= width,
                grid_wf(grid_view(r), h, w),
                grid_wf(grid_view(g), h, w),
                grid_wf(grid_view(b), h, w),
                h == height as int,
                w == width as int,
                0 <= y as int * w,
                y as int * w + w <= h * w,
                bytes@.len() == 3 * (y as int * w + x as int),
                forall|yy: int, xx: int|
                    0 <= yy < y && 0 <= xx < width ==> {
                        &&& bytes@[#[trigger] rgb_index(yy, xx, w)] == grid_view(r)[yy][xx]
                        &&& bytes@[rgb_index(yy, xx, w) + 1] == grid_view(g)[yy][xx]
                        &&& bytes@[rgb_index(yy, xx, w) + 2] == grid_view(b)[yy][xx]
                    },
                forall|xx: int|
                    0 <= xx < x ==> {
                        &&& bytes@[#[trigger] rgb_index(y as int, xx, w)] == grid_view(r)[y as int][xx]
                        &&& bytes@[rgb_index(y as int, xx, w) + 1] == grid_view(g)[y as int][xx]
                        &&& bytes@[rgb_index(y as int, xx, w) + 2] == grid_view(b)[y as int][xx]
                    },
            decreases width - x,
        {
            let ghost prev = bytes@;
            bytes.push(crate::grid::grid_get(r, y, x));
            bytes.push(crate::grid::grid_get(g, y, x));
            bytes.push(crate::grid::grid_get(b, y, x));
            proof {
                assert(rgb_index(y as int, x as int, w) == prev.len());
                assert(forall|i: int| 0 <= i < prev.len() ==> #[trigger] bytes@[i] == prev[i]);
                assert(bytes@[prev.len() as int] == grid_view(r)[y as int][x as int]);
                assert(bytes@[prev.len() as int + 1] == grid_view(g)[y as int][x as int]);
                assert(bytes@[prev.len() as int + 2] == grid_view(b)[y as int][x as int]);
                assert forall|yy: int, xx: int|
                    0 <= yy < y as int && 0 <= xx < w implies rgb_index(yy, xx, w) + 2
                    < prev.len() by {
                    assert(yy * w + xx + 1 <= y as int * w) by (nonlinear_arith)
                        requires
                            0 <= yy,
                            yy + 1 <= y as int,
                            0 <= xx,
                            xx < w,
                    ;
                }
            }
            x = x + 1;
        }
        proof {
            assert(3 * (y as int * w + w) == 3 * ((y as int + 1) * w)) by (nonlinear_arith);
        }
        y = y + 1;
    }
    bytes
}

} // verus!
