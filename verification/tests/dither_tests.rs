use dither::assemble_rgb;
use dither::dither;
use dither::find_closest_color;
use dither::floyd_steinberg;
use dither::gen_palette;
use dither::quantize;
use dither::saturating_add;
use dither::split_channels;
use dither::Rgba;
use dither::RgbaImage;

fn px(r: u8, g: u8, b: u8, a: u8) -> Rgba {
    Rgba { r, g, b, a }
}

fn image_of(rows: Vec<Vec<Rgba>>) -> RgbaImage {
    let height = rows.len();
    let width = if height == 0 { 0 } else { rows[0].len() };
    RgbaImage {
        width,
        height,
        rows,
    }
}

fn gray_image(rows: Vec<Vec<u8>>) -> RgbaImage {
    image_of(
        rows.iter()
            .map(|row| row.iter().map(|&v| px(v, v, v, 255)).collect())
            .collect(),
    )
}

#[test]
fn palette_clamp_to_endpoints() {
    assert_eq!(gen_palette(0), vec![0, 255]);
    assert_eq!(gen_palette(1), vec![0, 255]);
}

#[test]
fn palette_of_two_is_endpoints() {
    assert_eq!(gen_palette(2), vec![0, 255]);
}

#[test]
fn palette_of_three() {
    assert_eq!(gen_palette(3), vec![0, 127, 255]);
}

#[test]
fn palette_of_five() {
    assert_eq!(gen_palette(5), vec![0, 63, 127, 191, 255]);
}

#[test]
fn palette_shape_holds_for_small_sizes() {
    for k in 2..=256usize {
        let p = gen_palette(k);
        assert_eq!(p.len(), k);
        assert_eq!(p[0], 0);
        assert_eq!(p[k - 1], 255);
        for i in 1..k {
            assert!(p[i - 1] < p[i]);
        }
    }
}

#[test]
fn saturating_add_clamps_both_ends() {
    assert_eq!(saturating_add(200, 100), 255);
    assert_eq!(saturating_add(255, 1), 255);
    assert_eq!(saturating_add(5, -128), 0);
    assert_eq!(saturating_add(0, -1), 0);
    assert_eq!(saturating_add(10, -10), 0);
    assert_eq!(saturating_add(100, 27), 127);
    assert_eq!(saturating_add(127, 127), 254);
    assert_eq!(saturating_add(128, -128), 0);
}

#[test]
fn saturating_add_matches_clamp_everywhere() {
    for v in 0..=255i32 {
        for d in -128..=127i32 {
            let expected = (v + d).clamp(0, 255) as u8;
            assert_eq!(saturating_add(v as u8, d as i8), expected);
        }
    }
}

#[test]
fn nearest_level_tie_goes_to_lower_index() {
    assert_eq!(find_closest_color(&vec![0, 254], 127), 0);
}

#[test]
fn nearest_level_basics() {
    assert_eq!(find_closest_color(&vec![0, 255], 127), 0);
    assert_eq!(find_closest_color(&vec![0, 255], 128), 255);
    assert_eq!(find_closest_color(&vec![0, 127, 255], 127), 127);
    assert_eq!(find_closest_color(&vec![], 42), 0);
}

#[test]
fn quantize_writes_nearest_level_and_returns_error() {
    let mut channel = vec![vec![100u8]];
    let err = quantize(&mut channel, 0, 0, &vec![0, 255]);
    assert_eq!(err, 100);
    assert_eq!(channel, vec![vec![0u8]]);
}

#[test]
fn one_by_one_black() {
    let img = gray_image(vec![vec![0]]);
    let (r, g, b) = dither(&img, gen_palette(2));
    assert_eq!(r, vec![vec![0u8]]);
    assert_eq!(g, vec![vec![0u8]]);
    assert_eq!(b, vec![vec![0u8]]);
}

#[test]
fn one_by_one_mid_gray_falls_to_black() {
    let img = gray_image(vec![vec![127]]);
    let (r, g, b) = dither(&img, gen_palette(2));
    assert_eq!(r, vec![vec![0u8]]);
    assert_eq!(g, vec![vec![0u8]]);
    assert_eq!(b, vec![vec![0u8]]);
}

#[test]
fn one_by_one_mid_gray_plus_one_rises_to_white() {
    let img = gray_image(vec![vec![128]]);
    let (r, g, b) = dither(&img, gen_palette(2));
    assert_eq!(r, vec![vec![255u8]]);
    assert_eq!(g, vec![vec![255u8]]);
    assert_eq!(b, vec![vec![255u8]]);
}

#[test]
fn two_by_one_gradient_diffuses_right() {
    let img = gray_image(vec![vec![100, 100]]);
    let (r, _, _) = dither(&img, gen_palette(2));
    assert_eq!(r, vec![vec![0u8, 255u8]]);
}

#[test]
fn one_by_two_gradient_diffuses_down() {
    let img = gray_image(vec![vec![100], vec![100]]);
    let (r, _, _) = dither(&img, gen_palette(2));
    assert_eq!(r, vec![vec![0u8], vec![255u8]]);
}

#[test]
fn palette_of_three_keeps_exact_level() {
    let img = gray_image(vec![vec![127]]);
    let (r, g, b) = dither(&img, gen_palette(3));
    assert_eq!(r, vec![vec![127u8]]);
    assert_eq!(g, vec![vec![127u8]]);
    assert_eq!(b, vec![vec![127u8]]);
}

#[test]
fn fixed_point_image_is_unchanged() {
    let img = gray_image(vec![vec![0, 255], vec![255, 0]]);
    let (r, g, b) = dither(&img, gen_palette(2));
    assert_eq!(r, vec![vec![0u8, 255u8], vec![255u8, 0u8]]);
    assert_eq!(g, vec![vec![0u8, 255u8], vec![255u8, 0u8]]);
    assert_eq!(b, vec![vec![0u8, 255u8], vec![255u8, 0u8]]);
}

#[test]
fn output_samples_belong_to_palette() {
    let img = gray_image(vec![
        vec![13, 200, 77],
        vec![91, 250, 3],
        vec![128, 64, 192],
    ]);
    let palette = gen_palette(4);
    assert_eq!(palette, vec![0, 85, 170, 255]);
    let (r, g, b) = dither(&img, palette.clone());
    for channel in [&r, &g, &b] {
        for row in channel.iter() {
            for v in row.iter() {
                assert!(palette.contains(v));
            }
        }
    }
}

#[test]
fn repeated_runs_are_identical() {
    let img = gray_image(vec![vec![13, 200, 77], vec![91, 250, 3]]);
    let first = dither(&img, gen_palette(2));
    let second = dither(&img, gen_palette(2));
    assert_eq!(first, second);
}

#[test]
fn channels_are_dithered_independently() {
    let rows = vec![
        vec![px(13, 200, 77, 255), px(91, 250, 3, 0)],
        vec![px(128, 64, 192, 9), px(255, 0, 127, 128)],
    ];
    let img = image_of(rows.clone());
    let syn = image_of(
        rows.iter()
            .map(|row| row.iter().map(|p| px(p.r, p.r, p.r, 255)).collect())
            .collect(),
    );
    let (r, _, _) = dither(&img, gen_palette(2));
    let (sr, sg, sb) = dither(&syn, gen_palette(2));
    assert_eq!(r, sr);
    assert_eq!(r, sg);
    assert_eq!(r, sb);
}

#[test]
fn grayscale_input_gives_grayscale_output() {
    let img = gray_image(vec![vec![13, 200, 77], vec![91, 250, 3]]);
    let (r, g, b) = dither(&img, gen_palette(3));
    assert_eq!(r, g);
    assert_eq!(r, b);
}

#[test]
fn split_channels_discards_alpha() {
    let img = image_of(vec![vec![px(1, 2, 3, 4), px(5, 6, 7, 8)]]);
    let (r, g, b) = split_channels(&img);
    assert_eq!(r, vec![vec![1u8, 5u8]]);
    assert_eq!(g, vec![vec![2u8, 6u8]]);
    assert_eq!(b, vec![vec![3u8, 7u8]]);
}

#[test]
fn assemble_packs_pixels_in_raster_order() {
    let r = vec![vec![1u8, 2u8]];
    let g = vec![vec![3u8, 4u8]];
    let b = vec![vec![5u8, 6u8]];
    let bytes = assemble_rgb(&r, &g, &b, 1, 2);
    assert_eq!(bytes, vec![1, 3, 5, 2, 4, 6]);
}

#[test]
fn empty_image_is_a_no_op() {
    let img = image_of(vec![]);
    let (r, g, b) = dither(&img, gen_palette(2));
    assert_eq!(r, Vec::<Vec<u8>>::new());
    assert_eq!(g, Vec::<Vec<u8>>::new());
    assert_eq!(b, Vec::<Vec<u8>>::new());
    let bytes = assemble_rgb(&r, &g, &b, 0, 0);
    assert_eq!(bytes, Vec::<u8>::new());
}

#[test]
fn floyd_steinberg_mutates_in_place_and_returns_copies() {
    let mut r = vec![vec![100u8, 100u8]];
    let mut g = vec![vec![0u8, 0u8]];
    let mut b = vec![vec![255u8, 255u8]];
    let (out_r, out_g, out_b) = floyd_steinberg(&mut r, &mut g, &mut b, 1, 2, vec![0, 255]);
    assert_eq!(out_r, vec![vec![0u8, 255u8]]);
    assert_eq!(out_g, vec![vec![0u8, 0u8]]);
    assert_eq!(out_b, vec![vec![255u8, 255u8]]);
    assert_eq!(r, out_r);
    assert_eq!(g, out_g);
    assert_eq!(b, out_b);
}

#[test]
fn negative_error_truncates_toward_zero() {
    // A sample of 180 against the palette [0, 255] quantizes to 255 with
    // error -75; the right neighbor receives -75 * 7 / 16 truncated toward
    // zero, i.e. -32 (floor division would give -33).
    let mut r = vec![vec![180u8, 100u8]];
    let mut g = vec![vec![180u8, 100u8]];
    let mut b = vec![vec![180u8, 100u8]];
    let (out_r, _, _) = floyd_steinberg(&mut r, &mut g, &mut b, 1, 2, vec![0, 255]);
    // 100 - 32 = 68, which quantizes to 0.
    assert_eq!(out_r, vec![vec![255u8, 0u8]]);
}
