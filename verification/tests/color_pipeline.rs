use puhu_color::bilevel::to_bilevel;
use puhu_color::convert::{color_type_to_mode_string, convert_mode, convert_model};
use puhu_color::errors::PuhuError;
use puhu_color::matrix::{apply_matrix, MATRIX_SCALE};
use puhu_color::palette::{find_nearest_palette_color, generate_web_palette};
use puhu_color::pipeline::convert;
use puhu_color::quantize::{quantize_raster, quantize_to_palette};
use puhu_color::raster::{ColorModel, Raster};

fn rgb_raster(width: u32, height: u32, pixels: Vec<u8>) -> Raster {
    assert_eq!(pixels.len(), (width * height * 3) as usize);
    Raster { width, height, model: ColorModel::Rgb, pixels }
}

fn luma_raster(width: u32, height: u32, pixels: Vec<u8>) -> Raster {
    assert_eq!(pixels.len(), (width * height) as usize);
    Raster { width, height, model: ColorModel::L, pixels }
}

#[test]
fn web_palette_has_216_entries_in_fixed_order() {
    let p = generate_web_palette();
    assert_eq!(p.len(), 216 * 3);
    for r in 0..6usize {
        for g in 0..6usize {
            for b in 0..6usize {
                let e = 36 * r + 6 * g + b;
                assert_eq!(p[3 * e], (51 * r) as u8);
                assert_eq!(p[3 * e + 1], (51 * g) as u8);
                assert_eq!(p[3 * e + 2], (51 * b) as u8);
            }
        }
    }
    assert_eq!(&p[0..3], &[0, 0, 0]);
    assert_eq!(&p[645..648], &[255, 255, 255]);
}

#[test]
fn nearest_color_minimizes_distance_and_keeps_first_tie() {
    let pal: Vec<u8> = vec![0, 0, 0, 255, 0, 0, 0, 255, 0, 10, 10, 10];
    let (idx, c) = find_nearest_palette_color(&pal, 250, 5, 5);
    assert_eq!(idx, 1);
    assert_eq!(c, (255, 0, 0));
    // Equidistant between entry 0 (0,0,0) and entry 3 (10,10,10): the lower
    // index wins.
    let (idx, c) = find_nearest_palette_color(&pal, 5, 5, 5);
    assert_eq!(idx, 0);
    assert_eq!(c, (0, 0, 0));
}

#[test]
fn nodither_quantization_is_reproducible() {
    let img = rgb_raster(2, 2, vec![10, 200, 30, 250, 0, 128, 17, 93, 201, 64, 64, 64]);
    let a = quantize_to_palette(&img, "WEB", 0, false).unwrap();
    let b = quantize_to_palette(&img, "WEB", 0, false).unwrap();
    assert_eq!(a.pixels, b.pixels);
    assert_eq!(a.model, ColorModel::Rgb);
    assert_eq!((a.width, a.height), (2, 2));
}

#[test]
fn dithered_quantization_is_reproducible() {
    let img = rgb_raster(3, 2, vec![
        10, 200, 30, 250, 0, 128, 17, 93, 201, 64, 64, 64, 99, 180, 2, 33, 33, 33,
    ]);
    let a = quantize_to_palette(&img, "WEB", 0, true).unwrap();
    let b = quantize_to_palette(&img, "WEB", 0, true).unwrap();
    assert_eq!(a.pixels, b.pixels);
}

#[test]
fn single_pixel_dither_matches_plain_lookup() {
    let img = rgb_raster(1, 1, vec![120, 33, 214]);
    let plain = quantize_to_palette(&img, "WEB", 0, false).unwrap();
    let dithered = quantize_to_palette(&img, "WEB", 0, true).unwrap();
    assert_eq!(plain.pixels, dithered.pixels);
}

#[test]
fn error_diffusion_carries_error_to_the_right() {
    // Palette: black and pure red. The raw red value 100 maps to black, but
    // the 7/16 share carried right lifts the neighbor to 143, which maps to
    // red; without dithering both pixels stay black.
    let pal: Vec<u8> = vec![0, 0, 0, 255, 0, 0];
    let img = rgb_raster(2, 1, vec![100, 0, 0, 100, 0, 0]);
    let dithered = quantize_raster(&img, &pal, true);
    assert_eq!(dithered.pixels, vec![0, 0, 0, 255, 0, 0]);
    let plain = quantize_raster(&img, &pal, false);
    assert_eq!(plain.pixels, vec![0, 0, 0, 0, 0, 0]);
}

#[test]
fn exact_web_colors_quantize_to_themselves() {
    let img = rgb_raster(1, 1, vec![51, 102, 153]);
    let out = quantize_to_palette(&img, "WEB", 0, true).unwrap();
    assert_eq!(out.pixels, vec![51, 102, 153]);
}

#[test]
fn unsupported_palette_type_is_rejected() {
    let img = rgb_raster(1, 1, vec![1, 2, 3]);
    let e = quantize_to_palette(&img, "FOO", 16, true).unwrap_err();
    assert!(matches!(&e, PuhuError::InvalidOperation(_)));
    assert!(e.message().contains("FOO"));
}

#[test]
fn rgb_to_luma_uses_standard_weights() {
    let img = rgb_raster(1, 1, vec![200, 100, 50]);
    let l = convert_mode(&img, "L").unwrap();
    // (2126*200 + 7152*100 + 722*50) / 10000 = 117
    assert_eq!(l.pixels, vec![117]);
    assert_eq!(l.model, ColorModel::L);
}

#[test]
fn luma_broadcasts_into_color_channels() {
    let img = luma_raster(1, 2, vec![7, 250]);
    let rgb = convert_mode(&img, "RGB").unwrap();
    assert_eq!(rgb.pixels, vec![7, 7, 7, 250, 250, 250]);
    let rgba = convert_mode(&img, "RGBA").unwrap();
    assert_eq!(rgba.pixels, vec![7, 7, 7, 255, 250, 250, 250, 255]);
}

#[test]
fn alpha_is_kept_where_the_target_carries_it() {
    let img = Raster { width: 1, height: 1, model: ColorModel::Rgba, pixels: vec![10, 20, 30, 77] };
    let la = convert_mode(&img, "LA").unwrap();
    // luma(10,20,30) = (21260 + 143040 + 21660) / 10000 = 18
    assert_eq!(la.pixels, vec![18, 77]);
    let rgb = convert_mode(&img, "RGB").unwrap();
    assert_eq!(rgb.pixels, vec![10, 20, 30]);
}

#[test]
fn converting_to_the_same_model_is_identity() {
    let img = rgb_raster(2, 1, vec![1, 2, 3, 4, 5, 6]);
    let out = convert_model(&img, ColorModel::Rgb);
    assert_eq!(out.pixels, img.pixels);
    let out = convert(&img, "RGB", None, None, None, None).unwrap();
    assert_eq!(out.pixels, img.pixels);
}

#[test]
fn unknown_conversion_mode_is_rejected() {
    let img = rgb_raster(1, 1, vec![0, 0, 0]);
    let e = convert_mode(&img, "CMYK").unwrap_err();
    assert!(matches!(&e, PuhuError::InvalidOperation(_)));
    assert!(e.message().contains("CMYK"));
}

#[test]
fn bilevel_threshold_splits_at_127() {
    let img = luma_raster(4, 1, vec![0, 127, 128, 255]);
    let out = to_bilevel(&img, false);
    assert_eq!(out.pixels, vec![0, 0, 255, 255]);
    assert_eq!(out.model, ColorModel::L);
}

#[test]
fn ordered_dither_uses_the_position_threshold() {
    // At (0, 0) the matrix cell is 0, so the threshold is 255/32 = 7.
    let out = to_bilevel(&luma_raster(1, 1, vec![8]), true);
    assert_eq!(out.pixels, vec![255]);
    let out = to_bilevel(&luma_raster(1, 1, vec![7]), true);
    assert_eq!(out.pixels, vec![0]);
}

#[test]
fn bilevel_output_is_two_valued() {
    let mut pixels = Vec::new();
    for i in 0..64u32 {
        pixels.push((i * 4) as u8);
    }
    let img = luma_raster(8, 8, pixels);
    for &d in &[false, true] {
        let out = to_bilevel(&img, d);
        assert!(out.pixels.iter().all(|&v| v == 0 || v == 255));
    }
}

#[test]
fn four_tap_identity_matrix_broadcasts_luma() {
    let img = luma_raster(1, 2, vec![117, 3]);
    let m: Vec<i64> = vec![MATRIX_SCALE, MATRIX_SCALE, MATRIX_SCALE, 0];
    let out = apply_matrix(&img, "RGB", &m).unwrap();
    assert_eq!(out.pixels, vec![117, 117, 117, 3, 3, 3]);
    assert_eq!(out.model, ColorModel::Rgb);
}

#[test]
fn four_tap_matrix_scales_and_clamps() {
    let img = luma_raster(1, 1, vec![200]);
    let m: Vec<i64> = vec![MATRIX_SCALE / 2, 2 * MATRIX_SCALE, -MATRIX_SCALE, 0];
    let out = apply_matrix(&img, "RGB", &m).unwrap();
    // 0.5 * 200 = 100; 2 * 200 clamps to 255; -1 * 200 clamps to 0.
    assert_eq!(out.pixels, vec![100, 255, 0]);
}

#[test]
fn twelve_tap_matrix_permutes_channels_with_bias() {
    let img = rgb_raster(1, 1, vec![10, 20, 30]);
    let s = MATRIX_SCALE;
    let m: Vec<i64> = vec![0, 0, s, 0, s, 0, 0, 5 * s, 0, s, 0, 0];
    let out = apply_matrix(&img, "RGB", &m).unwrap();
    // (b, r + 5, g)
    assert_eq!(out.pixels, vec![30, 15, 20]);
}

#[test]
fn matrix_of_wrong_length_is_rejected() {
    let img = rgb_raster(1, 1, vec![0, 0, 0]);
    for n in [5usize, 13] {
        let m: Vec<i64> = vec![MATRIX_SCALE; n];
        let e = apply_matrix(&img, "RGB", &m).unwrap_err();
        assert!(matches!(&e, PuhuError::InvalidOperation(_)));
        let e = convert(&img, "RGB", Some(&m), None, None, None).unwrap_err();
        assert!(matches!(&e, PuhuError::InvalidOperation(_)));
    }
}

#[test]
fn matrix_with_unsupported_target_mode_is_rejected() {
    let img = rgb_raster(1, 1, vec![0, 0, 0]);
    let m: Vec<i64> = vec![MATRIX_SCALE, MATRIX_SCALE, MATRIX_SCALE, 0];
    let e = apply_matrix(&img, "L", &m).unwrap_err();
    assert!(matches!(&e, PuhuError::InvalidOperation(_)));
}

#[test]
fn luma_roundtrip_through_identity_matrix() {
    // Convert (200, 100, 50) to L, then back to RGB with a 4-tap identity
    // matrix: all three channels carry the computed luma value 117.
    let img = rgb_raster(1, 1, vec![200, 100, 50]);
    let l = convert(&img, "L", None, None, None, None).unwrap();
    assert_eq!(l.pixels, vec![117]);
    let m: Vec<i64> = vec![MATRIX_SCALE, MATRIX_SCALE, MATRIX_SCALE, 0];
    let back = convert(&l, "RGB", Some(&m), None, None, None).unwrap();
    assert_eq!(back.pixels, vec![117, 117, 117]);
}

#[test]
fn convert_dispatches_bilevel_and_palette_modes() {
    let img = rgb_raster(1, 1, vec![51, 102, 153]);
    let bl = convert(&img, "1", None, Some("NONE"), None, None).unwrap();
    assert_eq!(bl.model, ColorModel::L);
    assert!(bl.pixels[0] == 0 || bl.pixels[0] == 255);
    let p = convert(&img, "P", None, None, None, None).unwrap();
    assert_eq!(p.pixels, vec![51, 102, 153]);
    let e = convert(&img, "1", None, Some("ORDERED2"), None, None).unwrap_err();
    assert!(matches!(&e, PuhuError::InvalidOperation(_)));
    let e = convert(&img, "X", None, None, None, None).unwrap_err();
    assert!(matches!(&e, PuhuError::InvalidOperation(_)));
}

#[test]
fn mode_strings_follow_the_models() {
    assert_eq!(color_type_to_mode_string(ColorModel::L), "L");
    assert_eq!(color_type_to_mode_string(ColorModel::La), "LA");
    assert_eq!(color_type_to_mode_string(ColorModel::Rgb), "RGB");
    assert_eq!(color_type_to_mode_string(ColorModel::Rgba), "RGBA");
}
