use puhu_color::compose::{fill_region, paste_with_mask};
use puhu_color::cssparse::{parse_color, ColorSpec};
use puhu_color::errors::PuhuError;
use puhu_color::palette::build_adaptive_palette;
use puhu_color::quantize::quantize_to_palette;
use puhu_color::raster::{ColorModel, Raster};

fn rgb_raster(width: u32, height: u32, pixels: Vec<u8>) -> Raster {
    assert_eq!(pixels.len(), (width * height * 3) as usize);
    Raster { width, height, model: ColorModel::Rgb, pixels }
}

fn luma_mask(width: u32, height: u32, value: u8) -> Raster {
    Raster {
        width,
        height,
        model: ColorModel::L,
        pixels: vec![value; (width * height) as usize],
    }
}

#[test]
fn fill_region_paints_only_the_window() {
    let mut dest = Raster::new("RGBA", 4, 4, Some((0, 0, 0, 255))).unwrap();
    fill_region(&mut dest, 0, 0, 2, 2, (10, 20, 30, 255)).unwrap();
    for cy in 0..4usize {
        for cx in 0..4usize {
            let k = 4 * (cy * 4 + cx);
            let px = &dest.pixels[k..k + 4];
            if cx < 2 && cy < 2 {
                assert_eq!(px, &[10, 20, 30, 255]);
            } else {
                assert_eq!(px, &[0, 0, 0, 255]);
            }
        }
    }
}

#[test]
fn fill_region_clips_outside_the_destination() {
    let mut dest = Raster::new("RGB", 2, 2, Some((1, 1, 1, 255))).unwrap();
    let before = dest.pixels.clone();
    // Window partly outside: only the bottom-right pixel is painted.
    fill_region(&mut dest, 1, 1, 5, 5, (9, 9, 9, 255)).unwrap();
    assert_eq!(&dest.pixels[0..9], &before[0..9]);
    assert_eq!(&dest.pixels[9..12], &[9, 9, 9]);
    // A fully out-of-range window changes nothing.
    let before = dest.pixels.clone();
    fill_region(&mut dest, 10, 10, 3, 3, (7, 7, 7, 255)).unwrap();
    assert_eq!(dest.pixels, before);
}

#[test]
fn fill_region_converts_the_color_to_the_layout() {
    let mut dest = Raster::new("L", 1, 1, None).unwrap();
    fill_region(&mut dest, 0, 0, 1, 1, (200, 100, 50, 255)).unwrap();
    // Stored through the standard luma weighting.
    assert_eq!(dest.pixels, vec![117]);
}

#[test]
fn zero_mask_leaves_destination_unchanged() {
    let mut dest = rgb_raster(2, 2, vec![1, 2, 3, 4, 5, 6, 7, 8, 9, 10, 11, 12]);
    let before = dest.pixels.clone();
    let src = rgb_raster(2, 2, vec![90; 12]);
    let mask = luma_mask(2, 2, 0);
    paste_with_mask(&mut dest, &src, 0, 0, &mask).unwrap();
    assert_eq!(dest.pixels, before);
}

#[test]
fn full_mask_copies_the_source_region() {
    let mut dest = rgb_raster(2, 2, vec![0; 12]);
    let src = rgb_raster(1, 1, vec![13, 14, 15]);
    let mask = luma_mask(1, 1, 255);
    paste_with_mask(&mut dest, &src, 1, 1, &mask).unwrap();
    assert_eq!(&dest.pixels[0..9], &[0; 9]);
    assert_eq!(&dest.pixels[9..12], &[13, 14, 15]);
}

#[test]
fn half_mask_blends_linearly() {
    let mut dest = rgb_raster(1, 1, vec![0, 100, 200]);
    let src = rgb_raster(1, 1, vec![200, 100, 0]);
    let mask = luma_mask(1, 1, 128);
    paste_with_mask(&mut dest, &src, 0, 0, &mask).unwrap();
    // (s*128 + d*127) / 255 per channel.
    assert_eq!(dest.pixels, vec![100, 100, 99]);
}

#[test]
fn color_mask_is_reduced_to_luma_first() {
    let mut dest = rgb_raster(1, 1, vec![5, 5, 5]);
    let src = rgb_raster(1, 1, vec![55, 55, 55]);
    // A pure-white RGB mask weighs like an all-255 luma mask.
    let mask = rgb_raster(1, 1, vec![255, 255, 255]);
    paste_with_mask(&mut dest, &src, 0, 0, &mask).unwrap();
    assert_eq!(dest.pixels, vec![55, 55, 55]);
}

#[test]
fn paste_skips_cells_outside_the_destination() {
    let mut dest = rgb_raster(2, 1, vec![1, 1, 1, 2, 2, 2]);
    let src = rgb_raster(2, 2, vec![9; 12]);
    let mask = luma_mask(2, 2, 255);
    paste_with_mask(&mut dest, &src, 1, 0, &mask).unwrap();
    assert_eq!(dest.pixels, vec![1, 1, 1, 9, 9, 9]);
}

#[test]
fn adaptive_palette_has_the_requested_clamped_size() {
    let img = rgb_raster(2, 2, vec![10, 20, 30, 10, 20, 30, 200, 210, 220, 200, 210, 220]);
    assert_eq!(build_adaptive_palette(&img, 16).len(), 3 * 16);
    assert_eq!(build_adaptive_palette(&img, 0).len(), 3 * 2);
    assert_eq!(build_adaptive_palette(&img, 1000).len(), 3 * 256);
}

#[test]
fn adaptive_quantization_is_reproducible() {
    let img = rgb_raster(2, 2, vec![10, 20, 30, 250, 240, 230, 5, 90, 180, 66, 66, 66]);
    let a = quantize_to_palette(&img, "ADAPTIVE", 8, true).unwrap();
    let b = quantize_to_palette(&img, "ADAPTIVE", 8, true).unwrap();
    assert_eq!(a.pixels, b.pixels);
    assert_eq!(a.model, ColorModel::Rgb);
    // Every output pixel is an entry of the learned palette.
    let pal = build_adaptive_palette(&img, 8);
    for px in a.pixels.chunks(3) {
        assert!(pal.chunks(3).any(|e| e == px));
    }
}

#[test]
fn parse_color_resolves_plain_forms() {
    assert_eq!(parse_color(&ColorSpec::Gray(7)).unwrap(), (7, 7, 7, 255));
    assert_eq!(parse_color(&ColorSpec::Rgb(1, 2, 3)).unwrap(), (1, 2, 3, 255));
    assert_eq!(parse_color(&ColorSpec::Rgba(1, 2, 3, 4)).unwrap(), (1, 2, 3, 4));
}

#[test]
fn parse_color_reads_css_strings() {
    let c = parse_color(&ColorSpec::Name(String::from("red"))).unwrap();
    assert_eq!(c, (255, 0, 0, 255));
    let c = parse_color(&ColorSpec::Name(String::from("#102030"))).unwrap();
    assert_eq!(c, (16, 32, 48, 255));
    let c = parse_color(&ColorSpec::Name(String::from("rgba(1,2,3,1)"))).unwrap();
    assert_eq!(c, (1, 2, 3, 255));
}

#[test]
fn parse_color_rejects_bad_strings() {
    let e = parse_color(&ColorSpec::Name(String::from("not a color"))).unwrap_err();
    assert!(matches!(&e, PuhuError::InvalidOperation(_)));
    assert!(e.message().contains("not a color"));
}

#[test]
fn raster_new_fills_and_validates() {
    let r = Raster::new("RGB", 2, 1, Some((9, 8, 7, 255))).unwrap();
    assert_eq!(r.pixels, vec![9, 8, 7, 9, 8, 7]);
    // Default fills: opaque black, except transparent black for RGBA.
    let r = Raster::new("RGBA", 1, 1, None).unwrap();
    assert_eq!(r.pixels, vec![0, 0, 0, 0]);
    let r = Raster::new("LA", 1, 1, None).unwrap();
    assert_eq!(r.pixels, vec![0, 255]);
    let e = Raster::new("RGB", 0, 3, None).unwrap_err();
    assert!(matches!(&e, PuhuError::InvalidOperation(_)));
    let e = Raster::new("HSV", 1, 1, None).unwrap_err();
    assert!(matches!(&e, PuhuError::InvalidOperation(_)));
}
