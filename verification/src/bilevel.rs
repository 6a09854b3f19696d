use vstd::prelude::*;
use crate::convert::{convert_bytes, convert_model};
use crate::raster::{ColorModel, Raster};

verus! {

/// The 4x4 ordered-dither index matrix, row `y % 4`, column `x % 4`.
pub open spec fn bayer4(x: int, y: int) -> int {
    let xi = x % 4;
    let yi = y % 4;
    if yi == 0 {
        if xi == 0 { 0 } else if xi == 1 { 8 } else if xi == 2 { 2 } else { 10 }
    } else if yi == 1 {
        if xi == 0 { 12 } else if xi == 1 { 4 } else if xi == 2 { 14 } else { 6 }
    } else if yi == 2 {
        if xi == 0 { 3 } else if xi == 1 { 11 } else if xi == 2 { 1 } else { 9 }
    } else {
        if xi == 0 { 15 } else if xi == 1 { 7 } else if xi == 2 { 13 } else { 5 }
    }
}

/// The luma threshold the ordered pattern applies at `(x, y)`: the matrix
/// cell mapped to the midpoint of its band of the byte range.
pub open spec fn dither_threshold(x: int, y: int) -> int {
    ((2 * bayer4(x, y) + 1) * 255) / 32
}

/// One bilevel output pixel from a luma value: thresholded against the
/// fixed midpoint 127, or against the position's ordered-dither threshold.
pub open spec fn bilevel_px(v: int, x: int, y: int, dithered: bool) -> u8 {
    if dithered {
        if v > dither_threshold(x, y) {
            255u8
        } else {
            0u8
        }
    } else {
        if v > 127 {
            255u8
        } else {
            0u8
        }
    }
}

/// The bilevel buffer produced from a luma buffer laid out `w` pixels per
/// row.
pub open spec fn bilevel_bytes(lum: Seq<u8>, w: int, dithered: bool) -> Seq<u8> {
    Seq::new(lum.len(), |k: int| bilevel_px(lum[k] as int, k % w, k / w, dithered))
}

/// The ordered-dither matrix cell for a position.
fn bayer4_at(x: usize, y: usize) -> (t: u8)
    ensures
        t as int == bayer4(x as int, y as int),
{
    match (x % 4, y % 4) {
        (0, 0) => 0,
        (1, 0) => 8,
        (2, 0) => 2,
        (3, 0) => 10,
        (0, 1) => 12,
        (1, 1) => 4,
        (2, 1) => 14,
        (3, 1) => 6,
        (0, 2) => 3,
        (1, 2) => 11,
        (2, 2) => 1,
        (3, 2) => 9,
        (0, 3) => 15,
        (1, 3) => 7,
        (2, 3) => 13,
        (_, _) => 5,
    }
}

/// The ordered-dither threshold for a position.
fn threshold_at(x: usize, y: usize) -> (t: u8)
    ensures
        t as int == dither_threshold(x as int, y as int),
{
    let b = bayer4_at(x, y) as u32;
    (((2 * b + 1) * 255) / 32) as u8
}

/// Reduce a raster to one bit per pixel, kept as a luma raster whose values
/// are only 0 and 255. Without dithering each pixel is thresholded
/// independently at 127; with it the fixed ordered pattern decides each
/// pixel from its position alone, carrying no error between pixels.
pub fn to_bilevel(img: &Raster, apply_dither: bool) -> (out: Raster)
    requires
        img.wf(),
    ensures
        out.width == img.width,
        out.height == img.height,
        out.model == ColorModel::L,
        out.wf(),
        out.pixels@ == bilevel_bytes(
            convert_bytes(ColorModel::L, img.model, img.pixels@, img.spec_n_px()),
            img.width as int,
            apply_dither,
        ),
        forall|k: int| 0 <= k < out.pixels@.len() ==> out.pixels@[k] == 0 || out.pixels@[k] == 255,
{
    let lum = convert_model(img, ColorModel::L);
    let ghost lbytes = lum.pixels@;
    let w = lum.width as usize;
    let n = lum.n_px();
    proof {
        assert(lbytes.len() == n);
    }
    let mut out: Vec<u8> = Vec::new();
    let mut k: usize = 0;
    while k < n
        invariant
            lum.wf(),
            lum.model == ColorModel::L,
            lbytes == lum.pixels@,
            lbytes.len() == n,
            w == lum.width,
            n == lum.spec_n_px(),
            k <= n,
            out@.len() == k,
            forall|j: int|
                0 <= j < k ==> out@[j] == bilevel_px(lbytes[j] as int, j % w as int, j / w as int, apply_dither),
            forall|j: int| 0 <= j < k ==> out@[j] == 0 || out@[j] == 255,
        decreases n - k,
    {
        proof {
            assert(w > 0) by (nonlinear_arith)
                requires
                    k < n && n == lum.width as int * lum.height as int && w == lum.width as int,
            ;
        }
        let x = k % w;
        let y = k / w;
        let v = lum.pixels[k];
        let bit: u8 = if apply_dither {
            let t = threshold_at(x, y);
            if v > t {
                255
            } else {
                0
            }
        } else {
            if v > 127 {
                255
            } else {
                0
            }
        };
        out.push(bit);
        k = k + 1;
    }
    proof {
        assert(out@ =~= bilevel_bytes(lbytes, lum.width as int, apply_dither));
    }
    Raster { width: lum.width, height: lum.height, model: ColorModel::L, pixels: out }
}

} // verus!
