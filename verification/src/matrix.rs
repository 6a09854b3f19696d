use vstd::prelude::*;
use vstd::arithmetic::div_mod::lemma_div_multiples_vanish;
use vstd::string::StringExecFns;
use rayon::iter::{IntoParallelRefIterator, ParallelIterator};
use crate::convert::{convert_bytes, convert_model, lemma_convert_same_model};
use crate::errors::PuhuError;
use crate::raster::{ColorModel, Raster};
use crate::strutil::str_eq;

verus! {

/// Fixed-point scale of matrix coefficients: a coefficient `c` is passed to
/// this library as the integer `c * MATRIX_SCALE`, so 1.0 is 1000000.
pub const MATRIX_SCALE: i64 = 1000000;

/// One output channel from a scaled linear combination `v` (in coefficient
/// fixed-point units): clamped to the byte range and truncated back out of
/// fixed point.
pub open spec fn clamp_scaled(v: int) -> int {
    if v < 0 {
        0
    } else if v > 255 * (MATRIX_SCALE as int) {
        255
    } else {
        v / (MATRIX_SCALE as int)
    }
}

/// Output channel of a 4-tap matrix: one coefficient scales the luma value.
pub open spec fn tap4(m: int, l: int) -> int {
    clamp_scaled(m * l)
}

/// Output channel of a 12-tap matrix: an affine combination of the three
/// input channels with a per-channel bias (the bias is in fixed-point
/// units as well).
pub open spec fn tap12(m0: int, m1: int, m2: int, m3: int, r: int, g: int, b: int) -> int {
    clamp_scaled(m0 * r + m1 * g + m2 * b + m3)
}

/// The RGB buffer a 4-tap matrix produces from a luma buffer: each output
/// channel `c` of pixel `k` is `clamp(m[c] * luma[k])`.
pub open spec fn tap4_bytes(lum: Seq<u8>, m: Seq<i64>) -> Seq<u8> {
    Seq::new(3 * lum.len(), |i: int| tap4(m[i % 3] as int, lum[i / 3] as int) as u8)
}

/// The RGB buffer a 12-tap matrix produces from an RGB buffer: output
/// channel `c` of pixel `k` is the affine row `m[4c..4c+4]` applied to the
/// pixel's channels.
pub open spec fn tap12_bytes(rgb: Seq<u8>, m: Seq<i64>) -> Seq<u8> {
    Seq::new(
        rgb.len(),
        |i: int|
            tap12(
                m[4 * (i % 3)] as int,
                m[4 * (i % 3) + 1] as int,
                m[4 * (i % 3) + 2] as int,
                m[4 * (i % 3) + 3] as int,
                rgb[3 * (i / 3)] as int,
                rgb[3 * (i / 3) + 1] as int,
                rgb[3 * (i / 3) + 2] as int,
            ) as u8,
    )
}

/// A 64-bit coefficient times a byte stays well inside the 128-bit range.
proof fn lemma_coeff_prod_bound(m: int, v: int)
    by (nonlinear_arith)
    requires
        -0x8000000000000000 <= m < 0x8000000000000000,
        0 <= v <= 255,
    ensures
        -255 * 0x8000000000000000 <= m * v <= 255 * 0x8000000000000000,
{
}

/// Clamp a fixed-point value and truncate it back to a byte.
fn clamp_scaled_exec(v: i128) -> (r: u8)
    ensures
        r as int == clamp_scaled(v as int),
{
    if v < 0 {
        0
    } else if v > 255 * (MATRIX_SCALE as i128) {
        255
    } else {
        ((v as u128) / (MATRIX_SCALE as u128)) as u8
    }
}

/// One pixel of a 4-tap transform: the three coefficients each scale the
/// luma value into one output channel.
pub fn tap4_pixel(m0: i64, m1: i64, m2: i64, l: u8) -> (c: (u8, u8, u8))
    ensures
        c.0 as int == tap4(m0 as int, l as int),
        c.1 as int == tap4(m1 as int, l as int),
        c.2 as int == tap4(m2 as int, l as int),
{
    proof {
        lemma_coeff_prod_bound(m0 as int, l as int);
        lemma_coeff_prod_bound(m1 as int, l as int);
        lemma_coeff_prod_bound(m2 as int, l as int);
    }
    (
        clamp_scaled_exec((m0 as i128) * (l as i128)),
        clamp_scaled_exec((m1 as i128) * (l as i128)),
        clamp_scaled_exec((m2 as i128) * (l as i128)),
    )
}

/// One pixel of a 12-tap transform.
pub fn tap12_pixel(m: &Vec<i64>, p: (u8, u8, u8)) -> (c: (u8, u8, u8))
    requires
        m@.len() == 12,
    ensures
        c.0 as int == tap12(
            m@[0] as int,
            m@[1] as int,
            m@[2] as int,
            m@[3] as int,
            p.0 as int,
            p.1 as int,
            p.2 as int,
        ),
        c.1 as int == tap12(
            m@[4] as int,
            m@[5] as int,
            m@[6] as int,
            m@[7] as int,
            p.0 as int,
            p.1 as int,
            p.2 as int,
        ),
        c.2 as int == tap12(
            m@[8] as int,
            m@[9] as int,
            m@[10] as int,
            m@[11] as int,
            p.0 as int,
            p.1 as int,
            p.2 as int,
        ),
{
    proof {
        lemma_coeff_prod_bound(m@[0] as int, p.0 as int);
        lemma_coeff_prod_bound(m@[1] as int, p.1 as int);
        lemma_coeff_prod_bound(m@[2] as int, p.2 as int);
        lemma_coeff_prod_bound(m@[4] as int, p.0 as int);
        lemma_coeff_prod_bound(m@[5] as int, p.1 as int);
        lemma_coeff_prod_bound(m@[6] as int, p.2 as int);
        lemma_coeff_prod_bound(m@[8] as int, p.0 as int);
        lemma_coeff_prod_bound(m@[9] as int, p.1 as int);
        lemma_coeff_prod_bound(m@[10] as int, p.2 as int);
    }
    let r = p.0 as i128;
    let g = p.1 as i128;
    let b = p.2 as i128;
    let c0 = clamp_scaled_exec(
        (m[0] as i128) * r + (m[1] as i128) * g + (m[2] as i128) * b + (m[3] as i128),
    );
    let c1 = clamp_scaled_exec(
        (m[4] as i128) * r + (m[5] as i128) * g + (m[6] as i128) * b + (m[7] as i128),
    );
    let c2 = clamp_scaled_exec(
        (m[8] as i128) * r + (m[9] as i128) * g + (m[10] as i128) * b + (m[11] as i128),
    );
    (c0, c1, c2)
}

/// Relies on rayon's `par_iter().map(..).collect()`, which yields exactly
/// the per-element results in the input's order; the closure only calls the
/// verified `tap4_pixel`.
#[verifier::external_body]
fn par_map_tap4(lum: &Vec<u8>, m0: i64, m1: i64, m2: i64) -> (out: Vec<(u8, u8, u8)>)
    ensures
        out@.len() == lum@.len(),
        forall|i: int|
            0 <= i < lum@.len() ==> {
                &&& (#[trigger] out@[i]).0 as int == tap4(m0 as int, lum@[i] as int)
                &&& out@[i].1 as int == tap4(m1 as int, lum@[i] as int)
                &&& out@[i].2 as int == tap4(m2 as int, lum@[i] as int)
            },
{
    lum.par_iter().map(|l: &u8| tap4_pixel(m0, m1, m2, *l)).collect()
}

/// Relies on rayon's `par_iter().map(..).collect()`, which yields exactly
/// the per-element results in the input's order; the closure only calls the
/// verified `tap12_pixel`.
#[verifier::external_body]
fn par_map_tap12(px: &Vec<(u8, u8, u8)>, m: &Vec<i64>) -> (out: Vec<(u8, u8, u8)>)
    requires
        m@.len() == 12,
    ensures
        out@.len() == px@.len(),
        forall|i: int|
            0 <= i < px@.len() ==> {
                &&& (#[trigger] out@[i]).0 as int == tap12(
                    m@[0] as int,
                    m@[1] as int,
                    m@[2] as int,
                    m@[3] as int,
                    px@[i].0 as int,
                    px@[i].1 as int,
                    px@[i].2 as int,
                )
                &&& out@[i].1 as int == tap12(
                    m@[4] as int,
                    m@[5] as int,
                    m@[6] as int,
                    m@[7] as int,
                    px@[i].0 as int,
                    px@[i].1 as int,
                    px@[i].2 as int,
                )
                &&& out@[i].2 as int == tap12(
                    m@[8] as int,
                    m@[9] as int,
                    m@[10] as int,
                    m@[11] as int,
                    px@[i].0 as int,
                    px@[i].1 as int,
                    px@[i].2 as int,
                )
            },
{
    px.par_iter().map(|p: &(u8, u8, u8)| tap12_pixel(m, *p)).collect()
}

/// Group a flat RGB buffer into pixel triples.
fn group_triples(p: &Vec<u8>) -> (v: Vec<(u8, u8, u8)>)
    requires
        p@.len() % 3 == 0,
    ensures
        v@.len() * 3 == p@.len(),
        forall|k: int|
            0 <= k < v@.len() ==> (#[trigger] v@[k]) == (p@[3 * k], p@[3 * k + 1], p@[3 * k + 2]),
{
    let n = p.len() / 3;
    proof {
        vstd::arithmetic::div_mod::lemma_fundamental_div_mod(p@.len() as int, 3);
    }
    let mut v: Vec<(u8, u8, u8)> = Vec::new();
    let mut k: usize = 0;
    while k < n
        invariant
            p@.len() == 3 * n,
            p@.len() <= usize::MAX,
            k <= n,
            v@.len() == k,
            forall|j: int|
                0 <= j < k ==> (#[trigger] v@[j]) == (p@[3 * j], p@[3 * j + 1], p@[3 * j + 2]),
        decreases n - k,
    {
        v.push((p[3 * k], p[3 * k + 1], p[3 * k + 2]));
        k = k + 1;
    }
    v
}

/// Flatten pixel triples back into one RGB buffer.
fn flatten_triples(v: &Vec<(u8, u8, u8)>) -> (p: Vec<u8>)
    ensures
        p@.len() == 3 * v@.len(),
        forall|k: int|
            0 <= k < v@.len() ==> {
                &&& p@[3 * k] == (#[trigger] v@[k]).0
                &&& p@[3 * k + 1] == v@[k].1
                &&& p@[3 * k + 2] == v@[k].2
            },
{
    let n = v.len();
    let mut p: Vec<u8> = Vec::new();
    let mut k: usize = 0;
    while k < n
        invariant
            n == v@.len(),
            k <= n,
            p@.len() == 3 * k,
            forall|j: int|
                0 <= j < k ==> {
                    &&& p@[3 * j] == (#[trigger] v@[j]).0
                    &&& p@[3 * j + 1] == v@[j].1
                    &&& p@[3 * j + 2] == v@[j].2
                },
        decreases n - k,
    {
        let e = v[k];
        p.push(e.0);
        p.push(e.1);
        p.push(e.2);
        k = k + 1;
    }
    p
}

/// Apply a color-matrix transform: a 4-coefficient matrix scales the
/// raster's luma into the three output channels, a 12-coefficient matrix is
/// an affine 3x4 transform of its RGB channels. Only the RGB target mode is
/// supported, and only those two lengths; anything else is rejected.
/// Coefficients are in `MATRIX_SCALE` fixed-point units.
pub fn apply_matrix(img: &Raster, target_mode: &str, matrix: &Vec<i64>) -> (r: Result<
    Raster,
    PuhuError,
>)
    requires
        img.wf(),
    ensures
        r is Ok <==> (matrix@.len() == 4 || matrix@.len() == 12) && target_mode@ == "RGB"@,
        r matches Ok(out) ==> {
            &&& out.width == img.width
            &&& out.height == img.height
            &&& out.model == ColorModel::Rgb
            &&& out.wf()
            &&& (matrix@.len() == 4 ==> out.pixels@ == tap4_bytes(
                convert_bytes(ColorModel::L, img.model, img.pixels@, img.spec_n_px()),
                matrix@,
            ))
            &&& (matrix@.len() == 12 ==> out.pixels@ == tap12_bytes(
                convert_bytes(ColorModel::Rgb, img.model, img.pixels@, img.spec_n_px()),
                matrix@,
            ))
        },
{
    let len = matrix.len();
    let is_rgb = str_eq(target_mode, "RGB");
    if len == 4 && is_rgb {
        let lum = convert_model(img, ColorModel::L);
        let mapped = par_map_tap4(&lum.pixels, matrix[0], matrix[1], matrix[2]);
        let flat = flatten_triples(&mapped);
        proof {
            assert forall|i: int| 0 <= i < flat@.len() implies flat@[i] == tap4_bytes(
                lum.pixels@,
                matrix@,
            )[i] by {
                vstd::arithmetic::div_mod::lemma_fundamental_div_mod(i, 3);
                vstd::arithmetic::div_mod::lemma_mod_pos_bound(i, 3);
                let k = i / 3;
                let c = i % 3;
                assert(i == 3 * k + c);
                assert(0 <= k < mapped@.len());
                assert(mapped@[k].0 as int == tap4(matrix@[0] as int, lum.pixels@[k] as int));
                assert(flat@[3 * k] == mapped@[k].0);
                assert(flat@[3 * k + 1] == mapped@[k].1);
                assert(flat@[3 * k + 2] == mapped@[k].2);
            }
            assert(flat@ =~= tap4_bytes(lum.pixels@, matrix@));
            assert(img.spec_n_px() * 3 == img.width as int * img.height as int * 3)
                by (nonlinear_arith);
        }
        Ok(Raster { width: img.width, height: img.height, model: ColorModel::Rgb, pixels: flat })
    } else if len == 12 && is_rgb {
        let rgb = convert_model(img, ColorModel::Rgb);
        proof {
            lemma_rgb_len_mod(img.spec_n_px());
        }
        let triples = group_triples(&rgb.pixels);
        let mapped = par_map_tap12(&triples, matrix);
        let flat = flatten_triples(&mapped);
        proof {
            assert forall|i: int| 0 <= i < flat@.len() implies flat@[i] == tap12_bytes(
                rgb.pixels@,
                matrix@,
            )[i] by {
                vstd::arithmetic::div_mod::lemma_fundamental_div_mod(i, 3);
                vstd::arithmetic::div_mod::lemma_mod_pos_bound(i, 3);
                let k = i / 3;
                let c = i % 3;
                assert(i == 3 * k + c);
                assert(0 <= k < triples@.len());
                assert(triples@[k] == (rgb.pixels@[3 * k], rgb.pixels@[3 * k + 1], rgb.pixels@[3 * k + 2]));
                assert(mapped@[k].0 as int == tap12(
                    matrix@[0] as int,
                    matrix@[1] as int,
                    matrix@[2] as int,
                    matrix@[3] as int,
                    rgb.pixels@[3 * k] as int,
                    rgb.pixels@[3 * k + 1] as int,
                    rgb.pixels@[3 * k + 2] as int,
                ));
                assert(mapped@[k].1 as int == tap12(
                    matrix@[4] as int,
                    matrix@[5] as int,
                    matrix@[6] as int,
                    matrix@[7] as int,
                    rgb.pixels@[3 * k] as int,
                    rgb.pixels@[3 * k + 1] as int,
                    rgb.pixels@[3 * k + 2] as int,
                ));
                assert(mapped@[k].2 as int == tap12(
                    matrix@[8] as int,
                    matrix@[9] as int,
                    matrix@[10] as int,
                    matrix@[11] as int,
                    rgb.pixels@[3 * k] as int,
                    rgb.pixels@[3 * k + 1] as int,
                    rgb.pixels@[3 * k + 2] as int,
                ));
                assert(flat@[3 * k] == mapped@[k].0);
                assert(flat@[3 * k + 1] == mapped@[k].1);
                assert(flat@[3 * k + 2] == mapped@[k].2);
            }
            assert(flat@ =~= tap12_bytes(rgb.pixels@, matrix@));
            assert(img.spec_n_px() * 3 == img.width as int * img.height as int * 3)
                by (nonlinear_arith);
        }
        Ok(Raster { width: img.width, height: img.height, model: ColorModel::Rgb, pixels: flat })
    } else if len == 4 || len == 12 {
        Err(
            PuhuError::InvalidOperation(
                String::from_str("Matrix conversion to mode '").concat(target_mode).concat(
                    "' is not supported; use 'RGB'",
                ),
            ),
        )
    } else {
        Err(
            PuhuError::InvalidOperation(
                String::from_str("Matrix must be a 4-tuple or 12-tuple of floats"),
            ),
        )
    }
}

/// An RGB buffer of `n` pixels has length `3 n`, divisible by three.
proof fn lemma_rgb_len_mod(n: int)
    by (nonlinear_arith)
    requires
        n >= 0,
    ensures
        (n * 3) % 3 == 0,
{
}

/// Scaling by the identity coefficient returns the value itself: the
/// fixed-point product divides back out exactly.
pub proof fn lemma_tap4_identity(l: int)
    requires
        0 <= l <= 255,
    ensures
        tap4(MATRIX_SCALE as int, l) == l,
{
    let s = MATRIX_SCALE as int;
    assert(s * l <= 255 * s) by (nonlinear_arith)
        requires
            0 <= l <= 255 && s == 1000000,
    ;
    assert(s * l >= 0) by (nonlinear_arith)
        requires
            l >= 0 && s > 0,
    ;
    lemma_div_multiples_vanish(l, s);
}

/// A 4-tap matrix of three identity coefficients and no bias, applied to a
/// raster that is already pure luma, reproduces the RGB broadcast of that
/// luma: the same bytes that converting the raster to RGB produces.
pub proof fn lemma_matrix_identity_on_luma(img: Raster)
    requires
        img.wf(),
        img.model == ColorModel::L,
    ensures
        tap4_bytes(
            convert_bytes(ColorModel::L, ColorModel::L, img.pixels@, img.spec_n_px()),
            seq![MATRIX_SCALE, MATRIX_SCALE, MATRIX_SCALE, 0i64],
        ) == convert_bytes(ColorModel::Rgb, ColorModel::L, img.pixels@, img.spec_n_px()),
{
    let p = img.pixels@;
    let n = img.spec_n_px();
    let m = seq![MATRIX_SCALE, MATRIX_SCALE, MATRIX_SCALE, 0i64];
    lemma_convert_same_model(ColorModel::L, p, n);
    let lhs = tap4_bytes(p, m);
    let rhs = convert_bytes(ColorModel::Rgb, ColorModel::L, p, n);
    assert(p.len() == n) by {
        assert(n * 1 == n) by (nonlinear_arith);
    }
    assert forall|i: int| 0 <= i < lhs.len() implies lhs[i] == rhs[i] by {
        vstd::arithmetic::div_mod::lemma_fundamental_div_mod(i, 3);
        vstd::arithmetic::div_mod::lemma_mod_pos_bound(i, 3);
        let k = i / 3;
        lemma_tap4_identity(p[k] as int);
        assert(m[i % 3] == MATRIX_SCALE);
    }
    assert(lhs =~= rhs);
}

} // verus!
