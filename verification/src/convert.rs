use vstd::prelude::*;
use vstd::arithmetic::div_mod::{lemma_div_multiples_vanish, lemma_fundamental_div_mod_converse};
use vstd::string::StringExecFns;
use crate::errors::PuhuError;
use crate::raster::{encode_rgba, luma_of, px_rgba, spec_model_of, ColorModel, Raster};
use crate::raster::{lemma_px_bytes_bound, model_of};

verus! {

/// The buffer a conversion produces: each of the `n` pixels of `p` (laid out
/// in model `ms`) is widened to RGBA and stored in model `md`.
pub open spec fn convert_bytes(md: ColorModel, ms: ColorModel, p: Seq<u8>, n: int) -> Seq<u8> {
    Seq::new(
        (n * md.spec_bpp()) as nat,
        |i: int| encode_rgba(md, px_rgba(ms, p, i / md.spec_bpp()))[i % md.spec_bpp()],
    )
}

/// Converting one more pixel appends exactly that pixel's stored bytes.
pub proof fn lemma_convert_bytes_step(md: ColorModel, ms: ColorModel, p: Seq<u8>, k: int)
    requires
        k >= 0,
    ensures
        convert_bytes(md, ms, p, k + 1) == convert_bytes(md, ms, p, k) + encode_rgba(
            md,
            px_rgba(ms, p, k),
        ),
{
    let b = md.spec_bpp();
    let lhs = convert_bytes(md, ms, p, k + 1);
    let rhs = convert_bytes(md, ms, p, k) + encode_rgba(md, px_rgba(ms, p, k));
    assert((k + 1) * b == k * b + b) by (nonlinear_arith);
    assert(k * b >= 0) by (nonlinear_arith)
        requires
            k >= 0 && b >= 1,
    ;
    assert forall|i: int| 0 <= i < lhs.len() implies lhs[i] == rhs[i] by {
        if i < k * b {
            assert(rhs[i] == convert_bytes(md, ms, p, k)[i]);
        } else {
            lemma_fundamental_div_mod_converse(i, b, k, i - k * b);
            assert(rhs[i] == encode_rgba(md, px_rgba(ms, p, k))[i - k * b]);
        }
    }
    assert(lhs =~= rhs);
}

/// Storing a pixel back into the model it was read from reproduces its bytes,
/// so conversion to the same model is the identity.
pub proof fn lemma_convert_same_model(m: ColorModel, p: Seq<u8>, n: int)
    requires
        n >= 0,
        p.len() == n * m.spec_bpp(),
    ensures
        convert_bytes(m, m, p, n) == p,
{
    let b = m.spec_bpp();
    let lhs = convert_bytes(m, m, p, n);
    assert forall|i: int| 0 <= i < p.len() implies lhs[i] == p[i] by {
        let k = i / b;
        let j = i % b;
        assert(0 <= j < b && i == k * b + j && 0 <= k) by {
            vstd::arithmetic::div_mod::lemma_fundamental_div_mod(i, b);
            vstd::arithmetic::div_mod::lemma_mod_pos_bound(i, b);
            assert(k >= 0) by (nonlinear_arith)
                requires
                    i >= 0 && b >= 1 && j == i - k * b && 0 <= j < b,
            ;
        }
        let v = p[k * b];
        assert(2126 * (v as int) + 7152 * (v as int) + 722 * (v as int) == 10000 * (v as int));
        lemma_div_multiples_vanish(v as int, 10000);
        assert(luma_of(v as int, v as int, v as int) == v as int);
    }
    assert(lhs =~= p);
}

/// The four channels of pixel `k`, read as RGBA.
pub fn read_rgba(img: &Raster, k: usize) -> (c: (u8, u8, u8, u8))
    requires
        img.wf(),
        k < img.spec_n_px(),
    ensures
        seq![c.0, c.1, c.2, c.3] == px_rgba(img.model, img.pixels@, k as int),
{
    let _len = img.pixels.len();
    proof {
        lemma_px_bytes_bound(k as int, img.spec_n_px(), img.model.spec_bpp());
    }
    match img.model {
        ColorModel::L => {
            let v = img.pixels[k];
            (v, v, v, 255)
        },
        ColorModel::La => {
            let v = img.pixels[2 * k];
            let a = img.pixels[2 * k + 1];
            (v, v, v, a)
        },
        ColorModel::Rgb => (img.pixels[3 * k], img.pixels[3 * k + 1], img.pixels[3 * k + 2], 255),
        ColorModel::Rgba => (
            img.pixels[4 * k],
            img.pixels[4 * k + 1],
            img.pixels[4 * k + 2],
            img.pixels[4 * k + 3],
        ),
    }
}

/// The standard luma weighting, computed on bytes.
pub fn luma_u8(r: u8, g: u8, b: u8) -> (l: u8)
    ensures
        l as int == luma_of(r as int, g as int, b as int),
{
    let acc: u32 = 2126 * (r as u32) + 7152 * (g as u32) + 722 * (b as u32);
    (acc / 10000) as u8
}

/// Remap a raster into the target channel layout: luma broadcasts into color,
/// color collapses through the standard luma weighting, a missing alpha is
/// synthesized as 255, and a present one is kept where the target carries it.
pub fn convert_model(img: &Raster, target: ColorModel) -> (r: Raster)
    requires
        img.wf(),
    ensures
        r.width == img.width,
        r.height == img.height,
        r.model == target,
        r.wf(),
        r.pixels@ == convert_bytes(target, img.model, img.pixels@, img.spec_n_px()),
{
    let n = img.n_px();
    let mut out: Vec<u8> = Vec::new();
    proof {
        assert(out@ =~= convert_bytes(target, img.model, img.pixels@, 0));
    }
    let mut k: usize = 0;
    while k < n
        invariant
            img.wf(),
            n == img.spec_n_px(),
            k <= n,
            out@ == convert_bytes(target, img.model, img.pixels@, k as int),
            out@.len() == k as int * target.spec_bpp(),
        decreases n - k,
    {
        let c = read_rgba(img, k);
        match target {
            ColorModel::L => {
                out.push(luma_u8(c.0, c.1, c.2));
            },
            ColorModel::La => {
                out.push(luma_u8(c.0, c.1, c.2));
                out.push(c.3);
            },
            ColorModel::Rgb => {
                out.push(c.0);
                out.push(c.1);
                out.push(c.2);
            },
            ColorModel::Rgba => {
                out.push(c.0);
                out.push(c.1);
                out.push(c.2);
                out.push(c.3);
            },
        }
        proof {
            lemma_convert_bytes_step(target, img.model, img.pixels@, k as int);
            assert(out@ =~= convert_bytes(target, img.model, img.pixels@, k as int + 1));
        }
        k = k + 1;
    }
    proof {
        assert(img.spec_n_px() * target.spec_bpp() == img.width as int * img.height as int
            * target.spec_bpp()) by (nonlinear_arith);
    }
    Raster { width: img.width, height: img.height, model: target, pixels: out }
}

/// The mode string that names a channel layout.
pub open spec fn spec_mode_name(m: ColorModel) -> Seq<char> {
    match m {
        ColorModel::L => "L"@,
        ColorModel::La => "LA"@,
        ColorModel::Rgb => "RGB"@,
        ColorModel::Rgba => "RGBA"@,
    }
}

pub fn color_type_to_mode_string(m: ColorModel) -> (s: String)
    ensures
        s@ == spec_mode_name(m),
{
    match m {
        ColorModel::L => String::from_str("L"),
        ColorModel::La => String::from_str("LA"),
        ColorModel::Rgb => String::from_str("RGB"),
        ColorModel::Rgba => String::from_str("RGBA"),
    }
}

/// Convert a raster to the layout a mode string names; unknown names are
/// rejected.
pub fn convert_mode(img: &Raster, target_mode: &str) -> (r: Result<Raster, PuhuError>)
    requires
        img.wf(),
    ensures
        r is Ok <==> spec_model_of(target_mode@) is Some,
        r matches Ok(out) ==> {
            &&& spec_model_of(target_mode@) == Some(out.model)
            &&& out.width == img.width
            &&& out.height == img.height
            &&& out.wf()
            &&& out.pixels@ == convert_bytes(out.model, img.model, img.pixels@, img.spec_n_px())
        },
{
    match model_of(target_mode) {
        Some(m) => Ok(convert_model(img, m)),
        None => Err(
            PuhuError::InvalidOperation(
                String::from_str("Unsupported conversion mode: '").concat(target_mode).concat(
                    "'. Supported modes: L, LA, RGB, RGBA",
                ),
            ),
        ),
    }
}

} // verus!
