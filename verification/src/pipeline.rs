use vstd::prelude::*;
use vstd::string::StringExecFns;
use crate::bilevel::{bilevel_bytes, to_bilevel};
use crate::convert::{
    color_type_to_mode_string, convert_bytes, convert_model, lemma_convert_same_model,
};
use crate::errors::PuhuError;
use crate::matrix::{apply_matrix, tap12_bytes, tap4_bytes};
use crate::palette::web_palette;
use crate::quantize::{adaptive_palette_spec, quantize_bytes, quantize_to_palette, to_rgb_bytes};
use crate::raster::{model_of, spec_model_of, ColorModel, Raster};
use crate::strutil::str_eq;

verus! {

/// The dithering choice a dither argument names: absent means on, `NONE`
/// (either case) off, `FLOYDSTEINBERG` (either case) on; any other name is
/// unsupported.
pub open spec fn spec_dither_flag(d: Option<&str>) -> Option<bool> {
    match d {
        None => Some(true),
        Some(s) => if s@ == "NONE"@ || s@ == "none"@ {
            Some(false)
        } else if s@ == "FLOYDSTEINBERG"@ || s@ == "floydsteinberg"@ {
            Some(true)
        } else {
            None
        },
    }
}

/// Resolve a dither argument to the on/off choice it names.
pub fn parse_dither(d: Option<&str>) -> (r: Result<bool, PuhuError>)
    ensures
        r is Ok <==> spec_dither_flag(d) is Some,
        r matches Ok(f) ==> spec_dither_flag(d) == Some(f),
{
    match d {
        None => Ok(true),
        Some(s) => {
            if str_eq(s, "NONE") || str_eq(s, "none") {
                Ok(false)
            } else if str_eq(s, "FLOYDSTEINBERG") || str_eq(s, "floydsteinberg") {
                Ok(true)
            } else {
                Err(
                    PuhuError::InvalidOperation(
                        String::from_str("Unsupported dither method: '").concat(s).concat(
                            "'. Use 'NONE' or 'FLOYDSTEINBERG'",
                        ),
                    ),
                )
            }
        },
    }
}

/// The six mode names this pipeline dispatches on are pairwise distinct.
proof fn lemma_mode_names_distinct()
    ensures
        "L"@ != "LA"@,
        "L"@ != "RGB"@,
        "L"@ != "RGBA"@,
        "L"@ != "1"@,
        "L"@ != "P"@,
        "LA"@ != "RGB"@,
        "LA"@ != "RGBA"@,
        "LA"@ != "1"@,
        "LA"@ != "P"@,
        "RGB"@ != "RGBA"@,
        "RGB"@ != "1"@,
        "RGB"@ != "P"@,
        "RGBA"@ != "1"@,
        "RGBA"@ != "P"@,
        "1"@ != "P"@,
{
    reveal_strlit("L");
    reveal_strlit("LA");
    reveal_strlit("RGB");
    reveal_strlit("RGBA");
    reveal_strlit("1");
    reveal_strlit("P");
    assert("L"@.len() == 1);
    assert("LA"@.len() == 2);
    assert("RGB"@.len() == 3);
    assert("RGBA"@.len() == 4);
    assert("1"@.len() == 1);
    assert("P"@.len() == 1);
    assert("L"@[0] == 'L');
    assert("1"@[0] == '1');
    assert("P"@[0] == 'P');
}

/// Convert a raster as the mode string asks: to another channel layout, to
/// a bilevel raster (`"1"`), or to a palette-quantized raster (`"P"`); a
/// matrix, when given, takes precedence and must be a 4- or 12-tuple
/// (in `MATRIX_SCALE` fixed-point units) aimed at `"RGB"`. Converting to
/// the raster's own mode with no matrix returns an equal raster without
/// recomputation.
pub fn convert(
    img: &Raster,
    mode: &str,
    matrix: Option<&Vec<i64>>,
    dither: Option<&str>,
    palette: Option<&str>,
    colors: Option<u32>,
) -> (r: Result<Raster, PuhuError>)
    requires
        img.wf(),
        img.spec_n_px() * 4 <= usize::MAX,
    ensures
        matrix matches Some(m) ==> (r is Ok <==> (m@.len() == 4 || m@.len() == 12) && mode@
            == "RGB"@),
        matrix matches Some(m) ==> ((m@.len() == 4 && mode@ == "RGB"@) ==> (r matches Ok(out) && {
            &&& out.width == img.width
            &&& out.height == img.height
            &&& out.model == ColorModel::Rgb
            &&& out.wf()
            &&& out.pixels@ == tap4_bytes(
                convert_bytes(ColorModel::L, img.model, img.pixels@, img.spec_n_px()),
                m@,
            )
        })),
        matrix matches Some(m) ==> ((m@.len() == 12 && mode@ == "RGB"@) ==> (r matches Ok(out) && {
            &&& out.width == img.width
            &&& out.height == img.height
            &&& out.model == ColorModel::Rgb
            &&& out.wf()
            &&& out.pixels@ == tap12_bytes(
                convert_bytes(ColorModel::Rgb, img.model, img.pixels@, img.spec_n_px()),
                m@,
            )
        })),
        spec_model_of(mode@) matches Some(t) ==> ((matrix is None) ==> (r matches Ok(out) && {
            &&& out.width == img.width
            &&& out.height == img.height
            &&& out.model == t
            &&& out.wf()
            &&& out.pixels@ == convert_bytes(t, img.model, img.pixels@, img.spec_n_px())
        })),
        matrix is None && mode@ == "1"@ ==> {
            &&& (spec_dither_flag(dither) is None ==> r is Err)
            &&& (spec_dither_flag(dither) matches Some(f) ==> (r matches Ok(out) && {
                &&& out.width == img.width
                &&& out.height == img.height
                &&& out.model == ColorModel::L
                &&& out.wf()
                &&& out.pixels@ == bilevel_bytes(
                    convert_bytes(ColorModel::L, img.model, img.pixels@, img.spec_n_px()),
                    img.width as int,
                    f,
                )
            }))
        },
        matrix is None && mode@ == "P"@ ==> {
            let pt = if palette is Some { palette->0@ } else { "WEB"@ };
            let cc = if colors is Some { colors->0 } else { 256u32 };
            &&& (spec_dither_flag(dither) is None ==> r is Err)
            &&& (spec_dither_flag(dither) matches Some(f) ==> {
                &&& (r is Ok <==> pt == "WEB"@ || pt == "ADAPTIVE"@)
                &&& (pt == "WEB"@ ==> (r matches Ok(out) && {
                    &&& out.width == img.width
                    &&& out.height == img.height
                    &&& out.model == ColorModel::Rgb
                    &&& out.wf()
                    &&& out.pixels@ == quantize_bytes(
                        web_palette(),
                        to_rgb_bytes(*img),
                        img.width as int,
                        img.height as int,
                        f,
                    )
                }))
                &&& (pt == "ADAPTIVE"@ ==> (r matches Ok(out) && {
                    &&& out.width == img.width
                    &&& out.height == img.height
                    &&& out.model == ColorModel::Rgb
                    &&& out.wf()
                    &&& out.pixels@ == quantize_bytes(
                        adaptive_palette_spec(*img, cc as int),
                        to_rgb_bytes(*img),
                        img.width as int,
                        img.height as int,
                        f,
                    )
                }))
            })
        },
        matrix is None && spec_model_of(mode@) is None && mode@ != "1"@ && mode@ != "P"@ ==> r
            is Err,
{
    proof {
        lemma_mode_names_distinct();
    }
    if let Some(m) = matrix {
        if m.len() != 4 && m.len() != 12 {
            return Err(
                PuhuError::InvalidOperation(
                    String::from_str("Matrix must be a 4-tuple or 12-tuple of floats"),
                ),
            );
        }
        return apply_matrix(img, mode, m);
    }
    let current = color_type_to_mode_string(img.model);
    if str_eq(mode, current.as_str()) {
        let out = img.copy();
        proof {
            lemma_convert_same_model(img.model, img.pixels@, img.spec_n_px());
        }
        return Ok(out);
    }
    match model_of(mode) {
        Some(t) => Ok(convert_model(img, t)),
        None => {
            if str_eq(mode, "1") {
                match parse_dither(dither) {
                    Ok(f) => Ok(to_bilevel(img, f)),
                    Err(e) => Err(e),
                }
            } else if str_eq(mode, "P") {
                match parse_dither(dither) {
                    Ok(f) => {
                        let pt = match palette {
                            Some(p) => p,
                            None => "WEB",
                        };
                        let cc = match colors {
                            Some(c) => c,
                            None => 256,
                        };
                        quantize_to_palette(img, pt, cc, f)
                    },
                    Err(e) => Err(e),
                }
            } else {
                Err(
                    PuhuError::InvalidOperation(
                        String::from_str("Unsupported conversion mode: '").concat(mode).concat(
                            "'. Supported modes: L, LA, RGB, RGBA, 1, P",
                        ),
                    ),
                )
            }
        },
    }
}

} // verus!
