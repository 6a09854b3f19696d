use vstd::prelude::*;
use vstd::string::StringExecFns;
use crate::errors::PuhuError;
use crate::strutil::str_eq;

verus! {

/// Channel layout of a raster: luma, luma+alpha, RGB, or RGB+alpha.
#[derive(Clone, Copy, PartialEq, Eq, Structural, Debug)]
pub enum ColorModel {
    L,
    La,
    Rgb,
    Rgba,
}

impl ColorModel {
    /// Number of bytes one pixel occupies.
    pub open spec fn spec_bpp(self) -> int {
        match self {
            ColorModel::L => 1,
            ColorModel::La => 2,
            ColorModel::Rgb => 3,
            ColorModel::Rgba => 4,
        }
    }

    /// Whether the layout carries an alpha channel.
    pub open spec fn has_alpha(self) -> bool {
        self == ColorModel::La || self == ColorModel::Rgba
    }

    pub fn bpp(&self) -> (n: usize)
        ensures
            n == self.spec_bpp(),
    {
        match self {
            ColorModel::L => 1,
            ColorModel::La => 2,
            ColorModel::Rgb => 3,
            ColorModel::Rgba => 4,
        }
    }
}

/// The standard luma weighting applied when color is reduced to a single
/// channel: `(2126 r + 7152 g + 722 b) / 10000`, the Rec. 709 weights over
/// ten-thousandths with the quotient truncated. The weights sum to 10000, so
/// an already-gray pixel keeps its value exactly.
pub open spec fn luma_of(r: int, g: int, b: int) -> int {
    (2126 * r + 7152 * g + 722 * b) / 10000
}

/// The four channels of pixel `k` of a buffer in model `m`, widened to RGBA:
/// luma broadcasts into the color channels, and a missing alpha reads as 255.
pub open spec fn px_rgba(m: ColorModel, p: Seq<u8>, k: int) -> Seq<u8> {
    match m {
        ColorModel::L => seq![p[k], p[k], p[k], 255u8],
        ColorModel::La => seq![p[2 * k], p[2 * k], p[2 * k], p[2 * k + 1]],
        ColorModel::Rgb => seq![p[3 * k], p[3 * k + 1], p[3 * k + 2], 255u8],
        ColorModel::Rgba => seq![p[4 * k], p[4 * k + 1], p[4 * k + 2], p[4 * k + 3]],
    }
}

/// The bytes that a length-4 RGBA sequence occupies once stored in model `m`:
/// color collapses through `luma_of` for the single-channel models, and alpha
/// is kept only where the model carries it.
pub open spec fn encode_rgba(m: ColorModel, c: Seq<u8>) -> Seq<u8> {
    match m {
        ColorModel::L => seq![luma_of(c[0] as int, c[1] as int, c[2] as int) as u8],
        ColorModel::La => seq![luma_of(c[0] as int, c[1] as int, c[2] as int) as u8, c[3]],
        ColorModel::Rgb => seq![c[0], c[1], c[2]],
        ColorModel::Rgba => seq![c[0], c[1], c[2], c[3]],
    }
}

/// An in-memory pixel grid: extent, channel layout, and one contiguous byte
/// buffer in row-major order.
#[derive(Debug)]
pub struct Raster {
    pub width: u32,
    pub height: u32,
    pub model: ColorModel,
    pub pixels: Vec<u8>,
}

impl Raster {
    /// The buffer holds exactly one pixel's bytes per grid cell.
    pub open spec fn wf(self) -> bool {
        self.pixels@.len() == self.width as int * self.height as int * self.model.spec_bpp()
    }

    /// Number of pixels in the grid.
    pub open spec fn spec_n_px(self) -> int {
        self.width as int * self.height as int
    }

    /// The RGBA view of the pixel at column `x`, row `y`.
    pub open spec fn rgba_at(self, x: int, y: int) -> Seq<u8> {
        px_rgba(self.model, self.pixels@, y * self.width as int + x)
    }

    /// The stored bytes of the pixel at column `x`, row `y`.
    pub open spec fn px_bytes(self, x: int, y: int) -> Seq<u8> {
        let b = self.model.spec_bpp();
        let s = (y * self.width as int + x) * b;
        self.pixels@.subrange(s, s + b)
    }

    pub fn n_px(&self) -> (n: usize)
        requires
            self.wf(),
        ensures
            n == self.spec_n_px(),
    {
        let _len = self.pixels.len();
        proof {
            lemma_n_px_fits(self.width as int, self.height as int, self.model.spec_bpp());
        }
        (self.width as usize) * (self.height as usize)
    }

    /// An equal raster with its own buffer.
    pub fn copy(&self) -> (r: Raster)
        ensures
            r.width == self.width,
            r.height == self.height,
            r.model == self.model,
            r.pixels@ == self.pixels@,
    {
        Raster {
            width: self.width,
            height: self.height,
            model: self.model,
            pixels: copy_bytes(&self.pixels),
        }
    }
}

/// With at least one byte per pixel, the pixel count is no larger than the
/// buffer length, so it fits in `usize`.
proof fn lemma_n_px_fits(w: int, h: int, b: int)
    by (nonlinear_arith)
    requires
        w >= 0,
        h >= 0,
        b >= 1,
        w * h * b <= usize::MAX,
    ensures
        w * h <= usize::MAX,
        w * h <= w * h * b,
{
}

/// A fresh buffer holding the same bytes.
pub fn copy_bytes(v: &Vec<u8>) -> (r: Vec<u8>)
    ensures
        r@ == v@,
{
    let mut r: Vec<u8> = Vec::new();
    let mut i: usize = 0;
    while i < v.len()
        invariant
            i <= v@.len(),
            r@ == v@.subrange(0, i as int),
        decreases v@.len() - i,
    {
        r.push(v[i]);
        proof {
            assert(r@ =~= v@.subrange(0, i + 1));
        }
        i = i + 1;
    }
    proof {
        assert(r@ =~= v@);
    }
    r
}

/// The bytes of one pixel when a raster in model `m` is filled with `c`:
/// the tuple is read positionally, as (gray, _, _, alpha) for the
/// single-channel models.
pub open spec fn fill_unit(m: ColorModel, c: (u8, u8, u8, u8)) -> Seq<u8> {
    match m {
        ColorModel::L => seq![c.0],
        ColorModel::La => seq![c.0, c.3],
        ColorModel::Rgb => seq![c.0, c.1, c.2],
        ColorModel::Rgba => seq![c.0, c.1, c.2, c.3],
    }
}

/// The fill color used when the caller gives none: transparent black for
/// RGBA, opaque black otherwise.
pub open spec fn default_fill(m: ColorModel, c: Option<(u8, u8, u8, u8)>) -> (u8, u8, u8, u8) {
    match c {
        Some(v) => v,
        None => if m == ColorModel::Rgba { (0u8, 0u8, 0u8, 0u8) } else { (0u8, 0u8, 0u8, 255u8) },
    }
}

/// `u` repeated `n` times, concatenated.
pub open spec fn repeat_unit(u: Seq<u8>, n: int) -> Seq<u8>
    decreases n,
{
    if n <= 0 {
        Seq::empty()
    } else {
        repeat_unit(u, n - 1) + u
    }
}

/// The model a mode string names, if any.
pub open spec fn spec_model_of(s: Seq<char>) -> Option<ColorModel> {
    if s == "L"@ {
        Some(ColorModel::L)
    } else if s == "LA"@ {
        Some(ColorModel::La)
    } else if s == "RGB"@ {
        Some(ColorModel::Rgb)
    } else if s == "RGBA"@ {
        Some(ColorModel::Rgba)
    } else {
        None
    }
}

pub fn model_of(mode: &str) -> (r: Option<ColorModel>)
    ensures
        r == spec_model_of(mode@),
{
    if str_eq(mode, "L") {
        Some(ColorModel::L)
    } else if str_eq(mode, "LA") {
        Some(ColorModel::La)
    } else if str_eq(mode, "RGB") {
        Some(ColorModel::Rgb)
    } else if str_eq(mode, "RGBA") {
        Some(ColorModel::Rgba)
    } else {
        None
    }
}

impl Raster {
    /// A raster of the given mode and extent, filled with one color.
    /// Zero-area extents and unknown modes are rejected.
    pub fn new(mode: &str, width: u32, height: u32, color: Option<(u8, u8, u8, u8)>) -> (r: Result<
        Raster,
        PuhuError,
    >)
        requires
            width as int * height as int * 4 <= usize::MAX,
        ensures
            r is Ok <==> width > 0 && height > 0 && spec_model_of(mode@) is Some,
            r matches Ok(img) ==> {
                &&& spec_model_of(mode@) == Some(img.model)
                &&& img.width == width
                &&& img.height == height
                &&& img.wf()
                &&& img.pixels@ == repeat_unit(
                    fill_unit(img.model, default_fill(img.model, color)),
                    width as int * height as int,
                )
            },
    {
        if width == 0 || height == 0 {
            return Err(
                PuhuError::InvalidOperation(
                    String::from_str("Image dimensions must be greater than 0"),
                ),
            );
        }
        let model = match model_of(mode) {
            Some(m) => m,
            None => {
                return Err(
                    PuhuError::InvalidOperation(
                        String::from_str("Unsupported image mode: ").concat(mode),
                    ),
                );
            },
        };
        let c = match color {
            Some(v) => v,
            None => if matches!(model, ColorModel::Rgba) {
                (0u8, 0u8, 0u8, 0u8)
            } else {
                (0u8, 0u8, 0u8, 255u8)
            },
        };
        let ghost unit = fill_unit(model, c);
        proof {
            lemma_area_fits(width as int, height as int, model.spec_bpp());
        }
        let n: usize = (width as usize) * (height as usize);
        let mut pixels: Vec<u8> = Vec::new();
        let mut k: usize = 0;
        while k < n
            invariant
                k <= n,
                n == width as int * height as int,
                n * model.spec_bpp() <= usize::MAX,
                unit == fill_unit(model, c),
                pixels@ == repeat_unit(unit, k as int),
                pixels@.len() == k as int * model.spec_bpp(),
            decreases n - k,
        {
            proof {
                lemma_px_bytes_bound(k as int, n as int, model.spec_bpp());
            }
            match model {
                ColorModel::L => {
                    pixels.push(c.0);
                },
                ColorModel::La => {
                    pixels.push(c.0);
                    pixels.push(c.3);
                },
                ColorModel::Rgb => {
                    pixels.push(c.0);
                    pixels.push(c.1);
                    pixels.push(c.2);
                },
                ColorModel::Rgba => {
                    pixels.push(c.0);
                    pixels.push(c.1);
                    pixels.push(c.2);
                    pixels.push(c.3);
                },
            }
            proof {
                assert(pixels@ =~= repeat_unit(unit, k + 1));
            }
            k = k + 1;
        }
        Ok(Raster { width, height, model, pixels })
    }
}

/// An area whose four-byte buffer fits in `usize` also fits itself, and so
/// does its buffer at any smaller per-pixel byte count.
proof fn lemma_area_fits(w: int, h: int, b: int)
    by (nonlinear_arith)
    requires
        0 <= w,
        0 <= h,
        1 <= b <= 4,
        w * h * 4 <= usize::MAX,
    ensures
        w * h <= usize::MAX,
        w * h * b <= usize::MAX,
{
}

/// The bytes of pixel `k` lie inside a buffer of `n` pixels of `b` bytes
/// each.
pub proof fn lemma_px_bytes_bound(k: int, n: int, b: int)
    by (nonlinear_arith)
    requires
        0 <= k < n,
        1 <= b,
        n * b <= usize::MAX,
    ensures
        k * b + b <= n * b,
{
}

} // verus!
