use vstd::prelude::*;
use vstd::arithmetic::div_mod::lemma_fundamental_div_mod_converse;
use crate::raster::{ColorModel, Raster};
use crate::convert::{convert_bytes, convert_model, read_rgba};

verus! {

/// The fixed 216-entry web-safe palette as one flat byte sequence: entry
/// `36 r + 6 g + b` (each index running over the six levels 0..=5) holds the
/// triple `(51 r, 51 g, 51 b)`.
pub open spec fn web_palette() -> Seq<u8> {
    Seq::new(648, |i: int| web_palette_byte(i))
}

/// Byte `i` of the flat web palette.
pub open spec fn web_palette_byte(i: int) -> u8 {
    let e = i / 3;
    let c = i % 3;
    if c == 0 {
        (51 * (e / 36)) as u8
    } else if c == 1 {
        (51 * ((e / 6) % 6)) as u8
    } else {
        (51 * (e % 6)) as u8
    }
}

/// Entry `36 r + 6 g + b` of the web palette is the triple
/// `(51 r, 51 g, 51 b)`: the blue level varies fastest and the red level
/// slowest, in one fixed, reproducible order.
pub proof fn lemma_web_palette_entry(r: int, g: int, b: int)
    requires
        0 <= r < 6,
        0 <= g < 6,
        0 <= b < 6,
    ensures
        web_palette()[3 * (36 * r + 6 * g + b)] == 51 * r,
        web_palette()[3 * (36 * r + 6 * g + b) + 1] == 51 * g,
        web_palette()[3 * (36 * r + 6 * g + b) + 2] == 51 * b,
{
    let e = 36 * r + 6 * g + b;
    lemma_fundamental_div_mod_converse(3 * e, 3, e, 0);
    lemma_fundamental_div_mod_converse(3 * e + 1, 3, e, 1);
    lemma_fundamental_div_mod_converse(3 * e + 2, 3, e, 2);
    lemma_fundamental_div_mod_converse(e, 36, r, 6 * g + b);
    lemma_fundamental_div_mod_converse(e, 6, 6 * r + g, b);
    lemma_fundamental_div_mod_converse(6 * r + g, 6, r, g);
}

/// The fixed web-safe palette: red, green and blue each run over the six
/// levels {0, 51, 102, 153, 204, 255}, red outermost and blue innermost,
/// giving exactly 216 entries in a fixed order.
pub fn generate_web_palette() -> (p: Vec<u8>)
    ensures
        p@ == web_palette(),
        p@.len() == 648,
{
    let mut p: Vec<u8> = Vec::new();
    let mut r: u32 = 0;
    while r < 6
        invariant
            r <= 6,
            p@.len() == 108 * (r as int),
            forall|i: int| 0 <= i < p@.len() ==> p@[i] == web_palette_byte(i),
        decreases 6 - r,
    {
        let mut g: u32 = 0;
        while g < 6
            invariant
                r < 6,
                g <= 6,
                p@.len() == 108 * (r as int) + 18 * (g as int),
                forall|i: int| 0 <= i < p@.len() ==> p@[i] == web_palette_byte(i),
            decreases 6 - g,
        {
            let mut b: u32 = 0;
            while b < 6
                invariant
                    r < 6,
                    g < 6,
                    b <= 6,
                    p@.len() == 108 * (r as int) + 18 * (g as int) + 3 * (b as int),
                    forall|i: int| 0 <= i < p@.len() ==> p@[i] == web_palette_byte(i),
                decreases 6 - b,
            {
                p.push((r * 51) as u8);
                p.push((g * 51) as u8);
                p.push((b * 51) as u8);
                proof {
                    let e = 36 * (r as int) + 6 * (g as int) + (b as int);
                    lemma_web_palette_entry(r as int, g as int, b as int);
                    assert(p@[3 * e] == web_palette_byte(3 * e));
                    assert(p@[3 * e + 1] == web_palette_byte(3 * e + 1));
                    assert(p@[3 * e + 2] == web_palette_byte(3 * e + 2));
                }
                b = b + 1;
            }
            g = g + 1;
        }
        r = r + 1;
    }
    proof {
        assert(p@ =~= web_palette());
    }
    p
}

/// Squared Euclidean distance in RGB space between color `(r, g, b)` and
/// palette entry `i` of the flat palette `p`.
pub open spec fn pal_dist(p: Seq<u8>, i: int, r: int, g: int, b: int) -> int {
    let dr = r - p[3 * i];
    let dg = g - p[3 * i + 1];
    let db = b - p[3 * i + 2];
    dr * dr + dg * dg + db * db
}

/// Number of palette entries in a flat palette.
pub open spec fn pal_entries(p: Seq<u8>) -> int {
    p.len() as int / 3
}

/// The first palette index among the first `n` entries whose squared
/// distance to `(r, g, b)` is minimal: a later entry replaces an earlier one
/// only when strictly closer.
pub open spec fn nearest_upto(p: Seq<u8>, n: int, r: int, g: int, b: int) -> int
    decreases n,
{
    if n <= 1 {
        0
    } else {
        let prev = nearest_upto(p, n - 1, r, g, b);
        if pal_dist(p, n - 1, r, g, b) < pal_dist(p, prev, r, g, b) {
            n - 1
        } else {
            prev
        }
    }
}

/// The nearest palette entry over the whole palette.
pub open spec fn nearest_idx(p: Seq<u8>, r: int, g: int, b: int) -> int {
    nearest_upto(p, pal_entries(p), r, g, b)
}

/// `|a - b|` for bytes.
fn abs_diff(a: u8, b: u8) -> (d: u32)
    ensures
        d == if a >= b { a - b } else { b - a },
        d <= 255,
{
    if a >= b {
        (a - b) as u32
    } else {
        (b - a) as u32
    }
}

/// A square of a difference equals the square of its absolute value, and a
/// byte difference squares to at most 65025.
proof fn lemma_sq_abs(x: int, d: int)
    by (nonlinear_arith)
    requires
        d == x || d == -x,
        0 <= d <= 255,
    ensures
        x * x == d * d,
        d * d <= 65025,
{
}

/// Scan the flat palette for the entry closest to `(r, g, b)` in squared
/// RGB distance; ties keep the lowest index. Returns the index and the
/// entry's triple.
pub fn find_nearest_palette_color(palette: &Vec<u8>, r: u8, g: u8, b: u8) -> (res: (
    u8,
    (u8, u8, u8),
))
    requires
        palette@.len() % 3 == 0,
        3 <= palette@.len() <= 768,
    ensures
        res.0 as int == nearest_idx(palette@, r as int, g as int, b as int),
        (res.0 as int) < pal_entries(palette@),
        res.1.0 == palette@[3 * (res.0 as int)],
        res.1.1 == palette@[3 * (res.0 as int) + 1],
        res.1.2 == palette@[3 * (res.0 as int) + 2],
        forall|j: int|
            0 <= j < pal_entries(palette@) ==> pal_dist(palette@, res.0 as int, r as int, g as int, b as int)
                <= #[trigger] pal_dist(palette@, j, r as int, g as int, b as int),
        forall|j: int|
            0 <= j < res.0 as int ==> #[trigger] pal_dist(palette@, j, r as int, g as int, b as int)
                > pal_dist(palette@, res.0 as int, r as int, g as int, b as int),
{
    let n = palette.len() / 3;
    let mut min_dist: u32 = u32::MAX;
    let mut best_idx: usize = 0;
    let mut best_color: (u8, u8, u8) = (0, 0, 0);
    let mut i: usize = 0;
    while i < n
        invariant
            palette@.len() % 3 == 0,
            3 <= palette@.len() <= 768,
            n == pal_entries(palette@),
            i <= n,
            i == 0 ==> min_dist == u32::MAX && best_idx == 0,
            i > 0 ==> {
                &&& best_idx as int == nearest_upto(palette@, i as int, r as int, g as int, b as int)
                &&& best_idx < i
                &&& min_dist == pal_dist(palette@, best_idx as int, r as int, g as int, b as int)
                &&& best_color.0 == palette@[3 * (best_idx as int)]
                &&& best_color.1 == palette@[3 * (best_idx as int) + 1]
                &&& best_color.2 == palette@[3 * (best_idx as int) + 2]
                &&& forall|j: int|
                    0 <= j < i ==> pal_dist(palette@, best_idx as int, r as int, g as int, b as int)
                        <= #[trigger] pal_dist(palette@, j, r as int, g as int, b as int)
                &&& forall|j: int|
                    0 <= j < best_idx ==> #[trigger] pal_dist(palette@, j, r as int, g as int, b as int)
                        > pal_dist(palette@, best_idx as int, r as int, g as int, b as int)
            },
        decreases n - i,
    {
        let pr = palette[3 * i];
        let pg = palette[3 * i + 1];
        let pb = palette[3 * i + 2];
        let dr = abs_diff(r, pr);
        let dg = abs_diff(g, pg);
        let db = abs_diff(b, pb);
        proof {
            lemma_sq_abs(r as int - pr as int, dr as int);
            lemma_sq_abs(g as int - pg as int, dg as int);
            lemma_sq_abs(b as int - pb as int, db as int);
        }
        let dist: u32 = dr * dr + dg * dg + db * db;
        if dist < min_dist {
            min_dist = dist;
            best_idx = i;
            best_color = (pr, pg, pb);
        }
        i = i + 1;
    }
    (best_idx as u8, best_color)
}

/// What `color_quant`'s trained network maps a sample to: the flat RGB color
/// map that training with the given sample factor and color count on the
/// given RGBA bytes produces. Training is deterministic, so this is a
/// function of the three arguments alone.
pub uninterp spec fn neuquant_palette_of(samplefac: int, colors: int, rgba: Seq<u8>) -> Seq<u8>;

/// Relies on `color_quant::NeuQuant::new` (train a network of `colors`
/// entries on RGBA samples) and `NeuQuant::color_map_rgb` (three bytes per
/// network entry): both are deterministic in their arguments, and the
/// documented argument ranges below do not panic.
#[verifier::external_body]
fn neuquant_color_map(samplefac: i32, colors: usize, rgba: &Vec<u8>) -> (r: Vec<u8>)
    requires
        1 <= samplefac <= 30,
        1 <= colors <= 256,
    ensures
        r@ == neuquant_palette_of(samplefac as int, colors as int, rgba@),
        r@.len() == 3 * colors,
{
    let nq = color_quant::NeuQuant::new(samplefac, colors, rgba.as_slice());
    nq.color_map_rgb()
}

/// A caller-requested palette size clamped to the supported range.
pub open spec fn clamp_colors(c: int) -> int {
    if c < 2 {
        2
    } else if c > 256 {
        256
    } else {
        c
    }
}

/// The RGBA training samples derived from `n` pixels of a flat RGB buffer:
/// each triple is kept and an opaque alpha byte is appended.
pub open spec fn rgba_quads(rgb: Seq<u8>, n: int) -> Seq<u8>
    decreases n,
{
    if n <= 0 {
        Seq::empty()
    } else {
        rgba_quads(rgb, n - 1) + seq![
            rgb[3 * (n - 1)],
            rgb[3 * (n - 1) + 1],
            rgb[3 * (n - 1) + 2],
            255u8,
        ]
    }
}

/// Learn a palette of (clamped) `colors` representative colors from the
/// pixel population of the raster, first forced to RGB with alpha dropped
/// and treated as opaque.
pub fn build_adaptive_palette(img: &Raster, colors: u32) -> (p: Vec<u8>)
    requires
        img.wf(),
        img.spec_n_px() * 4 <= usize::MAX,
    ensures
        p@ == neuquant_palette_of(
            10,
            clamp_colors(colors as int),
            rgba_quads(
                convert_bytes(ColorModel::Rgb, img.model, img.pixels@, img.spec_n_px()),
                img.spec_n_px(),
            ),
        ),
        p@.len() == 3 * clamp_colors(colors as int),
{
    let c: u32 = if colors < 2 {
        2
    } else if colors > 256 {
        256
    } else {
        colors
    };
    let rgb = convert_model(img, ColorModel::Rgb);
    let n = rgb.n_px();
    let mut quads: Vec<u8> = Vec::new();
    let mut k: usize = 0;
    while k < n
        invariant
            rgb.wf(),
            rgb.model == ColorModel::Rgb,
            n == rgb.spec_n_px(),
            n * 4 <= usize::MAX,
            k <= n,
            quads@ == rgba_quads(rgb.pixels@, k as int),
            quads@.len() == 4 * k,
        decreases n - k,
    {
        let px = read_rgba(&rgb, k);
        quads.push(px.0);
        quads.push(px.1);
        quads.push(px.2);
        quads.push(255);
        proof {
            assert(quads@ =~= rgba_quads(rgb.pixels@, k as int + 1));
        }
        k = k + 1;
    }
    neuquant_color_map(10, c as usize, &quads)
}

} // verus!
