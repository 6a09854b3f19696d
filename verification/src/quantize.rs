use vstd::prelude::*;
use vstd::pervasive::VecAdditionalExecFns;
use vstd::arithmetic::div_mod::lemma_div_is_ordered;
use crate::errors::PuhuError;
use crate::raster::{ColorModel, Raster};
use crate::convert::{convert_bytes, convert_model, read_rgba};
use crate::palette::{
    build_adaptive_palette, clamp_colors, find_nearest_palette_color, generate_web_palette,
    nearest_idx, neuquant_palette_of, pal_entries, rgba_quads, web_palette,
};
use crate::strutil::str_eq;
use vstd::string::StringExecFns;

verus! {

/// A channel value clamped to the byte range.
pub open spec fn clamp255(v: int) -> int {
    if v < 0 {
        0
    } else if v > 255 {
        255
    } else {
        v
    }
}

/// `(q * m) / 16` with the quotient truncated toward zero, as machine
/// signed division computes it.
pub open spec fn tdiv16(q: int, m: int) -> int {
    if q >= 0 {
        (q * m) / 16
    } else {
        -(((-q) * m) / 16)
    }
}

/// The error-diffusion state after some pixels of a raster-scan pass: the
/// palette indices emitted so far and the two rows of accumulated
/// per-channel error, one for the row being scanned and one for the row
/// below it.
pub struct FsState {
    pub emitted: Seq<u8>,
    pub cur: Seq<(int, int, int)>,
    pub nxt: Seq<(int, int, int)>,
}

/// A row of zero error terms.
pub open spec fn zero_row(w: int) -> Seq<(int, int, int)> {
    Seq::new(w as nat, |i: int| (0int, 0int, 0int))
}

/// Add a scaled share `m/16` of the quantization error `q` to an error cell.
pub open spec fn fs_add(e: (int, int, int), q: (int, int, int), m: int) -> (int, int, int) {
    (e.0 + tdiv16(q.0, m), e.1 + tdiv16(q.1, m), e.2 + tdiv16(q.2, m))
}

/// The red, green and blue bytes of pixel `k` of a flat RGB buffer.
pub open spec fn rgb_px(p: Seq<u8>, k: int) -> (int, int, int) {
    (p[3 * k] as int, p[3 * k + 1] as int, p[3 * k + 2] as int)
}

/// One step of the error-diffusion scan at column `x` of row `y`: the
/// accumulated error is added to the raw pixel, each channel is clamped to
/// [0, 255], the nearest palette entry is emitted, and the remaining
/// quantization error is spread with the Floyd-Steinberg weights 7/16 right,
/// 3/16 below-left, 5/16 below and 1/16 below-right, each share only where
/// the neighbor lies inside the raster.
pub open spec fn fs_step(
    pal: Seq<u8>,
    img: Seq<u8>,
    w: int,
    h: int,
    st: FsState,
    x: int,
    y: int,
) -> FsState {
    let px = rgb_px(img, y * w + x);
    let e = st.cur[x];
    let r = clamp255(px.0 + e.0);
    let g = clamp255(px.1 + e.1);
    let b = clamp255(px.2 + e.2);
    let i = nearest_idx(pal, r, g, b);
    let q = ((r - pal[3 * i]) as int, (g - pal[3 * i + 1]) as int, (b - pal[3 * i + 2]) as int);
    FsState {
        emitted: st.emitted.push(i as u8),
        cur: fs_diffuse_cur(st.cur, q, x, w),
        nxt: fs_diffuse_nxt(st.nxt, q, x, w, y + 1 < h),
    }
}

/// The current row after the 7/16 share is carried to the right neighbor,
/// where one exists.
pub open spec fn fs_diffuse_cur(cur: Seq<(int, int, int)>, q: (int, int, int), x: int, w: int) -> Seq<
    (int, int, int),
> {
    if x + 1 < w {
        cur.update(x + 1, fs_add(cur[x + 1], q, 7))
    } else {
        cur
    }
}

/// The next row after the 3/16, 5/16 and 1/16 shares are carried below,
/// only when a row below exists (`spread`), and only to columns inside the
/// raster.
pub open spec fn fs_diffuse_nxt(
    nxt: Seq<(int, int, int)>,
    q: (int, int, int),
    x: int,
    w: int,
    spread: bool,
) -> Seq<(int, int, int)> {
    if spread {
        let n0 = if x > 0 {
            nxt.update(x - 1, fs_add(nxt[x - 1], q, 3))
        } else {
            nxt
        };
        let n1 = n0.update(x, fs_add(n0[x], q, 5));
        if x + 1 < w {
            n1.update(x + 1, fs_add(n1[x + 1], q, 1))
        } else {
            n1
        }
    } else {
        nxt
    }
}

/// Entering a row: the accumulated next-row errors become the current row,
/// and the new next row starts from zero.
pub open spec fn fs_row_start(st: FsState, w: int) -> FsState {
    FsState { emitted: st.emitted, cur: st.nxt, nxt: zero_row(w) }
}

/// The scan state before any pixel: no indices emitted, no error.
pub open spec fn fs_init(w: int) -> FsState {
    FsState { emitted: Seq::empty(), cur: zero_row(w), nxt: zero_row(w) }
}

/// The scan state after the first `x` pixels of row `y`, all earlier rows
/// processed in raster order.
pub open spec fn fs_at(pal: Seq<u8>, img: Seq<u8>, w: int, h: int, y: int, x: int) -> FsState
    decreases y, x,
{
    if x <= 0 {
        if y <= 0 {
            fs_row_start(fs_init(w), w)
        } else {
            fs_row_start(fs_at(pal, img, w, h, y - 1, w), w)
        }
    } else {
        fs_step(pal, img, w, h, fs_at(pal, img, w, h, y, x - 1), x - 1, y)
    }
}

/// The palette indices a full error-diffusion pass emits.
pub open spec fn fs_indices(pal: Seq<u8>, img: Seq<u8>, w: int, h: int) -> Seq<u8> {
    if h <= 0 {
        Seq::empty()
    } else {
        fs_at(pal, img, w, h, h - 1, w).emitted
    }
}

/// The palette indices of an independent nearest-color pass over the first
/// `n` pixels.
pub open spec fn nodither_indices(pal: Seq<u8>, img: Seq<u8>, n: int) -> Seq<u8>
    decreases n,
{
    if n <= 0 {
        Seq::empty()
    } else {
        let px = rgb_px(img, n - 1);
        nodither_indices(pal, img, n - 1).push(nearest_idx(pal, px.0, px.1, px.2) as u8)
    }
}

/// The indices a quantization pass emits, dithered or not.
pub open spec fn quantize_indices(
    pal: Seq<u8>,
    img: Seq<u8>,
    w: int,
    h: int,
    dither: bool,
) -> Seq<u8> {
    if dither {
        fs_indices(pal, img, w, h)
    } else {
        nodither_indices(pal, img, w * h)
    }
}

/// Palette indices resolved back to their RGB triples.
pub open spec fn indices_to_rgb(pal: Seq<u8>, idx: Seq<u8>) -> Seq<u8>
    decreases idx.len(),
{
    if idx.len() == 0 {
        Seq::empty()
    } else {
        let e = idx.last() as int;
        indices_to_rgb(pal, idx.drop_last()) + seq![pal[3 * e], pal[3 * e + 1], pal[3 * e + 2]]
    }
}

/// The RGB buffer a quantization pass produces.
pub open spec fn quantize_bytes(
    pal: Seq<u8>,
    img: Seq<u8>,
    w: int,
    h: int,
    dither: bool,
) -> Seq<u8> {
    indices_to_rgb(pal, quantize_indices(pal, img, w, h, dither))
}

/// Truncated scaled shares of a quantization error stay within the bounds
/// the two-row accumulator relies on.
proof fn lemma_tdiv16_bounds(q: int)
    requires
        -255 <= q <= 255,
    ensures
        -111 <= tdiv16(q, 7) <= 111,
        -79 <= tdiv16(q, 5) <= 79,
        -47 <= tdiv16(q, 3) <= 47,
        -15 <= tdiv16(q, 1) <= 15,
{
    if q >= 0 {
        lemma_div_is_ordered(q * 7, 1785, 16);
        lemma_div_is_ordered(0, q * 7, 16);
        lemma_div_is_ordered(q * 5, 1275, 16);
        lemma_div_is_ordered(0, q * 5, 16);
        lemma_div_is_ordered(q * 3, 765, 16);
        lemma_div_is_ordered(0, q * 3, 16);
        lemma_div_is_ordered(q * 1, 255, 16);
        lemma_div_is_ordered(0, q * 1, 16);
    } else {
        lemma_div_is_ordered((-q) * 7, 1785, 16);
        lemma_div_is_ordered(0, (-q) * 7, 16);
        lemma_div_is_ordered((-q) * 5, 1275, 16);
        lemma_div_is_ordered(0, (-q) * 5, 16);
        lemma_div_is_ordered((-q) * 3, 765, 16);
        lemma_div_is_ordered(0, (-q) * 3, 16);
        lemma_div_is_ordered((-q) * 1, 255, 16);
        lemma_div_is_ordered(0, (-q) * 1, 16);
    }
}

/// `(q * m) / 16` with the quotient truncated toward zero.
fn diffuse_scale(q: i32, m: u32) -> (r: i32)
    requires
        -255 <= q <= 255,
        1 <= m <= 7,
    ensures
        r as int == tdiv16(q as int, m as int),
        -112 <= r <= 112,
{
    proof {
        if q >= 0 {
            assert(0 <= q as int * m <= 1785) by (nonlinear_arith)
                requires
                    0 <= q <= 255 && 1 <= m <= 7,
            ;
            lemma_div_is_ordered(q as int * m, 1785, 16);
            lemma_div_is_ordered(0, q as int * m, 16);
        } else {
            assert(0 <= (-(q as int)) * m <= 1785) by (nonlinear_arith)
                requires
                    -255 <= q < 0 && 1 <= m <= 7,
            ;
            lemma_div_is_ordered((-(q as int)) * m, 1785, 16);
            lemma_div_is_ordered(0, (-(q as int)) * m, 16);
        }
    }
    if q >= 0 {
        (((q as u32) * m) / 16) as i32
    } else {
        let mag = ((((-q) as u32) * m) / 16) as i32;
        -mag
    }
}

/// Add an accumulated error term to a raw byte and clamp to the byte range.
fn clamp_err(p: u8, e: i32) -> (r: u8)
    requires
        -300 <= e <= 300,
    ensures
        r as int == clamp255(p as int + e as int),
{
    let v: i32 = p as i32 + e;
    if v < 0 {
        0
    } else if v > 255 {
        255
    } else {
        v as u8
    }
}

/// The integer view of an executable error row.
pub open spec fn widen_row(s: Seq<(i32, i32, i32)>) -> Seq<(int, int, int)> {
    Seq::new(s.len(), |i: int| (s[i].0 as int, s[i].1 as int, s[i].2 as int))
}

/// All three channels of an error cell lie within `m` of zero.
pub open spec fn ebound(e: (i32, i32, i32), m: int) -> bool {
    -m <= e.0 <= m && -m <= e.1 <= m && -m <= e.2 <= m
}

/// The bound an error cell of the next row obeys while column `x` of the
/// current row is being processed.
pub open spec fn nxt_bound_at(j: int, x: int) -> int {
    if j <= x - 2 {
        141
    } else if j == x - 1 {
        94
    } else if j == x {
        15
    } else {
        0
    }
}

/// A fresh all-zero executable error row.
fn make_zero_row(w: usize) -> (v: Vec<(i32, i32, i32)>)
    ensures
        v@.len() == w,
        widen_row(v@) == zero_row(w as int),
        forall|j: int| 0 <= j < w ==> v@[j] == (0i32, 0i32, 0i32),
{
    let mut v: Vec<(i32, i32, i32)> = Vec::new();
    let mut i: usize = 0;
    while i < w
        invariant
            i <= w,
            v@.len() == i,
            forall|j: int| 0 <= j < i ==> v@[j] == (0i32, 0i32, 0i32),
        decreases w - i,
    {
        v.push((0, 0, 0));
        i = i + 1;
    }
    proof {
        assert(widen_row(v@) =~= zero_row(w as int));
    }
    v
}

/// Zero an executable error row in place.
fn clear_row(v: &mut Vec<(i32, i32, i32)>)
    ensures
        final(v)@.len() == old(v)@.len(),
        widen_row(final(v)@) == zero_row(old(v)@.len() as int),
        forall|j: int| 0 <= j < final(v)@.len() ==> final(v)@[j] == (0i32, 0i32, 0i32),
{
    let n = v.len();
    let mut i: usize = 0;
    while i < n
        invariant
            i <= n,
            v@.len() == n,
            forall|j: int| 0 <= j < i ==> v@[j] == (0i32, 0i32, 0i32),
        decreases n - i,
    {
        v.set(i, (0, 0, 0));
        i = i + 1;
    }
    proof {
        assert(widen_row(v@) =~= zero_row(n as int));
    }
}

/// Updating one cell of a row updates one cell of its integer view.
proof fn lemma_widen_update(s: Seq<(i32, i32, i32)>, i: int, v: (i32, i32, i32))
    requires
        0 <= i < s.len(),
    ensures
        widen_row(s.update(i, v)) == widen_row(s).update(
            i,
            (v.0 as int, v.1 as int, v.2 as int),
        ),
{
    assert(widen_row(s.update(i, v)) =~= widen_row(s).update(
        i,
        (v.0 as int, v.1 as int, v.2 as int),
    ));
}

/// A grid position indexes a pixel of the grid.
proof fn lemma_grid_index(x: int, y: int, w: int, h: int)
    by (nonlinear_arith)
    requires
        0 <= x < w,
        0 <= y < h,
    ensures
        0 <= y * w + x < w * h,
{
}


/// One executable step of the error-diffusion scan: process column `x` of
/// row `y` and advance the buffers to the next scan state.
#[verifier::rlimit(100)]
fn fs_scan_step(
    rgb: &Raster,
    palette: &Vec<u8>,
    emitted: &mut Vec<u8>,
    cur: &mut Vec<(i32, i32, i32)>,
    nxt: &mut Vec<(i32, i32, i32)>,
    x: usize,
    y: usize,
)
    requires
        rgb.wf(),
        rgb.model == ColorModel::Rgb,
        palette@.len() % 3 == 0,
        3 <= palette@.len() <= 768,
        x < rgb.width,
        y < rgb.height,
        old(cur)@.len() == rgb.width,
        old(nxt)@.len() == rgb.width,
        old(emitted)@ == fs_at(
            palette@,
            rgb.pixels@,
            rgb.width as int,
            rgb.height as int,
            y as int,
            x as int,
        ).emitted,
        widen_row(old(cur)@) == fs_at(
            palette@,
            rgb.pixels@,
            rgb.width as int,
            rgb.height as int,
            y as int,
            x as int,
        ).cur,
        widen_row(old(nxt)@) == fs_at(
            palette@,
            rgb.pixels@,
            rgb.width as int,
            rgb.height as int,
            y as int,
            x as int,
        ).nxt,
        ebound(old(cur)@[x as int], 252),
        forall|j: int| x < j < rgb.width ==> ebound(#[trigger] old(cur)@[j], 141),
        forall|j: int|
            0 <= j < rgb.width ==> ebound(#[trigger] old(nxt)@[j], nxt_bound_at(j, x as int)),
    ensures
        final(cur)@.len() == rgb.width,
        final(nxt)@.len() == rgb.width,
        final(emitted)@ == fs_at(
            palette@,
            rgb.pixels@,
            rgb.width as int,
            rgb.height as int,
            y as int,
            x as int + 1,
        ).emitted,
        widen_row(final(cur)@) == fs_at(
            palette@,
            rgb.pixels@,
            rgb.width as int,
            rgb.height as int,
            y as int,
            x as int + 1,
        ).cur,
        widen_row(final(nxt)@) == fs_at(
            palette@,
            rgb.pixels@,
            rgb.width as int,
            rgb.height as int,
            y as int,
            x as int + 1,
        ).nxt,
        final(emitted)@.len() == old(emitted)@.len() + 1,
        forall|t: int|
            0 <= t < old(emitted)@.len() ==> final(emitted)@[t] == old(emitted)@[t],
        (final(emitted)@[old(emitted)@.len() as int] as int) < pal_entries(palette@),
        x + 1 < rgb.width ==> ebound(final(cur)@[x as int + 1], 252),
        forall|j: int| x + 1 < j < rgb.width ==> ebound(#[trigger] final(cur)@[j], 141),
        forall|j: int|
            0 <= j < rgb.width ==> ebound(#[trigger] final(nxt)@[j], nxt_bound_at(j, x as int + 1)),
{
    let ghost pal = palette@;
    let ghost img = rgb.pixels@;
    let ghost wi = rgb.width as int;
    let ghost hi = rgb.height as int;
    let ghost st = fs_at(pal, img, wi, hi, y as int, x as int);
    let w = rgb.width as usize;
    let h = rgb.height as usize;
    let n = rgb.n_px();
    proof {
        lemma_grid_index(x as int, y as int, wi, hi);
    }
    let k = y * w + x;
    let px = read_rgba(rgb, k);
    let e = cur[x];
    let rc = clamp_err(px.0, e.0);
    let gc = clamp_err(px.1, e.1);
    let bc = clamp_err(px.2, e.2);
    let (idx, near) = find_nearest_palette_color(palette, rc, gc, bc);
    emitted.push(idx);
    let qr: i32 = rc as i32 - near.0 as i32;
    let qg: i32 = gc as i32 - near.1 as i32;
    let qb: i32 = bc as i32 - near.2 as i32;
    let ghost q = (qr as int, qg as int, qb as int);
    proof {
        let stn = fs_step(pal, img, wi, hi, st, x as int, y as int);
        assert(stn.emitted == emitted@);
        assert(stn.cur == fs_diffuse_cur(st.cur, q, x as int, wi));
        assert(stn.nxt == fs_diffuse_nxt(st.nxt, q, x as int, wi, y as int + 1 < hi));
    }
    diffuse_cur(cur, qr, qg, qb, x);
    diffuse_nxt(nxt, qr, qg, qb, x, y + 1 < h);
    proof {
        assert(fs_step(pal, img, wi, hi, st, x as int, y as int) == fs_at(
            pal,
            img,
            wi,
            hi,
            y as int,
            x as int + 1,
        ));
    }
}

/// Carry the 7/16 error share to the right neighbor of the current row.
fn diffuse_cur(cur: &mut Vec<(i32, i32, i32)>, qr: i32, qg: i32, qb: i32, x: usize)
    requires
        x < old(cur)@.len(),
        -255 <= qr <= 255,
        -255 <= qg <= 255,
        -255 <= qb <= 255,
        forall|j: int| x < j < old(cur)@.len() ==> ebound(#[trigger] old(cur)@[j], 141),
    ensures
        final(cur)@.len() == old(cur)@.len(),
        widen_row(final(cur)@) == fs_diffuse_cur(
            widen_row(old(cur)@),
            (qr as int, qg as int, qb as int),
            x as int,
            old(cur)@.len() as int,
        ),
        x + 1 < final(cur)@.len() ==> ebound(final(cur)@[x as int + 1], 252),
        forall|j: int| x + 1 < j < final(cur)@.len() ==> ebound(#[trigger] final(cur)@[j], 141),
{
    let w = cur.len();
    proof {
        lemma_tdiv16_bounds(qr as int);
        lemma_tdiv16_bounds(qg as int);
        lemma_tdiv16_bounds(qb as int);
    }
    if x + 1 < w {
        let e1 = cur[x + 1];
        let nv = (
            e1.0 + diffuse_scale(qr, 7),
            e1.1 + diffuse_scale(qg, 7),
            e1.2 + diffuse_scale(qb, 7),
        );
        let ghost prev = cur@;
        cur.set(x + 1, nv);
        proof {
            lemma_widen_update(prev, x as int + 1, nv);
        }
    }
}

/// Carry the 3/16, 5/16 and 1/16 error shares into the next row, when one
/// exists.
fn diffuse_nxt(nxt: &mut Vec<(i32, i32, i32)>, qr: i32, qg: i32, qb: i32, x: usize, spread: bool)
    requires
        x < old(nxt)@.len(),
        -255 <= qr <= 255,
        -255 <= qg <= 255,
        -255 <= qb <= 255,
        forall|j: int|
            0 <= j < old(nxt)@.len() ==> ebound(#[trigger] old(nxt)@[j], nxt_bound_at(j, x as int)),
    ensures
        final(nxt)@.len() == old(nxt)@.len(),
        widen_row(final(nxt)@) == fs_diffuse_nxt(
            widen_row(old(nxt)@),
            (qr as int, qg as int, qb as int),
            x as int,
            old(nxt)@.len() as int,
            spread,
        ),
        forall|j: int|
            0 <= j < final(nxt)@.len() ==> ebound(
                #[trigger] final(nxt)@[j],
                nxt_bound_at(j, x as int + 1),
            ),
{
    let w = nxt.len();
    proof {
        lemma_tdiv16_bounds(qr as int);
        lemma_tdiv16_bounds(qg as int);
        lemma_tdiv16_bounds(qb as int);
    }
    if spread {
        if x > 0 {
            let e1 = nxt[x - 1];
            let nv = (
                e1.0 + diffuse_scale(qr, 3),
                e1.1 + diffuse_scale(qg, 3),
                e1.2 + diffuse_scale(qb, 3),
            );
            let ghost prev = nxt@;
            nxt.set(x - 1, nv);
            proof {
                lemma_widen_update(prev, x as int - 1, nv);
            }
        }
        let e2 = nxt[x];
        let nv2 = (
            e2.0 + diffuse_scale(qr, 5),
            e2.1 + diffuse_scale(qg, 5),
            e2.2 + diffuse_scale(qb, 5),
        );
        let ghost prev2 = nxt@;
        nxt.set(x, nv2);
        proof {
            lemma_widen_update(prev2, x as int, nv2);
        }
        if x + 1 < w {
            let e3 = nxt[x + 1];
            let nv3 = (
                e3.0 + diffuse_scale(qr, 1),
                e3.1 + diffuse_scale(qg, 1),
                e3.2 + diffuse_scale(qb, 1),
            );
            let ghost prev3 = nxt@;
            nxt.set(x + 1, nv3);
            proof {
                lemma_widen_update(prev3, x as int + 1, nv3);
            }
        }
    }
}

/// Quantize an RGB raster against a flat palette: each emitted index is
/// resolved straight back to its palette triple. With dithering the pass is
/// the strict raster-order error-diffusion scan; without it each pixel is
/// mapped independently.
#[verifier::rlimit(100)]
pub fn quantize_raster(rgb: &Raster, palette: &Vec<u8>, apply_dither: bool) -> (out: Raster)
    requires
        rgb.wf(),
        rgb.model == ColorModel::Rgb,
        palette@.len() % 3 == 0,
        3 <= palette@.len() <= 768,
    ensures
        out.width == rgb.width,
        out.height == rgb.height,
        out.model == ColorModel::Rgb,
        out.wf(),
        out.pixels@ == quantize_bytes(
            palette@,
            rgb.pixels@,
            rgb.width as int,
            rgb.height as int,
            apply_dither,
        ),
{
    let w = rgb.width as usize;
    let h = rgb.height as usize;
    let n = rgb.n_px();
    let ghost pal = palette@;
    let ghost img = rgb.pixels@;
    let ghost wi = rgb.width as int;
    let ghost hi = rgb.height as int;
    let mut emitted: Vec<u8> = Vec::new();
    if apply_dither {
        let mut cur = make_zero_row(w);
        let mut nxt = make_zero_row(w);
        let mut y: usize = 0;
        while y < h
            invariant
                rgb.wf(),
                rgb.model == ColorModel::Rgb,
                pal == palette@,
                img == rgb.pixels@,
                wi == rgb.width as int,
                hi == rgb.height as int,
                w == wi,
                h == hi,
                n == wi * hi,
                palette@.len() % 3 == 0,
                3 <= palette@.len() <= 768,
                y <= h,
                cur@.len() == w,
                nxt@.len() == w,
                emitted@.len() == y * w,
                forall|t: int|
                    0 <= t < emitted@.len() ==> (#[trigger] emitted@[t]) < pal_entries(pal),
                y == 0 ==> emitted@ == Seq::<u8>::empty() && widen_row(cur@) == zero_row(wi)
                    && widen_row(nxt@) == zero_row(wi),
                y > 0 ==> {
                    &&& emitted@ == fs_at(pal, img, wi, hi, y - 1, wi).emitted
                    &&& widen_row(cur@) == fs_at(pal, img, wi, hi, y - 1, wi).cur
                    &&& widen_row(nxt@) == fs_at(pal, img, wi, hi, y - 1, wi).nxt
                },
                forall|j: int| 0 <= j < w ==> ebound(#[trigger] nxt@[j], 141),
            decreases h - y,
        {
            core::mem::swap(&mut cur, &mut nxt);
            clear_row(&mut nxt);
            proof {
                assert(widen_row(cur@) == fs_at(pal, img, wi, hi, y as int, 0).cur);
                assert(widen_row(nxt@) == fs_at(pal, img, wi, hi, y as int, 0).nxt);
                assert(emitted@ == fs_at(pal, img, wi, hi, y as int, 0).emitted);
            }
            let mut x: usize = 0;
            while x < w
                invariant
                    rgb.wf(),
                    rgb.model == ColorModel::Rgb,
                    pal == palette@,
                    img == rgb.pixels@,
                    wi == rgb.width as int,
                    hi == rgb.height as int,
                    w == wi,
                    h == hi,
                    n == wi * hi,
                    palette@.len() % 3 == 0,
                    3 <= palette@.len() <= 768,
                    y < h,
                    x <= w,
                    cur@.len() == w,
                    nxt@.len() == w,
                    emitted@.len() == y * w + x,
                    forall|t: int|
                        0 <= t < emitted@.len() ==> (#[trigger] emitted@[t]) < pal_entries(pal),
                    emitted@ == fs_at(pal, img, wi, hi, y as int, x as int).emitted,
                    widen_row(cur@) == fs_at(pal, img, wi, hi, y as int, x as int).cur,
                    widen_row(nxt@) == fs_at(pal, img, wi, hi, y as int, x as int).nxt,
                    x < w ==> ebound(cur@[x as int], 252),
                    forall|j: int| x < j < w ==> ebound(#[trigger] cur@[j], 141),
                    forall|j: int|
                        0 <= j < w ==> ebound(#[trigger] nxt@[j], nxt_bound_at(j, x as int)),
                decreases w - x,
            {
                fs_scan_step(rgb, palette, &mut emitted, &mut cur, &mut nxt, x, y);
                x = x + 1;
            }
            proof {
                assert((y as int + 1) * wi == y as int * wi + wi) by (nonlinear_arith);
            }
            y = y + 1;
        }
        proof {
            if h > 0 {
                assert(emitted@ == fs_indices(pal, img, wi, hi));
            } else {
                assert(emitted@ =~= fs_indices(pal, img, wi, hi));
            }
        }
    } else {
        let mut k: usize = 0;
        while k < n
            invariant
                rgb.wf(),
                rgb.model == ColorModel::Rgb,
                pal == palette@,
                img == rgb.pixels@,
                n == rgb.spec_n_px(),
                palette@.len() % 3 == 0,
                3 <= palette@.len() <= 768,
                k <= n,
                emitted@ == nodither_indices(pal, img, k as int),
                emitted@.len() == k,
                forall|t: int|
                    0 <= t < emitted@.len() ==> (#[trigger] emitted@[t]) < pal_entries(pal),
            decreases n - k,
        {
            let px = read_rgba(rgb, k);
            let (idx, _) = find_nearest_palette_color(palette, px.0, px.1, px.2);
            emitted.push(idx);
            k = k + 1;
        }
        proof {
            assert(wi * hi == rgb.spec_n_px());
        }
    }
    // Resolve the emitted indices back to palette triples.
    let m = emitted.len();
    let mut out: Vec<u8> = Vec::new();
    let mut t: usize = 0;
    while t < m
        invariant
            palette@.len() % 3 == 0,
            3 <= palette@.len() <= 768,
            pal == palette@,
            m == emitted@.len(),
            t <= m,
            forall|u: int| 0 <= u < m ==> (#[trigger] emitted@[u]) < pal_entries(pal),
            out@ == indices_to_rgb(pal, emitted@.take(t as int)),
            out@.len() == 3 * t,
        decreases m - t,
    {
        let e = emitted[t] as usize;
        proof {
            vstd::arithmetic::div_mod::lemma_fundamental_div_mod(pal.len() as int, 3);
        }
        out.push(palette[3 * e]);
        out.push(palette[3 * e + 1]);
        out.push(palette[3 * e + 2]);
        proof {
            let pre = emitted@.take(t as int + 1);
            assert(pre.drop_last() =~= emitted@.take(t as int));
            assert(out@ =~= indices_to_rgb(pal, pre));
        }
        t = t + 1;
    }
    proof {
        assert(emitted@.take(m as int) =~= emitted@);
        assert(hi * wi == wi * hi) by (nonlinear_arith);
        assert(wi * hi * 3 == 3 * (wi * hi)) by (nonlinear_arith);
    }
    Raster { width: rgb.width, height: rgb.height, model: ColorModel::Rgb, pixels: out }
}


/// The bytes of a raster once forced to 8-bit RGB.
pub open spec fn to_rgb_bytes(img: Raster) -> Seq<u8> {
    convert_bytes(ColorModel::Rgb, img.model, img.pixels@, img.spec_n_px())
}

/// The palette that adaptive quantization of `img` with a requested size of
/// `colors` learns.
pub open spec fn adaptive_palette_spec(img: Raster, colors: int) -> Seq<u8> {
    neuquant_palette_of(10, clamp_colors(colors), rgba_quads(to_rgb_bytes(img), img.spec_n_px()))
}

/// Reduce a raster to an indexed palette and resolve every index straight
/// back to its RGB triple: `"WEB"` uses the fixed 216-entry web-safe palette
/// (`colors` is ignored), `"ADAPTIVE"` learns a palette of the requested
/// size, clamped to [2, 256], from the raster itself; any other name is
/// rejected. With `apply_dither` the pass is the strict raster-order
/// Floyd-Steinberg scan, without it each pixel maps independently.
pub fn quantize_to_palette(
    img: &Raster,
    palette_type: &str,
    colors: u32,
    apply_dither: bool,
) -> (r: Result<Raster, PuhuError>)
    requires
        img.wf(),
        img.spec_n_px() * 4 <= usize::MAX,
    ensures
        r is Ok <==> (palette_type@ == "WEB"@ || palette_type@ == "ADAPTIVE"@),
        r matches Ok(out) ==> {
            &&& out.width == img.width
            &&& out.height == img.height
            &&& out.model == ColorModel::Rgb
            &&& out.wf()
            &&& (palette_type@ == "WEB"@ ==> out.pixels@ == quantize_bytes(
                web_palette(),
                to_rgb_bytes(*img),
                img.width as int,
                img.height as int,
                apply_dither,
            ))
            &&& (palette_type@ == "ADAPTIVE"@ ==> out.pixels@ == quantize_bytes(
                adaptive_palette_spec(*img, colors as int),
                to_rgb_bytes(*img),
                img.width as int,
                img.height as int,
                apply_dither,
            ))
        },
{
    proof {
        reveal_strlit("WEB");
        reveal_strlit("ADAPTIVE");
        assert("WEB"@.len() == 3);
        assert("ADAPTIVE"@.len() == 8);
        assert("WEB"@ != "ADAPTIVE"@);
    }
    let pal: Vec<u8> = if str_eq(palette_type, "WEB") {
        generate_web_palette()
    } else if str_eq(palette_type, "ADAPTIVE") {
        build_adaptive_palette(img, colors)
    } else {
        return Err(
            PuhuError::InvalidOperation(
                String::from_str("Unsupported palette type: '").concat(palette_type).concat(
                    "'. Use 'WEB' or 'ADAPTIVE'",
                ),
            ),
        );
    };
    let rgb = convert_model(img, ColorModel::Rgb);
    Ok(quantize_raster(&rgb, &pal, apply_dither))
}

/// Quantization is a pure function of palette, pixels, extent and the
/// dithering choice: two passes over the same inputs produce bit-identical
/// bytes, with error diffusion and without it.
pub proof fn lemma_quantize_deterministic(
    pal: Seq<u8>,
    img: Seq<u8>,
    w: int,
    h: int,
    dither: bool,
    out1: Seq<u8>,
    out2: Seq<u8>,
)
    requires
        out1 == quantize_bytes(pal, img, w, h, dither),
        out2 == quantize_bytes(pal, img, w, h, dither),
    ensures
        out1 == out2,
{
}

/// `quantize_to_palette` is a pure function of raster, palette choice,
/// color count and dithering flag: any two results whose bytes satisfy its
/// contract for the same inputs are bit-identical, with error diffusion and
/// without it.
pub proof fn lemma_quantize_to_palette_deterministic(
    img: Raster,
    pt: Seq<char>,
    colors: u32,
    dither: bool,
    o1: Raster,
    o2: Raster,
)
    requires
        pt == "WEB"@ ==> o1.pixels@ == quantize_bytes(
            web_palette(),
            to_rgb_bytes(img),
            img.width as int,
            img.height as int,
            dither,
        ) && o2.pixels@ == quantize_bytes(
            web_palette(),
            to_rgb_bytes(img),
            img.width as int,
            img.height as int,
            dither,
        ),
        pt == "ADAPTIVE"@ ==> o1.pixels@ == quantize_bytes(
            adaptive_palette_spec(img, colors as int),
            to_rgb_bytes(img),
            img.width as int,
            img.height as int,
            dither,
        ) && o2.pixels@ == quantize_bytes(
            adaptive_palette_spec(img, colors as int),
            to_rgb_bytes(img),
            img.width as int,
            img.height as int,
            dither,
        ),
        pt == "WEB"@ || pt == "ADAPTIVE"@,
    ensures
        o1.pixels@ == o2.pixels@,
{
}

/// On a single-pixel raster the error-diffusion pass agrees with the
/// independent nearest-color pass: no accumulated error reaches the pixel
/// and there is no neighbor to carry error to.
pub proof fn lemma_single_pixel_dither_matches(pal: Seq<u8>, img: Seq<u8>)
    ensures
        quantize_bytes(pal, img, 1, 1, true) == quantize_bytes(pal, img, 1, 1, false),
{
    let st0 = fs_at(pal, img, 1, 1, 0, 0);
    assert(st0.cur == zero_row(1));
    assert(st0.cur[0] == (0int, 0int, 0int));
    let px = rgb_px(img, 0);
    assert(clamp255(px.0 + 0) == px.0);
    assert(clamp255(px.1 + 0) == px.1);
    assert(clamp255(px.2 + 0) == px.2);
    let st1 = fs_at(pal, img, 1, 1, 0, 1);
    assert(st1 == fs_step(pal, img, 1, 1, st0, 0, 0));
    assert(st1.emitted == Seq::<u8>::empty().push(nearest_idx(pal, px.0, px.1, px.2) as u8));
    assert(nodither_indices(pal, img, 1) == nodither_indices(pal, img, 0).push(
        nearest_idx(pal, px.0, px.1, px.2) as u8,
    ));
    assert(quantize_indices(pal, img, 1, 1, true) == quantize_indices(pal, img, 1, 1, false));
}

} // verus!
