use vstd::prelude::*;
use vstd::pervasive::VecAdditionalExecFns;
use vstd::arithmetic::div_mod::lemma_div_is_ordered;
use crate::convert::{convert_bytes, convert_model, luma_u8};
use crate::errors::PuhuError;
use crate::raster::{encode_rgba, px_rgba, ColorModel, Raster};

verus! {

/// One blended channel: the source weighted by the mask value over 255, the
/// destination by the remainder, the quotient truncated.
pub open spec fn blend_channel(s: int, d: int, m: int) -> int {
    (s * m + d * (255 - m)) / 255
}

/// The blended RGBA view of a source pixel over a destination pixel under
/// mask weight `m`: the color channels always blend; the alpha channel
/// blends only when both layouts carry one and is forced opaque otherwise.
pub open spec fn blended_rgba(s: Seq<u8>, d: Seq<u8>, m: int, both_alpha: bool) -> Seq<u8> {
    seq![
        blend_channel(s[0] as int, d[0] as int, m) as u8,
        blend_channel(s[1] as int, d[1] as int, m) as u8,
        blend_channel(s[2] as int, d[2] as int, m) as u8,
        if both_alpha {
            blend_channel(s[3] as int, d[3] as int, m) as u8
        } else {
            255u8
        },
    ]
}

/// The single-channel weight the mask contributes at `(sx, sy)`: its pixel
/// reduced to luma.
pub open spec fn mask_luma(mask: Raster, sx: int, sy: int) -> int {
    convert_bytes(ColorModel::L, mask.model, mask.pixels@, mask.spec_n_px())[sy * mask.width as int
        + sx] as int
}

/// The bytes pixel `(cx, cy)` of the destination holds after a paste: inside
/// the pasted window the blended pixel, stored in the destination's layout;
/// outside it the old bytes.
pub open spec fn paste_px(
    dold: Raster,
    src: Raster,
    mask: Raster,
    x: int,
    y: int,
    cx: int,
    cy: int,
) -> Seq<u8> {
    let sx = cx - x;
    let sy = cy - y;
    if 0 <= sx < src.width as int && 0 <= sy < src.height as int {
        encode_rgba(
            dold.model,
            blended_rgba(
                src.rgba_at(sx, sy),
                dold.rgba_at(cx, cy),
                mask_luma(mask, sx, sy),
                src.model.has_alpha() && dold.model.has_alpha(),
            ),
        )
    } else {
        dold.px_bytes(cx, cy)
    }
}

/// The paste has reached row `rows`, column `cols` of the source in raster
/// order: every earlier source pixel's destination cell holds its blended
/// bytes, and every other cell its old bytes.
pub open spec fn paste_done_upto(
    dold: Raster,
    dnew: Raster,
    src: Raster,
    mask: Raster,
    x: int,
    y: int,
    rows: int,
    cols: int,
) -> bool {
    forall|cx: int, cy: int|
        0 <= cx < dold.width as int && 0 <= cy < dold.height as int ==> (
        #[trigger] dnew.px_bytes(cx, cy)) == {
            let sx = cx - x;
            let sy = cy - y;
            if 0 <= sx < src.width as int && 0 <= sy < src.height as int && (sy < rows || (sy
                == rows && sx < cols)) {
                paste_px(dold, src, mask, x, y, cx, cy)
            } else {
                dold.px_bytes(cx, cy)
            }
        }
}

/// Weighted products of bytes stay within one byte after division by 255.
proof fn lemma_blend_bound(s: int, d: int, m: int)
    by (nonlinear_arith)
    requires
        0 <= s <= 255,
        0 <= d <= 255,
        0 <= m <= 255,
    ensures
        0 <= s * m + d * (255 - m) <= 65025,
{
}

/// One blended channel, on bytes.
fn blend_u8(s: u8, d: u8, m: u8) -> (r: u8)
    ensures
        r as int == blend_channel(s as int, d as int, m as int),
{
    proof {
        lemma_blend_bound(s as int, d as int, m as int);
    }
    let num: u32 = (s as u32) * (m as u32) + (d as u32) * (255 - (m as u32));
    proof {
        lemma_div_is_ordered(num as int, 65025, 255);
        lemma_div_is_ordered(0, num as int, 255);
    }
    (num / 255) as u8
}

/// The four channels of pixel `k` of a byte buffer in model `m`, read as
/// RGBA.
fn read_px_rgba(p: &Vec<u8>, m: ColorModel, k: usize) -> (c: (u8, u8, u8, u8))
    requires
        (k as int) * m.spec_bpp() + m.spec_bpp() <= p@.len(),
    ensures
        seq![c.0, c.1, c.2, c.3] == px_rgba(m, p@, k as int),
{
    let _len = p.len();
    match m {
        ColorModel::L => {
            let v = p[k];
            (v, v, v, 255)
        },
        ColorModel::La => {
            let v = p[2 * k];
            let a = p[2 * k + 1];
            (v, v, v, a)
        },
        ColorModel::Rgb => (p[3 * k], p[3 * k + 1], p[3 * k + 2], 255),
        ColorModel::Rgba => (p[4 * k], p[4 * k + 1], p[4 * k + 2], p[4 * k + 3]),
    }
}

/// Store an RGBA value as the bytes of pixel `k` of a buffer in model `m`,
/// leaving every other byte unchanged.
fn store_px(p: &mut Vec<u8>, m: ColorModel, k: usize, c: (u8, u8, u8, u8))
    requires
        (k as int) * m.spec_bpp() + m.spec_bpp() <= old(p)@.len(),
    ensures
        final(p)@.len() == old(p)@.len(),
        forall|i: int|
            0 <= i < old(p)@.len() && !((k as int) * m.spec_bpp() <= i < (k as int) * m.spec_bpp()
                + m.spec_bpp()) ==> final(p)@[i] == old(p)@[i],
        final(p)@.subrange(
            (k as int) * m.spec_bpp(),
            (k as int) * m.spec_bpp() + m.spec_bpp(),
        ) == encode_rgba(m, seq![c.0, c.1, c.2, c.3]),
{
    let _len = p.len();
    match m {
        ColorModel::L => {
            p.set(k, luma_u8(c.0, c.1, c.2));
        },
        ColorModel::La => {
            p.set(2 * k, luma_u8(c.0, c.1, c.2));
            p.set(2 * k + 1, c.3);
        },
        ColorModel::Rgb => {
            p.set(3 * k, c.0);
            p.set(3 * k + 1, c.1);
            p.set(3 * k + 2, c.2);
        },
        ColorModel::Rgba => {
            p.set(4 * k, c.0);
            p.set(4 * k + 1, c.1);
            p.set(4 * k + 2, c.2);
            p.set(4 * k + 3, c.3);
        },
    }
    proof {
        assert(p@.subrange(
            (k as int) * m.spec_bpp(),
            (k as int) * m.spec_bpp() + m.spec_bpp(),
        ) =~= encode_rgba(m, seq![c.0, c.1, c.2, c.3]));
    }
}

/// Two buffers that agree on one pixel's bytes give that pixel the same
/// RGBA view.
proof fn lemma_px_rgba_same_bytes(m: ColorModel, p1: Seq<u8>, p2: Seq<u8>, k: int)
    requires
        k >= 0,
        k * m.spec_bpp() + m.spec_bpp() <= p1.len(),
        k * m.spec_bpp() + m.spec_bpp() <= p2.len(),
        p1.subrange(k * m.spec_bpp(), k * m.spec_bpp() + m.spec_bpp()) == p2.subrange(
            k * m.spec_bpp(),
            k * m.spec_bpp() + m.spec_bpp(),
        ),
    ensures
        px_rgba(m, p1, k) == px_rgba(m, p2, k),
{
    let b = m.spec_bpp();
    let s1 = p1.subrange(k * b, k * b + b);
    let s2 = p2.subrange(k * b, k * b + b);
    match m {
        ColorModel::L => {
            assert(p1[k] == s1[0]);
            assert(p2[k] == s2[0]);
            assert(px_rgba(m, p1, k) =~= px_rgba(m, p2, k));
        },
        ColorModel::La => {
            assert(p1[2 * k] == s1[0]);
            assert(p1[2 * k + 1] == s1[1]);
            assert(p2[2 * k] == s2[0]);
            assert(p2[2 * k + 1] == s2[1]);
            assert(px_rgba(m, p1, k) =~= px_rgba(m, p2, k));
        },
        ColorModel::Rgb => {
            assert(p1[3 * k] == s1[0]);
            assert(p1[3 * k + 1] == s1[1]);
            assert(p1[3 * k + 2] == s1[2]);
            assert(p2[3 * k] == s2[0]);
            assert(p2[3 * k + 1] == s2[1]);
            assert(p2[3 * k + 2] == s2[2]);
            assert(px_rgba(m, p1, k) =~= px_rgba(m, p2, k));
        },
        ColorModel::Rgba => {
            assert(p1[4 * k] == s1[0]);
            assert(p1[4 * k + 1] == s1[1]);
            assert(p1[4 * k + 2] == s1[2]);
            assert(p1[4 * k + 3] == s1[3]);
            assert(p2[4 * k] == s2[0]);
            assert(p2[4 * k + 1] == s2[1]);
            assert(p2[4 * k + 2] == s2[2]);
            assert(p2[4 * k + 3] == s2[3]);
            assert(px_rgba(m, p1, k) =~= px_rgba(m, p2, k));
        },
    }
}

/// Distinct pixels of one buffer occupy disjoint byte ranges.
proof fn lemma_px_ranges_disjoint(k1: int, k2: int, b: int)
    by (nonlinear_arith)
    requires
        0 <= k1 < k2,
        1 <= b,
    ensures
        k1 * b + b <= k2 * b,
{
}

/// Grid positions map to distinct pixel indices.
proof fn lemma_grid_injective(cx1: int, cy1: int, cx2: int, cy2: int, w: int)
    by (nonlinear_arith)
    requires
        0 <= cx1 < w,
        0 <= cx2 < w,
        0 <= cy1,
        0 <= cy2,
        (cx1, cy1) != (cx2, cy2),
    ensures
        cy1 * w + cx1 != cy2 * w + cx2,
{
}

/// A grid position indexes a pixel of the grid.
proof fn lemma_grid_in_range(cx: int, cy: int, w: int, h: int)
    by (nonlinear_arith)
    requires
        0 <= cx < w,
        0 <= cy < h,
    ensures
        0 <= cy * w + cx < w * h,
        (cy * w + cx) * 1 < w * h * 1,
{
}

/// Blend one source pixel into its destination cell, when that cell lies
/// inside the destination; advance the processed region by one pixel.
#[verifier::rlimit(100)]
fn paste_one(
    dest: &mut Raster,
    src: &Raster,
    mask_l: &Raster,
    x: u32,
    y: u32,
    sx: usize,
    sy: usize,
    Ghost(dold): Ghost<Raster>,
    Ghost(mask0): Ghost<Raster>,
)
    requires
        old(dest).wf(),
        src.wf(),
        mask_l.wf(),
        mask0.wf(),
        mask_l.model == ColorModel::L,
        mask_l.width == mask0.width,
        mask_l.height == mask0.height,
        mask_l.pixels@ == convert_bytes(
            ColorModel::L,
            mask0.model,
            mask0.pixels@,
            mask0.spec_n_px(),
        ),
        sx < src.width,
        sy < src.height,
        src.width <= mask0.width,
        src.height <= mask0.height,
        old(dest).width == dold.width,
        old(dest).height == dold.height,
        old(dest).model == dold.model,
        dold.wf(),
        paste_done_upto(dold, *old(dest), *src, mask0, x as int, y as int, sy as int, sx as int),
    ensures
        final(dest).wf(),
        final(dest).width == dold.width,
        final(dest).height == dold.height,
        final(dest).model == dold.model,
        paste_done_upto(
            dold,
            *final(dest),
            *src,
            mask0,
            x as int,
            y as int,
            sy as int,
            sx as int + 1,
        ),
{
    let ghost pre = *dest;
    let cxl: u64 = x as u64 + sx as u64;
    let cyl: u64 = y as u64 + sy as u64;
    if cxl < dest.width as u64 && cyl < dest.height as u64 {
        let cx = cxl as usize;
        let cy = cyl as usize;
        let dw = dest.width as usize;
        let _n = dest.n_px();
        let _len = dest.pixels.len();
        let _ns = src.n_px();
        let _slen = src.pixels.len();
        let _nm = mask_l.pixels.len();
        proof {
            lemma_grid_in_range(cx as int, cy as int, dold.width as int, dold.height as int);
            lemma_grid_in_range(sx as int, sy as int, src.width as int, src.height as int);
            lemma_grid_in_range(
                sx as int,
                sy as int,
                mask0.width as int,
                mask0.height as int,
            );
            crate::raster::lemma_px_bytes_bound(
                (cy * dw + cx) as int,
                dold.spec_n_px(),
                dold.model.spec_bpp(),
            );
            crate::raster::lemma_px_bytes_bound(
                (sy * src.width as usize + sx) as int,
                src.spec_n_px(),
                src.model.spec_bpp(),
            );
        }
        let kd = cy * dw + cx;
        let ks = sy * (src.width as usize) + sx;
        let km = sy * (mask_l.width as usize) + sx;
        proof {
            lemma_grid_in_range(sx as int, sy as int, mask_l.width as int, mask_l.height as int);
            assert(mask_l.pixels@.len() == mask_l.spec_n_px()) by {
                assert(mask_l.width as int * mask_l.height as int * 1 == mask_l.width as int
                    * mask_l.height as int) by (nonlinear_arith);
            }
        }
        let mval = mask_l.pixels[km];
        let s = read_px_rgba(&src.pixels, src.model, ks);
        let d = read_px_rgba(&dest.pixels, dest.model, kd);
        let both_alpha = (matches!(src.model, ColorModel::La) || matches!(
            src.model,
            ColorModel::Rgba,
        )) && (matches!(dest.model, ColorModel::La) || matches!(dest.model, ColorModel::Rgba));
        let blended = (
            blend_u8(s.0, d.0, mval),
            blend_u8(s.1, d.1, mval),
            blend_u8(s.2, d.2, mval),
            if both_alpha {
                blend_u8(s.3, d.3, mval)
            } else {
                255
            },
        );
        proof {
            // The cell being written is not yet covered, so its current bytes
            // are still the untouched ones and the read destination pixel is the old
            // one.
            assert(pre.px_bytes(cx as int, cy as int) == dold.px_bytes(cx as int, cy as int));
            lemma_px_rgba_same_bytes(dold.model, pre.pixels@, dold.pixels@, kd as int);
            assert(seq![d.0, d.1, d.2, d.3] == dold.rgba_at(cx as int, cy as int));
            assert(mval as int == mask_luma(mask0, sx as int, sy as int));
            assert(seq![s.0, s.1, s.2, s.3] == src.rgba_at(sx as int, sy as int));
            assert(seq![blended.0, blended.1, blended.2, blended.3] =~= blended_rgba(
                src.rgba_at(sx as int, sy as int),
                dold.rgba_at(cx as int, cy as int),
                mask_luma(mask0, sx as int, sy as int),
                src.model.has_alpha() && dold.model.has_alpha(),
            ));
        }
        store_px(&mut dest.pixels, dest.model, kd, blended);
        proof {
            assert forall|ax: int, ay: int|
                0 <= ax < dold.width as int && 0 <= ay < dold.height as int implies (
            #[trigger] dest.px_bytes(ax, ay)) == {
                let tx = ax - x as int;
                let ty = ay - y as int;
                if 0 <= tx < src.width as int && 0 <= ty < src.height as int && (ty < sy as int || (
                ty == sy as int && tx < sx as int + 1)) {
                    paste_px(dold, *src, mask0, x as int, y as int, ax, ay)
                } else {
                    dold.px_bytes(ax, ay)
                }
            } by {
                lemma_grid_in_range(ax, ay, dold.width as int, dold.height as int);
                let ka = ay * dold.width as int + ax;
                if ka == kd as int {
                    lemma_grid_injective_converse(ax, ay, cx as int, cy as int, dold.width as int);
                    assert(dest.px_bytes(ax, ay) == paste_px(
                        dold,
                        *src,
                        mask0,
                        x as int,
                        y as int,
                        ax,
                        ay,
                    ));
                } else {
                    if ka < kd as int {
                        lemma_px_ranges_disjoint(ka, kd as int, dold.model.spec_bpp());
                    } else {
                        lemma_px_ranges_disjoint(kd as int, ka, dold.model.spec_bpp());
                    }
                    assert(dest.px_bytes(ax, ay) =~= pre.px_bytes(ax, ay));
                }
            }
        }
    } else {
        proof {
            assert forall|ax: int, ay: int|
                0 <= ax < dold.width as int && 0 <= ay < dold.height as int implies (
            #[trigger] dest.px_bytes(ax, ay)) == {
                let tx = ax - x as int;
                let ty = ay - y as int;
                if 0 <= tx < src.width as int && 0 <= ty < src.height as int && (ty < sy as int || (
                ty == sy as int && tx < sx as int + 1)) {
                    paste_px(dold, *src, mask0, x as int, y as int, ax, ay)
                } else {
                    dold.px_bytes(ax, ay)
                }
            } by {
            }
        }
    }
}

/// Two distinct positions in one grid never share a pixel index; hence a
/// position with the written pixel's index is the written position.
proof fn lemma_grid_injective_converse(cx1: int, cy1: int, cx2: int, cy2: int, w: int)
    requires
        0 <= cx1 < w,
        0 <= cx2 < w,
        0 <= cy1,
        0 <= cy2,
        cy1 * w + cx1 == cy2 * w + cx2,
    ensures
        cx1 == cx2,
        cy1 == cy2,
{
    if (cx1, cy1) != (cx2, cy2) {
        lemma_grid_injective(cx1, cy1, cx2, cy2, w);
    }
}

/// Paste a source raster onto the destination at offset `(x, y)`, each pixel
/// weighted by the mask's luma at the source position: the destination pixel
/// becomes `src * m/255 + dest * (1 - m/255)` per color channel. Cells that
/// fall outside the destination are silently skipped. The mask must cover
/// the source's extent.
#[verifier::rlimit(30)]
pub fn paste_with_mask(dest: &mut Raster, src: &Raster, x: u32, y: u32, mask: &Raster) -> (r:
    Result<(), PuhuError>)
    requires
        old(dest).wf(),
        src.wf(),
        mask.wf(),
        mask.width >= src.width,
        mask.height >= src.height,
    ensures
        r is Ok,
        final(dest).wf(),
        final(dest).width == old(dest).width,
        final(dest).height == old(dest).height,
        final(dest).model == old(dest).model,
        forall|cx: int, cy: int|
            0 <= cx < old(dest).width as int && 0 <= cy < old(dest).height as int ==> (
            #[trigger] final(dest).px_bytes(cx, cy)) == paste_px(
                *old(dest),
                *src,
                *mask,
                x as int,
                y as int,
                cx,
                cy,
            ),
{
    let ghost dold = *dest;
    let mask_l = convert_model(mask, ColorModel::L);
    let sh = src.height as usize;
    let sw = src.width as usize;
    let mut sy: usize = 0;
    while sy < sh
        invariant
            dest.wf(),
            src.wf(),
            mask_l.wf(),
            mask.wf(),
            dold.wf(),
            mask_l.model == ColorModel::L,
            mask_l.width == mask.width,
            mask_l.height == mask.height,
            mask_l.pixels@ == convert_bytes(
                ColorModel::L,
                mask.model,
                mask.pixels@,
                mask.spec_n_px(),
            ),
            mask.width >= src.width,
            mask.height >= src.height,
            sw == src.width,
            sh == src.height,
            sy <= sh,
            dest.width == dold.width,
            dest.height == dold.height,
            dest.model == dold.model,
            paste_done_upto(dold, *dest, *src, *mask, x as int, y as int, sy as int, 0),
        decreases sh - sy,
    {
        let mut sx: usize = 0;
        while sx < sw
            invariant
                dest.wf(),
                src.wf(),
                mask_l.wf(),
                mask.wf(),
                dold.wf(),
                mask_l.model == ColorModel::L,
                mask_l.width == mask.width,
                mask_l.height == mask.height,
                mask_l.pixels@ == convert_bytes(
                    ColorModel::L,
                    mask.model,
                    mask.pixels@,
                    mask.spec_n_px(),
                ),
                mask.width >= src.width,
                mask.height >= src.height,
                sw == src.width,
                sh == src.height,
                sy < sh,
                sx <= sw,
                dest.width == dold.width,
                dest.height == dold.height,
                dest.model == dold.model,
                paste_done_upto(dold, *dest, *src, *mask, x as int, y as int, sy as int, sx as int),
            decreases sw - sx,
        {
            paste_one(dest, src, &mask_l, x, y, sx, sy, Ghost(dold), Ghost(*mask));
            sx = sx + 1;
        }
        proof {
            assert forall|cx: int, cy: int|
                0 <= cx < dold.width as int && 0 <= cy < dold.height as int implies (
            #[trigger] dest.px_bytes(cx, cy)) == {
                let tx = cx - x as int;
                let ty = cy - y as int;
                if 0 <= tx < src.width as int && 0 <= ty < src.height as int && (ty < sy as int + 1
                    || (ty == sy as int + 1 && tx < 0)) {
                    paste_px(dold, *src, *mask, x as int, y as int, cx, cy)
                } else {
                    dold.px_bytes(cx, cy)
                }
            } by {
            }
        }
        sy = sy + 1;
    }
    Ok(())
}

/// The bytes pixel `(cx, cy)` holds after a region fill: inside the window
/// the fill color stored in the destination's layout, outside it the old
/// bytes.
pub open spec fn fill_px(
    dold: Raster,
    x: int,
    y: int,
    w: int,
    h: int,
    color: (u8, u8, u8, u8),
    cx: int,
    cy: int,
) -> Seq<u8> {
    if x <= cx < x + w && y <= cy < y + h {
        encode_rgba(dold.model, seq![color.0, color.1, color.2, color.3])
    } else {
        dold.px_bytes(cx, cy)
    }
}

/// The fill has reached row `rows`, column `cols` of the window.
pub open spec fn fill_done_upto(
    dold: Raster,
    dnew: Raster,
    x: int,
    y: int,
    w: int,
    h: int,
    color: (u8, u8, u8, u8),
    rows: int,
    cols: int,
) -> bool {
    forall|cx: int, cy: int|
        0 <= cx < dold.width as int && 0 <= cy < dold.height as int ==> (
        #[trigger] dnew.px_bytes(cx, cy)) == {
            let tx = cx - x;
            let ty = cy - y;
            if 0 <= tx < w && 0 <= ty < h && (ty < rows || (ty == rows && tx < cols)) {
                encode_rgba(dold.model, seq![color.0, color.1, color.2, color.3])
            } else {
                dold.px_bytes(cx, cy)
            }
        }
}

/// Write the fill color into one window cell, when it lies inside the
/// destination; advance the processed region by one pixel.
#[verifier::rlimit(100)]
fn fill_one(
    dest: &mut Raster,
    x: u32,
    y: u32,
    width: u32,
    height: u32,
    color: (u8, u8, u8, u8),
    dx: usize,
    dy: usize,
    Ghost(dold): Ghost<Raster>,
)
    requires
        old(dest).wf(),
        dx < width,
        dy < height,
        old(dest).width == dold.width,
        old(dest).height == dold.height,
        old(dest).model == dold.model,
        dold.wf(),
        fill_done_upto(
            dold,
            *old(dest),
            x as int,
            y as int,
            width as int,
            height as int,
            color,
            dy as int,
            dx as int,
        ),
    ensures
        final(dest).wf(),
        final(dest).width == dold.width,
        final(dest).height == dold.height,
        final(dest).model == dold.model,
        fill_done_upto(
            dold,
            *final(dest),
            x as int,
            y as int,
            width as int,
            height as int,
            color,
            dy as int,
            dx as int + 1,
        ),
{
    let ghost pre = *dest;
    let cxl: u64 = x as u64 + dx as u64;
    let cyl: u64 = y as u64 + dy as u64;
    if cxl < dest.width as u64 && cyl < dest.height as u64 {
        let cx = cxl as usize;
        let cy = cyl as usize;
        let dw = dest.width as usize;
        let _n = dest.n_px();
        let _len = dest.pixels.len();
        proof {
            lemma_grid_in_range(cx as int, cy as int, dold.width as int, dold.height as int);
            crate::raster::lemma_px_bytes_bound(
                (cy * dw + cx) as int,
                dold.spec_n_px(),
                dold.model.spec_bpp(),
            );
        }
        let kd = cy * dw + cx;
        store_px(&mut dest.pixels, dest.model, kd, color);
        proof {
            assert forall|ax: int, ay: int|
                0 <= ax < dold.width as int && 0 <= ay < dold.height as int implies (
            #[trigger] dest.px_bytes(ax, ay)) == {
                let tx = ax - x as int;
                let ty = ay - y as int;
                if 0 <= tx < width as int && 0 <= ty < height as int && (ty < dy as int || (ty
                    == dy as int && tx < dx as int + 1)) {
                    encode_rgba(dold.model, seq![color.0, color.1, color.2, color.3])
                } else {
                    dold.px_bytes(ax, ay)
                }
            } by {
                lemma_grid_in_range(ax, ay, dold.width as int, dold.height as int);
                let ka = ay * dold.width as int + ax;
                if ka == kd as int {
                    lemma_grid_injective_converse(ax, ay, cx as int, cy as int, dold.width as int);
                } else {
                    if ka < kd as int {
                        lemma_px_ranges_disjoint(ka, kd as int, dold.model.spec_bpp());
                    } else {
                        lemma_px_ranges_disjoint(kd as int, ka, dold.model.spec_bpp());
                    }
                    assert(dest.px_bytes(ax, ay) =~= pre.px_bytes(ax, ay));
                }
            }
        }
    } else {
        proof {
            assert forall|ax: int, ay: int|
                0 <= ax < dold.width as int && 0 <= ay < dold.height as int implies (
            #[trigger] dest.px_bytes(ax, ay)) == {
                let tx = ax - x as int;
                let ty = ay - y as int;
                if 0 <= tx < width as int && 0 <= ty < height as int && (ty < dy as int || (ty
                    == dy as int && tx < dx as int + 1)) {
                    encode_rgba(dold.model, seq![color.0, color.1, color.2, color.3])
                } else {
                    dold.px_bytes(ax, ay)
                }
            } by {
            }
        }
    }
}

/// Fill a rectangular window of the destination with one flat color, stored
/// in the destination's layout; any part of the window outside the
/// destination is silently skipped.
#[verifier::rlimit(30)]
pub fn fill_region(
    dest: &mut Raster,
    x: u32,
    y: u32,
    width: u32,
    height: u32,
    color: (u8, u8, u8, u8),
) -> (r: Result<(), PuhuError>)
    requires
        old(dest).wf(),
    ensures
        r is Ok,
        final(dest).wf(),
        final(dest).width == old(dest).width,
        final(dest).height == old(dest).height,
        final(dest).model == old(dest).model,
        forall|cx: int, cy: int|
            0 <= cx < old(dest).width as int && 0 <= cy < old(dest).height as int ==> (
            #[trigger] final(dest).px_bytes(cx, cy)) == fill_px(
                *old(dest),
                x as int,
                y as int,
                width as int,
                height as int,
                color,
                cx,
                cy,
            ),
{
    let ghost dold = *dest;
    let mut dy: usize = 0;
    while dy < height as usize
        invariant
            dest.wf(),
            dold.wf(),
            dy <= height,
            dest.width == dold.width,
            dest.height == dold.height,
            dest.model == dold.model,
            fill_done_upto(
                dold,
                *dest,
                x as int,
                y as int,
                width as int,
                height as int,
                color,
                dy as int,
                0,
            ),
        decreases height - dy,
    {
        let mut dx: usize = 0;
        while dx < width as usize
            invariant
                dest.wf(),
                dold.wf(),
                dy < height,
                dx <= width,
                dest.width == dold.width,
                dest.height == dold.height,
                dest.model == dold.model,
                fill_done_upto(
                    dold,
                    *dest,
                    x as int,
                    y as int,
                    width as int,
                    height as int,
                    color,
                    dy as int,
                    dx as int,
                ),
            decreases width - dx,
        {
            fill_one(dest, x, y, width, height, color, dx, dy, Ghost(dold));
            dx = dx + 1;
        }
        proof {
            assert forall|cx: int, cy: int|
                0 <= cx < dold.width as int && 0 <= cy < dold.height as int implies (
            #[trigger] dest.px_bytes(cx, cy)) == {
                let tx = cx - x as int;
                let ty = cy - y as int;
                if 0 <= tx < width as int && 0 <= ty < height as int && (ty < dy as int + 1 || (ty
                    == dy as int + 1 && tx < 0)) {
                    encode_rgba(dold.model, seq![color.0, color.1, color.2, color.3])
                } else {
                    dold.px_bytes(cx, cy)
                }
            } by {
            }
        }
        dy = dy + 1;
    }
    Ok(())
}


/// A pixel's bytes lie inside its buffer.
proof fn lemma_px_seq_bound(k: int, n: int, b: int)
    by (nonlinear_arith)
    requires
        0 <= k < n,
        1 <= b,
    ensures
        0 <= k * b,
        k * b + b <= n * b,
{
}

/// Storing a pixel's own RGBA view back into its model reproduces its
/// stored bytes.
proof fn lemma_encode_own_px(m: ColorModel, p: Seq<u8>, k: int)
    requires
        k >= 0,
        k * m.spec_bpp() + m.spec_bpp() <= p.len(),
    ensures
        encode_rgba(m, px_rgba(m, p, k)) == p.subrange(
            k * m.spec_bpp(),
            k * m.spec_bpp() + m.spec_bpp(),
        ),
{
    let b = m.spec_bpp();
    let sub = p.subrange(k * b, k * b + b);
    match m {
        ColorModel::L => {
            let v = p[k];
            assert(2126 * (v as int) + 7152 * (v as int) + 722 * (v as int) == 10000 * (v as int));
            vstd::arithmetic::div_mod::lemma_div_multiples_vanish(v as int, 10000);
            assert(sub[0] == p[k]);
            assert(encode_rgba(m, px_rgba(m, p, k)) =~= sub);
        },
        ColorModel::La => {
            let v = p[2 * k];
            assert(2126 * (v as int) + 7152 * (v as int) + 722 * (v as int) == 10000 * (v as int));
            vstd::arithmetic::div_mod::lemma_div_multiples_vanish(v as int, 10000);
            assert(sub[0] == p[2 * k]);
            assert(sub[1] == p[2 * k + 1]);
            assert(encode_rgba(m, px_rgba(m, p, k)) =~= sub);
        },
        ColorModel::Rgb => {
            assert(sub[0] == p[3 * k]);
            assert(sub[1] == p[3 * k + 1]);
            assert(sub[2] == p[3 * k + 2]);
            assert(encode_rgba(m, px_rgba(m, p, k)) =~= sub);
        },
        ColorModel::Rgba => {
            assert(sub[0] == p[4 * k]);
            assert(sub[1] == p[4 * k + 1]);
            assert(sub[2] == p[4 * k + 2]);
            assert(sub[3] == p[4 * k + 3]);
            assert(encode_rgba(m, px_rgba(m, p, k)) =~= sub);
        },
    }
}

/// Under a mask that reads as zero everywhere, a paste gives every
/// destination pixel its old bytes, provided the source carries an alpha
/// channel whenever the destination does (with an alpha-less source over an
/// alpha destination the forced-opaque output alpha could differ from the
/// old one).
pub proof fn lemma_paste_zero_mask(
    dold: Raster,
    src: Raster,
    mask: Raster,
    x: int,
    y: int,
    cx: int,
    cy: int,
)
    requires
        dold.wf(),
        src.wf(),
        mask.wf(),
        mask.width >= src.width,
        mask.height >= src.height,
        dold.model.has_alpha() ==> src.model.has_alpha(),
        0 <= cx < dold.width as int,
        0 <= cy < dold.height as int,
        forall|sx: int, sy: int|
            0 <= sx < mask.width as int && 0 <= sy < mask.height as int ==> #[trigger] mask_luma(
                mask,
                sx,
                sy,
            ) == 0,
    ensures
        paste_px(dold, src, mask, x, y, cx, cy) == dold.px_bytes(cx, cy),
{
    let sx = cx - x;
    let sy = cy - y;
    if 0 <= sx < src.width as int && 0 <= sy < src.height as int {
        let m = mask_luma(mask, sx, sy);
        assert(m == 0);
        let kd = cy * dold.width as int + cx;
        lemma_grid_in_range(cx, cy, dold.width as int, dold.height as int);
        lemma_px_seq_bound(kd, dold.spec_n_px(), dold.model.spec_bpp());
        let s = src.rgba_at(sx, sy);
        let d = dold.rgba_at(cx, cy);
        assert(s[0] as int * 0 + d[0] as int * 255 == 255 * (d[0] as int));
        vstd::arithmetic::div_mod::lemma_div_multiples_vanish(d[0] as int, 255);
        vstd::arithmetic::div_mod::lemma_div_multiples_vanish(d[1] as int, 255);
        vstd::arithmetic::div_mod::lemma_div_multiples_vanish(d[2] as int, 255);
        vstd::arithmetic::div_mod::lemma_div_multiples_vanish(d[3] as int, 255);
        assert(blend_channel(s[0] as int, d[0] as int, 0) == d[0] as int);
        assert(blend_channel(s[1] as int, d[1] as int, 0) == d[1] as int);
        assert(blend_channel(s[2] as int, d[2] as int, 0) == d[2] as int);
        assert(blend_channel(s[3] as int, d[3] as int, 0) == d[3] as int);
        let bl = blended_rgba(s, d, 0, src.model.has_alpha() && dold.model.has_alpha());
        assert(encode_rgba(dold.model, bl) =~= encode_rgba(dold.model, d));
        lemma_encode_own_px(dold.model, dold.pixels@, kd);
    }
}

/// Under a mask that reads as 255 everywhere, a paste makes every covered
/// destination pixel hold exactly the source pixel's bytes, when source and
/// destination share one layout.
pub proof fn lemma_paste_full_mask(
    dold: Raster,
    src: Raster,
    mask: Raster,
    x: int,
    y: int,
    cx: int,
    cy: int,
)
    requires
        dold.wf(),
        src.wf(),
        mask.wf(),
        mask.width >= src.width,
        mask.height >= src.height,
        src.model == dold.model,
        0 <= cx < dold.width as int,
        0 <= cy < dold.height as int,
        0 <= cx - x < src.width as int,
        0 <= cy - y < src.height as int,
        forall|sx: int, sy: int|
            0 <= sx < mask.width as int && 0 <= sy < mask.height as int ==> #[trigger] mask_luma(
                mask,
                sx,
                sy,
            ) == 255,
    ensures
        paste_px(dold, src, mask, x, y, cx, cy) == src.px_bytes(cx - x, cy - y),
{
    let sx = cx - x;
    let sy = cy - y;
    let m = mask_luma(mask, sx, sy);
    assert(m == 255);
    let ks = sy * src.width as int + sx;
    lemma_grid_in_range(sx, sy, src.width as int, src.height as int);
    lemma_px_seq_bound(ks, src.spec_n_px(), src.model.spec_bpp());
    let s = src.rgba_at(sx, sy);
    let d = dold.rgba_at(cx, cy);
    assert(s[0] as int * 255 + d[0] as int * (255 - 255) == 255 * (s[0] as int));
    vstd::arithmetic::div_mod::lemma_div_multiples_vanish(s[0] as int, 255);
    vstd::arithmetic::div_mod::lemma_div_multiples_vanish(s[1] as int, 255);
    vstd::arithmetic::div_mod::lemma_div_multiples_vanish(s[2] as int, 255);
    vstd::arithmetic::div_mod::lemma_div_multiples_vanish(s[3] as int, 255);
    assert(blend_channel(s[0] as int, d[0] as int, 255) == s[0] as int);
    assert(blend_channel(s[1] as int, d[1] as int, 255) == s[1] as int);
    assert(blend_channel(s[2] as int, d[2] as int, 255) == s[2] as int);
    assert(blend_channel(s[3] as int, d[3] as int, 255) == s[3] as int);
    let bl = blended_rgba(s, d, 255, src.model.has_alpha() && dold.model.has_alpha());
    assert(bl =~= s);
    lemma_encode_own_px(src.model, src.pixels@, ks);
}

/// Two well-formed rasters of one extent and layout whose pixels all hold
/// the same bytes hold the same buffer.
pub proof fn lemma_px_bytes_determine(a: Raster, b: Raster)
    requires
        a.wf(),
        b.wf(),
        a.width == b.width,
        a.height == b.height,
        a.model == b.model,
        forall|cx: int, cy: int|
            0 <= cx < a.width as int && 0 <= cy < a.height as int ==> #[trigger] a.px_bytes(cx, cy)
                == b.px_bytes(cx, cy),
    ensures
        a.pixels@ == b.pixels@,
{
    let w = a.width as int;
    let h = a.height as int;
    let bp = a.model.spec_bpp();
    assert forall|i: int| 0 <= i < a.pixels@.len() implies a.pixels@[i] == b.pixels@[i] by {
        vstd::arithmetic::div_mod::lemma_fundamental_div_mod(i, bp);
        vstd::arithmetic::div_mod::lemma_mod_pos_bound(i, bp);
        let k = i / bp;
        let j = i % bp;
        assert(0 <= k < w * h) by (nonlinear_arith)
            requires
                i == bp * k + j && 0 <= j < bp && 0 <= i < w * h * bp && bp >= 1,
        ;
        assert(w > 0) by (nonlinear_arith)
            requires
                0 <= k < w * h && w >= 0 && h >= 0,
        ;
        vstd::arithmetic::div_mod::lemma_fundamental_div_mod(k, w);
        vstd::arithmetic::div_mod::lemma_mod_pos_bound(k, w);
        let cx = k % w;
        let cy = k / w;
        assert(0 <= cy < h) by (nonlinear_arith)
            requires
                k == w * cy + cx && 0 <= cx < w && 0 <= k < w * h && w >= 1,
        ;
        lemma_px_seq_bound(k, w * h, bp);
        assert(a.px_bytes(cx, cy)[j] == a.pixels@[k * bp + j]);
        assert(b.px_bytes(cx, cy)[j] == b.pixels@[k * bp + j]);
        assert(i == k * bp + j);
    }
    assert(a.pixels@ =~= b.pixels@);
}

/// A paste under an all-zero mask leaves the destination's whole buffer
/// unchanged (source with alpha whenever the destination has it).
pub proof fn lemma_paste_zero_mask_unchanged(
    dold: Raster,
    dnew: Raster,
    src: Raster,
    mask: Raster,
    x: int,
    y: int,
)
    requires
        dold.wf(),
        dnew.wf(),
        src.wf(),
        mask.wf(),
        mask.width >= src.width,
        mask.height >= src.height,
        dold.model.has_alpha() ==> src.model.has_alpha(),
        dnew.width == dold.width,
        dnew.height == dold.height,
        dnew.model == dold.model,
        forall|cx: int, cy: int|
            0 <= cx < dold.width as int && 0 <= cy < dold.height as int ==> #[trigger] dnew.px_bytes(
                cx,
                cy,
            ) == paste_px(dold, src, mask, x, y, cx, cy),
        forall|sx: int, sy: int|
            0 <= sx < mask.width as int && 0 <= sy < mask.height as int ==> #[trigger] mask_luma(
                mask,
                sx,
                sy,
            ) == 0,
    ensures
        dnew.pixels@ == dold.pixels@,
{
    assert forall|cx: int, cy: int|
        0 <= cx < dnew.width as int && 0 <= cy < dnew.height as int implies #[trigger] dnew.px_bytes(
        cx,
        cy,
    ) == dold.px_bytes(cx, cy) by {
        lemma_paste_zero_mask(dold, src, mask, x, y, cx, cy);
    }
    lemma_px_bytes_determine(dnew, dold);
}

} // verus!
