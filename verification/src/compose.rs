//! Compositing layer images onto a canvas with normal alpha blending
//! (ltPsNormal).

use vstd::prelude::*;
use crate::tlg5::Image;
use vstd::arithmetic::div_mod::lemma_fundamental_div_mod_converse;

verus! {

/// Alpha-blends the source pixel `src` (RGBA) over the canvas pixel `dst`
/// at `opacity` (0..255): the source alpha is first scaled by the opacity;
/// an opaque result replaces the pixel, a transparent one leaves it, and
/// otherwise colours mix by alpha with rounding.
pub open spec fn blend_px(dst: Seq<u8>, src: Seq<u8>, opacity: int) -> Seq<u8> {
    let a = if opacity != 255 { (src[3] * opacity) / 255 } else { src[3] as int };
    if a == 255 {
        seq![src[0], src[1], src[2], 255u8]
    } else if a == 0 {
        dst
    } else {
        let da = (dst[3] * (255 - a)) / 255;
        let oa = a + da;
        seq![
            ((src[0] * a + dst[0] * da + oa / 2) / oa) as u8,
            ((src[1] * a + dst[1] * da + oa / 2) / oa) as u8,
            ((src[2] * a + dst[2] * da + oa / 2) / oa) as u8,
            oa as u8,
        ]
    }
}

/// Whether canvas pixel (x, y) is covered by an `iw` x `ih` image placed at
/// (left, top), within a `cw` x `ch` canvas.
pub open spec fn covered(x: int, y: int, cw: int, ch: int, iw: int, ih: int, left: int, top: int) -> bool {
    &&& 0 <= x && left <= x && x < cw && x < left + iw
    &&& 0 <= y && top <= y && y < ch && y < top + ih
}

/// The canvas after blending the image onto it: each covered pixel is
/// blended with the image pixel above it, every other byte stays.
pub open spec fn blend_result(
    canvas: Seq<u8>,
    cw: int,
    ch: int,
    px: Seq<u8>,
    iw: int,
    ih: int,
    left: int,
    top: int,
    opacity: int,
) -> Seq<u8> {
    Seq::new(
        canvas.len(),
        |i: int|
            {
                let k = i / 4;
                let x = k % cw;
                let y = k / cw;
                if cw > 0 && covered(x, y, cw, ch, iw, ih, left, top) {
                    let s = ((y - top) * iw + (x - left)) * 4;
                    blend_px(canvas.subrange(k * 4, k * 4 + 4), px.subrange(s, s + 4), opacity)[i % 4]
                } else {
                    canvas[i]
                }
            },
    )
}

/// Blends the 4 source bytes at `s` onto the canvas bytes at `d`.
fn blend_pixel(canvas: &mut Vec<u8>, d: usize, px: &[u8], s: usize, opacity: u32)
    requires
        d + 4 <= old(canvas)@.len(),
        s + 4 <= px@.len(),
        opacity <= 255,
    ensures
        final(canvas)@.len() == old(canvas)@.len(),
        forall|i: int|
            0 <= i < old(canvas)@.len() && !(d <= i < d + 4) ==> final(canvas)@[i] == old(canvas)@[i],
        final(canvas)@.subrange(d as int, d + 4) == blend_px(
            old(canvas)@.subrange(d as int, d + 4),
            px@.subrange(s as int, s + 4),
            opacity as int,
        ),
{
    let ghost dst = canvas@.subrange(d as int, d + 4);
    let ghost src = px@.subrange(s as int, s + 4);
    let pl = px.len();
    let cl = canvas.len();
    let mut a = px[s + 3] as u32;
    if opacity != 255 {
        assert(a * opacity <= 255 * 255) by (nonlinear_arith)
            requires
                a <= 255,
                opacity <= 255,
        ;
        a = a * opacity / 255;
    }
    assert(a <= 255) by (nonlinear_arith)
        requires
            a == (if opacity != 255 { (src[3] * opacity) / 255 } else { src[3] as int }),
            src[3] <= 255,
            opacity <= 255,
    ;
    if a == 255 {
        canvas.set(d, px[s]);
        canvas.set(d + 1, px[s + 1]);
        canvas.set(d + 2, px[s + 2]);
        canvas.set(d + 3, 255);
    } else if a != 0 {
        let ca = canvas[d + 3] as u32;
        assert(ca * (255 - a) <= 255 * 255) by (nonlinear_arith)
            requires
                ca <= 255,
                a <= 255,
        ;
        let da = ca * (255 - a) / 255;
        let oa = a + da;
        let mut c: usize = 0;
        while c < 3
            invariant
                c <= 3,
                pl == px@.len(),
                cl == canvas@.len(),
                src == px@.subrange(s as int, s + 4),
                d + 4 <= canvas@.len(),
                s + 4 <= px@.len(),
                canvas@.len() == old(canvas)@.len(),
                a <= 255,
                da <= 255,
                oa == a + da,
                oa > 0,
                ca == dst[3],
                dst == old(canvas)@.subrange(d as int, d + 4),
                forall|i: int|
                    0 <= i < old(canvas)@.len() && !(d <= i < d + c) ==> canvas@[i] == old(canvas)@[i],
                forall|j: int|
                    0 <= j < c ==> canvas@[d + j] == ((src[j] * (a as int) + dst[j] * (da as int) + (oa as int) / 2) / (oa as int)) as u8,
            decreases 3 - c,
        {
            let sv = px[s + c] as u32;
            let dv = canvas[d + c] as u32;
            assert(sv == src[c as int]);
            assert(dv == dst[c as int]);
            assert(sv * a + dv * da + oa / 2 <= 255 * 255 * 3) by (nonlinear_arith)
                requires
                    sv <= 255,
                    dv <= 255,
                    a <= 255,
                    da <= 255,
                    oa <= 510,
            ;
            canvas.set(d + c, ((sv * a + dv * da + oa / 2) / oa) as u8);
            c += 1;
        }
        canvas.set(d + 3, oa as u8);
    }
    assert(canvas@.subrange(d as int, d + 4) =~= blend_px(dst, src, opacity as int));
}


proof fn lemma_pixel_of(k: int, cw: int, y: int, x: int)
    requires
        cw > 0,
        0 <= x < cw,
        k == y * cw + x,
    ensures
        k / cw == y,
        k % cw == x,
{
    lemma_fundamental_div_mod_converse(k, cw, y, x);
}

proof fn lemma_byte_of(i: int, k: int)
    requires
        k * 4 <= i < k * 4 + 4,
    ensures
        i / 4 == k,
{
    lemma_fundamental_div_mod_converse(i, 4, k, i - k * 4);
}

/// Normal alpha blending (ltPsNormal) of `img` onto the `cw` x `ch` canvas
/// with its top-left corner at (left, top), clipped to the canvas.
pub fn blend(canvas: &mut Vec<u8>, cw: i128, ch: i128, img: &Image, left: i128, top: i128, opacity: i128)
    requires
        old(canvas)@.len() == cw * ch * 4,
        img.px@.len() == 4 * img.w * img.h,
        0 <= opacity <= 255,
        i64::MIN <= left <= i64::MAX,
        i64::MIN <= top <= i64::MAX,
    ensures
        final(canvas)@ == blend_result(
            old(canvas)@,
            cw as int,
            ch as int,
            img.px@,
            img.w as int,
            img.h as int,
            left as int,
            top as int,
            opacity as int,
        ),
{
    let ghost orig = canvas@;
    let ghost res = blend_result(orig, cw as int, ch as int, img.px@, img.w as int, img.h as int, left as int, top as int, opacity as int);
    let iw = img.w as i128;
    let ih = img.h as i128;
    let x0 = if left > 0 { left } else { 0 };
    let y0 = if top > 0 { top } else { 0 };
    let x1 = if cw < left + iw { cw } else { left + iw };
    let y1 = if ch < top + ih { ch } else { top + ih };
    if y0 >= y1 || x0 >= x1 {
        assert(canvas@ =~= res);
        return;
    }
    let cl = canvas.len();
    let pl = img.px.len();
    assert(cw <= cl && ch <= cl) by (nonlinear_arith)
        requires
            cw > 0,
            ch > 0,
            cl == cw * ch * 4,
    ;
    assert(cw * ch * 4 >= y1 * cw * 4) by (nonlinear_arith)
        requires
            cw > 0,
            ch >= y1,
    ;
    let mut y = y0;
    assert forall|i: int| 0 <= i < cl implies #[trigger] canvas@[i] == if i / 4 < y * cw { res[i] } else { orig[i] } by {
        let k = i / 4;
        if k < y * cw {
            assert(k < cw * y) by (nonlinear_arith)
                requires
                    k < y * cw,
            ;
            vstd::arithmetic::div_mod::lemma_multiply_divide_lt(k, cw as int, y as int);
        }
    }
    while y < y1
        invariant
            cl == canvas@.len(),
            cl == orig.len(),
            pl == img.px@.len(),
            orig.len() == cw * ch * 4,
            img.px@.len() == 4 * img.w * img.h,
            0 <= opacity <= 255,
            iw == img.w,
            ih == img.h,
            0 <= x0 < x1 <= cw,
            0 <= y0 <= y <= y1 <= ch,
            x0 == (if left > 0 { left } else { 0 }),
            y0 == (if top > 0 { top } else { 0 }),
            x1 == (if cw < left + iw { cw as int } else { left + iw }),
            y1 == (if ch < top + ih { ch as int } else { top + ih }),
            cw * ch * 4 >= y1 * cw * 4,
            res == blend_result(orig, cw as int, ch as int, img.px@, img.w as int, img.h as int, left as int, top as int, opacity as int),
            forall|i: int| 0 <= i < cl ==> #[trigger] canvas@[i] == if i / 4 < y * cw { res[i] } else { orig[i] },
        decreases y1 - y,
    {
        let mut x = x0;
        assert(y * cw + cw <= y1 * cw) by (nonlinear_arith)
            requires
                y < y1,
                cw > 0,
        ;
        assert forall|i: int| 0 <= i < cl implies #[trigger] canvas@[i] == if i / 4 < y * cw + x { res[i] } else { orig[i] } by {
            let k = i / 4;
            if y * cw <= k < y * cw + x {
                lemma_pixel_of(k, cw as int, y as int, k - y * cw);
            }
        }
        while x < x1
            invariant
                cl == canvas@.len(),
                cl == orig.len(),
                pl == img.px@.len(),
                orig.len() == cw * ch * 4,
                img.px@.len() == 4 * img.w * img.h,
                0 <= opacity <= 255,
                iw == img.w,
                ih == img.h,
                0 <= x0 <= x <= x1 <= cw,
                0 <= y0 <= y < y1 <= ch,
                x0 == (if left > 0 { left } else { 0 }),
                y0 == (if top > 0 { top } else { 0 }),
                x1 == (if cw < left + iw { cw as int } else { left + iw }),
                y1 == (if ch < top + ih { ch as int } else { top + ih }),
                cw * ch * 4 >= y1 * cw * 4,
                y * cw + cw <= y1 * cw,
                res == blend_result(orig, cw as int, ch as int, img.px@, img.w as int, img.h as int, left as int, top as int, opacity as int),
                forall|i: int| 0 <= i < cl ==> #[trigger] canvas@[i] == if i / 4 < y * cw + x { res[i] } else { orig[i] },
            decreases x1 - x,
        {
            let k = y * cw + x;
            assert((y - top) * iw + (x - left) < iw * ih && 0 <= (y - top) * iw + (x - left) && 0 <= (y
                - top) * iw <= iw * ih && iw * ih < 0x1_0000_0000_0000_0000) by (nonlinear_arith)
                requires
                    0 <= y - top < ih,
                    0 <= x - left < iw,
                    ih < 0x1_0000_0000,
                    iw < 0x1_0000_0000,
            ;
            assert(4 * iw * ih == iw * ih * 4) by (nonlinear_arith);
            assert(k * 4 + 4 <= y1 * cw * 4);
            let d = (k * 4) as usize;
            let sp = (((y - top) * iw + (x - left)) * 4) as usize;
            assert(d == k * 4);
            assert(sp == ((y - top) * iw + (x - left)) * 4);
            assert(covered(x as int, y as int, cw as int, ch as int, iw as int, ih as int, left as int, top as int));
            let ghost before = canvas@;
            proof {
                lemma_pixel_of(k as int, cw as int, y as int, x as int);
                assert forall|i: int| d <= i < d + 4 implies #[trigger] before[i] == orig[i] by {
                    lemma_byte_of(i, k as int);
                }
                assert(before.subrange(d as int, d + 4) =~= orig.subrange(k * 4, k * 4 + 4));
            }
            blend_pixel(canvas, d, img.px.as_slice(), sp, opacity as u32);
            proof {
                assert forall|i: int| 0 <= i < cl implies #[trigger] canvas@[i] == if i / 4 < y * cw + x + 1 { res[i] } else { orig[i] } by {
                    if d <= i < d + 4 {
                        lemma_byte_of(i, k as int);
                        assert(canvas@[i] == canvas@.subrange(d as int, d + 4)[i - d]);
                        assert(i % 4 == i - d);
                        assert(i / 4 == k);
                        assert((i / 4) % (cw as int) == x);
                        assert((i / 4) / (cw as int) == y);
                        assert(res[i] == blend_px(orig.subrange(k * 4, k * 4 + 4), img.px@.subrange(sp as int, sp + 4), opacity as int)[i % 4]);
                    } else {
                        assert(canvas@[i] == before[i]);
                        if i / 4 == k {
                            lemma_byte_of(i, k as int);
                            let q = i / 4;
                            assert(q * 4 <= i < q * 4 + 4) by {
                                lemma_fundamental_div_mod_converse(i, 4, q, i % 4);
                            }
                        }
                    }
                }
            }
            x += 1;
        }
        proof {
            assert forall|i: int| 0 <= i < cl implies #[trigger] canvas@[i] == if i / 4 < (y + 1) * cw { res[i] } else { orig[i] } by {
                let k = i / 4;
                assert((y + 1) * cw == y * cw + cw) by (nonlinear_arith);
                if y * cw + x1 <= k < (y + 1) * cw {
                    lemma_pixel_of(k, cw as int, y as int, k - y * cw);
                }
            }
        }
        y += 1;
    }
    proof {
        assert forall|i: int| 0 <= i < cl implies canvas@[i] == res[i] by {
            let k = i / 4;
            if k >= y1 * cw {
                assert(k / (cw as int) >= y1) by {
                    vstd::arithmetic::div_mod::lemma_div_is_ordered(y1 * cw, k, cw as int);
                    vstd::arithmetic::div_mod::lemma_div_multiples_vanish(y1 as int, cw as int);
                    assert(y1 * cw == cw * y1) by (nonlinear_arith);
                }
            }
        }
        assert(canvas@ =~= res);
    }
}

/// Blending at opacity 0 leaves the canvas as it was.
pub proof fn lemma_blend_zero_opacity(
    canvas: Seq<u8>,
    cw: int,
    ch: int,
    px: Seq<u8>,
    iw: int,
    ih: int,
    left: int,
    top: int,
)
    requires
        canvas.len() % 4 == 0,
    ensures
        blend_result(canvas, cw, ch, px, iw, ih, left, top, 0) == canvas,
{
    let r = blend_result(canvas, cw, ch, px, iw, ih, left, top, 0);
    assert forall|i: int| 0 <= i < canvas.len() implies r[i] == canvas[i] by {
        let k = i / 4;
        assert(k * 4 <= i < k * 4 + 4);
        assert(k * 4 + 4 <= canvas.len());
        let x = k % cw;
        let y = k / cw;
        if cw > 0 && covered(x, y, cw, ch, iw, ih, left, top) {
            let sp = ((y - top) * iw + (x - left)) * 4;
            let d = canvas.subrange(k * 4, k * 4 + 4);
            assert(blend_px(d, px.subrange(sp, sp + 4), 0) == d);
            assert(d[i % 4] == canvas[k * 4 + i % 4]);
        }
    }
    assert(r =~= canvas);
}

/// The source alpha that a blend at `opacity` puts down.
pub open spec fn scaled_alpha(src: Seq<u8>, opacity: int) -> int {
    src[3] * opacity / 255
}

proof fn lemma_scaled_alpha(src: Seq<u8>, opacity: int)
    requires
        src.len() == 4,
        0 <= opacity <= 255,
    ensures
        0 <= scaled_alpha(src, opacity) <= 255,
        (if opacity != 255 { (src[3] * opacity) / 255 } else { src[3] as int }) == scaled_alpha(src, opacity),
{
    let s3 = src[3] as int;
    assert(0 <= s3 * opacity <= 255 * 255) by (nonlinear_arith)
        requires
            0 <= s3 <= 255,
            0 <= opacity <= 255,
    ;
    assert(s3 * 255 / 255 == s3) by (nonlinear_arith);
}

/// Blending over a fully transparent pixel puts down the source's colour,
/// with the source's alpha scaled by the opacity; where that alpha is 0 the
/// pixel stays as it was.
pub proof fn lemma_blend_over_transparent(dst: Seq<u8>, src: Seq<u8>, opacity: int)
    requires
        dst.len() == 4,
        src.len() == 4,
        dst[3] == 0,
        0 <= opacity <= 255,
    ensures
        scaled_alpha(src, opacity) > 0 ==> blend_px(dst, src, opacity) == seq![
            src[0],
            src[1],
            src[2],
            scaled_alpha(src, opacity) as u8,
        ],
        scaled_alpha(src, opacity) == 0 ==> blend_px(dst, src, opacity) == dst,
{
    lemma_scaled_alpha(src, opacity);
    let a = scaled_alpha(src, opacity);
    if 0 < a < 255 {
        assert((dst[3] * (255 - a)) / 255 == 0);
        assert forall|c: int| 0 <= c < 3 implies ((src[c] * a + dst[c] * 0 + a / 2) / a) == src[c] by {
            lemma_fundamental_div_mod_converse(src[c] * a + a / 2, a, src[c] as int, a / 2);
        }
        assert(blend_px(dst, src, opacity) =~= seq![src[0], src[1], src[2], a as u8]);
    }
}

/// The alpha of a blended pixel is that of the source, `a` (scaled by the
/// opacity), and the destination's alpha for what `a` leaves:
/// `a + dst_alpha * (255 - a) / 255`.
pub proof fn lemma_blend_alpha(dst: Seq<u8>, src: Seq<u8>, opacity: int)
    requires
        dst.len() == 4,
        src.len() == 4,
        0 <= opacity <= 255,
    ensures
        blend_px(dst, src, opacity)[3] as int == scaled_alpha(src, opacity) + dst[3] * (255
            - scaled_alpha(src, opacity)) / 255,
{
    lemma_scaled_alpha(src, opacity);
    let a = scaled_alpha(src, opacity);
    let d3 = dst[3] as int;
    assert(0 <= d3 * (255 - a) <= 255 * (255 - a)) by (nonlinear_arith)
        requires
            0 <= d3 <= 255,
            0 <= a <= 255,
    ;
    assert(d3 * (255 - a) / 255 <= 255 - a) by (nonlinear_arith)
        requires
            0 <= d3 * (255 - a) <= 255 * (255 - a),
    ;
    assert(d3 * 255 / 255 == d3) by (nonlinear_arith);
    assert(d3 * 0 / 255 == 0);
}

/// A source that the opacity leaves transparent changes nothing, and an
/// opaque one replaces the pixel with its colour, fully opaque.
pub proof fn lemma_blend_extremes(dst: Seq<u8>, src: Seq<u8>, opacity: int)
    requires
        dst.len() == 4,
        src.len() == 4,
        0 <= opacity <= 255,
    ensures
        scaled_alpha(src, opacity) == 0 ==> blend_px(dst, src, opacity) == dst,
        scaled_alpha(src, opacity) == 255 ==> blend_px(dst, src, opacity) == seq![src[0], src[1], src[2], 255u8],
{
    lemma_scaled_alpha(src, opacity);
}

/// Where the scaled source alpha `a` is neither 0 nor 255, each colour of
/// the blended pixel is the mean of the source's and the destination's,
/// weighted by `a` and by what the destination's alpha keeps of `255 - a`,
/// rounded to nearest (halves up); so it lies between the two colours.
pub proof fn lemma_blend_colour(dst: Seq<u8>, src: Seq<u8>, opacity: int, c: int)
    requires
        dst.len() == 4,
        src.len() == 4,
        0 <= opacity <= 255,
        0 < scaled_alpha(src, opacity) < 255,
        0 <= c < 3,
    ensures
        ({
            let a = scaled_alpha(src, opacity);
            let oa = blend_px(dst, src, opacity)[3] as int;
            let da = oa - a;
            let m = src[c] * a + dst[c] * da;
            let r = blend_px(dst, src, opacity)[c] as int;
            &&& r * oa <= m + oa / 2 < r * oa + oa
            &&& (src[c] <= r <= dst[c] || dst[c] <= r <= src[c])
        }),
{
    lemma_scaled_alpha(src, opacity);
    lemma_blend_alpha(dst, src, opacity);
    let a = scaled_alpha(src, opacity);
    let d3 = dst[3] as int;
    let da = (d3 * (255 - a)) / 255;
    let oa = a + da;
    assert(0 <= da <= 255 - a) by (nonlinear_arith)
        requires
            0 <= d3 <= 255,
            0 < a < 255,
            da == (d3 * (255 - a)) / 255,
    ;
    let s = src[c] as int;
    let d = dst[c] as int;
    let m = s * a + d * da;
    let q = (m + oa / 2) / oa;
    vstd::arithmetic::div_mod::lemma_fundamental_div_mod(m + oa / 2, oa);
    assert(0 <= (m + oa / 2) % oa < oa) by {
        vstd::arithmetic::div_mod::lemma_mod_bound(m + oa / 2, oa);
    }
    assert(q * oa <= m + oa / 2 < q * oa + oa) by (nonlinear_arith)
        requires
            m + oa / 2 == oa * q + (m + oa / 2) % oa,
            0 <= (m + oa / 2) % oa < oa,
    ;
    assert(0 <= q <= 255 && (s <= q <= d || d <= q <= s)) by (nonlinear_arith)
        requires
            q * oa <= m + oa / 2 < q * oa + oa,
            m == s * a + d * da,
            oa == a + da,
            0 < a,
            0 <= da,
            0 <= s <= 255,
            0 <= d <= 255,
    ;
    assert(blend_px(dst, src, opacity)[c] as int == q);
}

} // verus!
