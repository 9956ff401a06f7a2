use vstd::prelude::*;

verus! {

/// One colour channel scaled by an 8-bit alpha: `c * a / 255`, rounded down.
pub open spec fn premultiply(c: u8, a: u8) -> u8 {
    (c as int * a as int / 255) as u8
}

/// Byte `i` of the premultiplied image: colour bytes are scaled by the alpha
/// byte of their own pixel, alpha bytes are copied.
pub open spec fn premul_byte(rgba: Seq<u8>, i: int) -> u8 {
    let alpha = rgba[i - i % 4 + 3];
    if i % 4 == 3 {
        rgba[i]
    } else {
        premultiply(rgba[i], alpha)
    }
}

/// The premultiplied image, as long as the input: the bytes of every whole
/// 4-byte pixel are premultiplied; the 1-3 bytes of a trailing partial pixel,
/// which has no alpha byte, are copied unchanged.
pub open spec fn premultiplied(rgba: Seq<u8>) -> Seq<u8> {
    Seq::new(
        rgba.len(),
        |i: int|
            if i < rgba.len() / 4 * 4 {
                premul_byte(rgba, i)
            } else {
                rgba[i]
            },
    )
}

/// The integer that keys the solid-colour brush cache: the four channels
/// of `[r, g, b, a]` placed in bytes 4, 3, 2 and 1 of a `u64`.
pub open spec fn brush_key(color: [u8; 4]) -> u64 {
    (color[0] as int * 0x1_0000_0000 + color[1] as int * 0x100_0000 + color[2] as int * 0x1_0000
        + color[3] as int * 0x100) as u64
}

proof fn lemma_premultiply_fits(c: u8, a: u8)
    ensures
        0 <= c as int * a as int / 255 <= a,
{
    assert(0 <= c as int * a as int <= 255 * a as int) by (nonlinear_arith)
        requires
            c <= 255,
    ;
    assert(c as int * a as int / 255 <= a) by (nonlinear_arith)
        requires
            0 <= c as int * a as int <= 255 * a as int,
    ;
    assert(0 <= c as int * a as int / 255) by (nonlinear_arith)
        requires
            0 <= c as int * a as int,
    ;
}

/// The premultiplied image, pixel by pixel: it is as long as the input, each
/// colour channel of a whole pixel is `c * a / 255` with `a` that pixel's
/// alpha, alpha is kept, and the bytes of a trailing partial pixel are kept.
pub proof fn lemma_premultiplied_pixels(rgba: Seq<u8>)
    ensures
        premultiplied(rgba).len() == rgba.len(),
        forall|p: int, ch: int|
            0 <= p < rgba.len() / 4 && 0 <= ch < 3 ==> #[trigger] premultiplied(rgba)[4 * p + ch] as int
                == (#[trigger] rgba[4 * p + ch]) as int * rgba[4 * p + 3] as int / 255,
        forall|p: int|
            0 <= p < rgba.len() / 4 ==> #[trigger] premultiplied(rgba)[4 * p + 3] == rgba[4 * p + 3],
        forall|i: int|
            rgba.len() / 4 * 4 <= i < rgba.len() ==> #[trigger] premultiplied(rgba)[i] == rgba[i],
{
    vstd::arithmetic::div_mod::lemma_fundamental_div_mod(rgba.len() as int, 4);
    assert forall|p: int, ch: int|
        0 <= p < rgba.len() / 4 && 0 <= ch < 3 implies #[trigger] premultiplied(rgba)[4 * p + ch] as int
        == (#[trigger] rgba[4 * p + ch]) as int * rgba[4 * p + 3] as int / 255 by {
        vstd::arithmetic::div_mod::lemma_fundamental_div_mod_converse(4 * p + ch, 4, p, ch);
        lemma_premultiply_fits(rgba[4 * p + ch], rgba[4 * p + 3]);
    }
    assert forall|p: int| 0 <= p < rgba.len() / 4 implies #[trigger] premultiplied(rgba)[4 * p + 3]
        == rgba[4 * p + 3] by {
        vstd::arithmetic::div_mod::lemma_fundamental_div_mod_converse(4 * p + 3, 4, p, 3);
    }
}

/// Premultiplied output is well formed: in every pixel no colour channel
/// exceeds the alpha channel, and alpha is carried over unchanged.
pub proof fn lemma_premultiplied_channels_within_alpha(rgba: Seq<u8>, p: int, ch: int)
    requires
        0 <= p < rgba.len() / 4,
        0 <= ch < 4,
    ensures
        premultiplied(rgba)[4 * p + 3] == rgba[4 * p + 3],
        premultiplied(rgba)[4 * p + ch] <= premultiplied(rgba)[4 * p + 3],
{
    vstd::arithmetic::div_mod::lemma_fundamental_div_mod(rgba.len() as int, 4);
    vstd::arithmetic::div_mod::lemma_fundamental_div_mod_converse(4 * p + ch, 4, p, ch);
    vstd::arithmetic::div_mod::lemma_fundamental_div_mod_converse(4 * p + 3, 4, p, 3);
    lemma_premultiply_fits(rgba[4 * p + ch], rgba[4 * p + 3]);
}

/// A fully opaque pixel comes out unchanged, and a fully transparent pixel
/// comes out as all zeros.
pub proof fn lemma_premultiply_extremes(c: u8)
    ensures
        premultiply(c, 255) == c,
        premultiply(c, 0) == 0,
{
    assert(c as int * 255 / 255 == c) by (nonlinear_arith);
}

/// Premultiplying never brightens a channel: the result is at most the
/// straight value.
pub proof fn lemma_premultiply_never_brightens(c: u8, a: u8)
    ensures
        premultiply(c, a) <= c,
{
    lemma_premultiply_fits(c, a);
    assert(c as int * a as int <= c as int * 255) by (nonlinear_arith)
        requires
            a <= 255,
            c >= 0,
    ;
    assert(c as int * a as int / 255 <= c) by (nonlinear_arith)
        requires
            c as int * a as int <= c as int * 255,
            c as int * a as int >= 0,
    ;
}

/// An image whose every whole pixel is fully opaque comes back unchanged.
pub proof fn lemma_opaque_image_unchanged(rgba: Seq<u8>)
    requires
        forall|p: int| 0 <= p < rgba.len() / 4 ==> #[trigger] rgba[4 * p + 3] == 255,
    ensures
        premultiplied(rgba) == rgba,
{
    vstd::arithmetic::div_mod::lemma_fundamental_div_mod(rgba.len() as int, 4);
    assert forall|i: int| 0 <= i < rgba.len() implies #[trigger] premultiplied(rgba)[i]
        == rgba[i] by {
        if i < rgba.len() / 4 * 4 {
            vstd::arithmetic::div_mod::lemma_fundamental_div_mod(i, 4);
            let p = i / 4;
            assert(0 <= p < rgba.len() / 4) by (nonlinear_arith)
                requires
                    0 <= i < rgba.len() / 4 * 4,
                    p == i / 4,
            ;
            assert(i - i % 4 + 3 == 4 * p + 3);
            assert(rgba[4 * p + 3] == 255);
            lemma_premultiply_extremes(rgba[i]);
        }
    }
    assert(premultiplied(rgba) =~= rgba);
}

/// Premultiplication works pixel by pixel: converting two images laid end to
/// end, the first made of whole pixels, gives the two conversions laid end to
/// end.
pub proof fn lemma_premultiplied_concat(a: Seq<u8>, b: Seq<u8>)
    requires
        a.len() % 4 == 0,
    ensures
        premultiplied(a + b) == premultiplied(a) + premultiplied(b),
{
    let ab = a + b;
    let qa: int = (a.len() / 4) as int;
    vstd::arithmetic::div_mod::lemma_fundamental_div_mod(a.len() as int, 4);
    vstd::arithmetic::div_mod::lemma_fundamental_div_mod(b.len() as int, 4);
    vstd::arithmetic::div_mod::lemma_fundamental_div_mod_converse(
        ab.len() as int,
        4,
        (qa + b.len() / 4) as int,
        (b.len() % 4) as int,
    );
    assert forall|i: int| 0 <= i < ab.len() implies #[trigger] premultiplied(ab)[i] == (
    premultiplied(a) + premultiplied(b))[i] by {
        vstd::arithmetic::div_mod::lemma_fundamental_div_mod(i, 4);
        if i < a.len() {
            assert(i / 4 < qa) by (nonlinear_arith)
                requires
                    0 <= i < a.len(),
                    a.len() == 4 * qa,
                    i == 4 * (i / 4) + i % 4,
                    0 <= i % 4 < 4,
            ;
            assert(i - i % 4 + 3 < a.len());
        } else {
            let j = i - a.len();
            vstd::arithmetic::div_mod::lemma_fundamental_div_mod(j, 4);
            vstd::arithmetic::div_mod::lemma_fundamental_div_mod_converse(
                i,
                4,
                qa + j / 4,
                j % 4,
            );
            if j < b.len() / 4 * 4 {
                assert(j / 4 < b.len() / 4) by (nonlinear_arith)
                    requires
                        0 <= j < b.len() / 4 * 4,
                        j == 4 * (j / 4) + j % 4,
                        0 <= j % 4 < 4,
                ;
            } else {
                assert(j / 4 >= b.len() / 4) by (nonlinear_arith)
                    requires
                        j >= b.len() / 4 * 4,
                        j == 4 * (j / 4) + j % 4,
                        0 <= j % 4 < 4,
                ;
            }
        }
    }
    assert(premultiplied(ab) =~= premultiplied(a) + premultiplied(b));
}

/// Distinct colours get distinct brush-cache keys, so the cache never hands
/// out a brush of another colour.
pub proof fn lemma_brush_key_injective(c1: [u8; 4], c2: [u8; 4])
    requires
        brush_key(c1) == brush_key(c2),
    ensures
        c1@ == c2@,
{
    let (r1, g1, b1, a1) = (c1[0] as u64, c1[1] as u64, c1[2] as u64, c1[3] as u64);
    let (r2, g2, b2, a2) = (c2[0] as u64, c2[1] as u64, c2[2] as u64, c2[3] as u64);
    assert(r1 == r2 && g1 == g2 && b1 == b2 && a1 == a2) by (bit_vector)
        requires
            r1 < 256 && g1 < 256 && b1 < 256 && a1 < 256,
            r2 < 256 && g2 < 256 && b2 < 256 && a2 < 256,
            r1 * 0x1_0000_0000 + g1 * 0x100_0000 + b1 * 0x1_0000 + a1 * 0x100 == r2 * 0x1_0000_0000
                + g2 * 0x100_0000 + b2 * 0x1_0000 + a2 * 0x100,
    ;
    assert(c1@ =~= c2@);
}

fn premultiply_channel(c: u8, a: u8) -> (r: u8)
    ensures
        r == premultiply(c, a),
        r <= a,
{
    proof {
        lemma_premultiply_fits(c, a);
    }
    let wide: u32 = c as u32 * a as u32 / 255;
    wide as u8
}

/// Converts straight-alpha RGBA pixels to premultiplied alpha.
///
/// Each colour channel becomes `c * a / 255` (rounded down); alpha is kept.
/// The result is as long as the input: the 1-3 bytes of a trailing partial
/// pixel have no alpha to scale by and are copied unchanged.
pub fn straight_to_premul(rgba: &[u8]) -> (out: Vec<u8>)
    ensures
        out@ == premultiplied(rgba@),
        out@.len() == rgba@.len(),
        forall|p: int, ch: int|
            0 <= p < rgba@.len() / 4 && 0 <= ch < 3 ==> #[trigger] out@[4 * p + ch] as int == (
            #[trigger] rgba@[4 * p + ch]) as int * rgba@[4 * p + 3] as int / 255,
        forall|p: int| 0 <= p < rgba@.len() / 4 ==> #[trigger] out@[4 * p + 3] == rgba@[4 * p + 3],
        forall|i: int| rgba@.len() / 4 * 4 <= i < rgba@.len() ==> #[trigger] out@[i] == rgba@[i],
{
    let pixels: usize = rgba.len() / 4;
    let mut out: Vec<u8> = Vec::new();
    let mut k: usize = 0;
    proof {
        vstd::arithmetic::div_mod::lemma_fundamental_div_mod(rgba@.len() as int, 4);
    }
    while k < pixels
        invariant
            pixels == rgba@.len() / 4,
            4 * pixels <= rgba@.len(),
            rgba@.len() == rgba.len(),
            k <= pixels,
            out@.len() == 4 * k,
            forall|i: int| 0 <= i < 4 * k ==> #[trigger] out@[i] == premul_byte(rgba@, i),
        decreases pixels - k,
    {
        let base: usize = 4 * k;
        let a: u8 = rgba[base + 3];
        let r: u8 = premultiply_channel(rgba[base], a);
        let g: u8 = premultiply_channel(rgba[base + 1], a);
        let b: u8 = premultiply_channel(rgba[base + 2], a);
        out.push(r);
        out.push(g);
        out.push(b);
        out.push(a);
        proof {
            assert forall|i: int| 4 * k <= i < 4 * k + 4 implies #[trigger] out@[i] == premul_byte(
                rgba@,
                i,
            ) by {
                vstd::arithmetic::div_mod::lemma_fundamental_div_mod_converse(
                    i,
                    4,
                    k as int,
                    i - 4 * k,
                );
            }
        }
        k = k + 1;
    }
    let n: usize = rgba.len();
    let mut j: usize = 4 * pixels;
    while j < n
        invariant
            n == rgba@.len(),
            pixels == rgba@.len() / 4,
            4 * pixels <= j <= n,
            out@.len() == j,
            forall|i: int| 0 <= i < 4 * pixels ==> #[trigger] out@[i] == premul_byte(rgba@, i),
            forall|i: int| 4 * pixels <= i < j ==> #[trigger] out@[i] == rgba@[i],
        decreases n - j,
    {
        out.push(rgba[j]);
        j = j + 1;
    }
    assert(out@ =~= premultiplied(rgba@));
    proof {
        lemma_premultiplied_pixels(rgba@);
    }
    out
}

/// Whether `len` bytes hold all the RGBA pixels of a `width` x `height`
/// image (4 bytes per pixel); bytes beyond them are ignored when drawing.
/// An image whose data is incomplete is skipped rather than read past its end.
pub fn image_data_complete(width: u32, height: u32, len: usize) -> (complete: bool)
    ensures
        complete == (len as int >= 4 * (width as int * height as int)),
{
    proof {
        assert(width as int * height as int <= 0xffff_ffff * 0xffff_ffff) by (nonlinear_arith)
            requires
                width <= 0xffff_ffff,
                height <= 0xffff_ffff,
        ;
        vstd::arithmetic::div_mod::lemma_fundamental_div_mod(len as int, 4);
    }
    let pixels: u64 = width as u64 * height as u64;
    (len / 4) as u64 >= pixels
}

/// Computes [`brush_key`]: the cache key under which the solid brush of
/// `color` is kept.
pub fn brush_cache_key(color: [u8; 4]) -> (key: u64)
    ensures
        key == brush_key(color),
        key as int == color[0] as int * 0x1_0000_0000 + color[1] as int * 0x100_0000 + color[2] as int
            * 0x1_0000 + color[3] as int * 0x100,
{
    let r: u8 = color[0];
    let g: u8 = color[1];
    let b: u8 = color[2];
    let a: u8 = color[3];
    let key: u64 = ((r as u64) << 32) | ((g as u64) << 24) | ((b as u64) << 16) | ((a as u64)
        << 8);
    assert(key == r as int * 0x1_0000_0000 + g as int * 0x100_0000 + b as int * 0x1_0000 + a as int
        * 0x100) by (bit_vector)
        requires
            key == ((r as u64) << 32) | ((g as u64) << 24) | ((b as u64) << 16) | ((a as u64) << 8),
    ;
    key
}

} // verus!
