//! In-memory RGBA rasters: alpha scaling and straight alpha-over compositing.
//!
//! A frame's cross-fade weight is applied by scaling the top image's alpha
//! channel by `num/den` in 8-bit integer arithmetic (an already fully
//! transparent pixel stays untouched), after which the top image is
//! composited over the bottom one with the standard source-over rule in
//! straight (non-premultiplied) form.

use vstd::arithmetic::div_mod::{
    lemma_div_by_multiple, lemma_div_is_ordered, lemma_div_multiples_vanish_fancy,
    lemma_div_of0, lemma_div_pos_is_pos, lemma_fundamental_div_mod,
    lemma_fundamental_div_mod_converse, lemma_mod_bound,
};
use vstd::prelude::*;

verus! {

/// An RGBA image: `4 * width * height` bytes, row-major, RGBA byte order.
#[derive(Debug)]
pub struct Image {
    pub width: u32,
    pub height: u32,
    pub data: Vec<u8>,
}

impl Image {
    pub open spec fn wf(&self) -> bool {
        self.data@.len() == 4 * (self.width as int) * (self.height as int)
    }

    /// Builds an image from raw RGBA bytes; fails on a length mismatch.
    pub fn from_raw(width: u32, height: u32, data: Vec<u8>) -> (r: Option<Image>)
        ensures
            r is Some <==> data@.len() == 4 * (width as int) * (height as int),
            r is Some ==> r.unwrap() == (Image { width, height, data }),
    {
        proof {
            assert((width as int) * (height as int) <= 0xffff_ffff * 0xffff_ffff)
                by (nonlinear_arith)
                requires
                    0 <= width <= 0xffff_ffff,
                    0 <= height <= 0xffff_ffff,
            ;
        }
        let need: u64 = (width as u64) * (height as u64);
        let len: u64 = data.len() as u64;
        if len % 4 == 0 && len / 4 == need {
            proof {
                lemma_fundamental_div_mod(len as int, 4);
                assert(len as int == 4 * (need as int));
                assert(4 * ((width as int) * (height as int)) == 4 * (width as int) * (height
                    as int)) by (nonlinear_arith);
            }
            Some(Image { width, height, data })
        } else {
            proof {
                if data@.len() == 4 * (width as int) * (height as int) {
                    assert(data@.len() == 4 * ((width as int) * (height as int)))
                        by (nonlinear_arith)
                        requires
                            data@.len() == 4 * (width as int) * (height as int),
                    ;
                    lemma_fundamental_div_mod_converse(len as int, 4, need as int, 0);
                    assert(false);
                }
            }
            None
        }
    }
}

impl Image {
    /// An identical copy of the image.
    pub fn duplicate(&self) -> (r: Image)
        ensures
            r.width == self.width,
            r.height == self.height,
            r.data@ == self.data@,
    {
        let data = self.data.clone();
        proof {
            assert(data@ =~= self.data@);
        }
        Image { width: self.width, height: self.height, data }
    }
}

/// New alpha after scaling by `num/den`: zero stays zero, anything else is
/// scaled with truncating integer division.
pub open spec fn scaled_alpha(a: u8, num: int, den: int) -> u8 {
    if a == 0 {
        0u8
    } else {
        ((a * num) / den) as u8
    }
}

/// The buffer after every fourth byte (the alpha channel) is scaled.
pub open spec fn scale_alpha_spec(d: Seq<u8>, num: int, den: int) -> Seq<u8> {
    Seq::new(
        d.len(),
        |i: int|
            if i % 4 == 3 {
                scaled_alpha(d[i], num, den)
            } else {
                d[i]
            },
    )
}

/// The source-over alpha numerator, with denominator 255.
pub open spec fn blend_alpha_num(af: int, ab: int) -> int {
    af * 255 + ab * (255 - af)
}

/// One byte of the straight alpha-over composite of `top` over `bot`.
/// When both pixels are fully transparent the bottom byte is kept.
pub open spec fn composite_at(top: Seq<u8>, bot: Seq<u8>, i: int) -> u8 {
    let p = 4 * (i / 4);
    let af = top[p + 3] as int;
    let ab = bot[p + 3] as int;
    let na = blend_alpha_num(af, ab);
    if na == 0 {
        bot[i]
    } else if i % 4 == 3 {
        (na / 255) as u8
    } else {
        ((top[i] * af * 255 + bot[i] * ab * (255 - af)) / na) as u8
    }
}

/// The whole composited buffer.
pub open spec fn composite_spec(top: Seq<u8>, bot: Seq<u8>) -> Seq<u8> {
    Seq::new(bot.len(), |i: int| composite_at(top, bot, i))
}

/// Scales the image's alpha channel by `num/den` in place.
pub fn scale_alpha(img: &mut Image, num: u32, den: u32)
    requires
        old(img).wf(),
        1 <= den,
        num <= den,
    ensures
        final(img).wf(),
        final(img).width == old(img).width,
        final(img).height == old(img).height,
        final(img).data@ == scale_alpha_spec(old(img).data@, num as int, den as int),
{
    let ghost d0 = img.data@;
    let len: usize = img.data.len();
    let mut out: Vec<u8> = Vec::with_capacity(len);
    let mut j: usize = 0;
    while j < len
        invariant
            d0 == img.data@,
            len == d0.len(),
            1 <= den,
            num <= den,
            0 <= j <= len,
            out@.len() == j,
            forall|m: int|
                0 <= m < j ==> #[trigger] out@[m] == scale_alpha_spec(d0, num as int, den as int)[m],
        decreases len - j,
    {
        let b: u8 = img.data[j];
        let v: u8 = if j % 4 == 3 && b != 0 {
            proof {
                assert((b as int) * (num as int) <= 255 * 0xffff_ffff) by (nonlinear_arith)
                    requires
                        0 <= b <= 255,
                        0 <= num <= 0xffff_ffff,
                ;
            }
            let scaled: u64 = (b as u64) * (num as u64) / (den as u64);
            proof {
                let bi = b as int;
                let ni = num as int;
                let di = den as int;
                assert(bi * ni <= 255 * di) by (nonlinear_arith)
                    requires
                        0 <= bi <= 255,
                        0 <= ni <= di,
                ;
                lemma_div_is_ordered(bi * ni, 255 * di, di);
                lemma_div_by_multiple(255, di);
                lemma_div_pos_is_pos(bi * ni, di);
                assert(bi * ni >= 0) by (nonlinear_arith)
                    requires
                        bi >= 0,
                        ni >= 0,
                ;
            }
            scaled as u8
        } else {
            b
        };
        out.push(v);
        j += 1;
    }
    img.data = out;
    proof {
        assert(img.data@ =~= scale_alpha_spec(d0, num as int, den as int));
    }
}

/// Composites `top` over `bot` (straight alpha-over), writing into `bot`.
pub fn composite_over(bot: &mut Image, top: &Image)
    requires
        old(bot).wf(),
        top.wf(),
        top.width == old(bot).width,
        top.height == old(bot).height,
    ensures
        final(bot).wf(),
        final(bot).width == old(bot).width,
        final(bot).height == old(bot).height,
        final(bot).data@ == composite_spec(top.data@, old(bot).data@),
{
    let ghost tb = top.data@;
    let ghost bb = bot.data@;
    let ghost pix = (bot.width as int) * (bot.height as int);
    let len: usize = bot.data.len();
    proof {
        assert(4 * (bot.width as int) * (bot.height as int) == 4 * pix) by (nonlinear_arith)
            requires
                pix == (bot.width as int) * (bot.height as int),
        ;
        assert(tb.len() == 4 * pix && bb.len() == 4 * pix);
    }
    let mut out: Vec<u8> = Vec::with_capacity(len);
    let mut j: usize = 0;
    while j < len
        invariant
            tb == top.data@,
            bb == bot.data@,
            len == bb.len(),
            tb.len() == len,
            len == 4 * pix,
            0 <= j <= len,
            out@.len() == j,
            forall|m: int| 0 <= m < j ==> #[trigger] out@[m] == composite_at(tb, bb, m),
        decreases len - j,
    {
        let p: usize = (j / 4) * 4;
        proof {
            lemma_fundamental_div_mod(j as int, 4);
            lemma_mod_bound(j as int, 4);
            let q = (j as int) / 4;
            assert(4 * q < 4 * pix);
            assert(q < pix);
            assert(p + 3 < len);
            assert(p as int == 4 * ((j as int) / 4));
        }
        let af: u32 = top.data[p + 3] as u32;
        let ab: u32 = bot.data[p + 3] as u32;
        proof {
            assert(af <= 255);
            assert(ab <= 255);
            assert(af * 255 + ab * (255 - af) <= 65025) by (nonlinear_arith)
                requires
                    0 <= af <= 255,
                    0 <= ab <= 255,
            ;
        }
        let na: u32 = af * 255 + ab * (255 - af);
        let v: u8 = if na == 0 {
            bot.data[j]
        } else if j % 4 == 3 {
            proof {
                let nai = na as int;
                assert(nai <= 255 * 255) by (nonlinear_arith)
                    requires
                        nai == (af as int) * 255 + (ab as int) * (255 - af as int),
                        0 <= af <= 255,
                        0 <= ab <= 255,
                ;
                lemma_div_is_ordered(nai, 65025int, 255);
                lemma_div_pos_is_pos(nai, 255);
            }
            (na / 255) as u8
        } else {
            let cf: u32 = top.data[j] as u32;
            let cb: u32 = bot.data[j] as u32;
            proof {
                assert(cf * af <= 65025 && cb * ab <= 65025 && cf * af * 255 <= 16581375 && cb
                    * ab * (255 - af) <= 16581375) by (nonlinear_arith)
                    requires
                        0 <= cf <= 255,
                        0 <= cb <= 255,
                        0 <= af <= 255,
                        0 <= ab <= 255,
                ;
            }
            let numer: u32 = cf * af * 255 + cb * ab * (255 - af);
            proof {
                let nai = na as int;
                let numi = (cf as int) * (af as int) * 255 + (cb as int) * (ab as int) * (255 - (
                af as int));
                assert(numi <= 255 * nai && numi >= 0) by (nonlinear_arith)
                    requires
                        nai == (af as int) * 255 + (ab as int) * (255 - af as int),
                        numi == (cf as int) * (af as int) * 255 + (cb as int) * (ab as int) * (255
                            - (af as int)),
                        0 <= af <= 255,
                        0 <= ab <= 255,
                        0 <= cf <= 255,
                        0 <= cb <= 255,
                ;
                lemma_div_is_ordered(numi, 255 * nai, nai);
                lemma_div_by_multiple(255, nai);
                lemma_div_pos_is_pos(numi, nai);
            }
            (numer / na) as u8
        };
        out.push(v);
        proof {
            assert(out@[j as int] == composite_at(tb, bb, j as int));
        }
        j += 1;
    }
    let w = bot.width;
    let h = bot.height;
    let res = Image { width: w, height: h, data: out };
    *bot = res;
    proof {
        assert(bot.data@ =~= composite_spec(tb, bb));
    }
}

/// Law: scaling alpha by `den/den` (full weight, the start of the morph)
/// changes nothing.
pub proof fn lemma_scale_alpha_identity(d: Seq<u8>, den: int)
    requires
        1 <= den,
    ensures
        scale_alpha_spec(d, den, den) =~= d,
{
    assert forall|i: int| 0 <= i < d.len() implies scale_alpha_spec(d, den, den)[i] == d[i] by {
        if i % 4 == 3 && d[i] != 0 {
            lemma_div_by_multiple(d[i] as int, den);
            assert((d[i] as int) * den / den == d[i] as int);
        }
    }
}

/// Law: scaling alpha by `0/den` (zero weight, the end of the morph) makes
/// every alpha byte zero and keeps every color byte.
pub proof fn lemma_scale_alpha_zero(d: Seq<u8>, den: int)
    requires
        1 <= den,
    ensures
        forall|i: int|
            0 <= i < d.len() && i % 4 == 3 ==> #[trigger] scale_alpha_spec(d, 0, den)[i] == 0,
        forall|i: int|
            0 <= i < d.len() && i % 4 != 3 ==> #[trigger] scale_alpha_spec(d, 0, den)[i] == d[i],
{
    assert forall|i: int| 0 <= i < d.len() && i % 4 == 3 implies #[trigger] scale_alpha_spec(
        d,
        0,
        den,
    )[i] == 0 by {
        if d[i] != 0 {
            assert((d[i] as int) * 0 == 0);
            lemma_div_of0(den);
        }
    }
}

/// Law: compositing a fully transparent top image over `bot` gives exactly
/// `bot` back.
pub proof fn lemma_composite_transparent(top: Seq<u8>, bot: Seq<u8>)
    requires
        top.len() == bot.len(),
        top.len() % 4 == 0,
        forall|i: int| 0 <= i < top.len() && i % 4 == 3 ==> #[trigger] top[i] == 0,
    ensures
        composite_spec(top, bot) =~= bot,
{
    assert forall|i: int| 0 <= i < bot.len() implies composite_spec(top, bot)[i] == bot[i] by {
        lemma_fundamental_div_mod(i, 4);
        lemma_mod_bound(i, 4);
        let q = i / 4;
        let p = 4 * q;
        lemma_fundamental_div_mod(top.len() as int, 4);
        assert(4 * q < 4 * (top.len() / 4));
        assert(q < top.len() / 4);
        assert(p + 3 < top.len());
        assert((p + 3) % 4 == 3) by {
            lemma_div_multiples_vanish_fancy(q, 3, 4);
            lemma_fundamental_div_mod(p + 3, 4);
        }
        assert(top[p + 3] == 0);
        let af = top[p + 3] as int;
        let ab = bot[p + 3] as int;
        let na = blend_alpha_num(af, ab);
        assert(na == ab * 255) by (nonlinear_arith)
            requires
                af == 0,
                na == af * 255 + ab * (255 - af),
        ;
        if na == 0 {
        } else {
            if i % 4 == 3 {
                lemma_div_by_multiple(ab, 255);
                assert(na / 255 == ab);
                assert(i == p + 3);
            } else {
                let num = top[i] * af * 255 + bot[i] * ab * (255 - af);
                assert(num == (bot[i] as int) * (ab * 255)) by (nonlinear_arith)
                    requires
                        af == 0,
                        num == top[i] * af * 255 + bot[i] * ab * (255 - af),
                ;
                lemma_div_by_multiple(bot[i] as int, ab * 255);
                assert(num / na == bot[i] as int);
            }
        }
    }
}

/// Law: where the top pixel is fully opaque, the composite shows exactly the
/// top pixel (pixel `q`, bytes `4q .. 4q+4`).
pub proof fn lemma_composite_opaque_pixel(top: Seq<u8>, bot: Seq<u8>, q: int)
    requires
        top.len() == bot.len(),
        0 <= q,
        4 * q + 3 < top.len(),
        top[4 * q + 3] == 255,
    ensures
        forall|c: int|
            0 <= c < 4 ==> #[trigger] composite_spec(top, bot)[4 * q + c] == top[4 * q + c],
{
    assert forall|c: int| 0 <= c < 4 implies #[trigger] composite_spec(top, bot)[4 * q + c]
        == top[4 * q + c] by {
        let i = 4 * q + c;
        lemma_div_multiples_vanish_fancy(q, c, 4);
        assert(i / 4 == q);
        let p = 4 * q;
        let af = top[p + 3] as int;
        let ab = bot[p + 3] as int;
        let na = blend_alpha_num(af, ab);
        assert(na == 65025) by (nonlinear_arith)
            requires
                af == 255,
                na == af * 255 + ab * (255 - af),
        ;
        lemma_fundamental_div_mod(i, 4);
        assert(i % 4 == c);
        if c == 3 {
            assert(na / 255 == 255);
        } else {
            let num = top[i] * af * 255 + bot[i] * ab * (255 - af);
            assert(num == (top[i] as int) * 65025) by (nonlinear_arith)
                requires
                    af == 255,
                    num == top[i] * af * 255 + bot[i] * ab * (255 - af),
            ;
            lemma_div_by_multiple(top[i] as int, 65025);
            assert(num / na == top[i] as int);
        }
    }
}

/// Law (boundary ratios): with weight `den/den` the scaled top is unchanged,
/// so the composite is top-over-bottom with the top's own opacity; with
/// weight `0/den` the scaled top is fully transparent and the composite is
/// exactly the bottom image.
pub proof fn lemma_boundary_ratios(top: Seq<u8>, bot: Seq<u8>, den: int)
    requires
        top.len() == bot.len(),
        top.len() % 4 == 0,
        1 <= den,
    ensures
        scale_alpha_spec(top, den, den) =~= top,
        composite_spec(scale_alpha_spec(top, 0, den), bot) =~= bot,
{
    lemma_scale_alpha_identity(top, den);
    lemma_scale_alpha_zero(top, den);
    lemma_composite_transparent(scale_alpha_spec(top, 0, den), bot);
}

/// What nearest-neighbor resampling yields on the given RGBA bytes and
/// dimensions: a function of them alone.
pub uninterp spec fn resize_nearest_of(data: Seq<u8>, w: int, h: int, nw: int, nh: int) -> Seq<u8>;

/// What Gaussian resampling yields on the given RGBA bytes and dimensions.
/// The kernel evaluates the exponential in the build's math library, so this
/// is a fixed function of its arguments within any one build of the crate;
/// no proof here depends on more.
pub uninterp spec fn resize_gaussian_of(data: Seq<u8>, w: int, h: int, nw: int, nh: int) -> Seq<
    u8,
>;

/// Relies on image::imageops::resize with FilterType::Nearest: the output
/// buffer holds `nw * nh` RGBA pixels computed from the input alone. A
/// source dimension of zero would leave the resampler with an empty weight
/// window and a panic, so both dimensions must be at least one.
#[verifier::external_body]
fn resize_nearest_raw(img: &Image, nw: u32, nh: u32) -> (r: Vec<u8>)
    requires
        img.wf(),
        img.width >= 1,
        img.height >= 1,
    ensures
        r@.len() == 4 * (nw as int) * (nh as int),
        r@ == resize_nearest_of(img.data@, img.width as int, img.height as int, nw as int, nh as int),
{
    let buf = image::RgbaImage::from_raw(img.width, img.height, img.data.clone()).unwrap();
    image::imageops::resize(&buf, nw, nh, image::imageops::FilterType::Nearest).into_raw()
}

/// Relies on image::imageops::resize with FilterType::Gaussian: the output
/// buffer holds `nw * nh` RGBA pixels computed from the input (see the note
/// on [`resize_gaussian_of`]). A source dimension of zero would leave the
/// resampler with an empty weight window and a panic, so both dimensions
/// must be at least one.
#[verifier::external_body]
fn resize_gaussian_raw(img: &Image, nw: u32, nh: u32) -> (r: Vec<u8>)
    requires
        img.wf(),
        img.width >= 1,
        img.height >= 1,
    ensures
        r@.len() == 4 * (nw as int) * (nh as int),
        r@ == resize_gaussian_of(img.data@, img.width as int, img.height as int, nw as int, nh as int),
{
    let buf = image::RgbaImage::from_raw(img.width, img.height, img.data.clone()).unwrap();
    image::imageops::resize(&buf, nw, nh, image::imageops::FilterType::Gaussian).into_raw()
}

/// The fixed output resolution of every animation frame.
pub const OUT_SIZE: u32 = 256;

/// Resizes with the cheap nearest-neighbor filter: used for the two endpoint
/// pause frames, which need no blending-artifact smoothing. The image must
/// have at least one pixel in each dimension.
pub fn resize_nearest_out(img: &Image) -> (r: Image)
    requires
        img.wf(),
        img.width >= 1,
        img.height >= 1,
    ensures
        r.wf(),
        r.width == OUT_SIZE,
        r.height == OUT_SIZE,
        r.data@ == resize_nearest_of(
            img.data@,
            img.width as int,
            img.height as int,
            OUT_SIZE as int,
            OUT_SIZE as int,
        ),
{
    let data = resize_nearest_raw(img, OUT_SIZE, OUT_SIZE);
    Image { width: OUT_SIZE, height: OUT_SIZE, data }
}

/// Resizes with the smoother Gaussian filter: used for the interpolated
/// morph frames, where blending artifacts are most visible. The image must
/// have at least one pixel in each dimension.
pub fn resize_gaussian_out(img: &Image) -> (r: Image)
    requires
        img.wf(),
        img.width >= 1,
        img.height >= 1,
    ensures
        r.wf(),
        r.width == OUT_SIZE,
        r.height == OUT_SIZE,
        r.data@ == resize_gaussian_of(
            img.data@,
            img.width as int,
            img.height as int,
            OUT_SIZE as int,
            OUT_SIZE as int,
        ),
{
    let data = resize_gaussian_raw(img, OUT_SIZE, OUT_SIZE);
    Image { width: OUT_SIZE, height: OUT_SIZE, data }
}

} // verus!
