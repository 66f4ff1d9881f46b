//! Geometry and pixel rules of framed prints: a blurred copy of the photo as
//! background, the photo over a drop shadow, and a caption below it.
//!
//! Proportions are integer percentages and sizes whole pixels; every size
//! that is a fraction of another is rounded up.
use vstd::prelude::*;

verus! {

/// Caption band height in pixels.
pub const CAPTION_HEIGHT: u32 = 50;

/// Shadow extent below and above the photo, in percent of its height.
pub const SHADOW_PERCENT: u32 = 5;

/// How far the drop shadow reaches past the photo on each side, in pixels.
pub const SHADOW_OFFSET: u32 = 10;

/// `ceil(a / b)` for `b > 0`.
pub open spec fn ceil_div(a: int, b: int) -> int {
    (a + b - 1) / b
}

pub proof fn lemma_ceil_div(a: int, b: int)
    requires
        b > 0,
        a >= 0,
    ensures
        b * ceil_div(a, b) >= a,
        b * ceil_div(a, b) < a + b,
        0 <= ceil_div(a, b) <= a,
{
    vstd::arithmetic::div_mod::lemma_fundamental_div_mod(a + b - 1, b);
    let c = ceil_div(a, b);
    assert(c <= a) by (nonlinear_arith)
        requires b * c < a + b, b >= 1, c >= 0, a >= 0;
}

/// Background height and width for a photo of `rh` x `rw` (aspect ratio) and
/// width `w`: the requested height (or the larger of `h` and `rh`) at the
/// photo's aspect ratio, unless the photo would then take more than `rate`
/// percent of the width, in which case the width is `w / rate` and the height
/// follows from the aspect ratio.
pub open spec fn bg_size(rh: int, rw: int, h: int, w: int, rate: int, height: Option<u32>) -> (
    int,
    int,
) {
    let h1 = match height {
        Some(x) => x as int,
        None => if h > rh {
            h
        } else {
            rh
        },
    };
    let w1 = ceil_div(h1 * rw, rh);
    if w * 100 > rate * w1 {
        let w2 = ceil_div(w * 100, rate);
        (ceil_div(w2 * rh, rw), w2)
    } else {
        (h1, w1)
    }
}

/// For any photo and occupancy rate, the background is at least as tall as
/// asked (without a request, as the larger of the two heights), the photo
/// takes at most `rate` percent of its width, and its aspect ratio is the
/// photo's to within one pixel of rounding.
pub proof fn lemma_bg_size_bounds(rh: int, rw: int, h: int, w: int, rate: int, height: Option<u32>)
    requires
        rh >= 1,
        rw >= 1,
        rate >= 1,
        h >= 0,
        w >= 0,
    ensures
        ({
            let (bh, bw) = bg_size(rh, rw, h, w, rate, height);
            let h1 = match height {
                Some(x) => x as int,
                None => if h > rh {
                    h
                } else {
                    rh
                },
            };
            &&& bh >= h1
            &&& bw * rate >= w * 100
            &&& bw * rh - bh * rw < rh
            &&& bh * rw - bw * rh < rw
        }),
{
    let h1 = match height {
        Some(x) => x as int,
        None => if h > rh {
            h
        } else {
            rh
        },
    };
    let w1 = ceil_div(h1 * rw, rh);
    assert(h1 * rw >= 0) by (nonlinear_arith)
        requires h1 >= 0, rw >= 1;
    lemma_ceil_div(h1 * rw, rh);
    if w * 100 > rate * w1 {
        let w2 = ceil_div(w * 100, rate);
        lemma_ceil_div(w * 100, rate);
        assert(w2 > w1) by (nonlinear_arith)
            requires rate * w2 >= w * 100, w * 100 > rate * w1, rate >= 1;
        assert(w2 * rh >= 0) by (nonlinear_arith)
            requires w2 >= 0, rh >= 1;
        lemma_ceil_div(w2 * rh, rw);
        let h2 = ceil_div(w2 * rh, rw);
        assert(h2 >= h1) by (nonlinear_arith)
            requires rw * h2 >= w2 * rh, w2 > w1, rh * w1 >= h1 * rw, rh >= 1, rw >= 1;
        assert(w2 * rate >= w * 100) by (nonlinear_arith)
            requires rate * w2 >= w * 100;
        assert(w2 * rh - h2 * rw < rh && h2 * rw - w2 * rh < rw) by (nonlinear_arith)
            requires rw * h2 >= w2 * rh, rw * h2 < w2 * rh + rw, rh >= 1;
    } else {
        assert(w1 * rate >= w * 100) by (nonlinear_arith)
            requires w * 100 <= rate * w1;
        assert(w1 * rh - h1 * rw < rh && h1 * rw - w1 * rh < rw) by (nonlinear_arith)
            requires rh * w1 >= h1 * rw, rh * w1 < h1 * rw + rh, rw >= 1;
    }
}

/// `ceil(a / b)` on machine integers.
fn ceil_div_u128(a: u128, b: u128) -> (r: u128)
    requires
        b > 0,
        a + b - 1 <= u128::MAX,
    ensures
        r == ceil_div(a as int, b as int),
{
    (a + (b - 1)) / b
}

/// Background size (height, width) for a photo; see `bg_size`. The photo
/// takes at most `main_img_w_rate` percent of the width, and the
/// background's aspect ratio is the photo's up to whole-pixel rounding.
pub fn calc_bg_img_size(
    reset_h: u32,
    reset_w: u32,
    h: u32,
    w: u32,
    main_img_w_rate: u32,
    height: Option<u32>,
) -> (r: (u32, u32))
    requires
        reset_h >= 1,
        reset_w >= 1,
        main_img_w_rate >= 1,
        bg_size(reset_h as int, reset_w as int, h as int, w as int, main_img_w_rate as int, height).0
            <= u32::MAX,
        bg_size(reset_h as int, reset_w as int, h as int, w as int, main_img_w_rate as int, height).1
            <= u32::MAX,
    ensures
        (r.0 as int, r.1 as int) == bg_size(
            reset_h as int,
            reset_w as int,
            h as int,
            w as int,
            main_img_w_rate as int,
            height,
        ),
        r.1 * main_img_w_rate >= w * 100,
        r.1 * reset_h - r.0 * reset_w < reset_h,
        r.0 * reset_w - r.1 * reset_h < reset_w,
{
    proof {
        lemma_bg_size_bounds(
            reset_h as int,
            reset_w as int,
            h as int,
            w as int,
            main_img_w_rate as int,
            height,
        );
    }
    let rh = reset_h as u128;
    let rw = reset_w as u128;
    let h1: u128 = match height {
        Some(x) => x as u128,
        None => if h > reset_h {
            h as u128
        } else {
            rh
        },
    };
    assert(h1 * rw <= 0xffff_ffff * 0xffff_ffff) by (nonlinear_arith)
        requires h1 <= 0xffff_ffff, rw <= 0xffff_ffff;
    let w1 = ceil_div_u128(h1 * rw, rh);
    proof {
        lemma_ceil_div(h1 * rw, rh as int);
    }
    let rate = main_img_w_rate as u128;
    assert(rate * w1 <= 0xffff_ffff * (0xffff_ffff * 0xffff_ffff)) by (nonlinear_arith)
        requires rate <= 0xffff_ffff, w1 <= 0xffff_ffff * 0xffff_ffff, w1 >= 0;
    if (w as u128) * 100 > rate * w1 {
        let w2 = ceil_div_u128((w as u128) * 100, rate);
        proof {
            lemma_ceil_div(w * 100, rate as int);
        }
        assert(w2 * rh <= 0xffff_ffff * 0xffff_ffff) by (nonlinear_arith)
            requires w2 <= 0xffff_ffff, rh <= 0xffff_ffff, w2 >= 0;
        let h2 = ceil_div_u128(w2 * rh, rw);
        proof {
            lemma_ceil_div(w2 * rh, rw as int);
        }
        assert(w2 * rate >= w * 100);
        (h2 as u32, w2 as u32)
    } else {
        assert(w1 * rate >= w * 100) by (nonlinear_arith)
            requires w * 100 <= rate * w1;
        (h1 as u32, w1 as u32)
    }
}

/// The photo's top margin: `mini_margin` percent of the background height,
/// or with a shadow, at least `shadow` percent of the photo's height.
pub open spec fn content_top(
    bg_h: int,
    m_h: int,
    shadow: Option<u32>,
    mini_margin: int,
    shadow_show: bool,
) -> int {
    let base = ceil_div(bg_h * mini_margin, 100);
    let sh = ceil_div(
        m_h * match shadow {
            Some(s) => s as int,
            None => 0,
        },
        100,
    );
    if shadow_show && sh > base {
        sh
    } else {
        base
    }
}

/// Height of the content: caption, photo, and margins. Without a caption the
/// margins are the top margin twice; with one they shrink to 75% of that
/// and gain a gap of 2.7% of the background height.
pub open spec fn content_height(
    bg_h: int,
    m_h: int,
    shadow: Option<u32>,
    mini_margin: int,
    shadow_show: bool,
    text: Option<u32>,
) -> int {
    let top = content_top(bg_h, m_h, shadow, mini_margin, shadow_show);
    match text {
        Some(t) => t as int + m_h + ceil_div(1500 * top + 27 * bg_h, 1000),
        None => m_h + 2 * top,
    }
}

/// Content height and the photo's top margin; see `content_height` and
/// `content_top`.
pub fn calc_content_height(
    bg_h: u32,
    m_h: u32,
    shadow: Option<u32>,
    mini_top_bottom_margin: u32,
    shadow_show: bool,
    text: Option<u32>,
) -> (r: (i32, i32))
    requires
        content_height(
            bg_h as int,
            m_h as int,
            shadow,
            mini_top_bottom_margin as int,
            shadow_show,
            text,
        ) <= i32::MAX,
    ensures
        r.0 == content_height(
            bg_h as int,
            m_h as int,
            shadow,
            mini_top_bottom_margin as int,
            shadow_show,
            text,
        ),
        r.1 == content_top(bg_h as int, m_h as int, shadow, mini_top_bottom_margin as int, shadow_show),
{
    let ghost top_spec = content_top(
        bg_h as int,
        m_h as int,
        shadow,
        mini_top_bottom_margin as int,
        shadow_show,
    );
    assert(bg_h * mini_top_bottom_margin <= 0xffff_ffff * 0xffff_ffff) by (nonlinear_arith)
        requires bg_h <= 0xffff_ffff, mini_top_bottom_margin <= 0xffff_ffff;
    let base = ceil_div_u128((bg_h as u128) * (mini_top_bottom_margin as u128), 100);
    let s: u128 = match shadow {
        Some(s) => s as u128,
        None => 0,
    };
    assert(m_h * s <= 0xffff_ffff * 0xffff_ffff) by (nonlinear_arith)
        requires m_h <= 0xffff_ffff, s <= 0xffff_ffff;
    let sh = ceil_div_u128((m_h as u128) * s, 100);
    let top: u128 = if shadow_show && sh > base {
        sh
    } else {
        base
    };
    assert(top == top_spec);
    proof {
        lemma_ceil_div(bg_h * mini_top_bottom_margin, 100);
        lemma_ceil_div(m_h * s, 100);
        lemma_ceil_div(1500 * top + 27 * bg_h, 1000);
    }
    let height: u128 = match text {
        Some(t) => {
            assert(top <= 0xffff_ffff * 0xffff_ffff);
            (t as u128) + (m_h as u128) + ceil_div_u128(1500 * top + 27 * (bg_h as u128), 1000)
        },
        None => (m_h as u128) + 2 * top,
    };
    (height as i32, top as i32)
}

/// Where everything goes on a framed print.
#[derive(Clone, Copy, Debug, PartialEq, Eq, Structural)]
pub struct FrameLayout {
    pub bg_w: u32,
    pub bg_h: u32,
    /// Top-left corner of the photo.
    pub content_x: u32,
    pub content_y: u32,
    /// Top-left corner of the caption.
    pub text_x: i64,
    pub text_y: i64,
    /// The shadow rectangle.
    pub shadow_x: i64,
    pub shadow_y: i64,
    pub shadow_w: u64,
    pub shadow_h: u64,
}

/// Height of the print for a photo of height `h`: caption, photo and margins.
pub open spec fn frame_height(h: int) -> int {
    content_height(h, h, Some(SHADOW_PERCENT), 0, true, Some(CAPTION_HEIGHT))
}

/// The layout of the print of a `w` x `h` photo with a `tw` x `th` caption:
/// the background has the print's height at the photo's aspect ratio, the
/// photo is centred horizontally below its top margin, the caption centred
/// in the band under the photo, and the shadow reaches `SHADOW_OFFSET`
/// pixels past the photo on every side.
pub open spec fn frame_layout_spec(w: int, h: int, tw: int, th: int) -> FrameLayout {
    let bg_h = frame_height(h);
    let bg_w = ceil_div(bg_h * w, h);
    let cx = (bg_w - w) / 2;
    let cy = content_top(h, h, Some(SHADOW_PERCENT), 0, true);
    FrameLayout {
        bg_w: bg_w as u32,
        bg_h: bg_h as u32,
        content_x: cx as u32,
        content_y: cy as u32,
        text_x: ((bg_w - tw) / 2) as i64,
        text_y: (cy + h + (bg_h - cy - h) / 2 - th / 2) as i64,
        shadow_x: (cx - SHADOW_OFFSET) as i64,
        shadow_y: (cy - SHADOW_OFFSET) as i64,
        shadow_w: (w + 2 * SHADOW_OFFSET) as u64,
        shadow_h: (h + 2 * SHADOW_OFFSET) as u64,
    }
}

/// The background width fits in 32 bits.
pub open spec fn frame_fits(w: int, h: int) -> bool {
    ceil_div(frame_height(h) * w, h) <= u32::MAX
}

/// Lays out the print of a `width` x `height` photo with a caption image of
/// `text_w` x `text_h`; see `frame_layout_spec`.
pub fn frame_layout(width: u32, height: u32, text_w: u32, text_h: u32) -> (r: FrameLayout)
    requires
        width >= 1,
        height >= 1,
        frame_height(height as int) <= i32::MAX,
        frame_fits(width as int, height as int),
    ensures
        r == frame_layout_spec(width as int, height as int, text_w as int, text_h as int),
        r.bg_w >= width,
        r.bg_h >= height + CAPTION_HEIGHT,
        r.content_y >= ceil_div(height as int * SHADOW_PERCENT, 100),
        r.content_x + width <= r.bg_w,
        r.content_y + height <= r.bg_h,
{
    let ghost top = content_top(height as int, height as int, Some(SHADOW_PERCENT), 0, true);
    proof {
        lemma_ceil_div(height * SHADOW_PERCENT, 100);
        lemma_ceil_div(0, 100);
        lemma_ceil_div(1500 * top + 27 * height, 1000);
        assert(top <= height);
    }
    assert(ceil_div(height * width, height as int) == width) by {
        lemma_ceil_div(height * width, height as int);
        assert(ceil_div(height * width, height as int) == width) by (nonlinear_arith)
            requires
                height * ceil_div(height * width, height as int) >= height * width,
                height * ceil_div(height * width, height as int) < height * width + height,
                height >= 1,
        ;
    }
    let (bg_h0, bg_w0) = calc_bg_img_size(height, width, height, width, 100, Some(height));
    assert(bg_h0 == height);
    let (content_h, m_top) = calc_content_height(
        bg_h0,
        height,
        Some(SHADOW_PERCENT),
        0,
        true,
        Some(CAPTION_HEIGHT),
    );
    let ghost fh = frame_height(height as int);
    proof {
        lemma_ceil_div(fh * width, height as int);
        assert(fh >= height);
        assert(fh * width >= height * width) by (nonlinear_arith)
            requires fh >= height, width >= 0;
        let c = ceil_div(fh * width, height as int);
        assert(c >= width) by (nonlinear_arith)
            requires height * c >= fh * width, fh * width >= height * width, height >= 1;
        assert(width * 100 <= 100 * c);
    }
    let (bg_h, bg_w) = calc_bg_img_size(
        height,
        width,
        height,
        width,
        100,
        Some(content_h as u32),
    );
    let content_x = (bg_w - width) / 2;
    let content_y = m_top as u32;
    let text_x: i64 = if text_w <= bg_w {
        ((bg_w - text_w) / 2) as i64
    } else {
        -((((text_w - bg_w) + 1) / 2) as i64)
    };
    let below: u32 = bg_h - content_y - height;
    let text_y: i64 = (content_y as i64) + (height as i64) + ((below / 2) as i64) - ((text_h
        / 2) as i64);
    FrameLayout {
        bg_w,
        bg_h,
        content_x,
        content_y,
        text_x,
        text_y,
        shadow_x: (content_x as i64) - (SHADOW_OFFSET as i64),
        shadow_y: (content_y as i64) - (SHADOW_OFFSET as i64),
        shadow_w: (width as u64) + 2 * (SHADOW_OFFSET as u64),
        shadow_h: (height as u64) + 2 * (SHADOW_OFFSET as u64),
    }
}

/// Lays out the print of a `width` x `height` photo with a caption image of
/// `text_w` x `text_h`, or `None` when the photo is empty or the print would
/// not fit in 32-bit sizes.
pub fn try_frame_layout(width: u32, height: u32, text_w: u32, text_h: u32) -> (r: Option<
    FrameLayout,
>)
    ensures
        r == (if width >= 1 && height >= 1 && frame_height(height as int) <= i32::MAX
            && frame_fits(width as int, height as int) {
            Some(frame_layout_spec(width as int, height as int, text_w as int, text_h as int))
        } else {
            None
        }),
{
    if width == 0 || height == 0 {
        return None;
    }
    let h = height as u128;
    let top = ceil_div_u128(h * (SHADOW_PERCENT as u128), 100);
    proof {
        lemma_ceil_div(h * SHADOW_PERCENT, 100);
        lemma_ceil_div(0, 100);
    }
    assert(top == content_top(height as int, height as int, Some(SHADOW_PERCENT), 0, true));
    let fh = (CAPTION_HEIGHT as u128) + h + ceil_div_u128(1500 * top + 27 * h, 1000);
    assert(fh == frame_height(height as int));
    if fh > 0x7fff_ffff {
        return None;
    }
    assert(fh * width <= 0x7fff_ffff * 0xffff_ffff) by (nonlinear_arith)
        requires fh <= 0x7fff_ffff, width <= 0xffff_ffff;
    let bg_w = ceil_div_u128(fh * (width as u128), h);
    if bg_w > 0xffff_ffff {
        return None;
    }
    Some(frame_layout(width, height, text_w, text_h))
}

/// The translucent gray laid over the blurred background (RGBA, alpha 20%),
/// by the background's average brightness: lighter on dark backgrounds,
/// black from 40 up.
pub open spec fn overlay_spec(avg: int) -> (u8, u8, u8, u8) {
    if avg < 15 {
        (180, 180, 180, 51)
    } else if avg < 20 {
        (158, 158, 158, 51)
    } else if avg < 40 {
        (128, 128, 128, 51)
    } else {
        (0, 0, 0, 51)
    }
}

/// The overlay color for a background of average brightness `avg`.
pub fn overlay_color(avg: u8) -> (r: (u8, u8, u8, u8))
    ensures
        r == overlay_spec(avg as int),
{
    if avg < 15 {
        (180, 180, 180, 51)
    } else if avg < 20 {
        (158, 158, 158, 51)
    } else if avg < 40 {
        (128, 128, 128, 51)
    } else {
        (0, 0, 0, 51)
    }
}

/// Sum over the first `k` RGBA pixels of `(r + g + b) / 3`.
pub open spec fn brightness_sum(px: Seq<u8>, k: int) -> int
    decreases k,
{
    if k <= 0 {
        0
    } else {
        brightness_sum(px, k - 1) + (px[4 * (k - 1)] + px[4 * (k - 1) + 1] + px[4 * (k - 1) + 2])
            / 3
    }
}

/// Average brightness of an RGBA image: the mean over its pixels of the
/// mean of their red, green and blue components, each rounded down.
pub fn calc_average_brightness(img: &Vec<u8>) -> (r: u8)
    requires
        img@.len() >= 4,
        img@.len() % 4 == 0,
    ensures
        r == brightness_sum(img@, img@.len() as int / 4) / (img@.len() as int / 4),
{
    let n = img.len();
    let count = n / 4;
    let mut sum: u128 = 0;
    let mut k: usize = 0;
    while k < count
        invariant
            n == img@.len(),
            count == img@.len() / 4,
            img@.len() % 4 == 0,
            k <= count,
            sum == brightness_sum(img@, k as int),
            sum <= 255 * k,
        decreases count - k,
    {
        let p = 4 * k;
        let v = (img[p] as u128 + img[p + 1] as u128 + img[p + 2] as u128) / 3;
        sum = sum + v;
        k = k + 1;
    }
    assert(sum / (count as u128) <= 255) by (nonlinear_arith)
        requires sum <= 255 * count, count >= 1;
    (sum / (count as u128)) as u8
}

/// Pixel `i / 4` of `mask` is transparent: the image's sample `i` becomes 0.
pub open spec fn masked_sample(img: Seq<u8>, mask: Seq<u8>, i: int) -> u8 {
    if mask[i - i % 4 + 3] == 0 {
        0
    } else {
        img[i]
    }
}

/// Makes transparent (all four components 0) every pixel of the RGBA image
/// where the RGBA mask of the same size is fully transparent.
pub fn apply_mask(img: &Vec<u8>, mask: &Vec<u8>) -> (r: Vec<u8>)
    requires
        img@.len() % 4 == 0,
        mask@.len() == img@.len(),
    ensures
        r@.len() == img@.len(),
        forall|i: int| 0 <= i < r@.len() ==> r@[i] == masked_sample(img@, mask@, i),
{
    let mut out: Vec<u8> = Vec::new();
    let n = img.len();
    while out.len() < n
        invariant
            n == img@.len(),
            n % 4 == 0,
            mask@.len() == n,
            out@.len() <= n,
            out@.len() % 4 == 0,
            forall|i: int| 0 <= i < out@.len() ==> out@[i] == masked_sample(img@, mask@, i),
        decreases n - out@.len(),
    {
        let p = out.len();
        let clear = mask[p + 3] == 0;
        let mut c: usize = 0;
        while c < 4
            invariant
                c <= 4,
                p + 4 <= n,
                p % 4 == 0,
                n == img@.len(),
                mask@.len() == n,
                out@.len() == p + c,
                clear == (mask@[p + 3] == 0),
                forall|i: int| 0 <= i < out@.len() ==> out@[i] == masked_sample(img@, mask@, i),
            decreases 4 - c,
        {
            let v = if clear { 0 } else { img[p + c] };
            proof {
                let i = (p + c) as int;
                assert(i % 4 == c) by {
                    vstd::arithmetic::div_mod::lemma_fundamental_div_mod_converse(
                        i,
                        4,
                        p as int / 4,
                        c as int,
                    );
                }
            }
            out.push(v);
            c = c + 1;
        }
    }
    out
}

} // verus!
