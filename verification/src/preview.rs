//! The two preview pictures of a container.

use vstd::arithmetic::div_mod::lemma_fundamental_div_mod_converse;
use vstd::prelude::*;

use crate::b64::{base64_bytes, decode_base64};
use crate::bytes::{be16, push_bytes, zeros};
use crate::error::SlicerV3Error;
use crate::json::text_view;
use crate::picture::{
    announces_what_fits, decode_png, depth_allowed, png_decoded, row_len, samples, PngColor,
    PngFrame, PngImage,
};
use crate::single::{
    divide, int_single, integer_part, lemma_fraction_is_plain, lemma_scaled_fits,
    lemma_scaled_is_plain, multiply, product, quotient, round, rounded_int, single_from_int,
    truncate, Single,
};
use crate::thumbnail::{bounds, law_previews_show_what_shows, shows_between};

verus! {

/// The width and height of the small preview.
pub const SMALL_W: usize = 116;

pub const SMALL_H: usize = 116;

/// The width and height of the large preview.
pub const LARGE_W: usize = 290;

pub const LARGE_H: usize = 290;

/// The previews as a container stores them: 16 bits per pixel.
#[derive(Debug)]
pub struct GooPreviewBlobs {
    pub small: Vec<u8>,
    pub large: Vec<u8>,
}

/// Why a thumbnail cannot be used.
#[derive(Debug, Clone, Copy, PartialEq, Eq)]
pub enum PreviewError {
    /// The text is not base64.
    Base64,
    /// The bytes are no PNG file that can be read, or its pixels cannot be held in memory.
    Png,
    /// The pixels refer to a palette.
    UnsupportedColor,
}

/// The bytes of a sample.
pub open spec fn unit(wide: bool) -> int {
    if wide {
        2
    } else {
        1
    }
}

/// The bytes of a pixel.
pub open spec fn pixel_step(color: PngColor, wide: bool) -> int {
    samples(color) * unit(wide)
}

/// Channel `channel` (red, green, blue, opacity) of pixel `pixel`. Of a sample of two bytes
/// the first counts. A pixel that is not there is transparent black.
pub open spec fn channel_of(raw: Seq<u8>, color: PngColor, wide: bool, pixel: int, channel: int)
    -> u8 {
    let at = pixel * pixel_step(color, wide);
    let unit = unit(wide);
    if at + pixel_step(color, wide) > raw.len() {
        0
    } else {
        match color {
            PngColor::Rgba => raw[at + channel * unit],
            PngColor::Rgb => if channel < 3 {
                raw[at + channel * unit]
            } else {
                255
            },
            PngColor::GrayscaleAlpha => if channel < 3 {
                raw[at]
            } else {
                raw[at + unit]
            },
            _ => if channel < 3 {
                raw[at]
            } else {
                255
            },
        }
    }
}

/// `pixels` pixels as four bytes each.
pub open spec fn rgba_of(raw: Seq<u8>, pixels: nat, color: PngColor, wide: bool) -> Seq<u8> {
    Seq::new(4 * pixels, |i: int| channel_of(raw, color, wide, i / 4, i % 4))
}

/// The raw bytes go with the number of pixels: plain RGBA bytes have all of them, other
/// bytes have no more pixels than that.
pub open spec fn raw_goes_with(raw_len: nat, pixels: nat, color: PngColor, wide: bool) -> bool {
    if color is Rgba && !wide {
        raw_len >= 4 * pixels
    } else {
        color is Indexed || raw_len / (pixel_step(color, wide) as nat) <= pixels
    }
}

fn pixel_at(raw: &[u8], color: PngColor, wide: bool, at: usize) -> (r: (u8, u8, u8, u8))
    requires
        at + pixel_step(color, wide) <= raw@.len(),
    ensures
        forall|pixel: int|
            #![trigger channel_of(raw@, color, wide, pixel, 0)]
            at == pixel * pixel_step(color, wide) ==> r.0 == channel_of(raw@, color, wide, pixel, 0)
                && r.1 == channel_of(raw@, color, wide, pixel, 1) && r.2 == channel_of(
                raw@,
                color,
                wide,
                pixel,
                2,
            ) && r.3 == channel_of(raw@, color, wide, pixel, 3),
{
    let u: usize = if wide {
        2
    } else {
        1
    };
    match color {
        PngColor::Rgba => (raw[at], raw[at + u], raw[at + 2 * u], raw[at + 3 * u]),
        PngColor::Rgb => (raw[at], raw[at + u], raw[at + 2 * u], 255),
        PngColor::GrayscaleAlpha => (raw[at], raw[at], raw[at], raw[at + u]),
        _ => (raw[at], raw[at], raw[at], 255),
    }
}

/// The pixels of a picture as four bytes each.
pub fn to_rgba(raw: &[u8], w: usize, h: usize, color: PngColor, wide: bool) -> (r: Result<
    Vec<u8>,
    PreviewError,
>)
    requires
        w * h * 4 <= usize::MAX,
        raw_goes_with(raw@.len(), (w * h) as nat, color, wide),
    ensures
        match r {
            Ok(rgba) => color !is Indexed && rgba@ == rgba_of(raw@, (w * h) as nat, color, wide),
            Err(e) => color is Indexed && e == PreviewError::UnsupportedColor,
        },
{
    if color == PngColor::Indexed {
        return Err(PreviewError::UnsupportedColor);
    }
    assert(0 <= w * h <= usize::MAX) by (nonlinear_arith)
        requires
            w * h * 4 <= usize::MAX,
            w >= 0,
            h >= 0,
    ;
    let pixels: usize = w * h;
    let u: usize = if wide {
        2
    } else {
        1
    };
    let step: usize = match color {
        PngColor::Rgba => 4 * u,
        PngColor::Rgb => 3 * u,
        PngColor::GrayscaleAlpha => 2 * u,
        _ => u,
    };
    let mut rgba: Vec<u8> = Vec::new();
    let mut i: usize = 0;
    let mut at: usize = 0;
    let ghost all = rgba_of(raw@, pixels as nat, color, wide);
    while i < pixels
        invariant
            i <= pixels,
            4 * pixels <= usize::MAX,
            color !is Indexed,
            step == pixel_step(color, wide),
            1 <= step <= 8,
            all == rgba_of(raw@, pixels as nat, color, wide),
            rgba@ == all.take(4 * i),
            at <= raw@.len(),
            at == i * step || at + step > raw@.len(),
            at <= i * step,
        decreases pixels - i,
    {
        proof {
            assert((i + 1) * step == i * step + step) by (nonlinear_arith);
        }
        let (r, g, b, a) = if step <= raw.len() - at {
            pixel_at(raw, color, wide, at)
        } else {
            (0, 0, 0, 0)
        };
        rgba.push(r);
        rgba.push(g);
        rgba.push(b);
        rgba.push(a);
        assert(all[4 * i] == channel_of(raw@, color, wide, i as int, 0));
        assert(all[4 * i + 1] == channel_of(raw@, color, wide, i as int, 1));
        assert(all[4 * i + 2] == channel_of(raw@, color, wide, i as int, 2));
        assert(all[4 * i + 3] == channel_of(raw@, color, wide, i as int, 3));
        assert(rgba@ =~= all.take(4 * (i + 1)));
        if step <= raw.len() - at {
            at = at + step;
        }
        i = i + 1;
    }
    assert(rgba@ =~= all);
    Ok(rgba)
}

/// Pixel (`x`, `y`) of a picture `w` pixels wide is not fully transparent.
pub open spec fn visible(rgba: Seq<u8>, w: nat, x: int, y: int) -> bool {
    rgba[4 * (y * w + x) + 3] > 0
}

/// A part of a picture: the pixels from `left` to `right` and from `top` to `bottom`.
pub struct Part {
    pub left: int,
    pub top: int,
    pub right: int,
    pub bottom: int,
}

impl Part {
    pub open spec fn width(self) -> nat {
        (self.right - self.left + 1) as nat
    }

    pub open spec fn height(self) -> nat {
        (self.bottom - self.top + 1) as nat
    }
}

/// A pixel in column `x` is visible.
pub open spec fn column_shows(rgba: Seq<u8>, w: nat, h: nat, x: int) -> bool {
    exists|y: int| 0 <= y < h && #[trigger] visible(rgba, w, x, y)
}

/// A pixel in row `y` is visible.
pub open spec fn row_shows(rgba: Seq<u8>, w: nat, y: int) -> bool {
    exists|x: int| 0 <= x < w && #[trigger] visible(rgba, w, x, y)
}

/// The smallest part that holds every visible pixel.
pub open spec fn is_visible_part(rgba: Seq<u8>, w: nat, h: nat, part: Part) -> bool {
    &&& 0 <= part.left <= part.right < w
    &&& 0 <= part.top <= part.bottom < h
    &&& forall|x: int, y: int|
        0 <= x < w && 0 <= y < h && #[trigger] visible(rgba, w, x, y) ==> part.left <= x
            <= part.right && part.top <= y <= part.bottom
    &&& column_shows(rgba, w, h, part.left)
    &&& column_shows(rgba, w, h, part.right)
    &&& row_shows(rgba, w, part.top)
    &&& row_shows(rgba, w, part.bottom)
}

/// The pixels of a part of a picture.
pub open spec fn part_of(rgba: Seq<u8>, w: nat, part: Part) -> Seq<u8> {
    Seq::new(
        4 * (part.width() * part.height()),
        |i: int|
            rgba[4 * ((part.top + i / 4 / part.width() as int) * w + part.left + i / 4
                % part.width() as int) + i % 4],
    )
}

/// A picture without the transparent border, with its width and height. A picture without
/// visible pixels becomes one black pixel; one without width and height is taken for its
/// first pixel.
pub open spec fn cropped(rgba: Seq<u8>, w: nat, h: nat) -> (Seq<u8>, nat, nat) {
    if w == 0 && h == 0 {
        (rgba.take(4), 1, 1)
    } else if exists|part: Part| is_visible_part(rgba, w, h, part) {
        let part = choose|part: Part| is_visible_part(rgba, w, h, part);
        (part_of(rgba, w, part), part.width(), part.height())
    } else {
        (seq![0u8, 0u8, 0u8, 255u8], 1, 1)
    }
}

/// There is one smallest part at most.
pub(crate) proof fn lemma_one_visible_part(rgba: Seq<u8>, w: nat, h: nat, a: Part, b: Part)
    requires
        is_visible_part(rgba, w, h, a),
        is_visible_part(rgba, w, h, b),
    ensures
        a == b,
{
}

/// Nothing is cropped but transparent pixels, and nothing more could be cropped: a
/// visible pixel shows in the result at its place, and every border of the result shows
/// one.
pub proof fn law_crop_keeps_what_shows(rgba: Seq<u8>, w: nat, h: nat, x: int, y: int)
    requires
        0 <= x < w,
        0 <= y < h,
        visible(rgba, w, x, y),
        rgba.len() == 4 * (w * h),
    ensures
        ({
            let part = choose|part: Part| is_visible_part(rgba, w, h, part);
            &&& is_visible_part(rgba, w, h, part)
            &&& cropped(rgba, w, h) == (part_of(rgba, w, part), part.width(), part.height())
            &&& part.left <= x <= part.right && part.top <= y <= part.bottom
            &&& forall|c: int|
                0 <= c < 4 ==> cropped(rgba, w, h).0[4 * ((y - part.top) * part.width() + x
                    - part.left) + c] == #[trigger] rgba[4 * (y * w + x) + c]
        }),
{
    lemma_visible_part_exists(rgba, w, h, x, y);
    let part = choose|part: Part| is_visible_part(rgba, w, h, part);
    let pw = part.width() as int;
    let ph = part.height() as int;
    let (dx, dy) = (x - part.left, y - part.top);
    assert forall|c: int| 0 <= c < 4 implies cropped(rgba, w, h).0[4 * (dy * pw + dx) + c]
        == #[trigger] rgba[4 * (y * w + x) + c] by {
        let i = 4 * (dy * pw + dx) + c;
        lemma_cell(dx, dy, pw, ph);
        assert(i / 4 == dy * pw + dx && i % 4 == c);
    }
}

/// Where a cell of a grid lies in the order of rows.
pub(crate) proof fn lemma_cell(x: int, y: int, w: int, h: int)
    requires
        0 <= x < w,
        0 <= y < h,
    ensures
        0 <= y * w + x < w * h,
        (y * w + x) / w == y,
        (y * w + x) % w == x,
{
    assert(y * w + x < w * h) by (nonlinear_arith)
        requires
            x < w,
            y + 1 <= h,
            w > 0,
    ;
    assert(0 <= y * w) by (nonlinear_arith)
        requires
            y >= 0,
            w >= 0,
    ;
    lemma_fundamental_div_mod_converse(y * w + x, w, y, x);
}

/// With a visible pixel there is a smallest part that holds all of them.
pub(crate) proof fn lemma_visible_part_exists(rgba: Seq<u8>, w: nat, h: nat, x: int, y: int)
    requires
        0 <= x < w,
        0 <= y < h,
        visible(rgba, w, x, y),
    ensures
        exists|part: Part| is_visible_part(rgba, w, h, part),
{
    let columns = |c: int| column_shows(rgba, w, h, c);
    let rows = |r: int| row_shows(rgba, w, r);
    assert(columns(x) && rows(y));
    lemma_first_and_last(columns, w as int, x);
    lemma_first_and_last(rows, h as int, y);
    let (left, right) = choose|a: int, b: int| #[trigger] spans(columns, w as int, a, b);
    let (top, bottom) = choose|a: int, b: int| #[trigger] spans(rows, h as int, a, b);
    let part = Part { left, top, right, bottom };
    assert forall|x1: int, y1: int|
        0 <= x1 < w && 0 <= y1 < h && #[trigger] visible(rgba, w, x1, y1) implies part.left <= x1
        <= part.right && part.top <= y1 <= part.bottom by {
        assert(columns(x1) && rows(y1));
    }
    assert(is_visible_part(rgba, w, h, part));
}

/// `a` and `b` are the first and the last below `n` that `f` holds of.
spec fn spans(f: spec_fn(int) -> bool, n: int, a: int, b: int) -> bool {
    &&& 0 <= a <= b < n
    &&& f(a) && f(b)
    &&& forall|c: int| 0 <= c < n && #[trigger] f(c) ==> a <= c <= b
}

proof fn lemma_first_and_last(f: spec_fn(int) -> bool, n: int, k: int)
    requires
        0 <= k < n,
        f(k),
    ensures
        exists|a: int, b: int| #[trigger] spans(f, n, a, b),
    decreases n,
{
    if exists|j: int| 0 <= j < n - 1 && #[trigger] f(j) {
        let j = choose|j: int| 0 <= j < n - 1 && #[trigger] f(j);
        lemma_first_and_last(f, n - 1, j);
        let (a, b) = choose|a: int, b: int| #[trigger] spans(f, n - 1, a, b);
        if f(n - 1) {
            assert(spans(f, n, a, n - 1));
        } else {
            assert(spans(f, n, a, b));
        }
    } else {
        assert(spans(f, n, k, k));
    }
}

/// Removes the transparent border of a picture. A picture without visible pixels becomes
/// one black pixel; one without width and height is taken for its first pixel.
pub fn crop_transparent_border(rgba: &[u8], w: usize, h: usize) -> (r: (Vec<u8>, usize, usize))
    requires
        rgba@.len() >= 4 * (w * h),
        w == 0 && h == 0 ==> rgba@.len() >= 4,
    ensures
        (r.0@, r.1 as nat, r.2 as nat) == cropped(rgba@, w as nat, h as nat),
        0 < r.1 && (r.1 <= w || r.1 == 1),
        0 < r.2 && (r.2 <= h || r.2 == 1),
        r.0@.len() == 4 * (r.1 * r.2),
{
    let len: usize = rgba.len();
    if w == 0 && h == 0 {
        let mut pixel: Vec<u8> = Vec::new();
        push_bytes(&mut pixel, vstd::slice::slice_subrange(rgba, 0, 4));
        assert(pixel@ =~= rgba@.take(4));
        return (pixel, 1, 1);
    }
    let mut found: bool = false;
    let mut min_x: usize = 0;
    let mut max_x: usize = 0;
    let mut min_y: usize = 0;
    let mut max_y: usize = 0;
    // Where the outermost columns and rows show.
    let ghost mut left_y: int = 0;
    let ghost mut right_y: int = 0;
    let ghost mut top_x: int = 0;
    let ghost mut bottom_x: int = 0;
    let mut y: usize = 0;
    while y < h
        invariant
            y <= h,
            4 * (w * h) <= len == rgba@.len(),
            forall|x1: int, y1: int|
                0 <= x1 < w && 0 <= y1 < y && #[trigger] visible(rgba@, w as nat, x1, y1) ==> found
                    && min_x <= x1 <= max_x && min_y <= y1 <= max_y,
            found ==> {
                &&& min_x <= max_x < w
                &&& min_y <= max_y < h
                &&& 0 <= left_y < h && visible(rgba@, w as nat, min_x as int, left_y)
                &&& 0 <= right_y < h && visible(rgba@, w as nat, max_x as int, right_y)
                &&& 0 <= top_x < w && visible(rgba@, w as nat, top_x, min_y as int)
                &&& 0 <= bottom_x < w && visible(rgba@, w as nat, bottom_x, max_y as int)
            },
        decreases h - y,
    {
        let mut x: usize = 0;
        while x < w
            invariant
                x <= w,
                y < h,
                4 * (w * h) <= len == rgba@.len(),
                forall|x1: int, y1: int|
                    0 <= x1 < w && 0 <= y1 <= y && (y1 < y || x1 < x) && #[trigger] visible(
                        rgba@,
                        w as nat,
                        x1,
                        y1,
                    ) ==> found && min_x <= x1 <= max_x && min_y <= y1 <= max_y,
                found ==> {
                    &&& min_x <= max_x < w
                    &&& min_y <= max_y < h
                    &&& 0 <= left_y < h && visible(rgba@, w as nat, min_x as int, left_y)
                    &&& 0 <= right_y < h && visible(rgba@, w as nat, max_x as int, right_y)
                    &&& 0 <= top_x < w && visible(rgba@, w as nat, top_x, min_y as int)
                    &&& 0 <= bottom_x < w && visible(rgba@, w as nat, bottom_x, max_y as int)
                },
            decreases w - x,
        {
            proof {
                lemma_cell(x as int, y as int, w as int, h as int);
                lemma_row_fits(y as int, w as int, h as int);
            }
            let a: u8 = rgba[(y * w + x) * 4 + 3];
            if a > 0 {
                assert(visible(rgba@, w as nat, x as int, y as int));
                if !found || x < min_x {
                    min_x = x;
                    proof {
                        left_y = y as int;
                    }
                }
                if !found || x > max_x {
                    max_x = x;
                    proof {
                        right_y = y as int;
                    }
                }
                if !found || y < min_y {
                    min_y = y;
                    proof {
                        top_x = x as int;
                    }
                }
                if !found || y > max_y {
                    max_y = y;
                    proof {
                        bottom_x = x as int;
                    }
                }
                found = true;
            }
            x = x + 1;
        }
        y = y + 1;
    }
    if !found {
        let mut pixel: Vec<u8> = Vec::new();
        pixel.push(0);
        pixel.push(0);
        pixel.push(0);
        pixel.push(255);
        assert(pixel@ =~= seq![0u8, 0u8, 0u8, 255u8]);
        assert forall|part: Part| !is_visible_part(rgba@, w as nat, h as nat, part) by {
            if is_visible_part(rgba@, w as nat, h as nat, part) {
                assert(column_shows(rgba@, w as nat, h as nat, part.left));
            }
        }
        return (pixel, 1, 1);
    }
    let cw: usize = max_x - min_x + 1;
    let ch: usize = max_y - min_y + 1;
    let ghost part = Part {
        left: min_x as int,
        top: min_y as int,
        right: max_x as int,
        bottom: max_y as int,
    };
    let ghost all = part_of(rgba@, w as nat, part);
    proof {
        assert(column_shows(rgba@, w as nat, h as nat, min_x as int));
        assert(column_shows(rgba@, w as nat, h as nat, max_x as int));
        assert(row_shows(rgba@, w as nat, min_y as int));
        assert(row_shows(rgba@, w as nat, max_y as int));
        assert(is_visible_part(rgba@, w as nat, h as nat, part));
        lemma_one_visible_part(
            rgba@,
            w as nat,
            h as nat,
            part,
            choose|p: Part| is_visible_part(rgba@, w as nat, h as nat, p),
        );
        assert(0 * cw == 0);
    }
    let mut out: Vec<u8> = Vec::new();
    let mut row: usize = 0;
    while row < ch
        invariant
            row <= ch,
            0 < cw,
            min_x + cw <= w,
            min_y + ch <= h,
            4 * (w * h) <= len == rgba@.len(),
            part == (Part {
                left: min_x as int,
                top: min_y as int,
                right: min_x + cw - 1,
                bottom: min_y + ch - 1,
            }),
            all == part_of(rgba@, w as nat, part),
            out@ == all.take(4 * (row * cw)),
        decreases ch - row,
    {
        proof {
            lemma_cell(min_x as int, (min_y + row) as int, w as int, h as int);
            lemma_cell((min_x + cw - 1) as int, (min_y + row) as int, w as int, h as int);
            lemma_row_fits((min_y + row) as int, w as int, h as int);
            assert((row + 1) * cw == row * cw + cw) by (nonlinear_arith);
            assert(0 <= row * cw && row * cw + cw <= cw * ch) by (nonlinear_arith)
                requires
                    0 <= row,
                    row + 1 <= ch,
                    0 < cw,
            ;
        }
        let from: usize = ((min_y + row) * w + min_x) * 4;
        let line: &[u8] = vstd::slice::slice_subrange(rgba, from, from + cw * 4);
        out.extend_from_slice(line);
        proof {
            assert(part.width() == cw && part.height() == ch);
            let before = 4 * (row * cw);
            assert forall|i: int| before <= i < before + 4 * cw implies all[i] == line@[i
                - before] by {
                let k = i - before;
                lemma_cell(k / 4, row as int, cw as int, ch as int);
                assert(i / 4 == row * cw + k / 4 && i % 4 == k % 4);
                assert(4 * ((part.top + row) * w + part.left + k / 4) + k % 4 == from + k);
            }
            assert(out@ =~= all.take(4 * ((row + 1) * cw)));
        }
        row = row + 1;
    }
    proof {
        assert(ch * cw == cw * ch) by (nonlinear_arith);
        assert(out@ =~= all);
    }
    (out, cw, ch)
}

/// Rows up to `y` take no more than the whole picture.
proof fn lemma_row_fits(y: int, w: int, h: int)
    requires
        0 <= y < h,
        0 <= w,
    ensures
        0 <= y * w,
        y * w + w <= w * h,
{
    assert(0 <= y * w && y * w + w <= w * h) by (nonlinear_arith)
        requires
            0 <= y,
            y + 1 <= h,
            0 <= w,
    ;
}

/// The factor that makes a picture fit, its proportions kept.
pub open spec fn fit_scale(src_w: nat, src_h: nat, dst_w: nat, dst_h: nat) -> Single {
    let across = quotient(int_single(dst_w), int_single(src_w));
    let down = quotient(int_single(dst_h), int_single(src_h));
    if across.bits <= down.bits {
        across
    } else {
        down
    }
}

/// A scaled length: the nearest whole number, but one at least.
pub open spec fn scaled_len(src: nat, scale: Single) -> nat {
    let len = rounded_int(product(int_single(src), scale));
    if len == 0 {
        1
    } else {
        len
    }
}

/// The scaled picture does not exceed the space that it is meant for.
pub open spec fn scaled_fits(src_w: nat, src_h: nat, dst_w: nat, dst_h: nat) -> bool {
    let scale = fit_scale(src_w, src_h, dst_w, dst_h);
    scaled_len(src_w, scale) <= dst_w && scaled_len(src_h, scale) <= dst_h
}

/// Whatever the size of a picture, it fits a space below 2^22 pixels each way once it is
/// scaled: no rounding on the way makes it too large.
pub proof fn law_scaled_picture_fits(src_w: u64, src_h: u64, dst_w: u64, dst_h: u64)
    requires
        0 < src_w,
        0 < src_h,
        0 < dst_w < 0x40_0000,
        0 < dst_h < 0x40_0000,
    ensures
        scaled_fits(src_w as nat, src_h as nat, dst_w as nat, dst_h as nat),
{
    let scale = fit_scale(src_w as nat, src_h as nat, dst_w as nat, dst_h as nat);
    lemma_scaled_fits(dst_w, src_w, scale);
    lemma_scaled_fits(dst_h, src_h, scale);
}

/// The source pixel that is shown at `i` of `fit` pixels.
pub open spec fn sample_index(i: nat, fit: nat, src: nat) -> nat {
    let at = integer_part(product(quotient(int_single(i), int_single(fit)), int_single(src)));
    if at < src {
        at
    } else {
        (src - 1) as nat
    }
}

/// A channel over black.
pub open spec fn blended(value: u8, opacity: u8) -> u8 {
    (value * opacity / 255) as u8
}

/// Channel `channel` of pixel (`x`, `y`) of the scaled picture, which lies in the middle of
/// a black space.
pub open spec fn resized_channel(
    rgba: Seq<u8>,
    src_w: nat,
    src_h: nat,
    dst_w: nat,
    dst_h: nat,
    x: int,
    y: int,
    channel: int,
) -> u8 {
    let scale = fit_scale(src_w, src_h, dst_w, dst_h);
    let fit_w = scaled_len(src_w, scale);
    let fit_h = scaled_len(src_h, scale);
    let off_x = (dst_w - fit_w) / 2;
    let off_y = (dst_h - fit_h) / 2;
    if off_x <= x < off_x + fit_w && off_y <= y < off_y + fit_h {
        let src_x = sample_index((x - off_x) as nat, fit_w, src_w);
        let src_y = sample_index((y - off_y) as nat, fit_h, src_h);
        let at = 4 * (src_y * src_w + src_x) as int;
        blended(rgba[at + channel], rgba[at + 3])
    } else {
        0
    }
}

/// A picture scaled into a space, three bytes per pixel.
pub open spec fn resized(rgba: Seq<u8>, src_w: nat, src_h: nat, dst_w: nat, dst_h: nat) -> Seq<
    u8,
> {
    Seq::new(
        3 * (dst_w * dst_h),
        |i: int|
            if src_w == 0 || src_h == 0 {
                0
            } else {
                resized_channel(
                    rgba,
                    src_w,
                    src_h,
                    dst_w,
                    dst_h,
                    i / 3 % dst_w as int,
                    i / 3 / dst_w as int,
                    i % 3,
                )
            },
    )
}

/// The factor that makes a picture fit.
fn find_scale(src_w: usize, src_h: usize, dst_w: usize, dst_h: usize) -> (r: Single)
    requires
        0 < src_w,
        0 < src_h,
    ensures
        r == fit_scale(src_w as nat, src_h as nat, dst_w as nat, dst_h as nat),
        r.bits <= quotient(int_single(dst_w as nat), int_single(src_w as nat)).bits,
        r.bits <= quotient(int_single(dst_h as nat), int_single(src_h as nat)).bits,
{
    proof {
        let zero = Single { bits: 0 };
        lemma_scaled_is_plain(dst_w as u64, src_w as u64, zero);
        lemma_scaled_is_plain(dst_h as u64, src_h as u64, zero);
    }
    let across: Single = divide(single_from_int(dst_w as u64), single_from_int(src_w as u64));
    let down: Single = divide(single_from_int(dst_h as u64), single_from_int(src_h as u64));
    if across.bits <= down.bits {
        across
    } else {
        down
    }
}

/// A scaled length that is known to be at most `dst`.
fn find_len(src: usize, scale: Single, dst: usize) -> (r: usize)
    requires
        0 < src,
        scale.bits <= quotient(int_single(dst as nat), int_single(src as nat)).bits,
        scaled_len(src as nat, scale) <= dst,
    ensures
        r == scaled_len(src as nat, scale),
        0 < r <= dst,
{
    proof {
        lemma_scaled_is_plain(dst as u64, src as u64, scale);
    }
    let len: u64 = round(multiply(single_from_int(src as u64), scale));
    if len == 0 {
        1
    } else {
        len as usize
    }
}

/// The source pixel that is shown at `i` of `fit` pixels.
fn find_sample(i: usize, fit: usize, src: usize) -> (r: usize)
    requires
        i < fit,
        0 < src,
    ensures
        r == sample_index(i as nat, fit as nat, src as nat),
        r < src,
{
    proof {
        lemma_fraction_is_plain(i as u64, fit as u64, src as u64);
    }
    let fraction: Single = divide(single_from_int(i as u64), single_from_int(fit as u64));
    let at: u64 = truncate(multiply(fraction, single_from_int(src as u64)));
    if at < src as u64 {
        at as usize
    } else {
        src - 1
    }
}

fn blend(value: u8, opacity: u8) -> (r: u8)
    ensures
        r == blended(value, opacity),
{
    assert(value * opacity <= 255 * 255) by (nonlinear_arith)
        requires
            value <= 255,
            opacity <= 255,
    ;
    (value as u32 * opacity as u32 / 255) as u8
}

/// Scales a picture into a space of `dst_w` times `dst_h` pixels, its proportions kept and
/// black around it, and blends it over black.
pub fn resize_and_blend_rgba_to_rgb_nearest(
    rgba: &[u8],
    src_w: usize,
    src_h: usize,
    dst_w: usize,
    dst_h: usize,
) -> (r: Vec<u8>)
    requires
        3 * (dst_w * dst_h) <= usize::MAX,
        src_w > 0 && src_h > 0 ==> {
            &&& rgba@.len() >= 4 * (src_w * src_h)
            &&& scaled_fits(src_w as nat, src_h as nat, dst_w as nat, dst_h as nat)
        },
    ensures
        r@ == resized(rgba@, src_w as nat, src_h as nat, dst_w as nat, dst_h as nat),
{
    let mut out: Vec<u8> = Vec::new();
    let ghost all = resized(rgba@, src_w as nat, src_h as nat, dst_w as nat, dst_h as nat);
    if src_w == 0 || src_h == 0 {
        assert(0 <= dst_w * dst_h) by (nonlinear_arith);
        crate::bytes::push_zeros(&mut out, dst_w * dst_h * 3);
        assert(out@ =~= all);
        return out;
    }
    let len: usize = rgba.len();
    let scale: Single = find_scale(src_w, src_h, dst_w, dst_h);
    let fit_w: usize = find_len(src_w, scale, dst_w);
    let fit_h: usize = find_len(src_h, scale, dst_h);
    let off_x: usize = (dst_w - fit_w) / 2;
    let off_y: usize = (dst_h - fit_h) / 2;
    let mut y: usize = 0;
    assert(0 * dst_w == 0);
    assert(out@ =~= all.take(0));
    while y < dst_h
        invariant
            y <= dst_h,
            0 < src_w && 0 < src_h,
            0 < fit_w <= dst_w,
            0 < fit_h <= dst_h,
            off_x == (dst_w - fit_w) / 2,
            off_y == (dst_h - fit_h) / 2,
            4 * (src_w * src_h) <= len == rgba@.len(),
            scale == fit_scale(src_w as nat, src_h as nat, dst_w as nat, dst_h as nat),
            fit_w == scaled_len(src_w as nat, scale),
            fit_h == scaled_len(src_h as nat, scale),
            all == resized(rgba@, src_w as nat, src_h as nat, dst_w as nat, dst_h as nat),
            out@ == all.take(3 * (y * dst_w)),
        decreases dst_h - y,
    {
        let in_rows: bool = off_y <= y && y < off_y + fit_h;
        let src_y: usize = if in_rows {
            find_sample(y - off_y, fit_h, src_h)
        } else {
            0
        };
        proof {
            lemma_row_fits(y as int, dst_w as int, dst_h as int);
        }
        let mut x: usize = 0;
        while x < dst_w
            invariant
                x <= dst_w,
                y < dst_h,
                0 < src_w && 0 < src_h,
                0 < fit_w <= dst_w,
                0 < fit_h <= dst_h,
                off_x == (dst_w - fit_w) / 2,
                off_y == (dst_h - fit_h) / 2,
                4 * (src_w * src_h) <= len == rgba@.len(),
                scale == fit_scale(src_w as nat, src_h as nat, dst_w as nat, dst_h as nat),
                fit_w == scaled_len(src_w as nat, scale),
                fit_h == scaled_len(src_h as nat, scale),
                all == resized(rgba@, src_w as nat, src_h as nat, dst_w as nat, dst_h as nat),
                in_rows == (off_y <= y < off_y + fit_h),
                src_y < src_h,
                in_rows ==> src_y == sample_index((y - off_y) as nat, fit_h as nat, src_h as nat),
                0 <= y * dst_w,
                y * dst_w + dst_w <= dst_w * dst_h,
                out@ == all.take(3 * (y * dst_w + x)),
            decreases dst_w - x,
        {
            let (r, g, b) = if in_rows && off_x <= x && x < off_x + fit_w {
                let src_x: usize = find_sample(x - off_x, fit_w, src_w);
                proof {
                    lemma_cell(src_x as int, src_y as int, src_w as int, src_h as int);
                    lemma_row_fits(src_y as int, src_w as int, src_h as int);
                }
                let at: usize = (src_y * src_w + src_x) * 4;
                let a: u8 = rgba[at + 3];
                (blend(rgba[at], a), blend(rgba[at + 1], a), blend(rgba[at + 2], a))
            } else {
                (0, 0, 0)
            };
            out.push(r);
            out.push(g);
            out.push(b);
            proof {
                let k = y * dst_w + x;
                lemma_cell(x as int, y as int, dst_w as int, dst_h as int);
                assert(3 * k / 3 == k && 3 * k % 3 == 0);
                assert((3 * k + 1) / 3 == k && (3 * k + 1) % 3 == 1);
                assert((3 * k + 2) / 3 == k && (3 * k + 2) % 3 == 2);
                assert(all[3 * k] == r && all[3 * k + 1] == g && all[3 * k + 2] == b);
                assert(out@ =~= all.take(3 * (k + 1)));
            }
            x = x + 1;
        }
        proof {
            assert((y + 1) * dst_w == y * dst_w + dst_w) by (nonlinear_arith);
        }
        y = y + 1;
    }
    proof {
        assert(dst_h * dst_w == dst_w * dst_h) by (nonlinear_arith);
        assert(out@ =~= all);
    }
    out
}

/// A pixel in 16 bits: five for red, six for green, five for blue.
pub open spec fn rgb565(r: u8, g: u8, b: u8) -> u16 {
    (r / 8 * 2048 + g / 4 * 32 + b / 8) as u16
}

/// `pixels` pixels in 16 bits each, the most significant byte first.
pub open spec fn rgb565_bytes(rgb: Seq<u8>, pixels: nat) -> Seq<u8> {
    Seq::new(
        2 * pixels,
        |i: int| be16(rgb565(rgb[3 * (i / 2)], rgb[3 * (i / 2) + 1], rgb[3 * (i / 2) + 2]))[i % 2],
    )
}

/// Packs the pixels of a picture into 16 bits each.
pub fn rgb_to_rgb565_be(rgb: &[u8], w: usize, h: usize) -> (out: Vec<u8>)
    requires
        rgb@.len() >= 3 * (w * h),
    ensures
        out@ == rgb565_bytes(rgb@, (w * h) as nat),
{
    let len: usize = rgb.len();
    assert(0 <= w * h) by (nonlinear_arith);
    let pixels: usize = w * h;
    let ghost all = rgb565_bytes(rgb@, pixels as nat);
    let mut out: Vec<u8> = Vec::new();
    let mut i: usize = 0;
    assert(out@ =~= all.take(0));
    while i < pixels
        invariant
            i <= pixels,
            3 * pixels <= len == rgb@.len(),
            all == rgb565_bytes(rgb@, pixels as nat),
            out@ == all.take(2 * i),
        decreases pixels - i,
    {
        let r: u16 = rgb[3 * i] as u16 / 8;
        let g: u16 = rgb[3 * i + 1] as u16 / 4;
        let b: u16 = rgb[3 * i + 2] as u16 / 8;
        let pixel: u16 = r * 2048 + g * 32 + b;
        crate::bytes::push_u16_be(&mut out, pixel);
        proof {
            assert(pixel == rgb565(rgb@[3 * i], rgb@[3 * i + 1], rgb@[3 * i + 2]));
            assert((2 * i) / 2 == i && (2 * i + 1) / 2 == i);
            assert(all[2 * i] == be16(pixel)[0] && all[2 * i + 1] == be16(pixel)[1]);
            assert(out@ =~= all.take(2 * (i + 1)));
        }
        i = i + 1;
    }
    assert(out@ =~= all);
    out
}

/// A black picture in 16 bits per pixel.
pub fn blank_rgb565(w: usize, h: usize) -> (out: Vec<u8>)
    requires
        2 * (w * h) <= usize::MAX,
    ensures
        out@ == zeros((2 * (w * h)) as nat),
{
    let mut out: Vec<u8> = Vec::new();
    assert(0 <= w * h) by (nonlinear_arith);
    crate::bytes::push_zeros(&mut out, w * h * 2);
    assert(out@ =~= zeros((2 * (w * h)) as nat));
    out
}

/// A picture scaled into a space, in 16 bits per pixel.
pub open spec fn preview_of(frame: PngFrame, dst_w: nat, dst_h: nat) -> Seq<u8> {
    let (w, h) = (frame.width as nat, frame.height as nat);
    let rgba = rgba_of(frame.raw, w * h, frame.color, frame.depth == 16);
    let (part, pw, ph) = cropped(rgba, w, h);
    rgb565_bytes(resized(part, pw, ph, dst_w, dst_h), dst_w * dst_h)
}

/// The previews of a picture.
pub open spec fn previews_of(frame: PngFrame) -> Result<(Seq<u8>, Seq<u8>), PreviewError> {
    if frame.color is Indexed {
        Err(PreviewError::UnsupportedColor)
    } else {
        Ok(
            (
                preview_of(frame, SMALL_W as nat, SMALL_H as nat),
                preview_of(frame, LARGE_W as nat, LARGE_H as nat),
            ),
        )
    }
}

/// The pixels of a picture, as four bytes each, can be held in memory.
pub open spec fn pixels_fit(frame: PngFrame) -> bool {
    frame.width * frame.height * 4 <= isize::MAX
}

/// A picture as it comes out of a file: not empty, and with as many bytes as its size calls
/// for.
pub open spec fn frame_is_sound(frame: PngFrame) -> bool {
    &&& frame.width > 0 && frame.height > 0
    &&& depth_allowed(frame.color, frame.depth)
    &&& frame.raw.len() == frame.height * row_len(frame.color, frame.depth, frame.width)
}

/// A sound picture has the bytes that its pixels call for.
proof fn lemma_raw_goes_with(frame: PngFrame)
    requires
        frame_is_sound(frame),
    ensures
        raw_goes_with(
            frame.raw.len(),
            (frame.width * frame.height) as nat,
            frame.color,
            frame.depth == 16,
        ),
{
    let (w, h) = (frame.width as int, frame.height as int);
    let step = pixel_step(frame.color, frame.depth == 16);
    let row = row_len(frame.color, frame.depth, frame.width) as int;
    let len = frame.raw.len() as int;
    let s = samples(frame.color) as int;
    let d = frame.depth as int;
    if d < 8 {
        assert(w * s * d <= 4 * w) by (nonlinear_arith)
            requires
                s == 1,
                d <= 4,
                w >= 0,
        ;
    } else {
        assert(w * s * d == 8 * (w * step)) by (nonlinear_arith)
            requires
                8 * step == s * d,
        ;
    }
    assert(len <= (w * h) * step) by (nonlinear_arith)
        requires
            len == h * row,
            row <= w * step,
            h >= 0,
    ;
    if frame.color is Rgba && frame.depth == 8 {
        assert(len == 4 * (w * h)) by (nonlinear_arith)
            requires
                len == h * row,
                row == w * 4,
        ;
    } else {
        assert(len / step <= w * h) by (nonlinear_arith)
            requires
                0 <= len <= (w * h) * step,
                step > 0,
        ;
    }
}

/// The previews of a picture.
pub fn build_from_picture(image: &PngImage) -> (r: Result<GooPreviewBlobs, PreviewError>)
    requires
        frame_is_sound(image@),
        pixels_fit(image@),
    ensures
        match r {
            Ok(blobs) => previews_of(image@) == Ok::<_, PreviewError>((blobs.small@, blobs.large@)),
            Err(e) => previews_of(image@) == Err::<(Seq<u8>, Seq<u8>), _>(e),
        },
        r is Err <==> image.color is Indexed,
        r matches Ok(blobs) ==> forall|left: int, top: int, right: int, bottom: int| #[trigger]
            bounds(image@, left, top, right, bottom) ==> {
                &&& shows_between(blobs.small@, 116, image@, left, top, right, bottom)
                &&& shows_between(blobs.large@, 290, image@, left, top, right, bottom)
            },
{
    let w: usize = image.width as usize;
    let h: usize = image.height as usize;
    proof {
        lemma_raw_goes_with(image@);
    }
    let rgba: Vec<u8> = match to_rgba(&image.raw, w, h, image.color, image.depth == 16) {
        Ok(rgba) => rgba,
        Err(e) => {
            return Err(e);
        },
    };
    let (part, pw, ph) = crop_transparent_border(&rgba, w, h);
    proof {
        law_scaled_picture_fits(pw as u64, ph as u64, SMALL_W as u64, SMALL_H as u64);
        law_scaled_picture_fits(pw as u64, ph as u64, LARGE_W as u64, LARGE_H as u64);
        assert forall|left: int, top: int, right: int, bottom: int| #[trigger]
            bounds(image@, left, top, right, bottom) implies {
            &&& shows_between(previews_of(image@)->Ok_0.0, 116, image@, left, top, right, bottom)
            &&& shows_between(previews_of(image@)->Ok_0.1, 290, image@, left, top, right, bottom)
        } by {
            law_previews_show_what_shows(image@, left, top, right, bottom);
        }
    }
    let small: Vec<u8> = resize_and_blend_rgba_to_rgb_nearest(&part, pw, ph, SMALL_W, SMALL_H);
    let large: Vec<u8> = resize_and_blend_rgba_to_rgb_nearest(&part, pw, ph, LARGE_W, LARGE_H);
    Ok(
        GooPreviewBlobs {
            small: rgb_to_rgb565_be(&small, SMALL_W, SMALL_H),
            large: rgb_to_rgb565_be(&large, LARGE_W, LARGE_H),
        },
    )
}

/// The previews of a thumbnail: base64 text of a PNG file.
pub open spec fn thumbnail_previews(text: Seq<char>) -> Result<
    (Seq<u8>, Seq<u8>),
    PreviewError,
> {
    match base64_bytes(text) {
        None => Err(PreviewError::Base64),
        Some(png) => match png_decoded(png) {
            Some(frame) if announces_what_fits(png) && pixels_fit(frame) => previews_of(frame),
            _ => Err(PreviewError::Png),
        },
    }
}

/// The previews of a job: those of its thumbnail, or black ones where there is none that
/// can be used.
pub open spec fn job_previews(thumbnail: Option<Seq<char>>) -> (Seq<u8>, Seq<u8>) {
    match thumbnail {
        Some(text) if text.len() > 0 && thumbnail_previews(text) is Ok => thumbnail_previews(
            text,
        )->Ok_0,
        _ => (
            zeros((2 * (SMALL_W * SMALL_H)) as nat),
            zeros((2 * (LARGE_W * LARGE_H)) as nat),
        ),
    }
}

/// The previews of a thumbnail.
pub fn decode_and_build(b64: &str) -> (r: Result<GooPreviewBlobs, PreviewError>)
    ensures
        match r {
            Ok(blobs) => thumbnail_previews(b64@) == Ok::<_, PreviewError>(
                (blobs.small@, blobs.large@),
            ),
            Err(e) => thumbnail_previews(b64@) == Err::<(Seq<u8>, Seq<u8>), _>(e),
        },
{
    match decode_base64(b64) {
        None => Err(PreviewError::Base64),
        Some(png) => match decode_png(&png) {
            None => Err(PreviewError::Png),
            Some(image) => {
                assert(image.width * image.height <= u32::MAX * u32::MAX) by (nonlinear_arith)
                    requires
                        0 <= image.width <= u32::MAX,
                        0 <= image.height <= u32::MAX,
                ;
                if image.width as u128 * image.height as u128 * 4 > isize::MAX as u128 {
                    Err(PreviewError::Png)
                } else {
                    build_from_picture(&image)
                }
            },
        },
    }
}

/// The previews of a job: those of its thumbnail, or black ones where there is none that
/// can be used. This never fails.
pub fn build_goo_previews(thumbnail_png_base64: Option<&str>) -> (r: Result<
    GooPreviewBlobs,
    SlicerV3Error,
>)
    ensures
        r matches Ok(blobs) && job_previews(text_view(thumbnail_png_base64)) == (
            blobs.small@,
            blobs.large@,
        ),
{
    if let Some(b64) = thumbnail_png_base64 {
        if !b64.is_empty() {
            match decode_and_build(b64) {
                Ok(blobs) => {
                    return Ok(blobs);
                },
                Err(_) => {},
            }
        }
    }
    Ok(
        GooPreviewBlobs {
            small: blank_rgb565(SMALL_W, SMALL_H),
            large: blank_rgb565(LARGE_W, LARGE_H),
        },
    )
}

/// The previews have the same sizes whatever the thumbnail is.
pub proof fn law_preview_sizes(thumbnail: Option<Seq<char>>)
    ensures
        job_previews(thumbnail).0.len() == 26912,
        job_previews(thumbnail).1.len() == 168200,
{
}

} // verus!
