//! What the previews show of a picture.

use vstd::arithmetic::power2::{lemma_pow2_pos, lemma_pow2_unfold, pow2};
use vstd::prelude::*;

use crate::b64::{base64_text, law_base64_reads_back};
use crate::bytes::{u32_at, zeros};
use crate::picture::{
    announces_what_fits, color_of_code, depth_allowed, extra_frames, png_decoded, row_len, samples,
    PngColor, PngFrame,
};
use crate::preview::{
    channel_of, column_shows, cropped, fit_scale, frame_is_sound, is_visible_part, job_previews,
    lemma_cell,
    lemma_one_visible_part, lemma_visible_part_exists, part_of, pixel_step, preview_of,
    previews_of, resized, resized_channel, rgb565, rgb565_bytes, rgba_of, row_shows, sample_index,
    scaled_len, visible, Part, PreviewError,
};
use crate::single::{
    int_single, integer_part, law_share_is_near, lemma_fraction_is_plain, lemma_scaled_fits,
    lemma_scaled_is_plain, lemma_shares_in_order, product, quotient, rounded_int, steps,
};

verus! {

/// What a picture holds at (`x`, `y`): red, green, blue and opacity, each taken from the first
/// byte of its sample. A gray sample counts for all three colors, and without a sample of its
/// own the opacity is full. A pixel of less than a byte that the bytes do not reach is
/// transparent black.
pub open spec fn pixel(frame: PngFrame, x: int, y: int) -> (u8, u8, u8, u8) {
    let raw = frame.raw;
    let k = y * frame.width + x;
    let u: int = if frame.depth == 16 {
        2
    } else {
        1
    };
    match frame.color {
        PngColor::Rgba => (
            raw[4 * u * k],
            raw[4 * u * k + u],
            raw[4 * u * k + 2 * u],
            raw[4 * u * k + 3 * u],
        ),
        PngColor::Rgb => (raw[3 * u * k], raw[3 * u * k + u], raw[3 * u * k + 2 * u], 255),
        PngColor::GrayscaleAlpha => (
            raw[2 * u * k],
            raw[2 * u * k],
            raw[2 * u * k],
            raw[2 * u * k + u],
        ),
        _ => if frame.depth < 8 && k >= raw.len() {
            (0, 0, 0, 0)
        } else {
            (raw[u * k], raw[u * k], raw[u * k], 255)
        },
    }
}

/// A picture has a pixel at (`x`, `y`) that is not fully transparent.
pub open spec fn shows(frame: PngFrame, x: int, y: int) -> bool {
    0 <= x < frame.width && 0 <= y < frame.height && pixel(frame, x, y).3 > 0
}

/// No picture between other borders holds all pixels that show: they lie between these, and
/// one lies on each of these.
pub open spec fn bounds(frame: PngFrame, left: int, top: int, right: int, bottom: int) -> bool {
    &&& forall|x: int, y: int| #[trigger]
        shows(frame, x, y) ==> left <= x <= right && top <= y <= bottom
    &&& exists|y: int| #[trigger] shows(frame, left, y)
    &&& exists|y: int| #[trigger] shows(frame, right, y)
    &&& exists|x: int| #[trigger] shows(frame, x, top)
    &&& exists|x: int| #[trigger] shows(frame, x, bottom)
}

/// The bytes of a picture with four bytes per pixel.
spec fn bytes_of(frame: PngFrame) -> Seq<u8> {
    rgba_of(
        frame.raw,
        frame.width as nat * frame.height as nat,
        frame.color,
        frame.depth == 16,
    )
}

/// A sound picture of whole bytes has the bytes of each pixel.
proof fn lemma_pixel_is_there(frame: PngFrame, x: int, y: int)
    requires
        frame_is_sound(frame),
        frame.depth >= 8,
        0 <= x < frame.width,
        0 <= y < frame.height,
    ensures
        ({
            let step = pixel_step(frame.color, frame.depth == 16);
            let k = y * frame.width + x;
            0 <= k * step && k * step + step <= frame.raw.len()
        }),
{
    let (w, h) = (frame.width as int, frame.height as int);
    let step = pixel_step(frame.color, frame.depth == 16);
    let k = y * w + x;
    let s = samples(frame.color) as int;
    let d = frame.depth as int;
    lemma_cell(x, y, w, h);
    assert(w * s * d == 8 * (w * step)) by (nonlinear_arith)
        requires
            8 * step == s * d,
    ;
    assert(row_len(frame.color, frame.depth, frame.width) == w * step);
    assert(h * (w * step) == (w * h) * step) by (nonlinear_arith);
    assert(0 <= k * step && k * step + step <= (w * h) * step) by (nonlinear_arith)
        requires
            0 <= k,
            k + 1 <= w * h,
            0 < step,
    ;
}

/// Where the pixels of a picture lie once each takes four bytes.
proof fn lemma_pixel(frame: PngFrame, x: int, y: int)
    requires
        frame_is_sound(frame),
        frame.color !is Indexed,
        0 <= x < frame.width,
        0 <= y < frame.height,
    ensures
        ({
            let at = 4 * (y * frame.width + x);
            let bytes = bytes_of(frame);
            &&& 0 <= at && at + 4 <= bytes.len()
            &&& pixel(frame, x, y) == (bytes[at], bytes[at + 1], bytes[at + 2], bytes[at + 3])
            &&& visible(bytes, frame.width as nat, x, y) == shows(frame, x, y)
        }),
{
    let (w, h) = (frame.width as int, frame.height as int);
    let k = y * w + x;
    let bytes = bytes_of(frame);
    let wide = frame.depth == 16;
    lemma_cell(x, y, w, h);
    if frame.depth >= 8 {
        lemma_pixel_is_there(frame, x, y);
    }
    assert(k * pixel_step(frame.color, wide) == pixel_step(frame.color, wide) * k)
        by (nonlinear_arith);
    assert((4 * k) / 4 == k && (4 * k) % 4 == 0);
    assert((4 * k + 1) / 4 == k && (4 * k + 1) % 4 == 1);
    assert((4 * k + 2) / 4 == k && (4 * k + 2) % 4 == 2);
    assert((4 * k + 3) / 4 == k && (4 * k + 3) % 4 == 3);
    assert(bytes[4 * k] == channel_of(frame.raw, frame.color, wide, k, 0));
    assert(bytes[4 * k + 1] == channel_of(frame.raw, frame.color, wide, k, 1));
    assert(bytes[4 * k + 2] == channel_of(frame.raw, frame.color, wide, k, 2));
    assert(bytes[4 * k + 3] == channel_of(frame.raw, frame.color, wide, k, 3));
}

/// What is visible in the bytes is what shows.
proof fn lemma_same_visible(frame: PngFrame)
    requires
        frame_is_sound(frame),
        frame.color !is Indexed,
    ensures
        forall|x: int, y: int|
            0 <= x < frame.width && 0 <= y < frame.height ==> #[trigger] visible(
                bytes_of(frame),
                frame.width as nat,
                x,
                y,
            ) == shows(frame, x, y),
{
    assert forall|x: int, y: int|
        0 <= x < frame.width && 0 <= y < frame.height implies #[trigger] visible(
        bytes_of(frame),
        frame.width as nat,
        x,
        y,
    ) == shows(frame, x, y) by {
        lemma_pixel(frame, x, y);
    }
}

/// Between the borders of a picture lies the part that is not cropped.
proof fn lemma_bounds(frame: PngFrame, left: int, top: int, right: int, bottom: int)
    requires
        frame_is_sound(frame),
        frame.color !is Indexed,
        bounds(frame, left, top, right, bottom),
    ensures
        0 <= left <= right < frame.width,
        0 <= top <= bottom < frame.height,
        ({
            let part = Part { left, top, right, bottom };
            let (w, h) = (frame.width as nat, frame.height as nat);
            cropped(bytes_of(frame), w, h) == (
                part_of(bytes_of(frame), w, part),
                part.width(),
                part.height(),
            )
        }),
{
    let (w, h) = (frame.width as nat, frame.height as nat);
    let bytes = bytes_of(frame);
    let part = Part { left, top, right, bottom };
    lemma_same_visible(frame);
    let y1 = choose|y: int| #[trigger] shows(frame, left, y);
    let y2 = choose|y: int| #[trigger] shows(frame, right, y);
    let x1 = choose|x: int| #[trigger] shows(frame, x, top);
    let x2 = choose|x: int| #[trigger] shows(frame, x, bottom);
    assert(visible(bytes, w, left, y1) && visible(bytes, w, right, y2));
    assert(visible(bytes, w, x1, top) && visible(bytes, w, x2, bottom));
    assert(column_shows(bytes, w, h, left) && column_shows(bytes, w, h, right));
    assert(row_shows(bytes, w, top) && row_shows(bytes, w, bottom));
    assert(is_visible_part(bytes, w, h, part));
    lemma_one_visible_part(
        bytes,
        w,
        h,
        part,
        choose|p: Part| is_visible_part(bytes, w, h, p),
    );
}

/// A picture in which something shows has borders between which all of it lies.
pub proof fn law_what_shows_has_bounds(frame: PngFrame, x: int, y: int)
    requires
        frame_is_sound(frame),
        frame.color !is Indexed,
        shows(frame, x, y),
    ensures
        exists|left: int, top: int, right: int, bottom: int| #[trigger]
            bounds(frame, left, top, right, bottom),
{
    let (w, h) = (frame.width as nat, frame.height as nat);
    let bytes = bytes_of(frame);
    lemma_same_visible(frame);
    assert(visible(bytes, w, x, y));
    lemma_visible_part_exists(bytes, w, h, x, y);
    let p = choose|p: Part| is_visible_part(bytes, w, h, p);
    assert(column_shows(bytes, w, h, p.left) && column_shows(bytes, w, h, p.right));
    assert(row_shows(bytes, w, p.top) && row_shows(bytes, w, p.bottom));
    let y1 = choose|y: int| 0 <= y < h && #[trigger] visible(bytes, w, p.left, y);
    let y2 = choose|y: int| 0 <= y < h && #[trigger] visible(bytes, w, p.right, y);
    let x1 = choose|x: int| 0 <= x < w && #[trigger] visible(bytes, w, x, p.top);
    let x2 = choose|x: int| 0 <= x < w && #[trigger] visible(bytes, w, x, p.bottom);
    assert(shows(frame, p.left, y1) && shows(frame, p.right, y2));
    assert(shows(frame, x1, p.top) && shows(frame, x2, p.bottom));
    assert forall|x: int, y: int| #[trigger] shows(frame, x, y) implies p.left <= x <= p.right
        && p.top <= y <= p.bottom by {
        assert(visible(bytes, w, x, y));
    }
    assert(bounds(frame, p.left, p.top, p.right, p.bottom));
}

/// The pixels of the part between the borders of a picture.
proof fn lemma_part_pixel(frame: PngFrame, part: Part, dx: int, dy: int)
    requires
        frame_is_sound(frame),
        frame.color !is Indexed,
        0 <= part.left <= part.right < frame.width,
        0 <= part.top <= part.bottom < frame.height,
        0 <= dx < part.width(),
        0 <= dy < part.height(),
    ensures
        ({
            let at = 4 * (dy * part.width() + dx);
            let bytes = part_of(bytes_of(frame), frame.width as nat, part);
            &&& 0 <= at && at + 4 <= bytes.len()
            &&& pixel(frame, part.left + dx, part.top + dy) == (
                bytes[at],
                bytes[at + 1],
                bytes[at + 2],
                bytes[at + 3],
            )
        }),
{
    let pw = part.width() as int;
    let ph = part.height() as int;
    let k = dy * pw + dx;
    let bytes = part_of(bytes_of(frame), frame.width as nat, part);
    lemma_pixel(frame, part.left + dx, part.top + dy);
    lemma_cell(dx, dy, pw, ph);
    assert((4 * k) / 4 == k && (4 * k) % 4 == 0);
    assert((4 * k + 1) / 4 == k && (4 * k + 1) % 4 == 1);
    assert((4 * k + 2) / 4 == k && (4 * k + 2) % 4 == 2);
    assert((4 * k + 3) / 4 == k && (4 * k + 3) % 4 == 3);
    let from = 4 * ((part.top + dy) * frame.width + part.left + dx);
    assert(bytes[4 * k] == bytes_of(frame)[from]);
    assert(bytes[4 * k + 1] == bytes_of(frame)[from + 1]);
    assert(bytes[4 * k + 2] == bytes_of(frame)[from + 2]);
    assert(bytes[4 * k + 3] == bytes_of(frame)[from + 3]);
}

/// The number that two bytes of a preview make for the pixel at (`x`, `y`) of `n` in a row.
pub open spec fn stored(preview: Seq<u8>, n: int, x: int, y: int) -> int {
    preview[2 * (y * n + x)] * 256 + preview[2 * (y * n + x) + 1]
}

/// A color over black, as far as its opacity goes.
pub open spec fn over_black(color: u8, opacity: u8) -> int {
    color as int * opacity as int / 255
}

/// What a preview of `n` times `n` pixels has at (`x`, `y`) for a picture between its borders:
/// the picture is scaled to `fit_w` times `fit_h` pixels and lies in the middle of black. Five
/// bits of red, six of green and five of blue are kept, from the top down.
pub open spec fn expected(
    frame: PngFrame,
    left: int,
    top: int,
    right: int,
    bottom: int,
    n: int,
    x: int,
    y: int,
) -> int {
    let (pw, ph) = ((right - left + 1) as nat, (bottom - top + 1) as nat);
    let scale = fit_scale(pw, ph, n as nat, n as nat);
    let (fit_w, fit_h) = (scaled_len(pw, scale), scaled_len(ph, scale));
    let (dx, dy) = (x - (n - fit_w) / 2, y - (n - fit_h) / 2);
    if 0 <= dx < fit_w && 0 <= dy < fit_h {
        let (r, g, b, opacity) = pixel(
            frame,
            left + sample_index(dx as nat, fit_w, pw),
            top + sample_index(dy as nat, fit_h, ph),
        );
        over_black(r, opacity) / 8 * 2048 + over_black(g, opacity) / 4 * 32 + over_black(b, opacity)
            / 8
    } else {
        0
    }
}

/// A preview of `n` times `n` pixels shows what a picture has between its borders.
pub open spec fn shows_between(
    preview: Seq<u8>,
    n: int,
    frame: PngFrame,
    left: int,
    top: int,
    right: int,
    bottom: int,
) -> bool {
    &&& preview.len() == 2 * n * n
    &&& forall|x: int, y: int|
        0 <= x < n && 0 <= y < n ==> #[trigger] stored(preview, n, x, y) == expected(
            frame,
            left,
            top,
            right,
            bottom,
            n,
            x,
            y,
        )
}

/// The two bytes of a pixel.
proof fn lemma_stored(rgb: Seq<u8>, n: nat, x: int, y: int, r: int, g: int, b: int)
    requires
        0 <= x < n,
        0 <= y < n,
        rgb.len() == 3 * (n * n),
        rgb[3 * (y * n + x)] == r,
        rgb[3 * (y * n + x) + 1] == g,
        rgb[3 * (y * n + x) + 2] == b,
    ensures
        stored(rgb565_bytes(rgb, n * n), n as int, x, y) == r / 8 * 2048 + g / 4 * 32 + b / 8,
{
    let k = y * n + x;
    lemma_cell(x, y, n as int, n as int);
    assert((2 * k) / 2 == k && (2 * k) % 2 == 0);
    assert((2 * k + 1) / 2 == k && (2 * k + 1) % 2 == 1);
    let p = rgb565(rgb[3 * k], rgb[3 * k + 1], rgb[3 * k + 2]);
    assert(p == r / 8 * 2048 + g / 4 * 32 + b / 8);
    let out = rgb565_bytes(rgb, n * n);
    assert(out[2 * k] == crate::bytes::be16(p)[0]);
    assert(out[2 * k + 1] == crate::bytes::be16(p)[1]);
}

/// A pixel of a preview of any size.
proof fn lemma_preview_pixel(
    frame: PngFrame,
    left: int,
    top: int,
    right: int,
    bottom: int,
    n: nat,
    x: int,
    y: int,
)
    requires
        frame_is_sound(frame),
        frame.color !is Indexed,
        bounds(frame, left, top, right, bottom),
        0 <= x < n,
        0 <= y < n,
    ensures
        stored(preview_of(frame, n, n), n as int, x, y) == expected(
            frame,
            left,
            top,
            right,
            bottom,
            n as int,
            x,
            y,
        ),
{
    lemma_bounds(frame, left, top, right, bottom);
    let part = Part { left, top, right, bottom };
    let (pw, ph) = (part.width(), part.height());
    let bytes = part_of(bytes_of(frame), frame.width as nat, part);
    let rgb = resized(bytes, pw, ph, n, n);
    let k = y * n + x;
    lemma_cell(x, y, n as int, n as int);
    assert((3 * k) / 3 == k && (3 * k) % 3 == 0);
    assert((3 * k + 1) / 3 == k && (3 * k + 1) % 3 == 1);
    assert((3 * k + 2) / 3 == k && (3 * k + 2) % 3 == 2);
    let scale = fit_scale(pw, ph, n, n);
    let (fit_w, fit_h) = (scaled_len(pw, scale), scaled_len(ph, scale));
    let (dx, dy) = (x - (n - fit_w) / 2, y - (n - fit_h) / 2);
    let r = resized_channel(bytes, pw, ph, n, n, x, y, 0);
    let g = resized_channel(bytes, pw, ph, n, n, x, y, 1);
    let b = resized_channel(bytes, pw, ph, n, n, x, y, 2);
    assert(rgb[3 * k] == r && rgb[3 * k + 1] == g && rgb[3 * k + 2] == b);
    lemma_stored(rgb, n, x, y, r as int, g as int, b as int);
    if 0 <= dx < fit_w && 0 <= dy < fit_h {
        let sx = sample_index(dx as nat, fit_w, pw);
        let sy = sample_index(dy as nat, fit_h, ph);
        lemma_part_pixel(frame, part, sx as int, sy as int);
        let p = pixel(frame, left + sx, top + sy);
        lemma_over_black(p.0, p.3);
        lemma_over_black(p.1, p.3);
        lemma_over_black(p.2, p.3);
    }
}

proof fn lemma_over_black(color: u8, opacity: u8)
    ensures
        0 <= over_black(color, opacity) <= 255,
        crate::preview::blended(color, opacity) == over_black(color, opacity),
{
    assert(0 <= color * opacity <= 255 * 255) by (nonlinear_arith)
        requires
            0 <= color <= 255,
            0 <= opacity <= 255,
    ;
}

/// Each preview is the scaled picture of the smallest part that holds everything that shows:
/// 116 pixels square the small one, 290 pixels square the large one.
pub proof fn law_previews_show_what_shows(
    frame: PngFrame,
    left: int,
    top: int,
    right: int,
    bottom: int,
)
    requires
        frame_is_sound(frame),
        frame.color !is Indexed,
        bounds(frame, left, top, right, bottom),
    ensures
        previews_of(frame) matches Ok((small, large)) && {
            &&& shows_between(small, 116, frame, left, top, right, bottom)
            &&& shows_between(large, 290, frame, left, top, right, bottom)
        },
{
    let small = preview_of(frame, 116, 116);
    let large = preview_of(frame, 290, 290);
    assert forall|x: int, y: int| 0 <= x < 116 && 0 <= y < 116 implies #[trigger] stored(
        small,
        116,
        x,
        y,
    ) == expected(frame, left, top, right, bottom, 116, x, y) by {
        lemma_preview_pixel(frame, left, top, right, bottom, 116, x, y);
    }
    assert forall|x: int, y: int| 0 <= x < 290 && 0 <= y < 290 implies #[trigger] stored(
        large,
        290,
        x,
        y,
    ) == expected(frame, left, top, right, bottom, 290, x, y) by {
        lemma_preview_pixel(frame, left, top, right, bottom, 290, x, y);
    }
}

/// A picture is another one with a border of pixels that do not show: `across` columns before
/// it and `down` rows above it, and any number behind and below it.
pub open spec fn borders(frame: PngFrame, inner: PngFrame, across: int, down: int) -> bool {
    &&& 0 <= across && across + inner.width <= frame.width
    &&& 0 <= down && down + inner.height <= frame.height
    &&& forall|x: int, y: int|
        0 <= x < inner.width && 0 <= y < inner.height ==> #[trigger] pixel(inner, x, y) == pixel(
            frame,
            across + x,
            down + y,
        )
    &&& forall|x: int, y: int| #[trigger]
        shows(frame, x, y) ==> across <= x < across + inner.width && down <= y < down + inner.height
}

/// A part of a picture and the same part of it within a border have the same pixels.
proof fn lemma_same_pixels(
    frame: PngFrame,
    inner: PngFrame,
    across: int,
    down: int,
    p: Part,
    q: Part,
)
    requires
        frame_is_sound(frame),
        frame_is_sound(inner),
        frame.color !is Indexed,
        inner.color !is Indexed,
        borders(frame, inner, across, down),
        0 <= q.left <= q.right < inner.width,
        0 <= q.top <= q.bottom < inner.height,
        p.left == q.left + across && p.right == q.right + across,
        p.top == q.top + down && p.bottom == q.bottom + down,
    ensures
        part_of(bytes_of(frame), frame.width as nat, p) == part_of(
            bytes_of(inner),
            inner.width as nat,
            q,
        ),
{
    let outer = part_of(bytes_of(frame), frame.width as nat, p);
    let other = part_of(bytes_of(inner), inner.width as nat, q);
    let (pw, ph) = (p.width() as int, p.height() as int);
    assert forall|i: int| 0 <= i < outer.len() implies outer[i] == other[i] by {
        let k = i / 4;
        assert(k < pw * ph);
        lemma_back(k, pw, ph);
        lemma_part_pixel(frame, p, k % pw, k / pw);
        lemma_part_pixel(inner, q, k % pw, k / pw);
        let (x, y) = (q.left + k % pw, q.top + k / pw);
        assert(pixel(inner, x, y) == pixel(frame, across + x, down + y));
        let c = i % 4;
        assert(c == 0 || c == 1 || c == 2 || c == 3);
        assert(i == 4 * k + c);
    }
    assert(outer =~= other);
}

/// What shows in the picture inside shows in the picture around it, at its place.
proof fn lemma_shows_outside(
    frame: PngFrame,
    inner: PngFrame,
    across: int,
    down: int,
    x: int,
    y: int,
)
    requires
        borders(frame, inner, across, down),
        shows(inner, x, y),
    ensures
        shows(frame, across + x, down + y),
{
    assert(pixel(inner, x, y) == pixel(frame, across + x, down + y));
}

/// What shows in the picture around shows in the picture inside it, at its place.
proof fn lemma_shows_inside(
    frame: PngFrame,
    inner: PngFrame,
    across: int,
    down: int,
    x: int,
    y: int,
)
    requires
        borders(frame, inner, across, down),
        shows(frame, x, y),
    ensures
        shows(inner, x - across, y - down),
{
    assert(pixel(inner, x - across, y - down) == pixel(frame, x, y));
}

/// The borders of the picture inside.
proof fn lemma_inner_bounds(
    frame: PngFrame,
    inner: PngFrame,
    across: int,
    down: int,
    l: int,
    t: int,
    r: int,
    b: int,
)
    requires
        borders(frame, inner, across, down),
        bounds(frame, l, t, r, b),
    ensures
        bounds(inner, l - across, t - down, r - across, b - down),
{
    let ya = choose|y: int| #[trigger] shows(frame, l, y);
    let yb = choose|y: int| #[trigger] shows(frame, r, y);
    let xa = choose|x: int| #[trigger] shows(frame, x, t);
    let xb = choose|x: int| #[trigger] shows(frame, x, b);
    lemma_shows_inside(frame, inner, across, down, l, ya);
    lemma_shows_inside(frame, inner, across, down, r, yb);
    lemma_shows_inside(frame, inner, across, down, xa, t);
    lemma_shows_inside(frame, inner, across, down, xb, b);
    assert forall|x: int, y: int| #[trigger] shows(inner, x, y) implies l - across <= x <= r
        - across && t - down <= y <= b - down by {
        lemma_shows_outside(frame, inner, across, down, x, y);
    }
}

/// A picture and the same with a transparent border are cropped to the same part.
proof fn lemma_same_part(frame: PngFrame, inner: PngFrame, across: int, down: int)
    requires
        frame_is_sound(frame),
        frame_is_sound(inner),
        frame.color !is Indexed,
        inner.color !is Indexed,
        borders(frame, inner, across, down),
    ensures
        cropped(bytes_of(frame), frame.width as nat, frame.height as nat) == cropped(
            bytes_of(inner),
            inner.width as nat,
            inner.height as nat,
        ),
{
    if exists|x: int, y: int| #[trigger] shows(frame, x, y) {
        let (x0, y0) = choose|x: int, y: int| #[trigger] shows(frame, x, y);
        law_what_shows_has_bounds(frame, x0, y0);
        let (l, t, r, b) = choose|l: int, t: int, r: int, b: int| #[trigger]
            bounds(frame, l, t, r, b);
        lemma_inner_bounds(frame, inner, across, down, l, t, r, b);
        lemma_bounds(frame, l, t, r, b);
        lemma_bounds(inner, l - across, t - down, r - across, b - down);
        let p = Part { left: l, top: t, right: r, bottom: b };
        let q = Part {
            left: l - across,
            top: t - down,
            right: r - across,
            bottom: b - down,
        };
        lemma_same_pixels(frame, inner, across, down, p, q);
    } else {
        lemma_nothing_shows(frame);
        assert forall|x: int, y: int| !#[trigger] shows(inner, x, y) by {
            if shows(inner, x, y) {
                lemma_shows_outside(frame, inner, across, down, x, y);
            }
        }
        lemma_nothing_shows(inner);
    }
}

/// The column and row of a cell.
proof fn lemma_back(k: int, w: int, h: int)
    requires
        0 <= k < w * h,
        0 < w,
    ensures
        0 <= k % w < w,
        0 <= k / w < h,
        (k / w) * w + k % w == k,
{
    vstd::arithmetic::div_mod::lemma_fundamental_div_mod(k, w);
    assert(w * (k / w) == (k / w) * w) by (nonlinear_arith);
    assert(k / w < h) by (nonlinear_arith)
        requires
            (k / w) * w <= k,
            k < w * h,
            0 < w,
    ;
    assert(0 <= k / w) by (nonlinear_arith)
        requires
            0 <= k,
            0 < w,
    ;
}

/// A picture in which nothing shows is taken for a black pixel.
proof fn lemma_nothing_shows(frame: PngFrame)
    requires
        frame_is_sound(frame),
        frame.color !is Indexed,
        forall|x: int, y: int| !#[trigger] shows(frame, x, y),
    ensures
        cropped(bytes_of(frame), frame.width as nat, frame.height as nat) == (
            seq![0u8, 0u8, 0u8, 255u8],
            1nat,
            1nat,
        ),
{
    let (w, h) = (frame.width as nat, frame.height as nat);
    let bytes = bytes_of(frame);
    lemma_same_visible(frame);
    assert forall|part: Part| !is_visible_part(bytes, w, h, part) by {
        if is_visible_part(bytes, w, h, part) {
            assert(column_shows(bytes, w, h, part.left));
            let y = choose|y: int| 0 <= y < h && #[trigger] visible(bytes, w, part.left, y);
            assert(shows(frame, part.left, y));
        }
    }
}

/// Pictures that differ only in a transparent border have the same previews.
pub proof fn law_transparent_borders_do_not_count(
    frame: PngFrame,
    inner: PngFrame,
    across: int,
    down: int,
)
    requires
        frame_is_sound(frame),
        frame_is_sound(inner),
        frame.color !is Indexed,
        inner.color !is Indexed,
        borders(frame, inner, across, down),
    ensures
        previews_of(frame) is Ok,
        previews_of(frame) == previews_of(inner),
{
    lemma_same_part(frame, inner, across, down);
}

/// The previews of a picture in which nothing shows are black.
pub proof fn law_nothing_that_shows_is_black(frame: PngFrame)
    requires
        frame_is_sound(frame),
        frame.color !is Indexed,
        forall|x: int, y: int| !#[trigger] shows(frame, x, y),
    ensures
        previews_of(frame) matches Ok((small, large)) && {
            &&& small == Seq::new(26912, |i: int| 0u8)
            &&& large == Seq::new(168200, |i: int| 0u8)
        },
{
    lemma_nothing_shows(frame);
    let pixel = seq![0u8, 0u8, 0u8, 255u8];
    lemma_black(pixel, 116);
    lemma_black(pixel, 290);
}

/// A black pixel stays black at any size.
proof fn lemma_black(pixel: Seq<u8>, n: nat)
    requires
        pixel == seq![0u8, 0u8, 0u8, 255u8],
    ensures
        rgb565_bytes(resized(pixel, 1, 1, n, n), n * n) == Seq::new(2 * (n * n), |i: int| 0u8),
{
    let rgb = resized(pixel, 1, 1, n, n);
    assert forall|i: int| 0 <= i < rgb.len() implies rgb[i] == 0 by {
        let c = i % 3;
        let (x, y) = (i / 3 % n as int, i / 3 / n as int);
        assert(rgb[i] == resized_channel(pixel, 1, 1, n, n, x, y, c));
        assert(c == 0 || c == 1 || c == 2);
        assert(pixel[c] == 0);
        assert(crate::preview::blended(0, 255) == 0);
        assert forall|j: nat, fit: nat| #[trigger] sample_index(j, fit, 1) == 0 by {}
    }
    let out = rgb565_bytes(rgb, n * n);
    assert forall|i: int| 0 <= i < out.len() implies out[i] == 0 by {
        let k = i / 2;
        assert(0 <= 3 * k && 3 * k + 2 < rgb.len());
        assert(rgb565(0, 0, 0) == 0);
        assert(out[i] == crate::bytes::be16(rgb565(rgb[3 * k], rgb[3 * k + 1], rgb[3 * k + 2]))[i
            % 2]);
    }
    assert(out =~= Seq::new(2 * (n * n), |i: int| 0u8));
}

/// The source pixel that a pixel of the scaled picture shows lies where the pixel itself lies,
/// in proportion, up to a pixel and a half. So the pixels keep their order, and the first one
/// is shown first.
pub proof fn law_samples_lie_in_proportion(i: nat, fit: nat, src: nat)
    requires
        i < fit < 0x100_0000,
        0 < src <= 0x10_0000,
    ensures
        ({
            let s = sample_index(i, fit, src);
            s < src && (2 * s - 1) * fit <= 2 * (i * src) < (2 * s + 3) * fit
        }),
{
    let p = pow2(149);
    let q = quotient(int_single(i), int_single(fit));
    let product = product(q, int_single(src));
    let v = steps(product.bits);
    let at = integer_part(product);
    let s = sample_index(i, fit, src);
    lemma_pow2_pos(149);
    lemma_fraction_is_plain(i as u64, fit as u64, src as u64);
    assert(i * src <= 0x10_0000 * fit) by (nonlinear_arith)
        requires
            i < fit,
            src <= 0x10_0000,
    ;
    law_share_is_near(i, fit, src);
    assert(at * p <= v < (at + 1) * p) by (nonlinear_arith)
        requires
            at == v / p,
            p > 0,
            v >= 0,
    ;
    let e = i * src;
    assert((2 * at - 1) * fit <= 2 * e < (2 * at + 3) * fit) by (nonlinear_arith)
        requires
            at * p <= v < (at + 1) * p,
            2 * (v * fit) <= 2 * (e * p) + fit * p,
            2 * (e * p) <= 2 * (v * fit) + fit * p,
            p > 0,
            fit > 0,
    {
        assert((at * p) * fit <= v * fit);
        assert(v * fit < ((at + 1) * p) * fit);
        assert(((2 * at - 1) * fit) * p <= (2 * e) * p);
        assert((2 * e) * p < ((2 * at + 3) * fit) * p);
    }
    if at >= src {
        assert((2 * s - 1) * fit <= (2 * at - 1) * fit) by (nonlinear_arith)
            requires
                s <= at,
                fit > 0,
        ;
        assert(2 * e < (2 * s + 3) * fit) by (nonlinear_arith)
            requires
                s == src - 1,
                e == i * src,
                i < fit,
                src > 0,
        ;
    }
}

/// A scaled length, where it is a share `n / whole` of `src`.
proof fn lemma_scaled_share(src: nat, whole: nat, n: nat)
    requires
        0 < src <= whole < 0x100_0000,
        0 < n <= 0x10_0000,
    ensures
        ({
            let len = scaled_len(src, quotient(int_single(n), int_single(whole)));
            &&& 0 < len <= n
            &&& len * whole <= n * src + whole
            &&& n * src <= len * whole + whole
            &&& src == whole ==> len == n
        }),
{
    let p = pow2(149);
    let q = quotient(int_single(n), int_single(whole));
    let product = product(q, int_single(src));
    let v = steps(product.bits);
    let len = rounded_int(product);
    let fit = scaled_len(src, q);
    lemma_pow2_pos(149);
    lemma_pow2_unfold(150);
    lemma_shares_in_order(n, src, whole);
    lemma_scaled_is_plain(n as u64, src as u64, q);
    lemma_scaled_is_plain(n as u64, whole as u64, q);
    lemma_scaled_fits(n as u64, src as u64, q);
    assert(n * src <= 0x10_0000 * whole) by (nonlinear_arith)
        requires
            src <= whole,
            n <= 0x10_0000,
    ;
    assert(steps(q.bits) * steps(int_single(src).bits) == steps(int_single(src).bits) * steps(
        q.bits,
    )) by (nonlinear_arith);
    law_share_is_near(n, whole, src);
    assert(len * (2 * p) <= 2 * v + p < (len + 1) * (2 * p)) by (nonlinear_arith)
        requires
            len == (2 * v + p) / (2 * p),
            p > 0,
            v >= 0,
    ;
    let e = n * src;
    assert(len * whole <= e + whole && e <= len * whole + whole) by (nonlinear_arith)
        requires
            len * (2 * p) <= 2 * v + p < (len + 1) * (2 * p),
            2 * (v * whole) <= 2 * (e * p) + whole * p,
            2 * (e * p) <= 2 * (v * whole) + whole * p,
            p > 0,
            whole > 0,
    {
        assert((len * (2 * p)) * whole <= (2 * v + p) * whole);
        assert((2 * v + p) * whole <= ((len + 1) * (2 * p)) * whole);
        assert((len * whole) * (2 * p) <= (e + whole) * (2 * p));
        assert(e * (2 * p) <= (len * whole + whole) * (2 * p));
    }
    if src == whole {
        assert(n <= len) by (nonlinear_arith)
            requires
                2 * v + p < (len + 1) * (2 * p),
                2 * (e * p) <= 2 * (v * whole) + whole * p,
                e == n * whole,
                p > 0,
                whole > 0,
        {
            assert((2 * v + p) * whole < ((len + 1) * (2 * p)) * whole);
            assert((n * (2 * p)) * whole < ((len + 1) * (2 * p)) * whole);
            assert(n < len + 1);
        }
    }
    if len == 0 {
        assert(fit == 1);
        assert(len * whole == 0 && fit * whole == whole) by (nonlinear_arith)
            requires
                len == 0,
                fit == 1,
        ;
        assert(0 <= n * src) by (nonlinear_arith);
    } else {
        assert(fit == len);
    }
}

/// A scaled picture keeps its proportions: its longer side takes the whole space, and the other
/// one its share of it, up to a pixel.
pub proof fn law_scaled_picture_keeps_its_proportions(src_w: nat, src_h: nat, n: nat)
    requires
        0 < src_w < 0x100_0000,
        0 < src_h < 0x100_0000,
        0 < n <= 0x10_0000,
    ensures
        ({
            let scale = fit_scale(src_w, src_h, n, n);
            let (fit_w, fit_h) = (scaled_len(src_w, scale), scaled_len(src_h, scale));
            &&& 0 < fit_w <= n && 0 < fit_h <= n
            &&& src_w >= src_h ==> {
                &&& fit_w == n
                &&& fit_h * src_w <= n * src_h + src_w
                &&& n * src_h <= fit_h * src_w + src_w
            }
            &&& src_h >= src_w ==> {
                &&& fit_h == n
                &&& fit_w * src_h <= n * src_w + src_h
                &&& n * src_w <= fit_w * src_h + src_h
            }
        }),
{
    if src_w >= src_h {
        lemma_shares_in_order(n, src_h, src_w);
        lemma_scaled_share(src_w, src_w, n);
        lemma_scaled_share(src_h, src_w, n);
    }
    if src_h >= src_w {
        lemma_shares_in_order(n, src_w, src_h);
        lemma_scaled_share(src_h, src_h, n);
        lemma_scaled_share(src_w, src_h, n);
    }
}

/// The previews of a job are those of the picture that its thumbnail holds, once the picture
/// can be read and held. Without such a picture they are black.
pub proof fn law_job_shows_its_thumbnail(text: Seq<char>, png: Seq<u8>)
    ensures
        job_previews(None) == black_previews(),
        job_previews(Some(seq![])) == black_previews(),
        (forall|b: Seq<u8>| #[trigger] base64_text(b) != text) ==> job_previews(Some(text))
            == black_previews(),
        base64_text(png) == text && text.len() > 0 ==> match png_decoded(png) {
            Some(frame) => {
                &&& announces_what_fits(png) && frame.width * frame.height * 4 <= isize::MAX ==> {
                    &&& frame.color !is Indexed ==> Ok::<_, PreviewError>(job_previews(Some(text)))
                        == previews_of(frame)
                    &&& frame.color is Indexed ==> job_previews(Some(text)) == black_previews()
                }
                &&& frame.width * frame.height * 4 > isize::MAX ==> job_previews(Some(text))
                    == black_previews()
            },
            None => job_previews(Some(text)) == black_previews(),
        },
{
    law_base64_reads_back(png, text);
    let (small, large) = black_previews();
    assert(zeros(26912) =~= small);
    assert(zeros(168200) =~= large);
}

/// The previews that show nothing.
pub open spec fn black_previews() -> (Seq<u8>, Seq<u8>) {
    (Seq::new(26912, |i: int| 0u8), Seq::new(168200, |i: int| 0u8))
}

/// A PNG file announces what fits where 64 bytes for each of its pixels can be held in memory,
/// and it does not state the greatest number of frames.
pub proof fn law_moderate_pictures_fit(png: Seq<u8>)
    requires
        png.len() >= 29,
        u32_at(png, 16) * u32_at(png, 20) * 64 <= isize::MAX,
        extra_frames(png) != Some(u32::MAX),
    ensures
        announces_what_fits(png),
{
    if let Some(color) = color_of_code(png[25]) {
        let depth = png[24];
        let (w, h) = (u32_at(png, 16) as int, u32_at(png, 20) as int);
        if depth_allowed(color, depth) {
            let s = samples(color) as int;
            let row = row_len(color, depth, w as u32) as int;
            assert(w * s * depth <= 64 * w) by (nonlinear_arith)
                requires
                    0 <= s <= 4,
                    0 <= depth <= 16,
                    0 <= w,
            ;
            assert(row <= 8 * w);
            assert(h * row <= 8 * (w * h)) by (nonlinear_arith)
                requires
                    row <= 8 * w,
                    0 <= h,
            ;
        }
    }
}

} // verus!
