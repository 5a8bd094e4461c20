use goo::b64::decode_base64;
use goo::picture::{count_extra_frames, decode_png, PngColor};
use goo::preview::{
    blank_rgb565, build_goo_previews, crop_transparent_border, decode_and_build,
    resize_and_blend_rgba_to_rgb_nearest, rgb_to_rgb565_be, to_rgba, PreviewError, LARGE_H,
    LARGE_W, SMALL_H, SMALL_W,
};

use base64::Engine;

/// A PNG file.
fn png_file(w: u32, h: u32, color: png::ColorType, depth: png::BitDepth, raw: &[u8]) -> Vec<u8> {
    let mut out = Vec::new();
    let mut encoder = png::Encoder::new(&mut out, w, h);
    encoder.set_color(color);
    encoder.set_depth(depth);
    if color == png::ColorType::Indexed {
        encoder.set_palette(vec![1, 2, 3, 4, 5, 6]);
    }
    let mut writer = encoder.write_header().unwrap();
    writer.write_image_data(raw).unwrap();
    drop(writer);
    out
}

fn as_text(file: &[u8]) -> String {
    base64::engine::general_purpose::STANDARD.encode(file)
}

/// The scaling, computed with the floating point of the machine.
fn scaled(rgba: &[u8], sw: usize, sh: usize, dw: usize, dh: usize) -> Vec<u8> {
    let scale = (dw as f32 / sw as f32).min(dh as f32 / sh as f32);
    let fw = ((sw as f32 * scale).round() as usize).max(1);
    let fh = ((sh as f32 * scale).round() as usize).max(1);
    let (ox, oy) = ((dw - fw) / 2, (dh - fh) / 2);
    let mut out = vec![0u8; dw * dh * 3];
    for y in 0..fh {
        let sy = (((y as f32 / fh as f32) * sh as f32) as usize).min(sh - 1);
        for x in 0..fw {
            let sx = (((x as f32 / fw as f32) * sw as f32) as usize).min(sw - 1);
            let at = (sy * sw + sx) * 4;
            let a = rgba[at + 3] as u32;
            for c in 0..3 {
                out[((oy + y) * dw + ox + x) * 3 + c] = (rgba[at + c] as u32 * a / 255) as u8;
            }
        }
    }
    out
}

fn noise(n: usize, mut seed: u32) -> Vec<u8> {
    let mut out = Vec::with_capacity(n);
    for _ in 0..n {
        seed = seed.wrapping_mul(1664525).wrapping_add(1013904223);
        out.push((seed >> 24) as u8);
    }
    out
}

#[test]
fn blank_preview_sizes() {
    let blobs = build_goo_previews(None).unwrap();
    assert_eq!(blobs.small.len(), SMALL_W * SMALL_H * 2);
    assert_eq!(blobs.large.len(), LARGE_W * LARGE_H * 2);
}

#[test]
fn rgb565_black() {
    let rgb = vec![0u8; 3];
    let out = rgb_to_rgb565_be(&rgb, 1, 1);
    assert_eq!(out, vec![0, 0]);
}

#[test]
fn rgb565_white() {
    let rgb = vec![0xFF, 0xFF, 0xFF];
    let out = rgb_to_rgb565_be(&rgb, 1, 1);
    assert_eq!(out, vec![0xFF, 0xFF]);
}

#[test]
fn rgb565_keeps_the_high_bits() {
    for (r, g, b) in [(0x12u8, 0x34u8, 0x56u8), (7, 3, 7), (8, 4, 8), (0xF8, 0, 0), (0, 0xFC, 0)] {
        let pixel = ((r as u16 >> 3) << 11) | ((g as u16 >> 2) << 5) | (b as u16 >> 3);
        assert_eq!(rgb_to_rgb565_be(&[r, g, b], 1, 1), pixel.to_be_bytes().to_vec());
    }
    assert_eq!(rgb_to_rgb565_be(&[0xF8, 0, 0, 0, 0xFC, 0, 9], 2, 1), vec![0xF8, 0, 0x07, 0xE0]);
    assert_eq!(blank_rgb565(2, 3), vec![0; 12]);
}

#[test]
fn base64_decodes_only_what_encoding_gives() {
    assert_eq!(decode_base64("aGVsbG8gd29ybGR+Cg=="), Some(b"hello world~\n".to_vec()));
    assert_eq!(decode_base64(""), Some(vec![]));
    assert_eq!(decode_base64("/+8="), Some(vec![0xFF, 0xEF]));
    for bad in ["a", "aGVsbG8", "aGVs bG8=", "aGVsbG9=", "aGVsb===", "=", "aGV-", "aGVé"] {
        assert_eq!(decode_base64(bad), None, "{bad}");
    }
    for n in 0..50 {
        let bytes = noise(n, n as u32);
        assert_eq!(decode_base64(&as_text(&bytes)), Some(bytes));
    }
}

#[test]
fn png_files_are_read() {
    let raw = noise(2 * 3 * 4, 1);
    let file = png_file(3, 2, png::ColorType::Rgba, png::BitDepth::Eight, &raw);
    let image = decode_png(&file).unwrap();
    assert_eq!((image.width, image.height, image.depth), (3, 2, 8));
    assert_eq!(image.color, PngColor::Rgba);
    assert_eq!(image.raw, raw);

    let gray = png_file(9, 1, png::ColorType::Grayscale, png::BitDepth::One, &[0xA5, 0x80]);
    let image = decode_png(&gray).unwrap();
    assert_eq!((image.depth, image.color), (1, PngColor::Grayscale));
    assert_eq!(image.raw, vec![0xA5, 0x80]);

    // Every color type, at every depth that goes with it.
    for (color, expected, samples, depths) in [
        (png::ColorType::Grayscale, PngColor::Grayscale, 1, &[1, 2, 4, 8, 16][..]),
        (png::ColorType::Rgb, PngColor::Rgb, 3, &[8, 16]),
        (png::ColorType::Indexed, PngColor::Indexed, 1, &[1, 2, 4, 8]),
        (png::ColorType::GrayscaleAlpha, PngColor::GrayscaleAlpha, 2, &[8, 16]),
        (png::ColorType::Rgba, PngColor::Rgba, 4, &[8, 16]),
    ] {
        for &depth in depths {
            let raw = noise(3 * ((5 * samples * depth as usize + 7) / 8), depth as u32);
            let bits = png::BitDepth::from_u8(depth).unwrap();
            let image = decode_png(&png_file(5, 3, color, bits, &raw)).unwrap();
            assert_eq!((image.width, image.height, image.depth), (5, 3, depth));
            assert_eq!((image.color, image.raw), (expected, raw));
        }
    }

    assert!(decode_png(b"no picture").is_none());
    assert!(decode_png(&file[..file.len() / 2]).is_none());
    // A size that cannot be held in memory.
    let mut huge = file.clone();
    for b in &mut huge[16..24] {
        *b = 0xFF;
    }
    assert!(decode_png(&huge).is_none());
}

#[test]
fn pixels_become_four_bytes() {
    let rgb = [1, 2, 3, 4, 5, 6];
    assert_eq!(to_rgba(&rgb, 2, 1, PngColor::Rgb, false), Ok(vec![1, 2, 3, 255, 4, 5, 6, 255]));
    assert_eq!(to_rgba(&rgb, 1, 1, PngColor::Rgb, true), Ok(vec![1, 3, 5, 255]));
    assert_eq!(
        to_rgba(&rgb, 3, 1, PngColor::GrayscaleAlpha, false),
        Ok(vec![1, 1, 1, 2, 3, 3, 3, 4, 5, 5, 5, 6])
    );
    assert_eq!(to_rgba(&rgb[..4], 1, 1, PngColor::GrayscaleAlpha, true), Ok(vec![1, 1, 1, 3]));
    assert_eq!(to_rgba(&rgb[..2], 2, 1, PngColor::Grayscale, false), Ok(vec![
        1, 1, 1, 255, 2, 2, 2, 255
    ]));
    assert_eq!(to_rgba(&rgb[..2], 1, 1, PngColor::Grayscale, true), Ok(vec![1, 1, 1, 255]));
    let wide = [1, 2, 3, 4, 5, 6, 7, 8];
    assert_eq!(to_rgba(&wide, 1, 1, PngColor::Rgba, true), Ok(vec![1, 3, 5, 7]));
    assert_eq!(to_rgba(&wide, 2, 1, PngColor::Rgba, false), Ok(wide.to_vec()));
    // Fewer bytes than pixels: the rest is transparent.
    assert_eq!(to_rgba(&[9], 2, 1, PngColor::Grayscale, false), Ok(vec![
        9, 9, 9, 255, 0, 0, 0, 0
    ]));
    assert_eq!(
        to_rgba(&[0], 1, 1, PngColor::Indexed, false),
        Err(PreviewError::UnsupportedColor)
    );
}

#[test]
fn transparent_borders_are_cropped() {
    // 4 x 3, visible at (1, 1) and (2, 2).
    let mut rgba = vec![7u8; 4 * 3 * 4];
    for p in 0..12 {
        rgba[p * 4 + 3] = 0;
        rgba[p * 4] = p as u8;
    }
    rgba[(4 + 1) * 4 + 3] = 200;
    rgba[(8 + 2) * 4 + 3] = 1;
    let (out, w, h) = crop_transparent_border(&rgba, 4, 3);
    assert_eq!((w, h), (2, 2));
    assert_eq!(out, vec![5, 7, 7, 200, 6, 7, 7, 0, 9, 7, 7, 0, 10, 7, 7, 1]);

    let clear = vec![9, 9, 9, 0, 9, 9, 9, 0];
    assert_eq!(crop_transparent_border(&clear, 2, 1), (vec![0, 0, 0, 255], 1, 1));
    let full = vec![1, 2, 3, 4];
    assert_eq!(crop_transparent_border(&full, 1, 1), (full.clone(), 1, 1));
    assert_eq!(crop_transparent_border(&[], 0, 5), (vec![0, 0, 0, 255], 1, 1));
    assert_eq!(crop_transparent_border(&[1, 2, 3, 0, 5], 0, 0), (vec![1, 2, 3, 0], 1, 1));
}

#[test]
fn scaling_agrees_with_machine_floats() {
    for (sw, sh) in [(1, 1), (3, 7), (7, 3), (116, 116), (117, 115), (300, 5), (5, 300), (640, 480)]
    {
        let rgba = noise(sw * sh * 4, (sw * 1000 + sh) as u32);
        for (dw, dh) in [(116, 116), (290, 290), (1, 1), (10, 3)] {
            assert_eq!(
                resize_and_blend_rgba_to_rgb_nearest(&rgba, sw, sh, dw, dh),
                scaled(&rgba, sw, sh, dw, dh),
                "{sw} {sh} {dw} {dh}"
            );
        }
    }
    assert_eq!(resize_and_blend_rgba_to_rgb_nearest(&[], 0, 3, 2, 2), vec![0; 12]);
}

#[test]
fn scaled_sizes_never_exceed_the_space() {
    // One row or column of pixels is enough to find out.
    for n in 1..2000usize {
        let rgba = vec![255u8; n * 4];
        assert_eq!(resize_and_blend_rgba_to_rgb_nearest(&rgba, n, 1, 13, 11).len(), 13 * 11 * 3);
        assert_eq!(resize_and_blend_rgba_to_rgb_nearest(&rgba, 1, n, 13, 11).len(), 13 * 11 * 3);
    }
}

#[test]
fn thumbnails_become_previews() {
    let (w, h) = (5usize, 3usize);
    let mut rgba = noise(w * h * 4, 77);
    for p in rgba.chunks_exact_mut(4) {
        p[3] |= 1;
    }
    let file = png_file(w as u32, h as u32, png::ColorType::Rgba, png::BitDepth::Eight, &rgba);
    let blobs = build_goo_previews(Some(&as_text(&file))).unwrap();
    let small = rgb_to_rgb565_be(&scaled(&rgba, w, h, 116, 116), 116, 116);
    let large = rgb_to_rgb565_be(&scaled(&rgba, w, h, 290, 290), 290, 290);
    assert_eq!(blobs.small, small);
    assert_eq!(blobs.large, large);
    assert!(small.iter().any(|b| *b != 0));
}

#[test]
fn unusable_thumbnails_leave_the_previews_black() {
    let indexed = png_file(2, 1, png::ColorType::Indexed, png::BitDepth::Eight, &[0, 1]);
    let indexed = as_text(&indexed);
    assert_eq!(decode_and_build("?").unwrap_err(), PreviewError::Base64);
    assert_eq!(decode_and_build("aGVsbG8=").unwrap_err(), PreviewError::Png);
    assert_eq!(decode_and_build(&indexed).unwrap_err(), PreviewError::UnsupportedColor);
    for text in ["", "?", "aGVsbG8=", indexed.as_str()] {
        let blobs = build_goo_previews(Some(text)).unwrap();
        assert_eq!(blobs.small, vec![0; 26912]);
        assert_eq!(blobs.large, vec![0; 168200]);
    }
}

/// A chunk of a PNG file, with its checksum.
fn chunk(kind: &[u8; 4], data: &[u8]) -> Vec<u8> {
    let body = [&kind[..], data].concat();
    let mut crc = u32::MAX;
    for &b in &body {
        crc ^= b as u32;
        for _ in 0..8 {
            crc = if crc & 1 == 1 { (crc >> 1) ^ 0xEDB8_8320 } else { crc >> 1 };
        }
    }
    [&(data.len() as u32).to_be_bytes()[..], &body, &(!crc).to_be_bytes()].concat()
}

/// A gray PNG file two pixels wide and one high, with `extra` chunks before its pixels.
/// `rows` are the bytes of its rows, each after its filter.
fn tiny_png(interlaced: u8, extra: &[u8], rows: &[u8]) -> Vec<u8> {
    let (mut a, mut b) = (1u32, 0u32);
    for &row in rows {
        a += row as u32;
        b += a;
    }
    let len = rows.len() as u8;
    let mut stream = vec![0x78, 0x01, 0x01, len, 0, !len, !0];
    stream.extend_from_slice(rows);
    stream.extend_from_slice(&(b << 16 | a).to_be_bytes());
    [
        vec![137, 80, 78, 71, 13, 10, 26, 10],
        chunk(b"IHDR", &[0, 0, 0, 2, 0, 0, 0, 1, 8, 0, 0, 0, interlaced]),
        extra.to_vec(),
        chunk(b"IDAT", &stream),
        chunk(b"IEND", &[]),
    ]
    .concat()
}

#[test]
fn interlaced_png_files_are_read() {
    // The first and the sixth pass have one pixel each.
    let file = tiny_png(1, &[], &[0, 7, 0, 9]);
    assert_eq!(file[28], 1);
    let image = decode_png(&file).unwrap();
    assert_eq!((image.width, image.height, image.raw), (2, 1, vec![7, 9]));
}

#[test]
fn animated_png_files_show_their_picture() {
    let rows = [0, 7, 9];
    assert_eq!(count_extra_frames(&tiny_png(0, &[], &rows)), None);
    for n in [1u32, 500, u32::MAX] {
        let animation = chunk(b"acTL", &[&n.to_be_bytes()[..], &[0; 4]].concat());
        let file = tiny_png(0, &animation, &rows);
        assert_eq!(count_extra_frames(&file), Some(n));
        let image = decode_png(&file);
        if (n as usize) < usize::MAX {
            assert_eq!(image.unwrap().raw, vec![7, 9]);
        } else {
            assert!(image.is_none());
        }
        // The picture is the first frame.
        let mut frame = vec![0; 26];
        frame[7] = 2;
        frame[11] = 1;
        let file = tiny_png(0, &[animation, chunk(b"fcTL", &frame)].concat(), &rows);
        assert_eq!(count_extra_frames(&file), None);
        assert_eq!(decode_png(&file).unwrap().raw, vec![7, 9]);
    }
    assert_eq!(count_extra_frames(&[]), None);
    assert_eq!(count_extra_frames(&tiny_png(0, &[], &rows)[..40]), None);
}
