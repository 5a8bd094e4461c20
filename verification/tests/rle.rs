use goo::rle::{
    decode_goo_rle, encode_goo_rle_from_runs, goo_rle_encode, shown_pixels, RleError, RleRun,
};
use goo::types::GOO_LAYER_MAGIC;

#[test]
fn rle_starts_with_magic() {
    let out = goo_rle_encode(&[0u8; 4]);
    assert_eq!(out[0], GOO_LAYER_MAGIC);
}

#[test]
fn rle_black_run_4bit() {
    // 15 black pixels: one chunk byte and the checksum.
    let out = goo_rle_encode(&[0u8; 15]);
    // TT=00, SS=00, CCCC=1111
    assert_eq!(out[1], 0x0F);
}

#[test]
fn rle_white_run_4bit() {
    // One white pixel: TT=11, SS=00, CCCC=0001
    let out = goo_rle_encode(&[0xFF; 1]);
    assert_eq!(out[1], 0xC1);
}

#[test]
fn rle_gray_run_emits_color_byte() {
    // One gray pixel: TT=01, SS=00, CCCC=0001, and the color.
    let out = goo_rle_encode(&[0x80; 1]);
    assert_eq!(out[1], 0x41);
    assert_eq!(out[2], 0x80);
}

#[test]
fn rle_12bit_stride() {
    // 256 black pixels need one extension byte.
    let out = goo_rle_encode(&[0u8; 256]);
    // TT=00, SS=01, CCCC=0
    assert_eq!(out[1], 0x10);
    // 256 >> 4
    assert_eq!(out[2], 16);
}

#[test]
fn rle_checksum_is_ones_complement() {
    let pixels = vec![0u8; 4];
    let out = goo_rle_encode(&pixels);
    let last = *out.last().unwrap();
    let sum: u8 = out[1..out.len() - 1]
        .iter()
        .fold(0u8, |a, &b| a.wrapping_add(b));
    assert_eq!(last, !sum);
}

#[test]
fn rle_roundtrip_empty_produces_magic_and_checksum() {
    let out = goo_rle_encode(&[]);
    // Magic and checksum only; the checksum of nothing is 0xFF.
    assert_eq!(out, vec![GOO_LAYER_MAGIC, 0xFF]);
}

#[test]
fn goo_rle_roundtrip_through_decoder() {
    let mut pixels = vec![0x80u8; 20];
    pixels.extend_from_slice(&[0x00; 5]);
    pixels.extend_from_slice(&[0xFF; 7]);
    pixels.extend_from_slice(&[0x42; 300]);

    let encoded = goo_rle_encode(&pixels);
    let decoded = decode_goo_rle(&encoded, pixels.len()).expect("decode should succeed");
    assert_eq!(decoded, pixels);
}

#[test]
fn goo_rle_decoder_rejects_bad_checksum() {
    let mut encoded = goo_rle_encode(&[0xFF; 16]);
    let last = encoded.len() - 1;
    encoded[last] ^= 0xFF;
    assert!(decode_goo_rle(&encoded, 16).is_err());
}

/// Frames chunks as layer data.
fn framed_chunks(payload: &[u8]) -> Vec<u8> {
    let sum = payload.iter().fold(0u8, |a, b| a.wrapping_add(*b));
    let mut data = vec![GOO_LAYER_MAGIC];
    data.extend_from_slice(payload);
    data.push(!sum);
    data
}

#[test]
fn counts_take_as_many_bytes_as_they_need() {
    // 4096 + 18 white pixels: TT=11, SS=10.
    let out = goo_rle_encode(&vec![0xFF; 4114]);
    assert_eq!(&out[1..4], &[0xE2, 0x01, 0x01]);
    // 0x123456 gray pixels: TT=01, SS=11, the color, then three bytes.
    let out = goo_rle_encode(&vec![0x42; 0x123456]);
    assert_eq!(&out[1..6], &[0x76, 0x42, 0x01, 0x23, 0x45]);
    assert_eq!(decode_goo_rle(&out, 0x123456), Ok(vec![0x42; 0x123456]));
    for n in [15usize, 16, 4095, 4096, 1_048_575, 1_048_576] {
        let pixels = vec![7u8; n];
        assert_eq!(decode_goo_rle(&goo_rle_encode(&pixels), n), Ok(pixels));
    }
}

#[test]
fn difference_chunks_are_decoded() {
    // Up by 5; down by 2, three times; up by 1 over the edge of a byte.
    let data = framed_chunks(&[0x85, 0xB2, 3, 0xCF & 0xC1, 0x81]);
    assert_eq!(decode_goo_rle(&data, 6), Ok(vec![5, 3, 3, 3, 0xFF, 0x00]));
}

#[test]
fn short_and_long_data_is_fitted() {
    // Two white pixels.
    let data = framed_chunks(&[0xC2]);
    assert_eq!(decode_goo_rle(&data, 4), Ok(vec![255, 255, 0, 0]));
    assert_eq!(decode_goo_rle(&data, 1), Ok(vec![255]));
    // A chunk that ends too early counts for nothing.
    assert_eq!(decode_goo_rle(&framed_chunks(&[0xC1, 0x41]), 3), Ok(vec![255, 0, 0]));
    assert_eq!(decode_goo_rle(&framed_chunks(&[0xC1, 0x90]), 3), Ok(vec![255, 0, 0]));
    assert_eq!(decode_goo_rle(&framed_chunks(&[0xC1, 0xE0, 9]), 3), Ok(vec![255, 0, 0]));
    assert_eq!(decode_goo_rle(&[0x55], 3), Err(RleError::MissingMagic));
    assert_eq!(decode_goo_rle(&[0x54, 0xFF], 3), Err(RleError::MissingMagic));
    assert_eq!(
        decode_goo_rle(&[0x55, 0xFE], 3),
        Err(RleError::ChecksumMismatch { expected: 0xFF, got: 0xFE })
    );
}

#[test]
fn runs_and_masks_are_coded_alike() {
    let runs = [(3u32, 10u8), (0, 99), (2, 200), (1, 200), (4, 0)];
    let mask: Vec<u8> =
        runs.iter().flat_map(|(n, v)| std::iter::repeat(*v).take(*n as usize)).collect();
    let runs: Vec<RleRun> =
        runs.iter().map(|(length, value)| RleRun { length: *length, value: *value }).collect();
    for gray in [true, false] {
        let shown = shown_pixels(&mask, gray, 127);
        assert_eq!(encode_goo_rle_from_runs(&runs, gray, 127, 10), goo_rle_encode(&shown));
    }
    assert_eq!(shown_pixels(&[126, 127, 128], false, 127), vec![0, 0, 255]);
    // Runs beyond the picture are cut, missing ones are black.
    assert_eq!(encode_goo_rle_from_runs(&runs, true, 0, 4), goo_rle_encode(&mask[..4]));
    let mut longer = mask.clone();
    longer.resize(15, 0);
    assert_eq!(encode_goo_rle_from_runs(&runs, true, 0, 15), goo_rle_encode(&longer));
}
