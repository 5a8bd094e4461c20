//! What reading a layer out of a file gives.

use vstd::prelude::*;

use crate::bytes::{u16_at, u32_at};
use crate::container::{goo_container, ByteOrder};
use crate::contents::{law_masks_show_their_values, shown};
use crate::encoder::{law_file_shows_the_masks, layers_refusal};
use crate::json::{at, json_parsed, u64_of};
use crate::layers::mask_layers;
use crate::layout::{number16, number32};
use crate::picture::{law_rows_hold_their_samples, PngColor};
use crate::preview::frame_is_sound;
use crate::reader::{
    error_text, gray_frame, layer_picture, record_after, record_picture, LayerPicture,
    LayerReadError,
};
use crate::rle::{goo_rle, goo_rle_decoded, mask_pixels, runs_fit, RleError};
use crate::settings::law_threshold_of_a_job_is_as_told;
use crate::stream::job_settings;
use crate::text::{decimal, hex_byte, hex_bytes};
use crate::thumbnail::pixel;
use crate::types::{RenderedLayersV3, SliceJobV3};

verus! {

/// The two ways to read numbers agree.
proof fn lemma_numbers(bytes: Seq<u8>, at: int)
    ensures
        u32_at(bytes, at) == number32(ByteOrder::Big, bytes, at),
        u16_at(bytes, at) == number16(ByteOrder::Big, bytes, at),
{
    reveal(number16);
    reveal(number32);
}

/// What keeps a layer from being read: its number is zero, or the file is too short, lacks the
/// magic bytes, has no pixels or has too few layers. The first of these that holds is told.
pub proof fn law_reader_tells_what_is_wrong(bytes: Seq<u8>, layer_number: u32)
    ensures
        ({
            let o = ByteOrder::Big;
            let n = bytes.len();
            let magic = seq![0x07u8, 0, 0, 0, 0x44, 0x4C, 0x50, 0];
            let count = number32(o, bytes, 195310);
            let (width, height) = (number16(o, bytes, 195314), number16(o, bytes, 195316));
            let r = layer_picture(bytes, layer_number);
            if layer_number == 0 {
                r == Err::<LayerPicture, _>(LayerReadError::ZeroLayerNumber)
            } else if n < 12 {
                r == Err::<LayerPicture, _>(LayerReadError::ShortHeader)
            } else if bytes.subrange(4, 12) != magic {
                r == Err::<LayerPicture, _>(LayerReadError::MagicMismatch)
            } else if n < 195318 {
                r == Err::<LayerPicture, _>(LayerReadError::ShortLayerCount)
            } else if width == 0 || height == 0 {
                r == Err::<LayerPicture, _>(
                    LayerReadError::InvalidDimensions {
                        width: width as u32,
                        height: height as u32,
                    },
                )
            } else if layer_number > count {
                r == Err::<LayerPicture, _>(
                    LayerReadError::OutOfRange { layer_number, layer_count: count as u32 },
                )
            } else if n < 195474 {
                r == Err::<LayerPicture, _>(LayerReadError::ShortAddress)
            } else {
                r is Ok ==> {
                    &&& r->Ok_0.width == width
                    &&& r->Ok_0.height == height
                }
            }
        }),
{
    let magic = seq![0x07u8, 0, 0, 0, 0x44, 0x4C, 0x50, 0];
    assert(crate::types::GOO_FILE_MAGIC@ =~= magic);
    lemma_numbers(bytes, 195310);
    lemma_numbers(bytes, 195314);
    lemma_numbers(bytes, 195316);
}

/// The records of a file, one behind the other: each is a definition of 70 bytes that ends in
/// the length of its data, then the data and two bytes more.
pub open spec fn in_a_chain(bytes: Seq<u8>, places: Seq<int>) -> bool {
    forall|k: int|
        0 <= k < places.len() - 1 ==> {
            &&& 0 <= #[trigger] places[k]
            &&& places[k] + 70 <= bytes.len()
            &&& places[k + 1] == places[k] + 72 + number32(ByteOrder::Big, bytes, places[k] + 66)
        }
}

/// Walking along the records.
proof fn lemma_chain(bytes: Seq<u8>, places: Seq<int>, k: int)
    requires
        in_a_chain(bytes, places),
        0 <= k < places.len(),
    ensures
        record_after(bytes, places[k], (places.len() - 1 - k) as nat) == Some(places.last()),
    decreases places.len() - k,
{
    if k < places.len() - 1 {
        assert(places[k] + 70 <= bytes.len());
        lemma_numbers(bytes, places[k] + 66);
        lemma_chain(bytes, places, k + 1);
    }
}

/// A layer is found by walking along the records, from the place of the first one that the
/// header gives. Its data is decoded at the size that the header gives.
pub proof fn law_reader_walks_to_the_layer(bytes: Seq<u8>, places: Seq<int>)
    requires
        bytes.len() >= 195474,
        bytes.subrange(4, 12) == seq![0x07u8, 0, 0, 0, 0x44, 0x4C, 0x50, 0],
        number16(ByteOrder::Big, bytes, 195314) > 0,
        number16(ByteOrder::Big, bytes, 195316) > 0,
        0 < places.len() <= number32(ByteOrder::Big, bytes, 195310),
        places[0] == number32(ByteOrder::Big, bytes, 195470),
        in_a_chain(bytes, places),
    ensures
        ({
            let o = ByteOrder::Big;
            let width = number16(o, bytes, 195314);
            let height = number16(o, bytes, 195316);
            let from = places.last() + 70;
            let len = number32(o, bytes, places.last() + 66);
            let r = layer_picture(bytes, places.len() as u32);
            if from > bytes.len() {
                r == Err::<LayerPicture, _>(LayerReadError::ShortLayerDef)
            } else if from + len > bytes.len() {
                r == Err::<LayerPicture, _>(LayerReadError::ShortLayerData)
            } else {
                match goo_rle_decoded(bytes.subrange(from, from + len), (width * height) as nat) {
                    Ok(pixels) => r == Ok::<_, LayerReadError>(
                        LayerPicture { width: width as u32, height: height as u32, pixels },
                    ),
                    Err(e) => r == Err::<LayerPicture, _>(LayerReadError::Damaged(e)),
                }
            }
        }),
{
    let magic = seq![0x07u8, 0, 0, 0, 0x44, 0x4C, 0x50, 0];
    assert(crate::types::GOO_FILE_MAGIC@ =~= magic);
    lemma_numbers(bytes, 195310);
    lemma_numbers(bytes, 195314);
    lemma_numbers(bytes, 195316);
    lemma_numbers(bytes, 195470);
    lemma_numbers(bytes, places.last() + 66);
    lemma_chain(bytes, places, 0);
    let width = u16_at(bytes, 195314) as u32;
    let height = u16_at(bytes, 195316) as u32;
    assert(layer_picture(bytes, places.len() as u32) == record_picture(
        bytes,
        places.last(),
        width,
        height,
    ));
}

/// What a job was given to print is what its file shows, pixel by pixel: the values of the mask
/// where the job is for gray values, else white above the threshold that the metadata give and
/// black elsewhere.
pub proof fn law_file_shows_each_pixel(
    job: SliceJobV3,
    rendered: RenderedLayersV3,
    created: Seq<char>,
    layer_number: u32,
)
    requires
        layers_refusal(job, rendered) is None,
        1 <= layer_number <= rendered.raw_mask_layers->0@.len() <= u32::MAX,
        0 < job.source_width_px < 0x1_0000,
        0 < job.source_height_px < 0x1_0000,
        forall|j: int|
            0 <= j < rendered.raw_mask_layers->0@.len() ==> goo_rle(
                mask_pixels(
                    #[trigger] rendered.raw_mask_layers->0@[j]@,
                    job_settings(job).is_anti_aliased,
                    job_settings(job).threshold,
                ),
            ).len() <= u32::MAX,
        runs_fit(
            mask_pixels(
                rendered.raw_mask_layers->0@[layer_number - 1]@,
                job_settings(job).is_anti_aliased,
                job_settings(job).threshold,
            ),
        ),
    ensures
        ({
            let doc = json_parsed(job.metadata_json@);
            let own = u64_of(at(at(doc, "goo"@), "binaryThreshold"@));
            let exported = u64_of(at(at(at(doc, "export"@), "goo"@), "binaryThreshold"@));
            let material = u64_of(at(at(doc, "material"@), "binaryThreshold"@));
            let told = if own is Some {
                own
            } else if exported is Some {
                exported
            } else {
                material
            };
            let threshold: u8 = match told {
                Some(n) => if n < 255 {
                    n as u8
                } else {
                    255
                },
                None => 127,
            };
            let masks = rendered.raw_mask_layers->0@;
            let mask = masks[layer_number - 1]@;
            let bytes = goo_container(job, mask_layers(masks, job_settings(job)), created);
            layer_picture(bytes, layer_number) matches Ok(picture) && {
                &&& picture.width == job.source_width_px
                &&& picture.height == job.source_height_px
                &&& picture.pixels.len() == mask.len()
                &&& forall|k: int|
                    0 <= k < mask.len() ==> #[trigger] picture.pixels[k] == shown(
                        mask[k],
                        job.grayscale_output,
                        threshold,
                    )
            }
        }),
{
    law_threshold_of_a_job_is_as_told(job);
    law_file_shows_the_masks(job, rendered, created, layer_number);
    law_masks_show_their_values(
        rendered.raw_mask_layers->0@[layer_number - 1]@,
        job_settings(job).is_anti_aliased,
        job_settings(job).threshold,
    );
}

/// What is said where a layer cannot be read: which numbers were asked for and found, and which
/// part of the file is too short.
pub proof fn law_messages_tell_what_is_wrong(a: u32, b: u32, expected: u8, got: u8)
    ensures
        error_text(LayerReadError::ZeroLayerNumber) == "Layer number must be >= 1"@,
        error_text(LayerReadError::MagicMismatch) == "Goo file magic mismatch"@,
        error_text(LayerReadError::OutOfRange { layer_number: a, layer_count: b }) == "Layer "@
            + decimal(a as nat) + " out of range (file has "@ + decimal(b as nat) + " layers)"@,
        error_text(LayerReadError::InvalidDimensions { width: a, height: b })
            == "Goo file reports invalid dimensions "@ + decimal(a as nat) + "×"@ + decimal(
            b as nat,
        ),
        error_text(LayerReadError::Damaged(RleError::MissingMagic))
            == "Goo layer RLE missing 0x55 magic"@,
        error_text(LayerReadError::Damaged(RleError::ChecksumMismatch { expected, got }))
            == "Goo layer RLE checksum mismatch: expected 0x"@ + hex_bytes(seq![expected])
            + ", got 0x"@ + hex_bytes(seq![got]),
        error_text(LayerReadError::ShortHeader)
            == "Goo header read failed: failed to fill whole buffer"@,
        error_text(LayerReadError::ShortLayerCount)
            == "Goo layer count read failed: failed to fill whole buffer"@,
        error_text(LayerReadError::ShortAddress)
            == "Goo layer def address read failed: failed to fill whole buffer"@,
        error_text(LayerReadError::ShortLayerDef)
            == "Goo layer def read failed: failed to fill whole buffer"@,
        error_text(LayerReadError::ShortLayerData)
            == "Goo layer RLE read failed: failed to fill whole buffer"@,
{
    assert forall|x: u8| #[trigger] hex_bytes(seq![x]) == hex_byte(x) by {
        assert(seq![x].drop_last() =~= Seq::<u8>::empty());
        assert(hex_bytes(Seq::<u8>::empty()) =~= seq![]);
        assert(hex_bytes(seq![x]) =~= hex_byte(x));
    }
}

/// The picture that is made of a layer shows each of its pixels in gray, at its place.
pub proof fn law_layer_is_shown_in_gray(picture: LayerPicture, x: int, y: int)
    requires
        picture.pixels.len() == picture.width * picture.height,
        0 <= x < picture.width,
        0 <= y < picture.height,
    ensures
        ({
            let frame = gray_frame(picture);
            let value = picture.pixels[y * picture.width + x];
            &&& frame.width == picture.width
            &&& frame.height == picture.height
            &&& frame_is_sound(frame)
            &&& pixel(frame, x, y) == (value, value, value, 255u8)
        }),
{
    let (w, h) = (picture.width as int, picture.height as int);
    law_rows_hold_their_samples(PngColor::Grayscale, 8, picture.width);
    assert(h * w == w * h) by (nonlinear_arith);
    assert(gray_frame(picture).color is Grayscale);
}

} // verus!
