//! Reading a layer back out of a container.

use vstd::prelude::*;

use crate::bytes::{read_u16_be, read_u32_be, u16_at, u32_at};
use crate::container::{
    container_end, goo_container, header, job_header, job_timing, law_header_reads_back,
    law_record_reads_back, lemma_read_inside, owned_text, record, records,
    ByteOrder,
};
use crate::layers::LayerView;
use crate::picture::{
    encode_pixels_as_grayscale_png, gray_png, png_decoded, PngColor, PngFrame,
};
use crate::preview::law_preview_sizes;
use crate::rle::{
    decode_goo_rle, goo_rle, goo_rle_decoded, law_decode_inverts_encode, runs_fit, RleError,
};
use crate::text::{decimal, hex_byte, push_decimal, push_hex_byte};
use crate::types::{
    GooTimingModel, SliceJobV3, GOO_FILE_MAGIC, GOO_FILE_VERSION, GOO_HEADER_SIZE, GOO_LAYER_COUNT_OFFSET,
    GOO_LAYER_DEF_ADDRESS_OFFSET, GOO_LAYER_DEF_SIZE,
};

verus! {

/// Why a layer cannot be read.
#[derive(Debug, Clone, Copy, PartialEq, Eq)]
pub enum LayerReadError {
    /// Layers are counted from one.
    ZeroLayerNumber,
    /// The file ends inside its first twelve bytes.
    ShortHeader,
    /// The magic bytes are not there.
    MagicMismatch,
    /// The file ends before its layer count and resolution.
    ShortLayerCount,
    /// The resolution is zero.
    InvalidDimensions { width: u32, height: u32 },
    /// The file has fewer layers.
    OutOfRange { layer_number: u32, layer_count: u32 },
    /// The file ends before the address of the first layer.
    ShortAddress,
    /// The file ends inside the definition of a layer.
    ShortLayerDef,
    /// The file ends inside the data of the layer.
    ShortLayerData,
    /// The data of the layer is damaged.
    Damaged(RleError),
}

/// The picture of a layer.
#[derive(Debug)]
pub struct LayerImage {
    pub width: u32,
    pub height: u32,
    pub pixels: Vec<u8>,
}

/// The picture of a layer, its pixels as a sequence.
pub struct LayerPicture {
    pub width: u32,
    pub height: u32,
    pub pixels: Seq<u8>,
}

impl View for LayerImage {
    type V = LayerPicture;

    open spec fn view(&self) -> LayerPicture {
        LayerPicture { width: self.width, height: self.height, pixels: self.pixels@ }
    }
}

/// Where the record lies that comes `k` records after the one at `at`. Each record is a
/// definition that ends in the length of its data, then the data and two bytes more.
pub open spec fn record_after(bytes: Seq<u8>, at: int, k: nat) -> Option<int>
    decreases k,
{
    if k == 0 {
        Some(at)
    } else if at + GOO_LAYER_DEF_SIZE > bytes.len() {
        None
    } else {
        record_after(bytes, at + GOO_LAYER_DEF_SIZE + u32_at(bytes, at + 66) + 2, (k - 1) as nat)
    }
}

/// The picture in the record at `at`.
pub open spec fn record_picture(bytes: Seq<u8>, at: int, width: u32, height: u32) -> Result<
    LayerPicture,
    LayerReadError,
> {
    let data_at = at + GOO_LAYER_DEF_SIZE;
    if data_at > bytes.len() {
        Err(LayerReadError::ShortLayerDef)
    } else {
        let data_len = u32_at(bytes, at + 66);
        if data_at + data_len > bytes.len() {
            Err(LayerReadError::ShortLayerData)
        } else {
            match goo_rle_decoded(
                bytes.subrange(data_at, data_at + data_len),
                (width * height) as nat,
            ) {
                Ok(pixels) => Ok(LayerPicture { width, height, pixels }),
                Err(e) => Err(LayerReadError::Damaged(e)),
            }
        }
    }
}

/// The picture of layer `layer_number`, counted from one.
pub open spec fn layer_picture(bytes: Seq<u8>, layer_number: u32) -> Result<
    LayerPicture,
    LayerReadError,
> {
    let layer_count = u32_at(bytes, GOO_LAYER_COUNT_OFFSET as int);
    let width = u16_at(bytes, GOO_LAYER_COUNT_OFFSET + 4) as u32;
    let height = u16_at(bytes, GOO_LAYER_COUNT_OFFSET + 6) as u32;
    if layer_number == 0 {
        Err(LayerReadError::ZeroLayerNumber)
    } else if bytes.len() < 12 {
        Err(LayerReadError::ShortHeader)
    } else if bytes.subrange(4, 12) != GOO_FILE_MAGIC@ {
        Err(LayerReadError::MagicMismatch)
    } else if bytes.len() < GOO_LAYER_COUNT_OFFSET + 8 {
        Err(LayerReadError::ShortLayerCount)
    } else if width == 0 || height == 0 {
        Err(LayerReadError::InvalidDimensions { width, height })
    } else if layer_number > layer_count {
        Err(LayerReadError::OutOfRange { layer_number, layer_count })
    } else if bytes.len() < GOO_LAYER_DEF_ADDRESS_OFFSET + 4 {
        Err(LayerReadError::ShortAddress)
    } else {
        let first = u32_at(bytes, GOO_LAYER_DEF_ADDRESS_OFFSET as int) as int;
        match record_after(bytes, first, (layer_number - 1) as nat) {
            None => Err(LayerReadError::ShortLayerDef),
            Some(at) => record_picture(bytes, at, width, height),
        }
    }
}

/// The magic bytes are where they belong.
fn has_magic(bytes: &[u8]) -> (r: bool)
    requires
        bytes@.len() >= 12,
    ensures
        r == (bytes@.subrange(4, 12) == GOO_FILE_MAGIC@),
{
    let mut i: usize = 0;
    while i < 8
        invariant
            i <= 8,
            bytes@.len() >= 12,
            forall|k: int| 0 <= k < i ==> bytes@[4 + k] == #[trigger] GOO_FILE_MAGIC@[k],
        decreases 8 - i,
    {
        if bytes[4 + i] != GOO_FILE_MAGIC[i] {
            assert(bytes@.subrange(4, 12)[i as int] != GOO_FILE_MAGIC@[i as int]);
            return false;
        }
        i = i + 1;
    }
    assert(bytes@.subrange(4, 12) =~= GOO_FILE_MAGIC@);
    true
}

/// Where the record lies that comes `k` records after the one at `first`.
fn find_record(bytes: &[u8], first: u32, k: u32) -> (r: Option<u128>)
    ensures
        match r {
            Some(at) => record_after(bytes@, first as int, k as nat) == Some(at as int),
            None => record_after(bytes@, first as int, k as nat) is None,
        },
{
    let len: usize = bytes.len();
    let mut at: u128 = first as u128;
    let mut i: u32 = 0;
    while i < k
        invariant
            i <= k,
            len == bytes@.len(),
            record_after(bytes@, first as int, k as nat) == record_after(
                bytes@,
                at as int,
                (k - i) as nat,
            ),
        decreases k - i,
    {
        if len < GOO_LAYER_DEF_SIZE || at > (len - GOO_LAYER_DEF_SIZE) as u128 {
            return None;
        }
        let data_len: u32 = read_u32_be(bytes, at as usize + 66);
        at = at + GOO_LAYER_DEF_SIZE as u128 + data_len as u128 + 2;
        i = i + 1;
    }
    Some(at)
}

/// The picture in the record at `at`.
fn read_record(bytes: &[u8], at: u128, width: u32, height: u32) -> (r: Result<
    LayerImage,
    LayerReadError,
>)
    requires
        width <= u16::MAX,
        height <= u16::MAX,
    ensures
        match r {
            Ok(image) => record_picture(bytes@, at as int, width, height) == Ok::<
                _,
                LayerReadError,
            >(image@),
            Err(e) => record_picture(bytes@, at as int, width, height) == Err::<LayerPicture, _>(e),
        },
        r matches Ok(image) ==> image.width == width && image.height == height
            && image.pixels@.len() == width * height,
{
    let len: usize = bytes.len();
    if len < GOO_LAYER_DEF_SIZE || at > (len - GOO_LAYER_DEF_SIZE) as u128 {
        return Err(LayerReadError::ShortLayerDef);
    }
    let data_at: usize = at as usize + GOO_LAYER_DEF_SIZE;
    let data_len: usize = read_u32_be(bytes, at as usize + 66) as usize;
    if data_len > len - data_at {
        return Err(LayerReadError::ShortLayerData);
    }
    let data: &[u8] = vstd::slice::slice_subrange(bytes, data_at, data_at + data_len);
    assert(width * height <= 65535 * 65535) by (nonlinear_arith)
        requires
            width <= 65535,
            height <= 65535,
    ;
    match decode_goo_rle(data, width as usize * height as usize) {
        Ok(pixels) => Ok(LayerImage { width, height, pixels }),
        Err(e) => Err(LayerReadError::Damaged(e)),
    }
}

/// The picture of layer `layer_number`, counted from one, of the container `bytes`.
pub fn read_layer(bytes: &[u8], layer_number: u32) -> (r: Result<LayerImage, LayerReadError>)
    ensures
        match r {
            Ok(image) => layer_picture(bytes@, layer_number) == Ok::<_, LayerReadError>(image@),
            Err(e) => layer_picture(bytes@, layer_number) == Err::<LayerPicture, _>(e),
        },
        r matches Ok(image) ==> 0 < image.width <= u16::MAX && 0 < image.height <= u16::MAX
            && image.pixels@.len() == image.width * image.height,
{
    let len: u64 = bytes.len() as u64;
    if layer_number == 0 {
        return Err(LayerReadError::ZeroLayerNumber);
    }
    if len < 12 {
        return Err(LayerReadError::ShortHeader);
    }
    if !has_magic(bytes) {
        return Err(LayerReadError::MagicMismatch);
    }
    if len < GOO_LAYER_COUNT_OFFSET + 8 {
        return Err(LayerReadError::ShortLayerCount);
    }
    let count_at: usize = GOO_LAYER_COUNT_OFFSET as usize;
    let layer_count: u32 = read_u32_be(bytes, count_at);
    let width: u32 = read_u16_be(bytes, count_at + 4) as u32;
    let height: u32 = read_u16_be(bytes, count_at + 6) as u32;
    if width == 0 || height == 0 {
        return Err(LayerReadError::InvalidDimensions { width, height });
    }
    if layer_number > layer_count {
        return Err(LayerReadError::OutOfRange { layer_number, layer_count });
    }
    if len < GOO_LAYER_DEF_ADDRESS_OFFSET + 4 {
        return Err(LayerReadError::ShortAddress);
    }
    let first: u32 = read_u32_be(bytes, GOO_LAYER_DEF_ADDRESS_OFFSET as usize);
    match find_record(bytes, first, layer_number - 1) {
        None => Err(LayerReadError::ShortLayerDef),
        Some(at) => read_record(bytes, at, width, height),
    }
}

/// The text of an error.
pub open spec fn error_text(e: LayerReadError) -> Seq<char> {
    match e {
        LayerReadError::ZeroLayerNumber => "Layer number must be >= 1"@,
        LayerReadError::ShortHeader => "Goo header read failed: failed to fill whole buffer"@,
        LayerReadError::MagicMismatch => "Goo file magic mismatch"@,
        LayerReadError::ShortLayerCount =>
            "Goo layer count read failed: failed to fill whole buffer"@,
        LayerReadError::InvalidDimensions { width, height } =>
            "Goo file reports invalid dimensions "@ + decimal(width as nat) + "×"@ + decimal(
            height as nat,
        ),
        LayerReadError::OutOfRange { layer_number, layer_count } => "Layer "@ + decimal(
            layer_number as nat,
        ) + " out of range (file has "@ + decimal(layer_count as nat) + " layers)"@,
        LayerReadError::ShortAddress =>
            "Goo layer def address read failed: failed to fill whole buffer"@,
        LayerReadError::ShortLayerDef =>
            "Goo layer def read failed: failed to fill whole buffer"@,
        LayerReadError::ShortLayerData =>
            "Goo layer RLE read failed: failed to fill whole buffer"@,
        LayerReadError::Damaged(RleError::MissingMagic) => "Goo layer RLE missing 0x55 magic"@,
        LayerReadError::Damaged(RleError::ChecksumMismatch { expected, got }) =>
            "Goo layer RLE checksum mismatch: expected 0x"@ + hex_byte(expected) + ", got 0x"@
            + hex_byte(got),
    }
}

impl LayerReadError {
    /// The text of the error.
    pub fn message(&self) -> (r: String)
        ensures
            r@ == error_text(*self),
    {
        let mut text: String = String::new();
        match *self {
            LayerReadError::ZeroLayerNumber => {
                text.append("Layer number must be >= 1");
            },
            LayerReadError::ShortHeader => {
                text.append("Goo header read failed: failed to fill whole buffer");
            },
            LayerReadError::MagicMismatch => {
                text.append("Goo file magic mismatch");
            },
            LayerReadError::ShortLayerCount => {
                text.append("Goo layer count read failed: failed to fill whole buffer");
            },
            LayerReadError::InvalidDimensions { width, height } => {
                text.append("Goo file reports invalid dimensions ");
                push_decimal(&mut text, width as u64);
                text.append("×");
                push_decimal(&mut text, height as u64);
            },
            LayerReadError::OutOfRange { layer_number, layer_count } => {
                text.append("Layer ");
                push_decimal(&mut text, layer_number as u64);
                text.append(" out of range (file has ");
                push_decimal(&mut text, layer_count as u64);
                text.append(" layers)");
            },
            LayerReadError::ShortAddress => {
                text.append("Goo layer def address read failed: failed to fill whole buffer");
            },
            LayerReadError::ShortLayerDef => {
                text.append("Goo layer def read failed: failed to fill whole buffer");
            },
            LayerReadError::ShortLayerData => {
                text.append("Goo layer RLE read failed: failed to fill whole buffer");
            },
            LayerReadError::Damaged(RleError::MissingMagic) => {
                text.append("Goo layer RLE missing 0x55 magic");
            },
            LayerReadError::Damaged(RleError::ChecksumMismatch { expected, got }) => {
                text.append("Goo layer RLE checksum mismatch: expected 0x");
                push_hex_byte(&mut text, expected);
                text.append(", got 0x");
                push_hex_byte(&mut text, got);
            },
        }
        assert(text@ =~= error_text(*self));
        text
    }
}

/// The picture of a layer as a PNG file holds it.
pub open spec fn gray_frame(picture: LayerPicture) -> PngFrame {
    PngFrame {
        width: picture.width,
        height: picture.height,
        color: PngColor::Grayscale,
        depth: 8,
        raw: picture.pixels,
    }
}

/// Reads the preview of one layer, as a PNG file, from the bytes of a container. Layers are
/// counted from one. The file holds the picture of the layer in 8-bit gray.
pub fn read_layer_preview_png(bytes: &[u8], layer_number: u32) -> (r: Result<Vec<u8>, String>)
    ensures
        match layer_picture(bytes@, layer_number) {
            Ok(picture) => {
                &&& r matches Ok(png)
                &&& png@ == gray_png(picture.width, picture.height, picture.pixels)
                &&& png_decoded(png@) == Some(gray_frame(picture))
            },
            Err(e) => r matches Err(text) && text@ == error_text(e),
        },
{
    match read_layer(bytes, layer_number) {
        Err(e) => Err(e.message()),
        Ok(image) => {
            assert(image.width * image.height <= 65535 * 65535) by (nonlinear_arith)
                requires
                    image.width <= 65535,
                    image.height <= 65535,
            ;
            match encode_pixels_as_grayscale_png(image.width, image.height, &image.pixels) {
                Ok(png) => Ok(png),
                Err(_) => vstd::pervasive::unreached(),
            }
        },
    }
}

/// The records of the first layers come first.
proof fn lemma_records_prefix(layers: Seq<LayerView>, i: int, timing: GooTimingModel)
    requires
        0 <= i <= layers.len(),
    ensures
        records(layers.take(i), timing).len() <= records(layers, timing).len(),
        records(layers, timing).take(records(layers.take(i), timing).len() as int) == records(
            layers.take(i),
            timing,
        ),
    decreases layers.len(),
{
    let all = records(layers, timing);
    let part = records(layers.take(i), timing);
    if i == layers.len() {
        assert(layers.take(i) =~= layers);
        assert(all.take(all.len() as int) =~= all);
    } else {
        let shorter = layers.drop_last();
        lemma_records_prefix(shorter, i, timing);
        assert(shorter.take(i) =~= layers.take(i));
        let front = records(shorter, timing);
        assert(all == front + record(layers.last(), timing));
        assert(all.take(part.len() as int) =~= front.take(part.len() as int));
    }
}

/// Where the record of layer `i` lies in a container of `layers`.
pub(crate) open spec fn record_start(
    layers: Seq<LayerView>,
    i: int,
    timing: GooTimingModel,
) -> int {
    GOO_HEADER_SIZE + records(layers.take(i), timing).len()
}

/// What follows the record of layer `i` in a container of `layers`.
pub(crate) open spec fn after_record(
    layers: Seq<LayerView>,
    i: int,
    timing: GooTimingModel,
    end: Seq<u8>,
) -> Seq<u8> {
    records(layers, timing).skip(records(layers.take(i + 1), timing).len() as int) + end
}

/// The record of layer `i` stands between those of the layers before and after it.
pub(crate) proof fn lemma_record_placed(
    head: Seq<u8>,
    layers: Seq<LayerView>,
    i: int,
    timing: GooTimingModel,
    end: Seq<u8>,
)
    requires
        0 <= i < layers.len(),
    ensures
        head + records(layers, timing) + end == (head + records(layers.take(i), timing)) + record(
            layers[i],
            timing,
        ) + after_record(layers, i, timing, end),
        records(layers.take(i + 1), timing).len() == records(layers.take(i), timing).len() + record(
            layers[i],
            timing,
        ).len(),
{
    let all = records(layers, timing);
    let before = records(layers.take(i), timing);
    let this = record(layers[i], timing);
    let upto = records(layers.take(i + 1), timing);
    assert(layers.take(i + 1).drop_last() =~= layers.take(i));
    assert(upto == before + this);
    lemma_records_prefix(layers, i + 1, timing);
    assert(all =~= all.take(upto.len() as int) + all.skip(upto.len() as int));
    assert(head + all + end =~= (head + before) + this + after_record(layers, i, timing, end));
}

/// The record of layer `i` lies where it is looked for.
#[verifier::spinoff_prover]
proof fn lemma_record_found(
    head: Seq<u8>,
    layers: Seq<LayerView>,
    i: int,
    timing: GooTimingModel,
    end: Seq<u8>,
)
    requires
        head.len() == GOO_HEADER_SIZE,
        0 <= i < layers.len(),
        layers[i].encoded.len() <= u32::MAX,
    ensures
        ({
            let bytes = head + records(layers, timing) + end;
            let at = record_start(layers, i, timing);
            let data_at = at + GOO_LAYER_DEF_SIZE;
            let len = layers[i].encoded.len();
            &&& 0 <= at
            &&& data_at + len + 2 <= bytes.len()
            &&& u32_at(bytes, at + 66) == len
            &&& bytes.subrange(data_at, data_at + len) == layers[i].encoded
            &&& record_start(layers, i + 1, timing) == data_at + len + 2
        }),
{
    let front = head + records(layers.take(i), timing);
    let this = record(layers[i], timing);
    let tail = after_record(layers, i, timing, end);
    let bytes = front + this + tail;
    let data_at = front.len() + GOO_LAYER_DEF_SIZE;
    let len = layers[i].encoded.len();
    lemma_record_placed(head, layers, i, timing, end);
    law_record_reads_back(layers[i], timing);
    lemma_read_inside(front, this, tail, 66);
    assert(bytes.subrange(data_at, data_at + len) =~= this.subrange(70, 70int + len));
}

/// Walking from record to record arrives at the record that is asked for.
proof fn lemma_walk(
    head: Seq<u8>,
    layers: Seq<LayerView>,
    i: int,
    k: nat,
    timing: GooTimingModel,
    end: Seq<u8>,
)
    requires
        head.len() == GOO_HEADER_SIZE,
        0 <= i,
        i + k < layers.len(),
        forall|j: int|
            0 <= j < layers.len() ==> (#[trigger] layers[j]).encoded.len() <= u32::MAX,
    ensures
        record_after(
            head + records(layers, timing) + end,
            record_start(layers, i, timing),
            k,
        ) == Some(record_start(layers, i + k, timing)),
    decreases k,
{
    if k > 0 {
        lemma_record_found(head, layers, i, timing, end);
        lemma_walk(head, layers, i + 1, (k - 1) as nat, timing, end);
    }
}

/// What the header of a container tells a reader.
proof fn lemma_container_header(job: SliceJobV3, layers: Seq<LayerView>, created: Seq<char>)
    ensures
        ({
            let bytes = goo_container(job, layers, created);
            let f = job_header(job, GOO_FILE_VERSION@, layers.len(), created);
            &&& bytes.len() >= GOO_HEADER_SIZE
            &&& header(ByteOrder::Big, f).len() == GOO_HEADER_SIZE
            &&& bytes.subrange(4, 12) == GOO_FILE_MAGIC@
            &&& u32_at(bytes, GOO_LAYER_COUNT_OFFSET as int) == f.layer_count
            &&& u16_at(bytes, GOO_LAYER_COUNT_OFFSET + 4) == f.res_x
            &&& u16_at(bytes, GOO_LAYER_COUNT_OFFSET + 6) == f.res_y
            &&& u32_at(bytes, GOO_LAYER_DEF_ADDRESS_OFFSET as int) == GOO_HEADER_SIZE
        }),
{
    let bytes = goo_container(job, layers, created);
    let f = job_header(job, GOO_FILE_VERSION@, layers.len(), created);
    let h = header(ByteOrder::Big, f);
    law_preview_sizes(owned_text(job.export_thumbnail_png_base64));
    law_header_reads_back(f);
    let rest = records(layers, job_timing(job)) + container_end();
    assert(bytes =~= Seq::<u8>::empty() + h + rest);
    lemma_read_inside(seq![], h, rest, GOO_LAYER_COUNT_OFFSET as int);
    lemma_read_inside(seq![], h, rest, GOO_LAYER_COUNT_OFFSET + 4);
    lemma_read_inside(seq![], h, rest, GOO_LAYER_COUNT_OFFSET + 6);
    lemma_read_inside(seq![], h, rest, GOO_LAYER_DEF_ADDRESS_OFFSET as int);
    assert(bytes.subrange(4, 12) =~= h.subrange(4, 12));
}

/// What was written is read: reading a layer of a container decodes the data that the layer
/// was given, at the resolution of the job.
#[verifier::rlimit(40)]
pub proof fn law_container_reads_back(
    job: SliceJobV3,
    layers: Seq<LayerView>,
    created: Seq<char>,
    layer_number: u32,
)
    requires
        1 <= layer_number <= layers.len() <= u32::MAX,
        job.source_width_px % 0x1_0000 != 0,
        job.source_height_px % 0x1_0000 != 0,
        forall|j: int|
            0 <= j < layers.len() ==> (#[trigger] layers[j]).encoded.len() <= u32::MAX,
    ensures
        ({
            let width = job.source_width_px % 0x1_0000;
            let height = job.source_height_px % 0x1_0000;
            layer_picture(goo_container(job, layers, created), layer_number)
                == match goo_rle_decoded(
                layers[layer_number - 1].encoded,
                (width * height) as nat,
            ) {
                Ok(pixels) => Ok(LayerPicture { width, height, pixels }),
                Err(e) => Err(LayerReadError::Damaged(e)),
            }
        }),
{
    let bytes = goo_container(job, layers, created);
    let timing = job_timing(job);
    let head = header(ByteOrder::Big, job_header(job, GOO_FILE_VERSION@, layers.len(), created));
    let i = layer_number - 1;
    lemma_container_header(job, layers, created);
    assert(layers.take(0) =~= seq![]);
    assert(record_start(layers, 0, timing) == GOO_HEADER_SIZE);
    lemma_walk(head, layers, 0, i as nat, timing, container_end());
    lemma_record_found(head, layers, i, timing, container_end());
}

/// A picture that was coded into a layer comes back out of the container, pixel for pixel.
#[verifier::rlimit(40)]
pub proof fn law_layer_shows_what_was_coded(
    job: SliceJobV3,
    layers: Seq<LayerView>,
    created: Seq<char>,
    layer_number: u32,
    pixels: Seq<u8>,
)
    requires
        1 <= layer_number <= layers.len() <= u32::MAX,
        0 < job.source_width_px < 0x1_0000,
        0 < job.source_height_px < 0x1_0000,
        forall|j: int|
            0 <= j < layers.len() ==> (#[trigger] layers[j]).encoded.len() <= u32::MAX,
        layers[layer_number - 1].encoded == goo_rle(pixels),
        pixels.len() == job.source_width_px * job.source_height_px,
        runs_fit(pixels),
    ensures
        layer_picture(goo_container(job, layers, created), layer_number) == Ok::<
            LayerPicture,
            LayerReadError,
        >(
            (LayerPicture {
                width: job.source_width_px,
                height: job.source_height_px,
                pixels,
            }),
        ),
{
    law_container_reads_back(job, layers, created, layer_number);
    law_decode_inverts_encode(pixels);
}

/// A layer that a container does not have is refused, by a message that gives the number
/// of layers.
#[verifier::rlimit(40)]
pub proof fn law_missing_layer_is_refused(
    job: SliceJobV3,
    layers: Seq<LayerView>,
    created: Seq<char>,
    layer_number: u32,
)
    requires
        layers.len() <= u32::MAX,
        job.source_width_px % 0x1_0000 != 0,
        job.source_height_px % 0x1_0000 != 0,
        layer_number == 0 || layer_number > layers.len(),
    ensures
        layer_picture(goo_container(job, layers, created), layer_number) == Err::<LayerPicture, _>(
            if layer_number == 0 {
                LayerReadError::ZeroLayerNumber
            } else {
                LayerReadError::OutOfRange { layer_number, layer_count: layers.len() as u32 }
            },
        ),
{
    lemma_container_header(job, layers, created);
}

/// Bytes without the magic of the format are refused.
pub proof fn law_other_files_are_refused(bytes: Seq<u8>, layer_number: u32)
    requires
        bytes.len() < 12 || bytes.subrange(4, 12) != GOO_FILE_MAGIC@,
    ensures
        layer_picture(bytes, layer_number) is Err,
{
}

} // verus!
