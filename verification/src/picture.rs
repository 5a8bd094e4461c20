//! PNG pictures: reading the thumbnail of a job, writing the preview of a layer.

use vstd::prelude::*;

use crate::bytes::{read_u32_be, u32_at};

verus! {

/// What the samples of a pixel are.
#[derive(Debug, Clone, Copy, PartialEq, Eq, Structural)]
pub enum PngColor {
    Grayscale,
    Rgb,
    Indexed,
    GrayscaleAlpha,
    Rgba,
}

/// How many samples a pixel has.
pub open spec fn samples(color: PngColor) -> nat {
    match color {
        PngColor::Grayscale => 1,
        PngColor::Rgb => 3,
        PngColor::Indexed => 1,
        PngColor::GrayscaleAlpha => 2,
        PngColor::Rgba => 4,
    }
}

/// A picture: rows of pixels, each row filled up to whole bytes.
#[derive(Debug)]
pub struct PngImage {
    pub width: u32,
    pub height: u32,
    pub color: PngColor,
    /// The bits of a sample.
    pub depth: u8,
    pub raw: Vec<u8>,
}

/// A picture, its bytes as a sequence.
pub struct PngFrame {
    pub width: u32,
    pub height: u32,
    pub color: PngColor,
    pub depth: u8,
    pub raw: Seq<u8>,
}

impl View for PngImage {
    type V = PngFrame;

    open spec fn view(&self) -> PngFrame {
        PngFrame {
            width: self.width,
            height: self.height,
            color: self.color,
            depth: self.depth,
            raw: self.raw@,
        }
    }
}

/// The depths that samples of a kind may have.
pub open spec fn depth_allowed(color: PngColor, depth: u8) -> bool {
    match color {
        PngColor::Grayscale => depth == 1 || depth == 2 || depth == 4 || depth == 8 || depth == 16,
        PngColor::Indexed => depth == 1 || depth == 2 || depth == 4 || depth == 8,
        _ => depth == 8 || depth == 16,
    }
}

/// How many bytes a row of `width` pixels takes.
pub open spec fn row_len(color: PngColor, depth: u8, width: u32) -> nat {
    ((width * samples(color) * depth + 7) / 8) as nat
}

/// The color type that has a number in PNG files.
pub open spec fn color_of_code(code: u8) -> Option<PngColor> {
    if code == 0 {
        Some(PngColor::Grayscale)
    } else if code == 2 {
        Some(PngColor::Rgb)
    } else if code == 3 {
        Some(PngColor::Indexed)
    } else if code == 4 {
        Some(PngColor::GrayscaleAlpha)
    } else if code == 6 {
        Some(PngColor::Rgba)
    } else {
        None
    }
}

/// How many bytes the pixels of a PNG file take, by the width, height, depth and color type
/// in its first chunk. A file with a first chunk that is cut short, or with a depth that does
/// not go with the color type, announces nothing.
pub open spec fn announced_len(png: Seq<u8>) -> Option<nat> {
    if png.len() < 29 {
        None
    } else {
        match color_of_code(png[25]) {
            Some(color) if depth_allowed(color, png[24]) => Some(
                u32_at(png, 20) as nat * row_len(color, png[24], u32_at(png, 16)),
            ),
            _ => None,
        }
    }
}

/// The pixels that a PNG file announces can be held in memory, and where they are
/// interlaced, their bits can be counted.
pub open spec fn announced_size_fits(png: Seq<u8>) -> bool {
    match announced_len(png) {
        Some(len) => len <= isize::MAX && (png[28] == 1 ==> len * 8 <= usize::MAX),
        None => true,
    }
}

/// The names of the chunks that tell of frames and hold their pixels.
pub const ANIMATION_CHUNK: [u8; 4] = [0x61, 0x63, 0x54, 0x4C];

pub const FRAME_CHUNK: [u8; 4] = [0x66, 0x63, 0x54, 0x4C];

pub const IMAGE_CHUNK: [u8; 4] = [0x49, 0x44, 0x41, 0x54];

pub const FRAME_DATA_CHUNK: [u8; 4] = [0x66, 0x64, 0x41, 0x54];

/// How many frames an animated PNG file states besides the picture that everyone shows, by
/// its chunks from `at` on. `stated` is what the chunks before tell. There are none where
/// that picture is a frame itself, or where the chunks end before it.
pub open spec fn frames_from(png: Seq<u8>, at: nat, stated: Option<u32>) -> Option<u32>
    decreases png.len() - at,
{
    if at + 8 > png.len() {
        None
    } else {
        let name = png.subrange(at + 4int, at + 8int);
        if name == IMAGE_CHUNK@ || name == FRAME_DATA_CHUNK@ {
            stated
        } else if name == FRAME_CHUNK@ || at + 12 + u32_at(png, at as int) > png.len() {
            None
        } else {
            frames_from(
                png,
                at + 12 + u32_at(png, at as int) as nat,
                if name == ANIMATION_CHUNK@ {
                    Some(u32_at(png, at + 8int))
                } else {
                    stated
                },
            )
        }
    }
}

/// How many frames an animated PNG file states besides the picture that everyone shows.
pub open spec fn extra_frames(png: Seq<u8>) -> Option<u32> {
    frames_from(png, 8, None)
}

/// The frames of a PNG file, and the picture that everyone shows, can be counted.
pub open spec fn frames_fit(png: Seq<u8>) -> bool {
    extra_frames(png) matches Some(n) ==> n < usize::MAX
}

/// A PNG file does not announce more than a machine can hold or count.
pub open spec fn announces_what_fits(png: Seq<u8>) -> bool {
    announced_size_fits(png) && frames_fit(png)
}

/// The picture that a PNG file holds.
pub uninterp spec fn png_decoded(png: Seq<u8>) -> Option<PngFrame>;

/// The PNG file of an 8-bit grayscale picture.
pub uninterp spec fn gray_png(width: u32, height: u32, pixels: Seq<u8>) -> Seq<u8>;

/// `png::DecodingError`, opaque: only that there was one counts.
#[verifier::external_type_specification]
#[verifier::external_body]
pub struct ExDecodingError(png::DecodingError);

/// `png::EncodingError`, opaque: only that there was one counts.
#[verifier::external_type_specification]
#[verifier::external_body]
pub struct ExEncodingError(png::EncodingError);

/// Reads the first frame with `png::Decoder::read_info` and `png::Reader::next_frame`. The
/// result depends on the file alone. A frame is never empty and no larger than the size
/// that the file announces right after the type of its first chunk; its depth and its color
/// type are those announced there and go together, and its rows take `row_len` bytes each.
/// Interlaced pixels are placed by counting bits, so the bits of the picture must fit. The
/// frames of an animation are counted together with a picture that is no frame, so that
/// count must fit, too.
#[verifier::external_body]
fn png_frame(png: &[u8]) -> (r: Result<PngImage, png::DecodingError>)
    requires
        announces_what_fits(png@),
    ensures
        match r {
            Ok(image) => png_decoded(png@) == Some(image@),
            Err(_) => png_decoded(png@) is None,
        },
        r matches Ok(image) ==> {
            &&& png@.len() >= 29
            &&& 0 < image.width <= u32_at(png@, 16)
            &&& 0 < image.height <= u32_at(png@, 20)
            &&& image.depth == png@[24]
            &&& color_of_code(png@[25]) == Some(image.color)
            &&& depth_allowed(image.color, image.depth)
            &&& image.raw@.len() == image.height * row_len(image.color, image.depth, image.width)
        },
{
    let mut reader = png::Decoder::new(std::io::Cursor::new(png)).read_info()?;
    let mut raw = vec![0u8; reader.output_buffer_size()];
    let info = reader.next_frame(&mut raw)?;
    raw.truncate(info.buffer_size());
    let color = match info.color_type {
        png::ColorType::Grayscale => PngColor::Grayscale,
        png::ColorType::Rgb => PngColor::Rgb,
        png::ColorType::Indexed => PngColor::Indexed,
        png::ColorType::GrayscaleAlpha => PngColor::GrayscaleAlpha,
        png::ColorType::Rgba => PngColor::Rgba,
    };
    Ok(PngImage { width: info.width, height: info.height, color, depth: info.bit_depth as u8, raw })
}

/// Writes a picture with `png::Encoder::write_header` and `png::Writer::write_image_data`,
/// set to 8-bit grayscale. It fails only where the picture is empty or the number of
/// pixels is not its area. The file depends on the arguments alone, and states the size,
/// the depth and the color type in its first chunk. `png::Decoder` reads the same picture
/// back out of it; this is claimed up to a size that is far below the memory limit of the
/// decoder. The rows are counted with one byte more each, so that count must fit, together
/// with the lengths of the blocks that they are stored in.
#[verifier::external_body]
pub(crate) fn encode_pixels_as_grayscale_png(width: u32, height: u32, pixels: &[u8]) -> (r: Result<
    Vec<u8>,
    png::EncodingError,
>)
    requires
        width * height <= usize::MAX,
        width < usize::MAX,
        width == 1 ==> height <= usize::MAX / 4,
    ensures
        r is Ok <==> (0 < width && 0 < height && pixels@.len() == width * height),
        r matches Ok(file) ==> {
            &&& file@ == gray_png(width, height, pixels@)
            &&& file@.len() >= 26
            &&& u32_at(file@, 16) == width
            &&& u32_at(file@, 20) == height
            &&& file@[24] == 8
            &&& file@[25] == 0
            &&& width <= u16::MAX && height <= u16::MAX ==> png_decoded(file@) == Some(
                PngFrame {
                    width,
                    height,
                    color: PngColor::Grayscale,
                    depth: 8,
                    raw: pixels@,
                },
            )
        },
{
    let mut out = Vec::new();
    let mut encoder = png::Encoder::new(&mut out, width, height);
    encoder.set_color(png::ColorType::Grayscale);
    encoder.set_depth(png::BitDepth::Eight);
    let mut writer = encoder.write_header()?;
    writer.write_image_data(pixels)?;
    drop(writer);
    Ok(out)
}

/// How many bytes the pixels of a PNG file take, by what its first chunk announces.
fn measure(png: &[u8]) -> (r: Option<u128>)
    ensures
        match r {
            Some(len) => announced_len(png@) == Some(len as nat),
            None => announced_len(png@) is None,
        },
{
    if png.len() < 29 {
        return None;
    }
    let depth: u8 = png[24];
    let code: u8 = png[25];
    let (samples, allowed): (u64, bool) = match code {
        0 => (1, depth == 1 || depth == 2 || depth == 4 || depth == 8 || depth == 16),
        2 => (3, depth == 8 || depth == 16),
        3 => (1, depth == 1 || depth == 2 || depth == 4 || depth == 8),
        4 => (2, depth == 8 || depth == 16),
        6 => (4, depth == 8 || depth == 16),
        _ => (1, false),
    };
    if !allowed {
        return None;
    }
    let width: u32 = read_u32_be(png, 16);
    let height: u32 = read_u32_be(png, 20);
    assert(width * samples <= u32::MAX * 4 && width * samples * depth <= u32::MAX * 4 * 16)
        by (nonlinear_arith)
        requires
            0 <= width <= u32::MAX,
            0 <= samples <= 4,
            0 <= depth <= 16,
    ;
    let row: u64 = (width as u64 * samples * depth as u64 + 7) / 8;
    assert(height * row <= u32::MAX * u64::MAX) by (nonlinear_arith)
        requires
            0 <= height <= u32::MAX,
            0 <= row <= u64::MAX,
    ;
    Some(height as u128 * row as u128)
}

/// The bytes at `at` are `name`.
fn is_named(png: &[u8], at: usize, name: &[u8; 4]) -> (r: bool)
    requires
        at + 4 <= png@.len(),
    ensures
        r == (png@.subrange(at as int, at + 4) == name@),
{
    let r: bool = png[at] == name[0] && png[at + 1] == name[1] && png[at + 2] == name[2] && png[at
        + 3] == name[3];
    proof {
        let s = png@.subrange(at as int, at + 4);
        assert(s[0] == png@[at as int] && s[1] == png@[at + 1] && s[2] == png@[at + 2] && s[3]
            == png@[at + 3]);
        if r {
            assert(s =~= name@);
        }
    }
    r
}

/// How many frames an animated PNG file states besides the picture that everyone shows.
pub fn count_extra_frames(png: &[u8]) -> (r: Option<u32>)
    ensures
        r == extra_frames(png@),
{
    let len: usize = png.len();
    let mut stated: Option<u32> = None;
    let mut at: usize = 8;
    while at <= len && len - at >= 8
        invariant_except_break
            len == png@.len(),
            extra_frames(png@) == frames_from(png@, at as nat, stated),
        ensures
            extra_frames(png@) is None,
        decreases len - at,
    {
        if is_named(png, at + 4, &IMAGE_CHUNK) || is_named(png, at + 4, &FRAME_DATA_CHUNK) {
            return stated;
        }
        if is_named(png, at + 4, &FRAME_CHUNK) {
            return None;
        }
        let size: u32 = read_u32_be(png, at);
        if len - at < 12 || size as u64 > (len - at - 12) as u64 {
            return None;
        }
        if is_named(png, at + 4, &ANIMATION_CHUNK) {
            stated = Some(read_u32_be(png, at + 8));
        }
        at = at + 12 + size as usize;
    }
    None
}

/// The picture that a PNG file holds, where what it announces can be held in memory.
pub fn decode_png(png: &[u8]) -> (r: Option<PngImage>)
    ensures
        match r {
            Some(image) => {
                &&& announces_what_fits(png@)
                &&& png_decoded(png@) == Some(image@)
                &&& image.width > 0 && image.height > 0
                &&& depth_allowed(image.color, image.depth)
                &&& image.raw@.len() == image.height * row_len(
                    image.color,
                    image.depth,
                    image.width,
                )
            },
            None => !announces_what_fits(png@) || png_decoded(png@) is None,
        },
{
    if let Some(len) = measure(png) {
        if len > isize::MAX as u128 {
            return None;
        }
        if png[28] == 1 && len * 8 > usize::MAX as u128 {
            return None;
        }
    }
    if let Some(frames) = count_extra_frames(png) {
        if frames as u64 >= usize::MAX as u64 {
            return None;
        }
    }
    match png_frame(png) {
        Ok(image) => Some(image),
        Err(_) => None,
    }
}

/// A row takes the whole bytes that the bits of its samples need, and no more: one sample for
/// gray or an index, two with opacity, three for colors and four with opacity.
pub proof fn law_rows_hold_their_samples(color: PngColor, depth: u8, width: u32)
    ensures
        ({
            let each: int = match color {
                PngColor::Grayscale => 1,
                PngColor::Indexed => 1,
                PngColor::GrayscaleAlpha => 2,
                PngColor::Rgb => 3,
                PngColor::Rgba => 4,
            };
            let bits = width * each * depth;
            bits <= 8 * row_len(color, depth, width) < bits + 8
        }),
{
    let each = samples(color) as int;
    assert(0 <= width * each * depth) by (nonlinear_arith)
        requires
            0 <= each,
    ;
}

/// A chunk has the name `name`, four letters in ASCII.
pub open spec fn chunk_is(png: Seq<u8>, at: int, name: Seq<char>) -> bool {
    &&& at + 8 <= png.len()
    &&& forall|i: int| 0 <= i < 4 ==> png[at + 4 + i] as int == #[trigger] name[i] as int
}

/// The chunk at place `k` holds no pixels and starts no frame, and lies before the next one: it
/// is the length of its data, a name, the data and four bytes more.
pub open spec fn chunk_before(png: Seq<u8>, places: Seq<int>, k: int) -> bool {
    &&& 0 <= places[k]
    &&& places[k] + 12 + u32_at(png, places[k]) <= png.len()
    &&& places[k + 1] == places[k] + 12 + u32_at(png, places[k])
    &&& !chunk_is(png, places[k], "IDAT"@)
    &&& !chunk_is(png, places[k], "fdAT"@)
    &&& !chunk_is(png, places[k], "fcTL"@)
}

/// The chunks of a file, one behind the other, up to the last of them.
pub open spec fn chunk_chain(png: Seq<u8>, places: Seq<int>) -> bool {
    &&& places.len() > 0 && places[0] == 8
    &&& forall|k: int| 0 <= k < places.len() - 1 ==> #[trigger] chunk_before(png, places, k)
}

/// The letters of the names.
proof fn lemma_names(png: Seq<u8>, at: int)
    requires
        0 <= at,
        at + 8 <= png.len(),
    ensures
        chunk_is(png, at, "IDAT"@) == (png.subrange(at + 4, at + 8) == IMAGE_CHUNK@),
        chunk_is(png, at, "fdAT"@) == (png.subrange(at + 4, at + 8) == FRAME_DATA_CHUNK@),
        chunk_is(png, at, "fcTL"@) == (png.subrange(at + 4, at + 8) == FRAME_CHUNK@),
        chunk_is(png, at, "acTL"@) == (png.subrange(at + 4, at + 8) == ANIMATION_CHUNK@),
{
    reveal_strlit("IDAT");
    reveal_strlit("fdAT");
    reveal_strlit("fcTL");
    reveal_strlit("acTL");
    lemma_name(png, at, "IDAT"@, IMAGE_CHUNK@);
    lemma_name(png, at, "fdAT"@, FRAME_DATA_CHUNK@);
    lemma_name(png, at, "fcTL"@, FRAME_CHUNK@);
    lemma_name(png, at, "acTL"@, ANIMATION_CHUNK@);
}

proof fn lemma_name(png: Seq<u8>, at: int, name: Seq<char>, bytes: Seq<u8>)
    requires
        0 <= at,
        at + 8 <= png.len(),
        name.len() == 4,
        bytes.len() == 4,
        forall|i: int| 0 <= i < 4 ==> bytes[i] as int == #[trigger] name[i] as int,
    ensures
        chunk_is(png, at, name) == (png.subrange(at + 4, at + 8) == bytes),
{
    let part = png.subrange(at + 4, at + 8);
    if chunk_is(png, at, name) {
        assert forall|i: int| 0 <= i < 4 implies part[i] == bytes[i] by {
            assert(png[at + 4 + i] as int == name[i] as int);
        }
        assert(part =~= bytes);
    }
    if part == bytes {
        assert forall|i: int| 0 <= i < 4 implies png[at + 4 + i] as int == #[trigger] name[i]
            as int by {
            assert(part[i] == bytes[i]);
        }
    }
}

/// Walking along the chunks.
proof fn lemma_chunks(png: Seq<u8>, places: Seq<int>, j: int, stated: Option<u32>) -> (then: Option<
    u32,
>)
    requires
        chunk_chain(png, places),
        0 <= j < places.len() - 1,
    ensures
        0 <= places[j + 1],
        frames_from(png, places[j] as nat, stated) == frames_from(png, places[j + 1] as nat, then),
        chunk_is(png, places[j], "acTL"@) ==> then == Some(u32_at(png, places[j] + 8)),
        !chunk_is(png, places[j], "acTL"@) ==> then == stated,
{
    assert(chunk_before(png, places, j));
    lemma_names(png, places[j]);
    if chunk_is(png, places[j], "acTL"@) {
        Some(u32_at(png, places[j] + 8))
    } else {
        stated
    }
}

/// Chunks that do not tell of frames are passed over.
proof fn lemma_silent_chunks(png: Seq<u8>, places: Seq<int>, j: int, stated: Option<u32>)
    requires
        chunk_chain(png, places),
        0 <= j < places.len(),
        forall|k: int| j <= k < places.len() - 1 ==> !chunk_is(png, #[trigger] places[k], "acTL"@),
    ensures
        frames_from(png, places[j] as nat, stated) == frames_from(
            png,
            places.last() as nat,
            stated,
        ),
    decreases places.len() - j,
{
    if j < places.len() - 1 {
        assert(!chunk_is(png, places[j], "acTL"@));
        let then = lemma_chunks(png, places, j, stated);
        lemma_silent_chunks(png, places, j + 1, stated);
    }
}

/// What was told before a chunk.
proof fn lemma_told_before(png: Seq<u8>, places: Seq<int>, j: int) -> (stated: Option<u32>)
    requires
        chunk_chain(png, places),
        0 <= j < places.len(),
    ensures
        frames_from(png, 8, None) == frames_from(png, places[j] as nat, stated),
    decreases j,
{
    if j == 0 {
        None
    } else {
        let before = lemma_told_before(png, places, j - 1);
        lemma_chunks(png, places, j - 1, before)
    }
}

/// The frames besides the picture that everyone shows are those that the last `acTL` chunk
/// before the pixels states. There are none where there is no such chunk, where a frame starts
/// before the pixels, or where the file ends before them. `told` is the number of that chunk
/// among the chunks, if there is one.
pub proof fn law_frames_are_those_stated(png: Seq<u8>, places: Seq<int>, told: Option<int>)
    requires
        chunk_chain(png, places),
        match told {
            Some(k) => 0 <= k < places.len() - 1 && chunk_is(png, places[k], "acTL"@),
            None => true,
        },
        forall|k: int|
            0 <= k < places.len() - 1 && (told is Some ==> told->0 < k) ==> !chunk_is(
                png,
                #[trigger] places[k],
                "acTL"@,
            ),
    ensures
        ({
            let last = places.last();
            if chunk_is(png, last, "IDAT"@) || chunk_is(png, last, "fdAT"@) {
                extra_frames(png) == match told {
                    Some(k) => Some(u32_at(png, places[k] + 8)),
                    None => None,
                }
            } else {
                chunk_is(png, last, "fcTL"@) || last + 8 > png.len() ==> extra_frames(png) is None
            }
        }),
{
    let last = places.last();
    let stated = match told {
        Some(k) => {
            let before = lemma_told_before(png, places, k);
            let then = lemma_chunks(png, places, k, before);
            lemma_silent_chunks(png, places, k + 1, then);
            then
        },
        None => {
            lemma_silent_chunks(png, places, 0, None);
            None
        },
    };
    if places.len() > 1 {
        let n = places.len() - 2;
        assert(chunk_before(png, places, n));
    }
    if last + 8 <= png.len() {
        lemma_names(png, last);
    }
}

} // verus!
