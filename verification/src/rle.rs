//! Run-length coding of layer images.
//!
//! A coded layer is the byte `0x55`, a payload of chunks, and a checksum byte.
//! The first byte of a chunk is `[TT][SS][CCCC]`:
//!   - `TT`: `00` black, `01` gray, `10` difference to the previous pixel, `11` white;
//!   - `SS`: how many bytes extend the count (none, one, two or three);
//!   - `CCCC`: the low four bits of the count.
//! A gray chunk carries its color right after the first byte. The bytes that
//! extend the count come last, most significant first.

use vstd::prelude::*;

use crate::types::GOO_LAYER_MAGIC;

verus! {

/// One run of equal mask values, as the rasterizer hands it over.
#[derive(Debug, Clone, Copy, PartialEq, Eq)]
pub struct RleRun {
    pub length: u32,
    pub value: u8,
}

/// Why coded layer data is refused.
#[derive(Debug, Clone, Copy, PartialEq, Eq)]
pub enum RleError {
    /// The data is too short or does not start with the magic byte.
    MissingMagic,
    /// The last byte is not the checksum of the payload.
    ChecksumMismatch { expected: u8, got: u8 },
}

/// The sum of the bytes of `s`.
pub open spec fn byte_sum(s: Seq<u8>) -> nat
    decreases s.len(),
{
    if s.len() == 0 {
        0
    } else {
        byte_sum(s.drop_last()) + s.last() as nat
    }
}

/// The one's complement of the byte sum modulo 256.
pub open spec fn checksum(payload: Seq<u8>) -> u8 {
    (255 - byte_sum(payload) % 256) as u8
}

/// The `TT` bits that announce `color`.
pub open spec fn chunk_type_of(color: u8) -> u8 {
    if color == 0x00 {
        0
    } else if color == 0xFF {
        3
    } else {
        1
    }
}

/// How many bytes extend the low four bits of the count `n`.
pub open spec fn extension_len(n: u32) -> int {
    if n <= 15 {
        0
    } else if n <= 4_095 {
        1
    } else if n <= 1_048_575 {
        2
    } else {
        3
    }
}

/// The count bytes that follow the low four bits of `n`, most significant first.
pub open spec fn extension_bytes(n: u32) -> Seq<u8> {
    if n <= 15 {
        seq![]
    } else if n <= 4_095 {
        seq![(n / 16) as u8]
    } else if n <= 1_048_575 {
        seq![(n / 4_096) as u8, (n / 16 % 256) as u8]
    } else {
        seq![(n / 1_048_576 % 256) as u8, (n / 4_096 % 256) as u8, (n / 16 % 256) as u8]
    }
}

/// The chunk of type `chunk_type` for `n` pixels of `color`.
pub open spec fn chunk(chunk_type: u8, n: u32, color: u8) -> Seq<u8> {
    seq![(chunk_type % 4 * 64 + extension_len(n) * 16 + n % 16) as u8] + (if chunk_type == 1 {
        seq![color]
    } else {
        seq![]
    }) + extension_bytes(n)
}

/// The end of the run of equal pixels that `p[start]` belongs to, from `i` on.
pub open spec fn run_end(p: Seq<u8>, start: int, i: int) -> int
    decreases p.len() - i,
{
    if i < 0 || i >= p.len() || p[i] != p[start] {
        i
    } else {
        run_end(p, start, i + 1)
    }
}

pub proof fn lemma_run_end(p: Seq<u8>, start: int, i: int)
    requires
        0 <= start < i <= p.len(),
    ensures
        i <= run_end(p, start, i) <= p.len(),
        forall|k: int| i <= k < run_end(p, start, i) ==> p[k] == p[start],
        run_end(p, start, i) < p.len() ==> p[run_end(p, start, i)] != p[start],
    decreases p.len() - i,
{
    if i < p.len() && p[i] == p[start] {
        lemma_run_end(p, start, i + 1);
    }
}

/// A stretch of equal pixels that is followed by another color, or by nothing, is
/// what `run_end` finds.
pub(crate) proof fn lemma_run_end_is(p: Seq<u8>, start: int, i: int, end: int)
    requires
        0 <= start < i <= end <= p.len(),
        forall|k: int| i <= k < end ==> p[k] == p[start],
        end < p.len() ==> p[end] != p[start],
    ensures
        run_end(p, start, i) == end,
    decreases p.len() - i,
{
    if i < end {
        lemma_run_end_is(p, start, i + 1, end);
    }
}

/// The chunks for the pixels of `p` from `start` on: one per run.
pub open spec fn chunks_from(p: Seq<u8>, start: int) -> Seq<u8>
    decreases p.len() - start,
    via chunks_from_decreases
{
    if start < 0 || start >= p.len() {
        seq![]
    } else {
        let end = run_end(p, start, start + 1);
        chunk(chunk_type_of(p[start]), ((end - start) % 0x1_0000_0000) as u32, p[start])
            + chunks_from(p, end)
    }
}

#[via_fn]
proof fn chunks_from_decreases(p: Seq<u8>, start: int) {
    if 0 <= start < p.len() {
        lemma_run_end(p, start, start + 1);
    }
}

/// Coded layer data with this payload.
pub open spec fn framed(payload: Seq<u8>) -> Seq<u8> {
    seq![GOO_LAYER_MAGIC] + payload + seq![checksum(payload)]
}

/// The coded form of the pixels `p`.
pub open spec fn goo_rle(p: Seq<u8>) -> Seq<u8> {
    framed(chunks_from(p, 0))
}

proof fn lemma_byte_sum_push(s: Seq<u8>, b: u8)
    ensures
        byte_sum(s.push(b)) == byte_sum(s) + b,
{
    assert(s.push(b).drop_last() =~= s);
}

/// The byte sum modulo 256 of `bytes` from `from` on.
fn sum_of_bytes(bytes: &[u8], from: usize, to: usize) -> (sum: u8)
    requires
        from <= to <= bytes@.len(),
    ensures
        sum == byte_sum(bytes@.subrange(from as int, to as int)) % 256,
{
    let mut sum: u8 = 0;
    let mut i: usize = from;
    assert(bytes@.subrange(from as int, from as int) =~= seq![]);
    while i < to
        invariant
            from <= i <= to <= bytes@.len(),
            sum == byte_sum(bytes@.subrange(from as int, i as int)) % 256,
        decreases to - i,
    {
        let b: u8 = bytes[i];
        proof {
            lemma_byte_sum_push(bytes@.subrange(from as int, i as int), b);
            assert(bytes@.subrange(from as int, i as int).push(b) =~= bytes@.subrange(
                from as int,
                i + 1,
            ));
        }
        sum = sum.wrapping_add(b);
        i = i + 1;
    }
    sum
}

/// Appends the chunk of type `chunk_type` for `run_len` pixels of `color`.
pub fn push_goo_run(out: &mut Vec<u8>, chunk_type: u8, run_len: u32, color: u8)
    ensures
        final(out)@ == old(out)@ + chunk(chunk_type, run_len, color),
{
    let head: u8 = chunk_type % 4 * 64;
    let low_nibble: u8 = (run_len % 16) as u8;
    if run_len <= 15 {
        out.push(head + low_nibble);
    } else if run_len <= 4_095 {
        out.push(head + 16 + low_nibble);
    } else if run_len <= 1_048_575 {
        out.push(head + 32 + low_nibble);
    } else {
        out.push(head + 48 + low_nibble);
    }
    if chunk_type == 1 {
        out.push(color);
    }
    if run_len > 1_048_575 {
        out.push((run_len / 1_048_576 % 256) as u8);
    }
    if run_len > 4_095 {
        out.push((run_len / 4_096 % 256) as u8);
    }
    if run_len > 15 {
        out.push((run_len / 16 % 256) as u8);
    }
    assert(out@ =~= old(out)@ + chunk(chunk_type, run_len, color));
}

/// The `TT` bits for `color`.
fn chunk_type_for(color: u8) -> (chunk_type: u8)
    ensures
        chunk_type == chunk_type_of(color),
{
    if color == 0x00 {
        0
    } else if color == 0xFF {
        3
    } else {
        1
    }
}

/// Appends the checksum of everything after the magic byte.
fn push_checksum(out: &mut Vec<u8>)
    requires
        old(out)@.len() > 0,
        old(out)@[0] == GOO_LAYER_MAGIC,
    ensures
        final(out)@ == framed(old(out)@.skip(1)),
{
    let sum: u8 = sum_of_bytes(out.as_slice(), 1, out.len());
    assert(out@.subrange(1, out@.len() as int) =~= out@.skip(1));
    out.push(255 - sum);
    assert(out@ =~= framed(old(out)@.skip(1)));
}

/// Codes a flat buffer of 8-bit gray pixels.
pub fn goo_rle_encode(pixels: &[u8]) -> (out: Vec<u8>)
    ensures
        out@ == goo_rle(pixels@),
{
    let mut out: Vec<u8> = Vec::with_capacity(pixels.len() / 4 + 16);
    out.push(GOO_LAYER_MAGIC);
    let mut i: usize = 0;
    while i < pixels.len()
        invariant
            i <= pixels@.len(),
            out@.len() > 0,
            out@[0] == GOO_LAYER_MAGIC,
            out@.skip(1) + chunks_from(pixels@, i as int) == chunks_from(pixels@, 0),
        decreases pixels@.len() - i,
    {
        let color: u8 = pixels[i];
        let run_start: usize = i;
        i = i + 1;
        while i < pixels.len() && pixels[i] == color
            invariant
                run_start < i <= pixels@.len(),
                color == pixels@[run_start as int],
                run_end(pixels@, run_start as int, run_start + 1) == run_end(
                    pixels@,
                    run_start as int,
                    i as int,
                ),
            decreases pixels@.len() - i,
        {
            i = i + 1;
        }
        let run_len: u32 = crate::bytes::low_u32((i - run_start) as u64);
        let ghost before = out@;
        push_goo_run(&mut out, chunk_type_for(color), run_len, color);
        assert(out@.skip(1) =~= before.skip(1) + chunk(chunk_type_of(color), run_len, color));
        assert(out@.skip(1) + chunks_from(pixels@, i as int) =~= before.skip(1) + chunks_from(
            pixels@,
            run_start as int,
        ));
    }
    assert(out@.skip(1) =~= chunks_from(pixels@, 0));
    push_checksum(&mut out);
    out
}

/// `n` pixels of `color`.
pub open spec fn repeated(color: u8, n: nat) -> Seq<u8> {
    Seq::new(n, |i: int| color)
}

/// The number that the bytes `s` write out, most significant first.
pub open spec fn big_endian(s: Seq<u8>) -> nat
    decreases s.len(),
{
    if s.len() == 0 {
        0
    } else {
        big_endian(s.drop_last()) * 256 + s.last() as nat
    }
}

/// What the chunk at the head of `rest` stands for: a color, how many pixels have
/// it, and the length of the chunk. There is none where `rest` ends inside the
/// chunk. `previous` is the color that a difference chunk starts from.
#[verifier::opaque]
pub open spec fn next_chunk(rest: Seq<u8>, previous: u8) -> Option<(u8, nat, int)>
    recommends
        rest.len() > 0,
{
    let first = rest[0] as int;
    let chunk_type = first / 64;
    let low = (first % 16) as nat;
    if chunk_type == 2 {
        let color = (if first / 32 % 2 == 1 {
            (previous - low) % 256
        } else {
            (previous + low) % 256
        }) as u8;
        if first / 16 % 2 == 0 {
            Some((color, 1, 1))
        } else if rest.len() < 2 {
            None
        } else {
            Some((color, rest[1] as nat, 2))
        }
    } else {
        let ext = first / 16 % 4;
        let ext_at = if chunk_type == 1 {
            2int
        } else {
            1int
        };
        if rest.len() < ext_at + ext {
            None
        } else {
            let color = if chunk_type == 0 {
                0x00u8
            } else if chunk_type == 3 {
                0xFFu8
            } else {
                rest[1]
            };
            Some((color, low + 16 * big_endian(rest.subrange(ext_at, ext_at + ext)), ext_at + ext))
        }
    }
}

/// The `want` pixels that the chunks `rest` stand for. Chunks beyond `want` pixels
/// count for nothing; where the chunks end early, the missing pixels are black.
pub open spec fn decoded(rest: Seq<u8>, previous: u8, want: nat) -> Seq<u8>
    decreases rest.len(),
    via decoded_decreases
{
    if rest.len() == 0 || want == 0 {
        repeated(0, want)
    } else {
        match next_chunk(rest, previous) {
            None => repeated(0, want),
            Some((color, n, used)) => {
                let shown = if n < want {
                    n
                } else {
                    want
                };
                repeated(color, shown) + decoded(rest.skip(used), color, (want - shown) as nat)
            },
        }
    }
}

#[via_fn]
proof fn decoded_decreases(rest: Seq<u8>, previous: u8, want: nat) {
    reveal(next_chunk);
}

/// The payload of coded layer data.
pub open spec fn payload_of(data: Seq<u8>) -> Seq<u8> {
    data.subrange(1, data.len() - 1)
}

/// What reading coded layer data gives.
pub open spec fn goo_rle_decoded(data: Seq<u8>, expected_pixels: nat) -> Result<
    Seq<u8>,
    RleError,
> {
    if data.len() < 2 || data[0] != GOO_LAYER_MAGIC {
        Err(RleError::MissingMagic)
    } else if data.last() != checksum(payload_of(data)) {
        Err(
            RleError::ChecksumMismatch { expected: checksum(payload_of(data)), got: data.last() },
        )
    } else {
        Ok(decoded(payload_of(data), 0, expected_pixels))
    }
}

/// Appends `n` pixels of `color`.
fn push_pixels(pixels: &mut Vec<u8>, color: u8, n: usize)
    ensures
        final(pixels)@ == old(pixels)@ + repeated(color, n as nat),
{
    let mut k: usize = 0;
    assert(pixels@ =~= old(pixels)@ + repeated(color, 0));
    while k < n
        invariant
            k <= n,
            pixels@ == old(pixels)@ + repeated(color, k as nat),
        decreases n - k,
    {
        pixels.push(color);
        k = k + 1;
        assert(pixels@ =~= old(pixels)@ + repeated(color, k as nat));
    }
}

pub(crate) proof fn lemma_big_endian(s: Seq<u8>)
    ensures
        s.len() == 0 ==> big_endian(s) == 0,
        s.len() == 1 ==> big_endian(s) == s[0],
        s.len() == 2 ==> big_endian(s) == s[0] * 256 + s[1],
        s.len() == 3 ==> big_endian(s) == s[0] * 65536 + s[1] * 256 + s[2],
{
    reveal_with_fuel(big_endian, 4);
}

/// The chunk at the head of `rest`, if all of it is there: its color, its number of
/// pixels and its length in bytes.
pub fn read_chunk(rest: &[u8], previous: u8) -> (r: Option<(u8, u32, usize)>)
    requires
        rest@.len() > 0,
    ensures
        match next_chunk(rest@, previous) {
            None => r is None,
            Some((color, n, used)) => r == Some((color, n as u32, used as usize)) && n <= u32::MAX
                && 0 < used <= rest@.len(),
        },
{
    reveal(next_chunk);
    let first: u8 = rest[0];
    let chunk_type: u8 = first / 64;
    let low: u8 = first % 16;
    if chunk_type == 2 {
        let color: u8 = if first / 32 % 2 == 1 {
            previous.wrapping_sub(low)
        } else {
            previous.wrapping_add(low)
        };
        if first / 16 % 2 == 0 {
            return Some((color, 1, 1));
        }
        if rest.len() < 2 {
            return None;
        }
        return Some((color, rest[1] as u32, 2));
    }
    let ext: usize = (first / 16 % 4) as usize;
    let ext_at: usize = if chunk_type == 1 {
        2
    } else {
        1
    };
    if rest.len() < ext_at + ext {
        return None;
    }
    let color: u8 = if chunk_type == 0 {
        0x00
    } else if chunk_type == 3 {
        0xFF
    } else {
        rest[1]
    };
    proof {
        lemma_big_endian(rest@.subrange(ext_at as int, ext_at + ext));
    }
    let mut high: u32 = 0;
    if ext == 1 {
        high = rest[ext_at] as u32;
    } else if ext == 2 {
        high = rest[ext_at] as u32 * 256 + rest[ext_at + 1] as u32;
    } else if ext == 3 {
        high = rest[ext_at] as u32 * 65536 + rest[ext_at + 1] as u32 * 256 + rest[ext_at
            + 2] as u32;
    }
    Some((color, low as u32 + 16 * high, ext_at + ext))
}

/// Decodes coded layer data into a flat buffer of `expected_pixels` gray pixels.
pub fn decode_goo_rle(data: &[u8], expected_pixels: usize) -> (r: Result<Vec<u8>, RleError>)
    ensures
        match goo_rle_decoded(data@, expected_pixels as nat) {
            Ok(pixels) => r matches Ok(v) && v@ == pixels,
            Err(e) => r == Err::<Vec<u8>, RleError>(e),
        },
        r matches Ok(v) ==> v@.len() == expected_pixels,
{
    if data.len() < 2 || data[0] != GOO_LAYER_MAGIC {
        return Err(RleError::MissingMagic);
    }
    let last: usize = data.len() - 1;
    let expected: u8 = 255 - sum_of_bytes(data, 1, last);
    if data[last] != expected {
        return Err(RleError::ChecksumMismatch { expected, got: data[last] });
    }
    let payload: &[u8] = vstd::slice::slice_subrange(data, 1, last);
    let mut pixels: Vec<u8> = Vec::with_capacity(expected_pixels);
    let mut previous: u8 = 0;
    let mut i: usize = 0;
    let mut done: bool = false;
    proof {
        assert(payload@.skip(0) =~= payload@);
        assert(pixels@ + decoded(payload@, 0, expected_pixels as nat) =~= decoded(
            payload@,
            0,
            expected_pixels as nat,
        ));
    }
    while !done && i < payload.len() && pixels.len() < expected_pixels
        invariant
            i <= payload@.len(),
            pixels@.len() <= expected_pixels,
            !done ==> pixels@ + decoded(
                payload@.skip(i as int),
                previous,
                (expected_pixels - pixels@.len()) as nat,
            ) == decoded(payload@, 0, expected_pixels as nat),
            done ==> pixels@ + repeated(0, (expected_pixels - pixels@.len()) as nat) == decoded(
                payload@,
                0,
                expected_pixels as nat,
            ),
        decreases payload@.len() - i + (if done {
            0int
        } else {
            1int
        }),
    {
        let rest: &[u8] = vstd::slice::slice_subrange(payload, i, payload.len());
        assert(rest@ =~= payload@.skip(i as int));
        match read_chunk(rest, previous) {
            None => {
                done = true;
            },
            Some((color, n, used)) => {
                let remaining: usize = expected_pixels - pixels.len();
                let shown: usize = if (n as u64) < remaining as u64 {
                    n as usize
                } else {
                    remaining
                };
                let ghost before = pixels@;
                push_pixels(&mut pixels, color, shown);
                i = i + used;
                previous = color;
                proof {
                    assert(rest@.skip(used as int) =~= payload@.skip(i as int));
                    let tail = decoded(
                        payload@.skip(i as int),
                        color,
                        (expected_pixels - pixels@.len()) as nat,
                    );
                    assert(pixels@ + tail =~= before + (repeated(color, shown as nat) + tail));
                }
            },
        }
    }
    let missing: usize = expected_pixels - pixels.len();
    push_pixels(&mut pixels, 0, missing);
    Ok(pixels)
}

/// One past the largest count that a chunk can hold: 28 bits.
pub const COUNT_LIMIT: u32 = 0x1000_0000;

/// From `s` on, more pixels are equal than a chunk can count.
pub open spec fn long_run_at(p: Seq<u8>, s: int) -> bool {
    &&& 0 <= s
    &&& s + COUNT_LIMIT <= p.len()
    &&& forall|k: int| s <= k < s + COUNT_LIMIT ==> p[k] == p[s]
}

/// No run of equal pixels is longer than a chunk can count, but for a black run at
/// the very end.
pub open spec fn runs_fit(p: Seq<u8>) -> bool {
    forall|s: int|
        #[trigger]
        long_run_at(p, s) ==> (forall|k: int| s <= k < p.len() ==> p[k] == 0)
}

/// The count bytes of `n` read back as `n`, modulo the count limit.
proof fn lemma_count_reads_back(n: u32)
    ensures
        extension_bytes(n).len() == extension_len(n),
        n % 16 + 16 * big_endian(extension_bytes(n)) == n % COUNT_LIMIT,
{
    lemma_big_endian(extension_bytes(n));
    let x = n as int;
    assert(x == x / 16 * 16 + x % 16);
    assert(x / 16 == x / 4_096 * 256 + x / 16 % 256);
    assert(x / 4_096 == x / 1_048_576 * 256 + x / 4_096 % 256);
    assert(x / 1_048_576 == x / 0x1000_0000 * 256 + x / 1_048_576 % 256);
    assert(x % 0x1000_0000 == x - x / 0x1000_0000 * 0x1000_0000);
}

/// The three parts of the first byte of a chunk read back.
proof fn lemma_first_byte_reads_back(chunk_type: int, ext: int, low: int)
    requires
        0 <= chunk_type < 4,
        0 <= ext < 4,
        0 <= low < 16,
    ensures
        ({
            let first = chunk_type * 64 + ext * 16 + low;
            &&& 0 <= first < 256
            &&& first / 64 == chunk_type
            &&& first / 16 % 4 == ext
            &&& first % 16 == low
        }),
{
}

/// The head of a chunk sequence reads back as the run that was written, the count
/// taken modulo the count limit.
proof fn lemma_next_chunk_of_chunk(color: u8, n: u32, rest: Seq<u8>, previous: u8)
    ensures
        next_chunk(chunk(chunk_type_of(color), n, color) + rest, previous) == Some(
            (color, (n % COUNT_LIMIT) as nat, chunk(chunk_type_of(color), n, color).len() as int),
        ),
        chunk(chunk_type_of(color), n, color).len() > 0,
{
    reveal(next_chunk);
    let chunk_type = chunk_type_of(color);
    let c = chunk(chunk_type, n, color);
    let all = c + rest;
    let ext = extension_len(n);
    let ext_at = if chunk_type == 1 {
        2int
    } else {
        1int
    };
    lemma_count_reads_back(n);
    lemma_first_byte_reads_back(chunk_type as int, ext, (n % 16) as int);
    assert(all[0] == chunk_type * 64 + ext * 16 + n % 16);
    assert(c.len() == ext_at + ext);
    assert(all.subrange(ext_at, ext_at + ext) =~= extension_bytes(n));
    assert(chunk_type == 1 ==> all[1] == color);
}

/// Decoding peels the chunk of a run off the front.
proof fn lemma_decoded_head(color: u8, n: u32, rest: Seq<u8>, previous: u8, want: nat)
    requires
        want > 0,
    ensures
        ({
            let m = (n % COUNT_LIMIT) as nat;
            let shown = if m < want {
                m
            } else {
                want
            };
            decoded(chunk(chunk_type_of(color), n, color) + rest, previous, want) == repeated(
                color,
                shown,
            ) + decoded(rest, color, (want - shown) as nat)
        }),
{
    let c = chunk(chunk_type_of(color), n, color);
    lemma_next_chunk_of_chunk(color, n, rest, previous);
    assert((c + rest).skip(c.len() as int) =~= rest);
}

/// A run in front of the pixels that follow it is the pixels from its start on.
proof fn lemma_run_then_rest(p: Seq<u8>, start: int, end: int, shown: nat, rest: Seq<u8>)
    requires
        0 <= start < end <= p.len(),
        forall|k: int| start <= k < end ==> p[k] == p[start],
        (shown == end - start && rest == p.skip(end)) || (end == p.len() && p[start] == 0 && shown
            <= end - start && rest == repeated(0, (end - start - shown) as nat)),
    ensures
        repeated(p[start], shown) + rest == p.skip(start),
{
    assert(repeated(p[start], shown) + rest =~= p.skip(start));
}

proof fn lemma_decoded_chunks(p: Seq<u8>, start: int, previous: u8)
    requires
        0 <= start <= p.len(),
        runs_fit(p),
    ensures
        decoded(chunks_from(p, start), previous, (p.len() - start) as nat) == p.skip(start),
    decreases p.len() - start,
{
    let want = (p.len() - start) as nat;
    if start < p.len() {
        let end = run_end(p, start, start + 1);
        lemma_run_end(p, start, start + 1);
        let n = ((end - start) % 0x1_0000_0000) as u32;
        let m = (n % COUNT_LIMIT) as nat;
        let shown = if m < want {
            m
        } else {
            want
        };
        let rest = chunks_from(p, end);
        lemma_decoded_head(p[start], n, rest, previous, want);
        if end - start >= COUNT_LIMIT {
            assert(long_run_at(p, start));
            assert(end == p.len());
        } else {
            lemma_decoded_chunks(p, end, p[start]);
        }
        lemma_run_then_rest(p, start, end, shown, decoded(rest, p[start], (want - shown) as nat));
    } else {
        assert(repeated(0, 0) =~= p.skip(start));
    }
}

/// What the encoder writes, the decoder reads back: decoding the coded form of an
/// image gives the image.
pub proof fn law_decode_inverts_encode(p: Seq<u8>)
    requires
        runs_fit(p),
    ensures
        goo_rle_decoded(goo_rle(p), p.len()) == Ok::<Seq<u8>, RleError>(p),
{
    let payload = chunks_from(p, 0);
    assert(payload_of(framed(payload)) =~= payload);
    lemma_decoded_chunks(p, 0, 0);
    assert(p.skip(0) =~= p);
}

/// How many pixels of `s` are not black.
spec fn lit(s: Seq<u8>) -> nat
    decreases s.len(),
{
    if s.len() == 0 {
        0
    } else {
        lit(s.drop_last()) + (if s.last() != 0 {
            1nat
        } else {
            0nat
        })
    }
}

/// One past the last pixel of `s` that is not black.
spec fn lit_end(s: Seq<u8>) -> nat
    decreases s.len(),
{
    if s.len() == 0 {
        0
    } else if s.last() != 0 {
        s.len()
    } else {
        lit_end(s.drop_last())
    }
}

proof fn lemma_lit_concat(a: Seq<u8>, b: Seq<u8>)
    ensures
        lit(a + b) == lit(a) + lit(b),
        lit_end(a + b) == (if lit(b) > 0 {
            a.len() + lit_end(b)
        } else {
            lit_end(a)
        }),
    decreases b.len(),
{
    if b.len() == 0 {
        assert(a + b =~= a);
    } else {
        lemma_lit_concat(a, b.drop_last());
        assert((a + b).drop_last() =~= a + b.drop_last());
    }
}

proof fn lemma_lit_repeated(color: u8, n: nat)
    ensures
        lit(repeated(color, n)) == (if color != 0 {
            n
        } else {
            0
        }),
        lit_end(repeated(color, n)) == (if color != 0 {
            n
        } else {
            0
        }),
    decreases n,
{
    if n > 0 {
        lemma_lit_repeated(color, (n - 1) as nat);
        assert(repeated(color, n).drop_last() =~= repeated(color, (n - 1) as nat));
    }
}

/// What is decoded of the first run of `p` from `start` on, and of the rest.
proof fn lemma_decoded_run(p: Seq<u8>, start: int, previous: u8, want: nat) -> (r: (int, nat))
    requires
        0 <= start < p.len(),
    ensures
        ({
            let (end, shown) = r;
            let color = p[start];
            &&& end == run_end(p, start, start + 1)
            &&& start < end <= p.len()
            &&& end < p.len() ==> p[end] != color
            &&& shown <= want
            &&& shown <= end - start
            &&& shown == end - start ==> end - start < COUNT_LIMIT
            &&& decoded(chunks_from(p, start), previous, want) == repeated(color, shown) + decoded(
                chunks_from(p, end),
                color,
                (want - shown) as nat,
            ) || want == 0
            &&& p.skip(start) == repeated(color, (end - start) as nat) + p.skip(end)
            &&& forall|k: int| start <= k < end ==> p[k] == color
        }),
{
    let end = run_end(p, start, start + 1);
    lemma_run_end(p, start, start + 1);
    let n = ((end - start) % 0x1_0000_0000) as u32;
    let m = (n % COUNT_LIMIT) as nat;
    let shown = if m < want {
        m
    } else {
        want
    };
    if want > 0 {
        lemma_decoded_head(p[start], n, chunks_from(p, end), previous, want);
    }
    assert(p.skip(start) =~= repeated(p[start], (end - start) as nat) + p.skip(end));
    (end, shown)
}

/// Decoding shows no more lit pixels than were coded, and none further behind.
proof fn lemma_decoded_lit(p: Seq<u8>, start: int, previous: u8, want: nat)
    requires
        0 <= start <= p.len(),
    ensures
        lit(decoded(chunks_from(p, start), previous, want)) <= lit(p.skip(start)),
        lit_end(decoded(chunks_from(p, start), previous, want)) <= lit_end(p.skip(start)),
    decreases p.len() - start,
{
    lemma_lit_repeated(0, want);
    if start < p.len() && want > 0 {
        let color = p[start];
        let (end, shown) = lemma_decoded_run(p, start, previous, want);
        let rest = decoded(chunks_from(p, end), color, (want - shown) as nat);
        lemma_decoded_lit(p, end, color, (want - shown) as nat);
        lemma_lit_repeated(color, shown);
        lemma_lit_repeated(color, (end - start) as nat);
        lemma_lit_concat(repeated(color, shown), rest);
        lemma_lit_concat(repeated(color, (end - start) as nat), p.skip(end));
    }
}

/// From `start` on, every run can be counted, but for a black one at the very end.
spec fn fits_from(p: Seq<u8>, start: int) -> bool
    decreases p.len() - start,
    via fits_from_decreases
{
    if start < 0 || start >= p.len() {
        true
    } else {
        let end = run_end(p, start, start + 1);
        (end - start < COUNT_LIMIT && fits_from(p, end)) || (p[start] == 0 && end == p.len())
    }
}

#[via_fn]
proof fn fits_from_decreases(p: Seq<u8>, start: int) {
    if 0 <= start < p.len() {
        lemma_run_end(p, start, start + 1);
    }
}

/// What reads back has runs that can be counted.
proof fn lemma_read_back_fits(p: Seq<u8>, start: int, previous: u8)
    requires
        0 <= start <= p.len(),
        decoded(chunks_from(p, start), previous, (p.len() - start) as nat) == p.skip(start),
    ensures
        fits_from(p, start),
    decreases p.len() - start,
{
    let want = (p.len() - start) as nat;
    if start < p.len() {
        let color = p[start];
        let (end, shown) = lemma_decoded_run(p, start, previous, want);
        let rest = decoded(chunks_from(p, end), color, (want - shown) as nat);
        lemma_decoded_lit(p, end, color, (want - shown) as nat);
        lemma_lit_repeated(color, shown);
        lemma_lit_repeated(color, (end - start) as nat);
        lemma_lit_concat(repeated(color, shown), rest);
        lemma_lit_concat(repeated(color, (end - start) as nat), p.skip(end));
        if color == 0 && end == p.len() {
        } else {
            if color == 0 {
                // The next run is lit.
                lemma_first_is_lit(p.skip(end));
            }
            assert(shown == end - start);
            assert(rest =~= p.skip(end)) by {
                assert(p.skip(start).skip(shown as int) =~= p.skip(end));
                assert((repeated(color, shown) + rest).skip(shown as int) =~= rest);
            }
            lemma_read_back_fits(p, end, color);
        }
    }
}

proof fn lemma_first_is_lit(s: Seq<u8>)
    requires
        s.len() > 0,
        s[0] != 0,
    ensures
        lit(s) > 0,
    decreases s.len(),
{
    if s.len() > 1 {
        lemma_first_is_lit(s.drop_last());
    }
}

/// A long run lies in a run that cannot be counted.
proof fn lemma_fits_from(p: Seq<u8>, start: int, s: int)
    requires
        fits_from(p, start),
        0 <= start <= s,
        long_run_at(p, s),
    ensures
        forall|k: int| s <= k < p.len() ==> p[k] == 0,
    decreases p.len() - start,
{
    let end = run_end(p, start, start + 1);
    lemma_run_end(p, start, start + 1);
    if s >= end {
        lemma_fits_from(p, end, s);
    } else {
        assert(p[s] == p[start]);
        if end < s + COUNT_LIMIT {
            assert(p[end] == p[s]);
        }
    }
}

/// Only images whose runs fit the counts read back: the condition under which encoding can
/// be undone is the weakest one.
pub proof fn law_only_fitting_runs_read_back(p: Seq<u8>)
    requires
        goo_rle_decoded(goo_rle(p), p.len()) == Ok::<Seq<u8>, RleError>(p),
    ensures
        runs_fit(p),
{
    let payload = chunks_from(p, 0);
    assert(payload_of(framed(payload)) =~= payload);
    assert(p.skip(0) =~= p);
    lemma_read_back_fits(p, 0, 0);
    assert forall|s: int| #[trigger] long_run_at(p, s) implies (forall|k: int|
        s <= k < p.len() ==> p[k] == 0) by {
        lemma_fits_from(p, 0, s);
    }
}

proof fn lemma_byte_sum_update(s: Seq<u8>, i: int, b: u8)
    requires
        0 <= i < s.len(),
    ensures
        byte_sum(s.update(i, b)) == byte_sum(s) - s[i] + b,
    decreases s.len(),
{
    if i == s.len() - 1 {
        assert(s.update(i, b).drop_last() =~= s.drop_last());
    } else {
        lemma_byte_sum_update(s.drop_last(), i, b);
        assert(s.update(i, b).drop_last() =~= s.drop_last().update(i, b));
    }
}

/// Data that differs from readable layer data in one byte is refused, whichever
/// byte it is.
pub proof fn law_one_changed_byte_is_refused(data: Seq<u8>, i: int, b: u8, expected_pixels: nat)
    requires
        goo_rle_decoded(data, expected_pixels) is Ok,
        0 <= i < data.len(),
        b != data[i],
    ensures
        goo_rle_decoded(data.update(i, b), expected_pixels) is Err,
{
    let changed = data.update(i, b);
    if i == data.len() - 1 {
        assert(payload_of(changed) =~= payload_of(data));
    } else if i > 0 {
        assert(payload_of(changed) =~= payload_of(data).update(i - 1, b));
        lemma_byte_sum_update(payload_of(data), i - 1, b);
    }
}

/// White where the mask is above `threshold`, black elsewhere.
pub open spec fn binarized(mask: Seq<u8>, threshold: u8) -> Seq<u8> {
    Seq::new(
        mask.len(),
        |i: int|
            if mask[i] > threshold {
                0xFFu8
            } else {
                0x00u8
            },
    )
}

/// The pixels that a mask shows: its values with anti-aliasing, else black and white.
pub open spec fn mask_pixels(mask: Seq<u8>, is_anti_aliased: bool, threshold: u8) -> Seq<u8> {
    if is_anti_aliased {
        mask
    } else {
        binarized(mask, threshold)
    }
}

/// The mask that a list of runs describes.
pub open spec fn expanded(runs: Seq<RleRun>) -> Seq<u8>
    decreases runs.len(),
{
    if runs.len() == 0 {
        seq![]
    } else {
        expanded(runs.drop_last()) + repeated(runs.last().value, runs.last().length as nat)
    }
}

/// The first `n` pixels of `p`, with black ones where `p` is shorter.
pub open spec fn fitted(p: Seq<u8>, n: nat) -> Seq<u8> {
    Seq::new(
        n,
        |i: int|
            if i < p.len() {
                p[i]
            } else {
                0u8
            },
    )
}

/// The image of `total_pixels` pixels that a list of runs describes.
pub open spec fn run_pixels(
    runs: Seq<RleRun>,
    is_anti_aliased: bool,
    threshold: u8,
    total_pixels: nat,
) -> Seq<u8> {
    fitted(mask_pixels(expanded(runs), is_anti_aliased, threshold), total_pixels)
}

proof fn lemma_expanded_prefix(runs: Seq<RleRun>, r: int)
    requires
        0 <= r <= runs.len(),
    ensures
        expanded(runs.take(r)).len() <= expanded(runs).len(),
        expanded(runs).take(expanded(runs.take(r)).len() as int) == expanded(runs.take(r)),
    decreases runs.len(),
{
    if r == runs.len() {
        assert(runs.take(r) =~= runs);
        assert(expanded(runs).take(expanded(runs).len() as int) =~= expanded(runs));
    } else {
        lemma_expanded_prefix(runs.drop_last(), r);
        assert(runs.drop_last().take(r) =~= runs.take(r));
        assert(expanded(runs).take(expanded(runs.take(r)).len() as int) =~= expanded(
            runs.drop_last(),
        ).take(expanded(runs.take(r)).len() as int));
    }
}

/// Where run `r` lies in the mask that the runs describe.
pub(crate) proof fn lemma_expanded_run(runs: Seq<RleRun>, r: int)
    requires
        0 <= r < runs.len(),
    ensures
        expanded(runs.take(r + 1)).len() == expanded(runs.take(r)).len() + runs[r].length,
        expanded(runs.take(r + 1)).len() <= expanded(runs).len(),
        forall|k: int|
            expanded(runs.take(r)).len() <= k < expanded(runs.take(r + 1)).len() ==> expanded(
                runs,
            )[k] == runs[r].value,
{
    lemma_expanded_prefix(runs, r + 1);
    assert(runs.take(r + 1).drop_last() =~= runs.take(r));
    let part = expanded(runs.take(r + 1));
    assert forall|k: int|
        expanded(runs.take(r)).len() <= k < part.len() implies expanded(runs)[k]
        == runs[r].value by {
        assert(expanded(runs).take(part.len() as int)[k] == part[k]);
    }
}

/// The pixel that a mask value shows.
fn shown_pixel(value: u8, is_anti_aliased: bool, threshold: u8) -> (r: u8)
    ensures
        r == mask_pixels(seq![value], is_anti_aliased, threshold)[0],
{
    if is_anti_aliased {
        value
    } else if value > threshold {
        0xFF
    } else {
        0x00
    }
}

/// The pixels that a mask shows.
pub fn shown_pixels(mask: &[u8], is_anti_aliased: bool, threshold: u8) -> (pixels: Vec<u8>)
    ensures
        pixels@ == mask_pixels(mask@, is_anti_aliased, threshold),
{
    let mut pixels: Vec<u8> = Vec::with_capacity(mask.len());
    let mut i: usize = 0;
    while i < mask.len()
        invariant
            i <= mask@.len(),
            pixels@ == mask_pixels(mask@, is_anti_aliased, threshold).take(i as int),
        decreases mask@.len() - i,
    {
        pixels.push(shown_pixel(mask[i], is_anti_aliased, threshold));
        i = i + 1;
        assert(pixels@ =~= mask_pixels(mask@, is_anti_aliased, threshold).take(i as int));
    }
    assert(pixels@ =~= mask_pixels(mask@, is_anti_aliased, threshold));
    pixels
}

/// Writes the chunk of a run of pixels that ends where the color changes.
fn push_run_of(out: &mut Vec<u8>, Ghost(p): Ghost<Seq<u8>>, start: usize, end: usize, color: u8)
    requires
        start < end <= p.len(),
        forall|k: int| start <= k < end ==> p[k] == color,
        end < p.len() ==> p[end as int] != color,
        old(out)@.len() > 0,
        old(out)@[0] == GOO_LAYER_MAGIC,
        old(out)@.skip(1) + chunks_from(p, start as int) == chunks_from(p, 0),
    ensures
        final(out)@.len() > 0,
        final(out)@[0] == GOO_LAYER_MAGIC,
        final(out)@.skip(1) + chunks_from(p, end as int) == chunks_from(p, 0),
{
    let run_len: u32 = crate::bytes::low_u32((end - start) as u64);
    push_goo_run(out, chunk_type_for(color), run_len, color);
    proof {
        lemma_run_end_is(p, start as int, start + 1, end as int);
        let c = chunk(chunk_type_of(color), run_len, color);
        assert(out@.skip(1) =~= old(out)@.skip(1) + c);
        assert(out@.skip(1) + chunks_from(p, end as int) =~= old(out)@.skip(1) + (c + chunks_from(
            p,
            end as int,
        )));
    }
}

/// Codes the image that a list of runs describes, without building its pixels.
pub fn encode_goo_rle_from_runs(
    runs: &[RleRun],
    is_anti_aliased: bool,
    threshold: u8,
    total_pixels: usize,
) -> (out: Vec<u8>)
    ensures
        out@ == goo_rle(run_pixels(runs@, is_anti_aliased, threshold, total_pixels as nat)),
{
    let ghost p = run_pixels(runs@, is_anti_aliased, threshold, total_pixels as nat);
    let mut out: Vec<u8> = Vec::new();
    out.push(GOO_LAYER_MAGIC);
    assert(out@.skip(1) + chunks_from(p, 0) =~= chunks_from(p, 0));
    // Pixels `start..end` are the run that is still open; all of them are `color`.
    let mut start: usize = 0;
    let mut end: usize = 0;
    let mut color: u8 = 0;
    let mut r: usize = 0;
    assert(runs@.take(0) =~= seq![]);
    while r < runs.len() && end < total_pixels
        invariant
            p == run_pixels(runs@, is_anti_aliased, threshold, total_pixels as nat),
            r <= runs@.len(),
            start <= end <= total_pixels,
            end == expanded(runs@.take(r as int)).len() || (end == total_pixels && total_pixels
                <= expanded(runs@.take(r as int)).len()),
            forall|k: int| start <= k < end ==> p[k] == color,
            out@.len() > 0,
            out@[0] == GOO_LAYER_MAGIC,
            out@.skip(1) + chunks_from(p, start as int) == chunks_from(p, 0),
        decreases runs@.len() - r,
    {
        let run: RleRun = runs[r];
        let room: usize = total_pixels - end;
        let count: usize = if (run.length as u64) < room as u64 {
            run.length as usize
        } else {
            room
        };
        let next_color: u8 = shown_pixel(run.value, is_anti_aliased, threshold);
        proof {
            lemma_expanded_run(runs@, r as int);
            assert forall|k: int| end <= k < end + count implies p[k] == next_color by {
                assert(expanded(runs@)[k] == run.value);
            }
        }
        if count > 0 {
            if next_color != color {
                if start < end {
                    push_run_of(&mut out, Ghost(p), start, end, color);
                }
                start = end;
                color = next_color;
            }
            end = end + count;
        }
        r = r + 1;
    }
    proof {
        if end < total_pixels {
            assert(runs@.take(r as int) =~= runs@);
        }
    }
    // Beyond the last run the image is black.
    if end < total_pixels {
        if color != 0 {
            if start < end {
                push_run_of(&mut out, Ghost(p), start, end, color);
            }
            start = end;
            color = 0;
        }
        end = total_pixels;
    }
    if start < end {
        push_run_of(&mut out, Ghost(p), start, end, color);
    }
    assert(out@.skip(1) =~= chunks_from(p, 0));
    push_checksum(&mut out);
    out
}

} // verus!
