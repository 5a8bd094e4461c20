//! What the bytes of a coded layer mean.

use vstd::prelude::*;

use crate::rle::{
    byte_sum, chunk, chunk_type_of, chunks_from, decoded, goo_rle, goo_rle_decoded,
    lemma_big_endian, lemma_run_end, lemma_run_end_is, next_chunk, payload_of, repeated, run_end,
    RleError,
};

verus! {

/// The number that up to three bytes write out, most significant first.
pub open spec fn written(bytes: Seq<u8>) -> int {
    if bytes.len() == 0 {
        0
    } else if bytes.len() == 1 {
        bytes[0] as int
    } else if bytes.len() == 2 {
        bytes[0] * 256 + bytes[1]
    } else {
        bytes[0] * 65536 + bytes[1] * 256 + bytes[2]
    }
}

/// The bytes of a chunk say that `count` pixels have `color`, where the pixels before have
/// `before`.
///   - Below 64 the first byte tells of black, below 128 of the color in the next byte, and
///     from 192 on of white. Then bits four and five say how many bytes follow for the count,
///     whose low four bits are those of the first byte.
///   - From 128 to 191 it tells of a color that is up to 15 above the one before, or below it
///     where bit five is set, for one pixel, or for as many as the next byte says where bit
///     four is set.
pub open spec fn tells(bytes: Seq<u8>, before: u8, color: u8, count: int) -> bool {
    let first = bytes[0] as int;
    let low = first % 16;
    let more = first / 16 % 4;
    &&& bytes.len() > 0
    &&& if first < 64 {
        &&& color == 0
        &&& bytes.len() == 1 + more
        &&& count == low + 16 * written(bytes.skip(1))
    } else if first < 128 {
        &&& bytes.len() == 2 + more
        &&& color == bytes[1]
        &&& count == low + 16 * written(bytes.skip(2))
    } else if first < 192 {
        &&& color == if more >= 2 {
            (before - low) % 256
        } else {
            (before + low) % 256
        }
        &&& if more % 2 == 0 {
            bytes.len() == 1 && count == 1
        } else {
            bytes.len() == 2 && count == bytes[1]
        }
    } else {
        &&& color == 255
        &&& bytes.len() == 1 + more
        &&& count == low + 16 * written(bytes.skip(1))
    }
}

/// A list of chunks, one behind the other.
pub open spec fn put_together(chunks: Seq<Seq<u8>>) -> Seq<u8>
    decreases chunks.len(),
{
    if chunks.len() == 0 {
        seq![]
    } else {
        chunks[0] + put_together(chunks.drop_first())
    }
}

/// The sum of bytes.
pub open spec fn sum(bytes: Seq<u8>) -> int
    decreases bytes.len(),
{
    if bytes.len() == 0 {
        0
    } else {
        bytes[0] + sum(bytes.drop_first())
    }
}

/// A coded layer with these chunks: 85 comes first, and last what the sum of the bytes between
/// lacks to 255, both taken modulo 256.
pub open spec fn file_of(chunks: Seq<Seq<u8>>) -> Seq<u8> {
    let between = put_together(chunks);
    seq![85u8] + between + seq![(255 - sum(between) % 256) as u8]
}

/// The runs that chunks tell of, where the pixels before them have `before`.
pub open spec fn tell_all(
    chunks: Seq<Seq<u8>>,
    before: u8,
    colors: Seq<u8>,
    counts: Seq<nat>,
) -> bool
    decreases chunks.len(),
{
    &&& colors.len() == chunks.len() && counts.len() == chunks.len()
    &&& chunks.len() > 0 ==> {
        &&& tells(chunks[0], before, colors[0], counts[0] as int)
        &&& tell_all(chunks.drop_first(), colors[0], colors.drop_first(), counts.drop_first())
    }
}

/// The pixels of runs, one behind the other.
pub open spec fn painted(colors: Seq<u8>, counts: Seq<nat>) -> Seq<u8>
    decreases colors.len(),
{
    if colors.len() == 0 || counts.len() == 0 {
        seq![]
    } else {
        Seq::new(counts[0], |i: int| colors[0]) + painted(
            colors.drop_first(),
            counts.drop_first(),
        )
    }
}

/// The first `want` pixels, black where there are none.
pub open spec fn cut(pixels: Seq<u8>, want: nat) -> Seq<u8> {
    Seq::new(
        want,
        |i: int|
            if i < pixels.len() {
                pixels[i]
            } else {
                0u8
            },
    )
}

/// The two ways to sum up bytes agree.
proof fn lemma_sum(bytes: Seq<u8>)
    ensures
        sum(bytes) == byte_sum(bytes),
    decreases bytes.len(),
{
    if bytes.len() == 1 {
        assert(bytes.drop_first() =~= seq![]);
        assert(bytes.drop_last() =~= seq![]);
        assert(sum(bytes.drop_first()) == 0 && byte_sum(bytes.drop_last()) == 0);
    } else if bytes.len() > 1 {
        let inner = bytes.drop_first().drop_last();
        lemma_sum(bytes.drop_first());
        lemma_sum(bytes.drop_last());
        lemma_sum(inner);
        assert(bytes.drop_last().drop_first() =~= inner);
        assert(bytes.drop_last()[0] == bytes[0] && bytes.drop_first().last() == bytes.last());
    }
}

/// The chunk at the head is read as what it tells.
proof fn lemma_tells(bytes: Seq<u8>, rest: Seq<u8>, before: u8, color: u8, count: nat)
    requires
        tells(bytes, before, color, count as int),
    ensures
        next_chunk(bytes + rest, before) == Some((color, count, bytes.len() as int)),
{
    reveal(next_chunk);
    let all = bytes + rest;
    let first = bytes[0] as int;
    let more = first / 16 % 4;
    assert(all[0] == bytes[0]);
    assert(first / 16 % 2 == more % 2);
    assert((first / 32 % 2 == 1) == (more >= 2));
    let at = if first / 64 == 1 {
        2int
    } else {
        1int
    };
    if first / 64 != 2 {
        assert(all.subrange(at, at + more) =~= bytes.skip(at));
        lemma_big_endian(bytes.skip(at));
    }
    if first / 64 == 1 || bytes.len() >= 2 {
        assert(all[1] == bytes[1]);
    }
}

/// Chunks are decoded one by one.
proof fn lemma_decoded(
    chunks: Seq<Seq<u8>>,
    before: u8,
    colors: Seq<u8>,
    counts: Seq<nat>,
    want: nat,
)
    requires
        tell_all(chunks, before, colors, counts),
    ensures
        decoded(put_together(chunks), before, want) == cut(painted(colors, counts), want),
    decreases chunks.len(),
{
    let all = put_together(chunks);
    if chunks.len() == 0 || want == 0 {
        assert(repeated(0, want) =~= cut(painted(colors, counts), want));
    } else {
        let rest = put_together(chunks.drop_first());
        let (color, count) = (colors[0], counts[0]);
        let shown = if count < want {
            count
        } else {
            want
        };
        lemma_tells(chunks[0], rest, before, color, count);
        lemma_decoded(
            chunks.drop_first(),
            color,
            colors.drop_first(),
            counts.drop_first(),
            (want - shown) as nat,
        );
        assert(all.skip(chunks[0].len() as int) =~= rest);
        let tail = painted(colors.drop_first(), counts.drop_first());
        assert(repeated(color, shown) + cut(tail, (want - shown) as nat) =~= cut(
            painted(colors, counts),
            want,
        ));
    }
}

/// A coded layer shows what its chunks tell, one after the other. Pixels beyond those that are
/// wanted are left out, and those that are missing are black.
pub proof fn law_coded_layer_shows_what_its_chunks_tell(
    chunks: Seq<Seq<u8>>,
    colors: Seq<u8>,
    counts: Seq<nat>,
    want: nat,
)
    requires
        tell_all(chunks, 0, colors, counts),
    ensures
        goo_rle_decoded(file_of(chunks), want) == Ok::<Seq<u8>, RleError>(
            cut(painted(colors, counts), want),
        ),
{
    let between = put_together(chunks);
    let data = file_of(chunks);
    lemma_sum(between);
    assert(payload_of(data) =~= between);
    lemma_decoded(chunks, 0, colors, counts, want);
}

/// A coded layer whose first byte is not 85, or whose last byte is not what the sum of the
/// bytes between lacks to 255, is refused, and no other.
pub proof fn law_layers_are_framed(data: Seq<u8>, want: nat)
    ensures
        goo_rle_decoded(data, want) is Ok <==> data.len() >= 2 && data[0] == 85 && data.last()
            == 255 - sum(data.subrange(1, data.len() - 1)) % 256,
        data.len() >= 2 && data[0] == 85 && goo_rle_decoded(data, want) is Err
            ==> goo_rle_decoded(data, want)->Err_0 == (RleError::ChecksumMismatch {
            expected: (255 - sum(data.subrange(1, data.len() - 1)) % 256) as u8,
            got: data.last(),
        }),
        data.len() < 2 || data[0] != 85 ==> goo_rle_decoded(data, want) == Err::<Seq<u8>, _>(
            RleError::MissingMagic,
        ),
{
    if data.len() >= 2 {
        lemma_sum(data.subrange(1, data.len() - 1));
    }
}

/// A picture of one color is coded in one chunk: after 85 come the kind of the color, how many
/// bytes extend the count, and its low four bits; then the color, where it is neither black
/// nor white; then the rest of the count in as few bytes as it takes, most significant first.
/// The checksum comes last.
pub proof fn law_a_run_takes_one_chunk(color: u8, n: nat)
    requires
        0 < n < 0x1000_0000,
    ensures
        ({
            let kind: int = if color == 0 {
                0
            } else if color == 255 {
                192
            } else {
                64
            };
            let count = n as int;
            let (extra, tail) = if n < 16 {
                (0int, Seq::<u8>::empty())
            } else if n < 0x1000 {
                (16int, seq![(count / 16) as u8])
            } else if n < 0x10_0000 {
                (32int, seq![(count / 0x1000) as u8, (count / 16 % 256) as u8])
            } else {
                (
                    48int,
                    seq![
                        (count / 0x10_0000) as u8,
                        (count / 0x1000 % 256) as u8,
                        (count / 16 % 256) as u8,
                    ],
                )
            };
            let own = if kind == 64 {
                seq![color]
            } else {
                seq![]
            };
            goo_rle(Seq::new(n, |i: int| color)) == file_of(
                seq![seq![(kind + extra + count % 16) as u8] + own + tail],
            )
        }),
{
    let p = Seq::new(n, |i: int| color);
    let c = chunk(chunk_type_of(color), n as u32, color);
    lemma_run_end_is(p, 0, 1, n as int);
    assert(chunks_from(p, n as int) =~= seq![]);
    assert(chunks_from(p, 0) =~= c);
    let list = seq![c];
    assert(list.drop_first() =~= seq![]);
    assert(put_together(list.drop_first()) =~= seq![]);
    assert(put_together(list) =~= c);
    lemma_sum(c);
    assert(goo_rle(p) =~= file_of(list));
    assert(c =~= ({
        let kind: int = if color == 0 {
            0
        } else if color == 255 {
            192
        } else {
            64
        };
        let count = n as int;
        let (extra, tail) = if n < 16 {
            (0int, Seq::<u8>::empty())
        } else if n < 0x1000 {
            (16int, seq![(count / 16) as u8])
        } else if n < 0x10_0000 {
            (32int, seq![(count / 0x1000) as u8, (count / 16 % 256) as u8])
        } else {
            (
                48int,
                seq![
                    (count / 0x10_0000) as u8,
                    (count / 0x1000 % 256) as u8,
                    (count / 16 % 256) as u8,
                ],
            )
        };
        let own = if kind == 64 {
            seq![color]
        } else {
            seq![]
        };
        seq![(kind + extra + count % 16) as u8] + own + tail
    }));
}

/// The chunks of pixels behind others are those of the pixels alone.
proof fn lemma_chunks_behind(a: Seq<u8>, b: Seq<u8>, t: int)
    requires
        0 <= t <= b.len(),
    ensures
        chunks_from(a + b, a.len() + t) == chunks_from(b, t),
    decreases b.len() - t,
{
    let p = a + b;
    let n = a.len() as int;
    if t < b.len() {
        let end = run_end(b, t, t + 1);
        lemma_run_end(b, t, t + 1);
        assert forall|k: int| n + t + 1 <= k < n + end implies #[trigger] p[k] == p[n + t] by {
            assert(p[k] == b[k - n]);
        }
        lemma_run_end_is(p, n + t, n + t + 1, n + end);
        lemma_chunks_behind(a, b, end);
    }
}

/// Where the color changes between them, the chunks of two pieces are those of each.
proof fn lemma_chunks_before(a: Seq<u8>, b: Seq<u8>, s: int)
    requires
        a.len() > 0,
        b.len() > 0,
        a.last() != b[0],
        0 <= s <= a.len(),
    ensures
        chunks_from(a + b, s) == chunks_from(a, s) + chunks_from(b, 0),
    decreases a.len() - s,
{
    let p = a + b;
    if s == a.len() {
        lemma_chunks_behind(a, b, 0);
        assert(chunks_from(a, s) =~= seq![]);
        assert(chunks_from(p, s) =~= chunks_from(a, s) + chunks_from(b, 0));
    } else {
        let end = run_end(a, s, s + 1);
        lemma_run_end(a, s, s + 1);
        assert forall|k: int| s + 1 <= k < end implies #[trigger] p[k] == p[s] by {
            assert(p[k] == a[k]);
        }
        if end == a.len() {
            assert(a[end - 1] == a[s]);
            assert(p[end] == b[0]);
        } else {
            assert(p[end] == a[end]);
        }
        lemma_run_end_is(p, s, s + 1, end);
        lemma_chunks_before(a, b, end);
        assert(chunks_from(p, s) =~= chunks_from(a, s) + chunks_from(b, 0));
    }
}

/// Where the color changes, the coded form can be cut: the bytes between the first and the last
/// are those of the pixels before the change, followed by those of the pixels behind it. So a
/// picture takes one chunk for each of its runs.
pub proof fn law_runs_are_coded_one_by_one(a: Seq<u8>, b: Seq<u8>)
    requires
        a.len() > 0,
        b.len() > 0,
        a.last() != b[0],
    ensures
        ({
            let (x, y, both) = (goo_rle(a), goo_rle(b), goo_rle(a + b));
            &&& both.len() == x.len() + y.len() - 2
            &&& both.subrange(1, both.len() - 1) == x.subrange(1, x.len() - 1) + y.subrange(
                1,
                y.len() - 1,
            )
        }),
{
    lemma_chunks_before(a, b, 0);
    let (x, y, both) = (goo_rle(a), goo_rle(b), goo_rle(a + b));
    assert(x.subrange(1, x.len() - 1) =~= chunks_from(a, 0));
    assert(y.subrange(1, y.len() - 1) =~= chunks_from(b, 0));
    assert(both.subrange(1, both.len() - 1) =~= chunks_from(a + b, 0));
}

} // verus!
