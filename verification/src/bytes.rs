//! Integers as bytes, and the fields that a container is written in.

use vstd::prelude::*;

use crate::single::Single;
use crate::types::GOO_CRLF;

verus! {

/// The low 16 bits of `x`.
pub fn low_u16(x: u64) -> (r: u16)
    ensures
        r == x % 0x1_0000,
{
    (x % 0x1_0000) as u16
}

/// The low 32 bits of `x`.
pub fn low_u32(x: u64) -> (r: u32)
    ensures
        r == x % 0x1_0000_0000,
{
    (x % 0x1_0000_0000) as u32
}

/// `n` zero bytes.
pub open spec fn zeros(n: nat) -> Seq<u8> {
    Seq::new(n, |i: int| 0u8)
}

/// The bytes of `v`, most significant first.
pub open spec fn be16(v: u16) -> Seq<u8> {
    seq![(v / 0x100) as u8, (v % 0x100) as u8]
}

/// The bytes of `v`, least significant first.
pub open spec fn le16(v: u16) -> Seq<u8> {
    seq![(v % 0x100) as u8, (v / 0x100) as u8]
}

/// The bytes of `v`, most significant first.
pub open spec fn be32(v: u32) -> Seq<u8> {
    seq![
        (v / 0x100_0000) as u8,
        (v / 0x1_0000 % 0x100) as u8,
        (v / 0x100 % 0x100) as u8,
        (v % 0x100) as u8,
    ]
}

/// The bytes of `v`, least significant first.
pub open spec fn le32(v: u32) -> Seq<u8> {
    seq![
        (v % 0x100) as u8,
        (v / 0x100 % 0x100) as u8,
        (v / 0x1_0000 % 0x100) as u8,
        (v / 0x100_0000) as u8,
    ]
}

/// A text field of `len` bytes: the text, cut so that a zero byte ends it, and zeros.
pub open spec fn fixed_text(text: Seq<u8>, len: nat) -> Seq<u8> {
    let kept = if len == 0 {
        0
    } else if text.len() < len {
        text.len()
    } else {
        (len - 1) as nat
    };
    text.take(kept as int) + zeros((len - kept) as nat)
}

/// The two bytes at `at`, most significant first.
pub open spec fn u16_at(bytes: Seq<u8>, at: int) -> u16 {
    (bytes[at] * 0x100 + bytes[at + 1]) as u16
}

/// The four bytes at `at`, most significant first.
pub open spec fn u32_at(bytes: Seq<u8>, at: int) -> u32 {
    (bytes[at] * 0x100_0000 + bytes[at + 1] * 0x1_0000 + bytes[at + 2] * 0x100 + bytes[at
        + 3]) as u32
}

/// Reading what was written gives the number back.
pub proof fn law_u16_reads_back(before: Seq<u8>, v: u16, after: Seq<u8>)
    ensures
        u16_at(before + be16(v) + after, before.len() as int) == v,
{
    let b = before + be16(v) + after;
    let at = before.len() as int;
    assert(b[at] == be16(v)[0] && b[at + 1] == be16(v)[1]);
}

/// Reading what was written gives the number back.
pub proof fn law_u32_reads_back(before: Seq<u8>, v: u32, after: Seq<u8>)
    ensures
        u32_at(before + be32(v) + after, before.len() as int) == v,
{
    let b = before + be32(v) + after;
    let at = before.len() as int;
    assert(b[at] == be32(v)[0] && b[at + 1] == be32(v)[1] && b[at + 2] == be32(v)[2] && b[at + 3]
        == be32(v)[3]);
    let x = v as int;
    assert(x == x / 0x100 * 0x100 + x % 0x100);
    assert(x / 0x100 == x / 0x1_0000 * 0x100 + x / 0x100 % 0x100);
    assert(x / 0x1_0000 == x / 0x100_0000 * 0x100 + x / 0x1_0000 % 0x100);
}

/// The two bytes at `at`, most significant first.
pub fn read_u16_be(bytes: &[u8], at: usize) -> (r: u16)
    requires
        at + 2 <= bytes@.len(),
    ensures
        r == u16_at(bytes@, at as int),
{
    bytes[at] as u16 * 0x100 + bytes[at + 1] as u16
}

/// The four bytes at `at`, most significant first.
pub fn read_u32_be(bytes: &[u8], at: usize) -> (r: u32)
    requires
        at + 4 <= bytes@.len(),
    ensures
        r == u32_at(bytes@, at as int),
{
    bytes[at] as u32 * 0x100_0000 + bytes[at + 1] as u32 * 0x1_0000 + bytes[at + 2] as u32 * 0x100
        + bytes[at + 3] as u32
}

/// Appends `bytes`.
pub fn push_bytes(out: &mut Vec<u8>, bytes: &[u8])
    ensures
        final(out)@ == old(out)@ + bytes@,
{
    out.extend_from_slice(bytes);
    assert(out@ =~= old(out)@ + bytes@);
}

/// Appends `n` zero bytes.
pub fn push_zeros(out: &mut Vec<u8>, n: usize)
    ensures
        final(out)@ == old(out)@ + zeros(n as nat),
{
    let mut k: usize = 0;
    assert(out@ =~= old(out)@ + zeros(0));
    while k < n
        invariant
            k <= n,
            out@ == old(out)@ + zeros(k as nat),
        decreases n - k,
    {
        out.push(0);
        k = k + 1;
        assert(out@ =~= old(out)@ + zeros(k as nat));
    }
}

/// Appends one byte.
pub fn push_u8(out: &mut Vec<u8>, val: u8)
    ensures
        final(out)@ == old(out)@ + seq![val],
{
    out.push(val);
    assert(out@ =~= old(out)@ + seq![val]);
}

/// Appends `val`, most significant byte first.
pub fn push_u16_be(out: &mut Vec<u8>, val: u16)
    ensures
        final(out)@ == old(out)@ + be16(val),
{
    out.push((val / 0x100) as u8);
    out.push((val % 0x100) as u8);
    assert(out@ =~= old(out)@ + be16(val));
}

/// Appends `val`, least significant byte first.
pub fn push_u16_le(out: &mut Vec<u8>, val: u16)
    ensures
        final(out)@ == old(out)@ + le16(val),
{
    out.push((val % 0x100) as u8);
    out.push((val / 0x100) as u8);
    assert(out@ =~= old(out)@ + le16(val));
}

/// Appends `val`, most significant byte first.
pub fn push_u32_be(out: &mut Vec<u8>, val: u32)
    ensures
        final(out)@ == old(out)@ + be32(val),
{
    out.push((val / 0x100_0000) as u8);
    out.push((val / 0x1_0000 % 0x100) as u8);
    out.push((val / 0x100 % 0x100) as u8);
    out.push((val % 0x100) as u8);
    assert(out@ =~= old(out)@ + be32(val));
}

/// Appends `val`, least significant byte first.
pub fn push_u32_le(out: &mut Vec<u8>, val: u32)
    ensures
        final(out)@ == old(out)@ + le32(val),
{
    out.push((val % 0x100) as u8);
    out.push((val / 0x100 % 0x100) as u8);
    out.push((val / 0x1_0000 % 0x100) as u8);
    out.push((val / 0x100_0000) as u8);
    assert(out@ =~= old(out)@ + le32(val));
}

/// Appends the pattern of `val`, most significant byte first.
pub fn push_f32_be(out: &mut Vec<u8>, val: Single)
    ensures
        final(out)@ == old(out)@ + be32(val.bits),
{
    push_u32_be(out, val.bits);
}

/// Appends the pattern of `val`, least significant byte first.
pub fn push_f32_le(out: &mut Vec<u8>, val: Single)
    ensures
        final(out)@ == old(out)@ + le32(val.bits),
{
    push_u32_le(out, val.bits);
}

/// Appends a text field of `len` bytes.
pub fn push_str_fixed(out: &mut Vec<u8>, s: &str, len: usize)
    ensures
        final(out)@ == old(out)@ + fixed_text(vstd::utf8::encode_utf8(s@), len as nat),
{
    let bytes: &[u8] = s.as_bytes();
    let copy_len: usize = if len == 0 {
        0
    } else if bytes.len() < len {
        bytes.len()
    } else {
        len - 1
    };
    push_bytes(out, vstd::slice::slice_subrange(bytes, 0, copy_len));
    push_zeros(out, len - copy_len);
    assert(out@ =~= old(out)@ + fixed_text(vstd::utf8::encode_utf8(s@), len as nat));
}

/// Appends a carriage return and a line feed.
pub fn push_crlf(out: &mut Vec<u8>)
    ensures
        final(out)@ == old(out)@ + GOO_CRLF@,
{
    out.push(GOO_CRLF[0]);
    out.push(GOO_CRLF[1]);
    assert(out@ =~= old(out)@ + GOO_CRLF@);
}

/// A text field is exactly as long as asked for, and a zero byte ends the text in it.
pub proof fn law_text_field_length(text: Seq<u8>, len: nat)
    ensures
        fixed_text(text, len).len() == len,
        len > 0 ==> fixed_text(text, len).last() == 0,
{
}

} // verus!
