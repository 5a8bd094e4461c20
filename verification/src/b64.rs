//! Base64 text, as the host hands pictures over.

use vstd::arithmetic::div_mod::{lemma_fundamental_div_mod, lemma_fundamental_div_mod_converse};
use vstd::prelude::*;

use base64::Engine;

verus! {

/// The character for six bits.
pub open spec fn symbol(n: nat) -> char {
    if n < 26 {
        (('A' as u32) + n) as char
    } else if n < 52 {
        (('a' as u32) + n - 26) as char
    } else if n < 62 {
        (('0' as u32) + n - 52) as char
    } else if n == 62 {
        '+'
    } else {
        '/'
    }
}

/// Bytes as base64 text: four characters for three bytes, the last four filled up with
/// `=`.
pub open spec fn base64_text(bytes: Seq<u8>) -> Seq<char>
    decreases bytes.len(),
{
    let a = bytes[0] as nat;
    let b = bytes[1] as nat;
    let c = bytes[2] as nat;
    if bytes.len() == 0 {
        seq![]
    } else if bytes.len() == 1 {
        seq![symbol(a / 4), symbol(a % 4 * 16), '=', '=']
    } else if bytes.len() == 2 {
        seq![symbol(a / 4), symbol(a % 4 * 16 + b / 16), symbol(b % 16 * 4), '=']
    } else {
        seq![
            symbol(a / 4),
            symbol(a % 4 * 16 + b / 16),
            symbol(b % 16 * 4 + c / 64),
            symbol(c % 64),
        ] + base64_text(bytes.skip(3))
    }
}

/// The bytes that a base64 text stands for.
pub open spec fn base64_bytes(text: Seq<char>) -> Option<Seq<u8>> {
    if exists|bytes: Seq<u8>| #[trigger] base64_text(bytes) == text {
        Some(choose|bytes: Seq<u8>| #[trigger] base64_text(bytes) == text)
    } else {
        None
    }
}

/// `base64::DecodeError`, opaque: only that there was one counts.
#[verifier::external_type_specification]
#[verifier::external_body]
pub struct ExDecodeError(base64::DecodeError);

/// Calls `decode` of `base64::engine::general_purpose::STANDARD`. It accepts exactly the
/// texts that encoding gives: the standard alphabet, full padding and no stray bits in
/// the last character. It gives the bytes whose encoding the text is.
#[verifier::external_body]
fn standard_decode(text: &str) -> (r: Result<Vec<u8>, base64::DecodeError>)
    ensures
        match r {
            Ok(bytes) => base64_text(bytes@) == text@,
            Err(_) => forall|bytes: Seq<u8>| #[trigger] base64_text(bytes) != text@,
        },
{
    base64::engine::general_purpose::STANDARD.decode(text)
}

/// Different six bits have different characters, none of which is the filler.
proof fn lemma_symbol(m: nat, n: nat)
    requires
        m < 64,
        n < 64,
    ensures
        symbol(m) == symbol(n) ==> m == n,
        symbol(m) != '=',
{
}

/// The parts of a number are its quotient and its remainder.
proof fn lemma_upper(q: nat, r: nat, n: nat, d: nat)
    requires
        r < d,
        n == q * d + r,
    ensures
        n / d == q,
        n % d == r,
{
    lemma_fundamental_div_mod_converse(n as int, d as int, q as int, r as int);
}

/// Numbers with the same quotient and the same remainder are the same.
proof fn lemma_same_number(m: nat, n: nat, d: nat)
    requires
        d > 0,
        m / d == n / d,
        m % d == n % d,
    ensures
        m == n,
{
    lemma_fundamental_div_mod(m as int, d as int);
    lemma_fundamental_div_mod(n as int, d as int);
}

/// A text stands for one sequence of bytes at most.
pub proof fn law_base64_is_unambiguous(x: Seq<u8>, y: Seq<u8>)
    requires
        base64_text(x) == base64_text(y),
    ensures
        x == y,
    decreases x.len(),
{
    let s = base64_text(x);
    let t = base64_text(y);
    if x.len() == 0 || y.len() == 0 {
        assert(s.len() == t.len());
        assert(x =~= y);
    } else {
        let (a, b, c) = (x[0] as nat, x[1] as nat, x[2] as nat);
        let (d, e, f) = (y[0] as nat, y[1] as nat, y[2] as nat);
        assert(s[0] == t[0] && s[1] == t[1] && s[2] == t[2] && s[3] == t[3]);
        lemma_symbol(a / 4, d / 4);
        let a1 = if x.len() == 1 {
            a % 4 * 16
        } else {
            a % 4 * 16 + b / 16
        };
        let d1 = if y.len() == 1 {
            d % 4 * 16
        } else {
            d % 4 * 16 + e / 16
        };
        let a2 = if x.len() == 2 {
            b % 16 * 4
        } else {
            b % 16 * 4 + c / 64
        };
        let d2 = if y.len() == 2 {
            e % 16 * 4
        } else {
            e % 16 * 4 + f / 64
        };
        assert(s[1] == symbol(a1) && t[1] == symbol(d1));
        lemma_symbol(a1, d1);
        lemma_symbol(a2, d2);
        lemma_symbol(d2, a2);
        lemma_symbol(c % 64, f % 64);
        lemma_symbol(f % 64, c % 64);
        assert(x.len() == 1 ==> s[2] == '=' && s[3] == '=');
        assert(y.len() == 1 ==> t[2] == '=' && t[3] == '=');
        assert(x.len() == 2 ==> s[2] == symbol(a2) && s[3] == '=');
        assert(y.len() == 2 ==> t[2] == symbol(d2) && t[3] == '=');
        assert(x.len() >= 3 ==> s[2] == symbol(a2) && s[3] == symbol(c % 64));
        assert(y.len() >= 3 ==> t[2] == symbol(d2) && t[3] == symbol(f % 64));
        assert(a / 4 == d / 4 && a1 == d1);
        assert(a % 4 == d % 4) by {
            lemma_upper(a % 4, if x.len() == 1 { 0 } else { b / 16 }, a1, 16);
            lemma_upper(d % 4, if y.len() == 1 { 0 } else { e / 16 }, d1, 16);
        }
        lemma_same_number(a, d, 4);
        if x.len() == 1 {
            assert(y.len() == 1);
            assert(x =~= y);
        } else if x.len() == 2 {
            assert(y.len() == 2);
            assert(b / 16 == e / 16 && a2 == d2 && b % 16 == e % 16);
            lemma_same_number(b, e, 16);
            assert(x =~= y);
        } else {
            assert(y.len() >= 3);
            assert(b / 16 == e / 16 && a2 == d2);
            assert(b % 16 == e % 16 && c / 64 == f / 64) by {
                lemma_upper(b % 16, c / 64, a2, 4);
                lemma_upper(e % 16, f / 64, d2, 4);
            }
            assert(c % 64 == f % 64);
            lemma_same_number(b, e, 16);
            lemma_same_number(c, f, 64);
            assert(base64_text(x.skip(3)) =~= s.skip(4));
            assert(base64_text(y.skip(3)) =~= t.skip(4));
            law_base64_is_unambiguous(x.skip(3), y.skip(3));
            assert(x =~= x.take(3) + x.skip(3));
            assert(y =~= y.take(3) + y.skip(3));
            assert(x.take(3) =~= y.take(3));
        }
    }
}

/// The bytes that a base64 text stands for.
pub fn decode_base64(text: &str) -> (r: Option<Vec<u8>>)
    ensures
        match r {
            Some(bytes) => base64_bytes(text@) == Some(bytes@),
            None => base64_bytes(text@) is None,
        },
{
    match standard_decode(text) {
        Ok(bytes) => {
            proof {
                let other = choose|b: Seq<u8>| #[trigger] base64_text(b) == text@;
                law_base64_is_unambiguous(bytes@, other);
            }
            Some(bytes)
        },
        Err(_) => None,
    }
}

/// The text of bytes stands for these bytes, and a text that stands for bytes is their text.
pub proof fn law_base64_reads_back(bytes: Seq<u8>, text: Seq<char>)
    ensures
        base64_bytes(base64_text(bytes)) == Some(bytes),
        base64_bytes(text) is Some ==> base64_text(base64_bytes(text)->0) == text,
{
    let found = choose|b: Seq<u8>| #[trigger] base64_text(b) == base64_text(bytes);
    law_base64_is_unambiguous(bytes, found);
}

} // verus!
