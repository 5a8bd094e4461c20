//! Text: numbers in decimal and hexadecimal, and the comparison of settings names.

use vstd::prelude::*;

verus! {

/// The digit for `n`, below 16.
pub open spec fn digit(n: nat) -> char {
    if n < 10 {
        (('0' as u32) + n) as char
    } else {
        (('a' as u32) + n - 10) as char
    }
}

/// `n` in decimal.
pub open spec fn decimal(n: nat) -> Seq<char>
    decreases n,
{
    if n < 10 {
        seq![digit(n)]
    } else {
        decimal(n / 10).push(digit(n % 10))
    }
}

/// `n` in decimal, with zeros in front up to `width` characters.
pub open spec fn padded_decimal(n: nat, width: nat) -> Seq<char> {
    let digits = decimal(n);
    if digits.len() < width {
        Seq::new((width - digits.len()) as nat, |i: int| '0') + digits
    } else {
        digits
    }
}

/// A byte as two hexadecimal digits.
pub open spec fn hex_byte(b: u8) -> Seq<char> {
    seq![digit((b / 16) as nat), digit((b % 16) as nat)]
}

/// Bytes as hexadecimal digits.
pub open spec fn hex_bytes(bytes: Seq<u8>) -> Seq<char>
    decreases bytes.len(),
{
    if bytes.len() == 0 {
        seq![]
    } else {
        hex_bytes(bytes.drop_last()) + hex_byte(bytes.last())
    }
}

/// Hexadecimal digits are plain characters, two for each byte.
pub proof fn lemma_hex_bytes(bytes: Seq<u8>)
    ensures
        hex_bytes(bytes).len() == 2 * bytes.len(),
        vstd::utf8::is_ascii_chars(hex_bytes(bytes)),
    decreases bytes.len(),
{
    if bytes.len() > 0 {
        lemma_hex_bytes(bytes.drop_last());
    }
}

/// The digit for `n`.
fn digit_text(n: u8) -> (r: &'static str)
    requires
        n < 16,
    ensures
        r@ == seq![digit(n as nat)],
{
    let r: &'static str = match n {
        0 => "0",
        1 => "1",
        2 => "2",
        3 => "3",
        4 => "4",
        5 => "5",
        6 => "6",
        7 => "7",
        8 => "8",
        9 => "9",
        10 => "a",
        11 => "b",
        12 => "c",
        13 => "d",
        14 => "e",
        _ => "f",
    };
    proof {
        reveal_strlit("0");
        reveal_strlit("1");
        reveal_strlit("2");
        reveal_strlit("3");
        reveal_strlit("4");
        reveal_strlit("5");
        reveal_strlit("6");
        reveal_strlit("7");
        reveal_strlit("8");
        reveal_strlit("9");
        reveal_strlit("a");
        reveal_strlit("b");
        reveal_strlit("c");
        reveal_strlit("d");
        reveal_strlit("e");
        reveal_strlit("f");
        assert(r@ =~= seq![digit(n as nat)]);
    }
    r
}

/// Appends `n` in decimal.
pub fn push_decimal(out: &mut String, n: u64)
    ensures
        final(out)@ == old(out)@ + decimal(n as nat),
    decreases n,
{
    if n < 10 {
        out.append(digit_text(n as u8));
    } else {
        push_decimal(out, n / 10);
        out.append(digit_text((n % 10) as u8));
        assert(out@ =~= old(out)@ + decimal(n as nat));
    }
}

/// How many characters `n` takes in decimal.
fn decimal_len(n: u64) -> (r: usize)
    ensures
        r == decimal(n as nat).len(),
        1 <= r <= 20,
{
    let mut r: usize = 1;
    let mut rest: u64 = n;
    proof {
        lemma_decimal_len(n as nat, 20);
    }
    while rest >= 10
        invariant
            r >= 1,
            r - 1 + decimal(rest as nat).len() == decimal(n as nat).len(),
            decimal(n as nat).len() <= 20,
        decreases rest,
    {
        r = r + 1;
        rest = rest / 10;
    }
    r
}

spec fn ten_to(k: nat) -> nat
    decreases k,
{
    if k == 0 {
        1
    } else {
        10 * ten_to((k - 1) as nat)
    }
}

proof fn lemma_decimal_len(n: nat, k: nat)
    requires
        k >= 1,
        n < ten_to(k) || (k == 20 && n <= u64::MAX),
    ensures
        decimal(n).len() <= k,
    decreases k,
{
    reveal_with_fuel(ten_to, 21);
    if n >= 10 {
        lemma_decimal_len(n / 10, (k - 1) as nat);
    }
}

/// Appends `n` in decimal, with zeros in front up to `width` characters.
pub fn push_padded_decimal(out: &mut String, n: u64, width: usize)
    ensures
        final(out)@ == old(out)@ + padded_decimal(n as nat, width as nat),
{
    let len: usize = decimal_len(n);
    let mut have: usize = len;
    let ghost start = out@;
    assert(out@ =~= start + Seq::new(0, |i: int| '0'));
    while have < width
        invariant
            len <= have,
            have <= width || have == len,
            out@ == start + Seq::new((have - len) as nat, |i: int| '0'),
        decreases width - have,
    {
        proof {
            reveal_strlit("0");
        }
        out.append("0");
        have = have + 1;
        assert(out@ =~= start + Seq::new((have - len) as nat, |i: int| '0'));
    }
    push_decimal(out, n);
    assert(out@ =~= start + padded_decimal(n as nat, width as nat));
}

/// Appends a byte as two hexadecimal digits.
pub fn push_hex_byte(out: &mut String, b: u8)
    ensures
        final(out)@ == old(out)@ + hex_byte(b),
{
    out.append(digit_text(b / 16));
    out.append(digit_text(b % 16));
    assert(out@ =~= old(out)@ + hex_byte(b));
}

/// Bytes as hexadecimal digits.
pub fn hex_text(bytes: &[u8]) -> (r: String)
    ensures
        r@ == hex_bytes(bytes@),
{
    let mut r: String = String::new();
    let mut i: usize = 0;
    assert(bytes@.take(0) =~= seq![]);
    while i < bytes.len()
        invariant
            i <= bytes@.len(),
            r@ == hex_bytes(bytes@.take(i as int)),
        decreases bytes@.len() - i,
    {
        push_hex_byte(&mut r, bytes[i]);
        i = i + 1;
        assert(bytes@.take(i as int).drop_last() =~= bytes@.take(i - 1));
    }
    assert(bytes@.take(i as int) =~= bytes@);
    r
}

/// A character with the Unicode property White_Space.
pub open spec fn is_white_space(c: char) -> bool {
    let x = c as u32;
    ||| 0x09 <= x <= 0x0D
    ||| x == 0x20
    ||| x == 0x85
    ||| x == 0xA0
    ||| x == 0x1680
    ||| 0x2000 <= x <= 0x200A
    ||| x == 0x2028
    ||| x == 0x2029
    ||| x == 0x202F
    ||| x == 0x205F
    ||| x == 0x3000
}

fn white_space(c: char) -> (r: bool)
    ensures
        r == is_white_space(c),
{
    let x: u32 = c as u32;
    (0x09 <= x && x <= 0x0D) || x == 0x20 || x == 0x85 || x == 0xA0 || x == 0x1680 || (0x2000 <= x
        && x <= 0x200A) || x == 0x2028 || x == 0x2029 || x == 0x202F || x == 0x205F || x == 0x3000
}

/// `s` without white space at its end.
pub open spec fn trimmed_end(s: Seq<char>) -> Seq<char>
    decreases s.len(),
{
    if s.len() > 0 && is_white_space(s.last()) {
        trimmed_end(s.drop_last())
    } else {
        s
    }
}

/// `s` without white space at its start.
pub open spec fn trimmed_start(s: Seq<char>) -> Seq<char>
    decreases s.len(),
{
    if s.len() > 0 && is_white_space(s[0]) {
        trimmed_start(s.drop_first())
    } else {
        s
    }
}

/// The lower-case form of an ASCII letter; other characters as they are.
pub open spec fn ascii_lower(c: char) -> char {
    if 'A' <= c <= 'Z' {
        (c as u32 + 32) as char
    } else {
        c
    }
}

/// `s` without white space around it, its ASCII letters in lower case.
pub open spec fn normalized(s: Seq<char>) -> Seq<char> {
    let t = trimmed_end(trimmed_start(s));
    Seq::new(t.len(), |i: int| ascii_lower(t[i]))
}

/// `s`, once its white space and letter case are set aside, is `name`.
pub fn is_named(s: &str, name: &str) -> (r: bool)
    ensures
        r == (normalized(s@) == name@),
{
    let len: usize = s.unicode_len();
    let mut start: usize = 0;
    assert(s@.skip(0) =~= s@);
    while start < len && white_space(s.get_char(start))
        invariant
            start <= len,
            len == s@.len(),
            trimmed_start(s@.skip(start as int)) == trimmed_start(s@),
        decreases len - start,
    {
        assert(s@.skip(start as int).drop_first() =~= s@.skip(start + 1));
        start = start + 1;
    }
    let ghost t = s@.skip(start as int);
    assert(t == trimmed_start(s@));
    let mut end: usize = len;
    assert(s@.subrange(start as int, len as int) =~= t);
    while start < end && white_space(s.get_char(end - 1))
        invariant
            start <= end <= len,
            len == s@.len(),
            trimmed_end(s@.subrange(start as int, end as int)) == trimmed_end(t),
        decreases end,
    {
        assert(s@.subrange(start as int, end as int).drop_last() =~= s@.subrange(
            start as int,
            end - 1,
        ));
        end = end - 1;
    }
    let ghost u = s@.subrange(start as int, end as int);
    assert(u == trimmed_end(t));
    assert(normalized(s@) =~= Seq::new(u.len(), |i: int| ascii_lower(u[i])));
    if name.unicode_len() != end - start {
        return false;
    }
    let mut i: usize = 0;
    while i < end - start
        invariant
            start <= end <= len,
            len == s@.len(),
            name@.len() == end - start,
            i <= end - start,
            u == s@.subrange(start as int, end as int),
            normalized(s@) == Seq::new(u.len(), |i: int| ascii_lower(u[i])),
            forall|k: int| 0 <= k < i ==> normalized(s@)[k] == name@[k],
        decreases end - start - i,
    {
        if lower(s.get_char(start + i)) != name.get_char(i) {
            assert(normalized(s@)[i as int] != name@[i as int]);
            return false;
        }
        i = i + 1;
    }
    assert(normalized(s@) =~= name@);
    true
}

fn lower(c: char) -> (r: char)
    ensures
        r == ascii_lower(c),
{
    if 'A' <= c && c <= 'Z' {
        (c as u8 + 32) as char
    } else {
        c
    }
}

/// What trimming at the end leaves.
proof fn lemma_trimmed_end(s: Seq<char>)
    ensures
        trimmed_end(s).len() <= s.len(),
        trimmed_end(s) == s.take(trimmed_end(s).len() as int),
        forall|k: int| trimmed_end(s).len() <= k < s.len() ==> is_white_space(#[trigger] s[k]),
        trimmed_end(s).len() > 0 ==> !is_white_space(trimmed_end(s).last()),
    decreases s.len(),
{
    if s.len() > 0 && is_white_space(s.last()) {
        lemma_trimmed_end(s.drop_last());
        let n = trimmed_end(s).len() as int;
        assert(s.drop_last().take(n) =~= s.take(n));
        assert forall|k: int| n <= k < s.len() implies is_white_space(#[trigger] s[k]) by {
            if k < s.len() - 1 {
                assert(s.drop_last()[k] == s[k]);
            }
        }
    } else {
        assert(s.take(s.len() as int) =~= s);
    }
}

/// What trimming at the start leaves.
proof fn lemma_trimmed_start(s: Seq<char>)
    ensures
        trimmed_start(s).len() <= s.len(),
        trimmed_start(s) == s.skip(s.len() - trimmed_start(s).len()),
        forall|k: int|
            0 <= k < s.len() - trimmed_start(s).len() ==> is_white_space(#[trigger] s[k]),
        trimmed_start(s).len() > 0 ==> !is_white_space(trimmed_start(s)[0]),
    decreases s.len(),
{
    if s.len() > 0 && is_white_space(s[0]) {
        let rest = s.drop_first();
        lemma_trimmed_start(rest);
        let n = trimmed_start(s).len() as int;
        assert(rest.skip(rest.len() - n) =~= s.skip(s.len() - n));
        assert forall|k: int| 0 <= k < s.len() - n implies is_white_space(#[trigger] s[k]) by {
            if k > 0 {
                assert(rest[k - 1] == s[k]);
            }
        }
    } else {
        assert(s.skip(0) =~= s);
    }
}

/// A text names a word of small letters exactly where it is that word but for white space
/// around it and capital letters.
pub proof fn law_names_match_but_for_space_and_case(text: Seq<char>, word: Seq<char>)
    requires
        word.len() > 0,
        forall|k: int| 0 <= k < word.len() ==> 'a' <= #[trigger] word[k] <= 'z',
    ensures
        (normalized(text) == word) == crate::settings::spells(text, word),
{
    let start = trimmed_start(text);
    let t = trimmed_end(start);
    let from = text.len() - start.len();
    lemma_trimmed_start(text);
    lemma_trimmed_end(start);
    if normalized(text) == word {
        assert forall|k: int| from + word.len() <= k < text.len() implies is_white_space(
            #[trigger] text[k],
        ) by {
            assert(start[k - from] == text[k]);
        }
        assert forall|k: int| 0 <= k < word.len() implies #[trigger] crate::settings::is_letter(
            text[from + k],
            word[k],
        ) by {
            assert(normalized(text)[k] == ascii_lower(t[k]));
            assert(t[k] == start[k] && start[k] == text[from + k]);
        }
        assert(crate::settings::spells_at(text, word, from));
    }
    if crate::settings::spells(text, word) {
        let at = choose|at: int| crate::settings::spells_at(text, word, at);
        assert(crate::settings::is_letter(text[at + 0], word[0]));
        assert(crate::settings::is_letter(text[at + (word.len() - 1)], word[word.len() - 1]));
        let end = at + word.len();
        assert(!is_white_space(text[at]) && !is_white_space(text[end - 1]));
        assert(from == at) by {
            if from > at {
                assert(is_white_space(text[at]));
            }
            if from < at {
                assert(start[0] == text[from] || start.len() == 0);
            }
        }
        assert(start.len() == text.len() - at);
        assert(t.len() == word.len()) by {
            if t.len() < word.len() {
                assert(start[word.len() - 1] == text[end - 1]);
            }
            if t.len() > word.len() {
                assert(t.last() == start[t.len() - 1]);
                assert(start[t.len() - 1] == text[at + t.len() - 1]);
            }
        }
        assert forall|k: int| 0 <= k < word.len() implies normalized(text)[k] == word[k] by {
            assert(crate::settings::is_letter(text[at + k], word[k]));
            assert(t[k] == start[k] && start[k] == text[at + k]);
            assert('a' <= word[k] <= 'z');
        }
        assert(normalized(text) =~= word);
    }
}

/// The value of a digit, in lower case; -1 for other characters.
pub open spec fn value_of(c: char) -> int {
    if '0' <= c <= '9' {
        c as int - '0' as int
    } else if 'a' <= c <= 'f' {
        c as int - 'a' as int + 10
    } else {
        -1
    }
}

/// The number that digits write out to a base.
pub open spec fn numeral(s: Seq<char>, base: int) -> int
    decreases s.len(),
{
    if s.len() == 0 {
        0
    } else {
        numeral(s.drop_last(), base) * base + value_of(s.last())
    }
}

/// A number in decimal reads as the number: it has decimal digits only, and does not start
/// with a zero unless it is zero.
pub proof fn law_decimal_reads_back(n: nat)
    ensures
        decimal(n).len() > 0,
        numeral(decimal(n), 10) == n,
        forall|i: int| 0 <= i < decimal(n).len() ==> '0' <= #[trigger] decimal(n)[i] <= '9',
        n > 0 ==> decimal(n)[0] != '0',
        n == 0 ==> decimal(n).len() == 1,
    decreases n,
{
    if n < 10 {
        assert(decimal(n).drop_last() =~= seq![]);
        assert(numeral(decimal(n).drop_last(), 10) == 0);
    } else {
        law_decimal_reads_back(n / 10);
        assert(decimal(n).drop_last() =~= decimal(n / 10));
        assert(decimal(n).last() == digit(n % 10));
    }
}

/// Zeros in front count for nothing.
proof fn lemma_zeros_in_front(k: nat, s: Seq<char>)
    ensures
        numeral(Seq::new(k, |i: int| '0') + s, 10) == numeral(s, 10),
    decreases k + s.len(),
{
    let all = Seq::new(k, |i: int| '0') + s;
    if s.len() > 0 {
        lemma_zeros_in_front(k, s.drop_last());
        assert(all.drop_last() =~= Seq::new(k, |i: int| '0') + s.drop_last());
    } else if k > 0 {
        let shorter = Seq::new((k - 1) as nat, |i: int| '0');
        lemma_zeros_in_front((k - 1) as nat, s);
        assert(all.drop_last() =~= shorter + s);
    } else {
        assert(all =~= s);
    }
}

/// Filled up to a width, a number still reads as itself. It takes as many characters as the
/// width says, or as many as it needs where that is more.
pub proof fn law_padded_decimal_reads_back(n: nat, width: nat)
    ensures
        numeral(padded_decimal(n, width), 10) == n,
        padded_decimal(n, width).len() == if decimal(n).len() < width {
            width
        } else {
            decimal(n).len()
        },
{
    law_decimal_reads_back(n);
    if decimal(n).len() < width {
        lemma_zeros_in_front((width - decimal(n).len()) as nat, decimal(n));
    }
}

/// Each byte reads back from its two hexadecimal digits, the high one first.
pub proof fn law_hex_reads_back(bytes: Seq<u8>, i: int)
    requires
        0 <= i < bytes.len(),
    ensures
        hex_bytes(bytes).len() == 2 * bytes.len(),
        ({
            let text = hex_bytes(bytes);
            let (high, low) = (value_of(text[2 * i]), value_of(text[2 * i + 1]));
            0 <= high < 16 && 0 <= low < 16 && bytes[i] == 16 * high + low
        }),
    decreases bytes.len(),
{
    lemma_hex_bytes(bytes);
    lemma_hex_bytes(bytes.drop_last());
    if i < bytes.len() - 1 {
        law_hex_reads_back(bytes.drop_last(), i);
    }
}

/// White space is what Unicode counts as such: 25 characters.
pub proof fn law_white_space_is_that_of_unicode(c: char)
    ensures
        is_white_space(c) <==> seq![
            0x09u32, 0x0A, 0x0B, 0x0C, 0x0D, 0x20, 0x85, 0xA0, 0x1680, 0x2000, 0x2001, 0x2002, 0x2003,
            0x2004, 0x2005, 0x2006, 0x2007, 0x2008, 0x2009, 0x200A, 0x2028, 0x2029, 0x202F, 0x205F,
            0x3000,
        ].contains(c as u32),
{
    let all = seq![
        0x09u32, 0x0A, 0x0B, 0x0C, 0x0D, 0x20, 0x85, 0xA0, 0x1680, 0x2000, 0x2001, 0x2002, 0x2003,
        0x2004, 0x2005, 0x2006, 0x2007, 0x2008, 0x2009, 0x200A, 0x2028, 0x2029, 0x202F, 0x205F,
        0x3000,
    ];
    let x = c as u32;
    if 0x09 <= x <= 0x0D {
        assert(all[x - 0x09] == x);
    } else if 0x2000 <= x <= 0x200A {
        assert(all[x - 0x2000 + 9] == x);
    } else if is_white_space(c) {
        assert(all[5] == 0x20 && all[6] == 0x85 && all[7] == 0xA0 && all[8] == 0x1680);
        assert(all[20] == 0x2028 && all[21] == 0x2029 && all[22] == 0x202F && all[23] == 0x205F);
        assert(all[24] == 0x3000);
    }
    if all.contains(x) {
        let i = choose|i: int| 0 <= i < all.len() && all[i] == x;
        assert(all.len() == 25);
    }
}

} // verus!
