//! How many workers code layers at a time, and how many masks may wait for them.

use vstd::prelude::*;

use crate::text::numeral;

verus! {

/// The value of a decimal digit.
pub open spec fn digit_value(c: char) -> Option<nat> {
    if '0' <= c <= '9' {
        Some((c as u32 - '0' as u32) as nat)
    } else {
        None
    }
}

/// The number that decimal digits write out.
pub open spec fn digits_value(s: Seq<char>) -> Option<nat>
    decreases s.len(),
{
    if s.len() == 0 {
        Some(0)
    } else {
        match (digits_value(s.drop_last()), digit_value(s.last())) {
            (Some(high), Some(low)) => Some(10 * high + low),
            _ => None,
        }
    }
}

/// A text without the plus sign that it may start with.
pub open spec fn unsigned_part(s: Seq<char>) -> Seq<char> {
    if s.len() > 0 && s[0] == '+' {
        s.skip(1)
    } else {
        s
    }
}

/// The number that a text stands for: digits, with a plus sign in front or not. There is none
/// for other texts, or beyond `usize`.
pub open spec fn number_of(s: Seq<char>) -> Option<nat> {
    let t = unsigned_part(s);
    match digits_value(t) {
        Some(v) if t.len() > 0 && v <= usize::MAX => Some(v),
        _ => None,
    }
}

/// The number of an optional text.
pub open spec fn setting_number(setting: Option<Seq<char>>) -> Option<nat> {
    match setting {
        Some(s) => number_of(s),
        None => None,
    }
}

/// What is beyond `usize` already stays so with more digits.
proof fn lemma_digits_grow(s: Seq<char>, i: int)
    requires
        0 <= i <= s.len(),
    ensures
        digits_value(s.take(i)) is None ==> digits_value(s) is None,
        digits_value(s.take(i)) is Some && digits_value(s) is Some ==> digits_value(s.take(i))->0
            <= digits_value(s)->0,
    decreases s.len(),
{
    if i == s.len() {
        assert(s.take(i) =~= s);
    } else {
        lemma_digits_grow(s.drop_last(), i);
        assert(s.drop_last().take(i) =~= s.take(i));
    }
}

/// The number that a text stands for.
pub fn parse_usize(s: &str) -> (r: Option<usize>)
    ensures
        match r {
            Some(v) => number_of(s@) == Some(v as nat),
            None => number_of(s@) is None,
        },
{
    let len: usize = s.unicode_len();
    let start: usize = if len > 0 && s.get_char(0) == '+' {
        1
    } else {
        0
    };
    let ghost t = unsigned_part(s@);
    if start == len {
        return None;
    }
    let mut value: usize = 0;
    let mut i: usize = start;
    assert(t.take(0) =~= seq![]);
    while i < len
        invariant
            start <= i <= len,
            len == s@.len(),
            start <= 1,
            t == s@.skip(start as int),
            t == unsigned_part(s@),
            t.len() > 0,
            digits_value(t.take(i - start)) == Some(value as nat),
        decreases len - i,
    {
        let c: char = s.get_char(i);
        let ghost k = i - start;
        assert(t.take(k + 1).drop_last() =~= t.take(k));
        assert(t.take(k + 1).last() == c);
        proof {
            lemma_digits_grow(t, k + 1);
        }
        if c < '0' || c > '9' {
            return None;
        }
        let low: usize = (c as u32 - '0' as u32) as usize;
        if value > (usize::MAX - low) / 10 {
            assert(10 * value + low > usize::MAX);
            return None;
        }
        value = 10 * value + low;
        i = i + 1;
    }
    assert(t.take(t.len() as int) =~= t);
    Some(value)
}

/// The number of an optional text.
fn parse_setting(setting: Option<&str>) -> (r: Option<usize>)
    ensures
        match r {
            Some(v) => setting_number(crate::json::text_view(setting)) == Some(v as nat),
            None => setting_number(crate::json::text_view(setting)) is None,
        },
{
    match setting {
        Some(s) => parse_usize(s),
        None => None,
    }
}

/// The smaller of two numbers.
pub open spec fn lesser(a: nat, b: nat) -> nat {
    if a <= b {
        a
    } else {
        b
    }
}

/// The larger of two numbers.
pub open spec fn greater(a: nat, b: nat) -> nat {
    if a >= b {
        a
    } else {
        b
    }
}

/// How many workers to start on a machine for `hw` of them: as many as the setting says, if it
/// is a number above zero, but not more than the machine is for.
pub open spec fn thread_choice(hw: nat, setting: Option<Seq<char>>) -> nat {
    match setting_number(setting) {
        Some(v) if v >= 1 => lesser(v, hw),
        _ => hw,
    }
}

/// How many workers to start on a machine for `hw` of them.
pub fn choose_goo_encode_threads(hw: usize, setting: Option<&str>) -> (r: usize)
    requires
        hw >= 1,
    ensures
        r == thread_choice(hw as nat, crate::json::text_view(setting)),
        1 <= r <= hw,
{
    match parse_setting(setting) {
        Some(v) => if v >= 1 && v <= hw {
            v
        } else {
            hw
        },
        None => hw,
    }
}

/// The bytes that masks may take, where the setting gives them in megabytes: 64 at least.
pub open spec fn mask_budget(setting: Option<Seq<char>>) -> Option<nat> {
    match setting_number(setting) {
        Some(mb) if mb >= 64 => Some(lesser(mb * 1048576, usize::MAX as nat)),
        _ => None,
    }
}

fn find_budget(setting: Option<&str>) -> (r: Option<usize>)
    ensures
        match r {
            Some(v) => mask_budget(crate::json::text_view(setting)) == Some(v as nat),
            None => mask_budget(crate::json::text_view(setting)) is None,
        },
{
    match parse_setting(setting) {
        Some(mb) => if mb >= 64 {
            if mb > usize::MAX / 1048576 {
                assert(mb * 1048576 > usize::MAX - 1048576);
                assert(usize::MAX % 1048576 == 1048575);
                Some(usize::MAX)
            } else {
                Some(mb * 1048576)
            }
        } else {
            None
        },
        None => None,
    }
}

/// How many masks of `mask_bytes` bytes a budget allows, one at least.
pub open spec fn masks_in(budget: nat, mask_bytes: nat) -> nat {
    greater(budget / greater(mask_bytes, 1), 1)
}

/// How many workers may run: no more than the budget has masks for; without a budget, only a
/// few where the masks are large.
pub open spec fn worker_cap(requested: nat, mask_bytes: nat, budget: Option<nat>) -> nat {
    let wanted = greater(requested, 1);
    match budget {
        Some(bytes) => lesser(wanted, masks_in(bytes, mask_bytes)),
        None => if mask_bytes >= 50331648 {
            lesser(wanted, 2)
        } else if mask_bytes >= 25165824 {
            lesser(wanted, 4)
        } else if mask_bytes >= 12582912 {
            lesser(wanted, 8)
        } else {
            wanted
        },
    }
}

fn allowed_masks(budget: usize, mask_bytes: usize) -> (r: usize)
    ensures
        r == masks_in(budget as nat, mask_bytes as nat),
        r >= 1,
{
    let divisor: usize = if mask_bytes >= 1 {
        mask_bytes
    } else {
        1
    };
    let allowed: usize = budget / divisor;
    if allowed >= 1 {
        allowed
    } else {
        1
    }
}

fn smaller(a: usize, b: usize) -> (r: usize)
    ensures
        r == lesser(a as nat, b as nat),
{
    if a <= b {
        a
    } else {
        b
    }
}

/// How many workers may code masks of `expected_pixels` bytes at a time.
pub fn cap_goo_encode_workers_for_mask_bytes(
    requested: usize,
    expected_pixels: usize,
    budget_setting: Option<&str>,
) -> (r: usize)
    ensures
        r == worker_cap(
            requested as nat,
            expected_pixels as nat,
            mask_budget(crate::json::text_view(budget_setting)),
        ),
        r >= 1,
{
    let wanted: usize = if requested >= 1 {
        requested
    } else {
        1
    };
    match find_budget(budget_setting) {
        Some(budget) => smaller(wanted, allowed_masks(budget, expected_pixels)),
        None => if expected_pixels >= 50331648 {
            smaller(wanted, 2)
        } else if expected_pixels >= 25165824 {
            smaller(wanted, 4)
        } else if expected_pixels >= 12582912 {
            smaller(wanted, 8)
        } else {
            wanted
        },
    }
}

/// How many masks may wait: two for each worker within the budget; without a budget, one to
/// three where the masks are large, else three for each worker, up to 24.
pub open spec fn waiting_cap(workers: nat, mask_bytes: nat, budget: Option<nat>) -> nat {
    match budget {
        Some(bytes) => lesser(
            masks_in(bytes, mask_bytes),
            greater(lesser(2 * workers, usize::MAX as nat), 1),
        ),
        None => if mask_bytes >= 50331648 {
            1
        } else if mask_bytes >= 25165824 {
            2
        } else if mask_bytes >= 12582912 {
            3
        } else {
            lesser(greater(3 * workers, 3), 24)
        },
    }
}

/// How many masks of `expected_pixels` bytes may wait for the workers.
pub fn choose_goo_encode_queue_depth(
    worker_count: usize,
    expected_pixels: usize,
    budget_setting: Option<&str>,
) -> (r: usize)
    ensures
        r == waiting_cap(
            worker_count as nat,
            expected_pixels as nat,
            mask_budget(crate::json::text_view(budget_setting)),
        ),
        r >= 1,
{
    match find_budget(budget_setting) {
        Some(budget) => {
            let doubled: usize = if worker_count > usize::MAX / 2 {
                usize::MAX
            } else {
                2 * worker_count
            };
            let wanted: usize = if doubled >= 1 {
                doubled
            } else {
                1
            };
            smaller(allowed_masks(budget, expected_pixels), wanted)
        },
        None => if expected_pixels >= 50331648 {
            1
        } else if expected_pixels >= 25165824 {
            2
        } else if expected_pixels >= 12582912 {
            3
        } else if worker_count >= 8 {
            24
        } else if worker_count >= 1 {
            3 * worker_count
        } else {
            3
        },
    }
}

/// Within a budget, what the workers hold stays within it, and so does what waits, unless a
/// single mask is more than the budget.
pub proof fn law_budget_is_kept(requested: nat, workers: nat, mask_bytes: nat, budget: nat)
    ensures
        worker_cap(requested, mask_bytes, Some(budget)) * mask_bytes <= budget || worker_cap(
            requested,
            mask_bytes,
            Some(budget),
        ) == 1,
        waiting_cap(workers, mask_bytes, Some(budget)) * mask_bytes <= budget || waiting_cap(
            workers,
            mask_bytes,
            Some(budget),
        ) == 1,
{
    let divisor = greater(mask_bytes, 1);
    let quotient = budget / divisor;
    assert(quotient * divisor <= budget) by (nonlinear_arith)
        requires
            quotient == budget / divisor,
            divisor > 0,
    ;
    let a = worker_cap(requested, mask_bytes, Some(budget));
    let b = waiting_cap(workers, mask_bytes, Some(budget));
    assert(a <= quotient ==> a * mask_bytes <= quotient * divisor) by (nonlinear_arith)
        requires
            mask_bytes <= divisor,
            0 <= a,
            0 <= mask_bytes,
    ;
    assert(b <= quotient ==> b * mask_bytes <= quotient * divisor) by (nonlinear_arith)
        requires
            mask_bytes <= divisor,
            0 <= b,
            0 <= mask_bytes,
    ;
}

/// There is always a worker and a place to wait, and never more workers than were asked for.
pub proof fn law_plan_is_usable(requested: nat, workers: nat, mask_bytes: nat, budget: Option<nat>)
    ensures
        1 <= worker_cap(requested, mask_bytes, budget) <= greater(requested, 1),
        1 <= waiting_cap(workers, mask_bytes, budget),
        budget is None ==> waiting_cap(workers, mask_bytes, budget) <= 24,
{
}

/// Decimal digits are read as the number that they write out.
proof fn lemma_digits_value(s: Seq<char>)
    requires
        forall|i: int| 0 <= i < s.len() ==> '0' <= #[trigger] s[i] <= '9',
    ensures
        digits_value(s) is Some,
        digits_value(s)->0 == numeral(s, 10),
    decreases s.len(),
{
    if s.len() > 0 {
        lemma_digits_value(s.drop_last());
    }
}

/// A number in decimal is read as the number, with a plus sign in front or not, with zeros in
/// front or not. A number beyond `usize` is not read.
pub proof fn law_numbers_are_read(n: nat, s: Seq<char>)
    requires
        s.len() > 0,
        forall|i: int| 0 <= i < s.len() ==> '0' <= #[trigger] s[i] <= '9',
        numeral(s, 10) == n,
    ensures
        n <= usize::MAX ==> number_of(s) == Some(n) && number_of(seq!['+'] + s) == Some(n),
        n > usize::MAX ==> number_of(s) is None && number_of(seq!['+'] + s) is None,
{
    lemma_digits_value(s);
    assert(s[0] != '+');
    assert((seq!['+'] + s).skip(1) =~= s);
}

/// A text with something else than digits behind its first character is no number, nor is an
/// empty text or a sign alone.
pub proof fn law_other_texts_are_no_numbers(s: Seq<char>, i: int)
    requires
        s.len() == 0 || s == seq!['+'] || s == seq!['-'] || (0 < i < s.len() && !('0' <= s[i]
            <= '9')),
    ensures
        number_of(s) is None,
{
    let t = unsigned_part(s);
    if s.len() > 0 && s != seq!['+'] && s != seq!['-'] {
        let k = if s[0] == '+' {
            i - 1
        } else {
            i
        };
        lemma_no_digit(t, k);
    } else if s == seq!['-'] {
        lemma_no_digit(t, 0);
    } else {
        assert(t.len() == 0);
    }
}

/// A character that is no digit spoils the number.
proof fn lemma_no_digit(s: Seq<char>, i: int)
    requires
        0 <= i < s.len(),
        !('0' <= s[i] <= '9'),
    ensures
        digits_value(s) is None,
    decreases s.len(),
{
    if i < s.len() - 1 {
        lemma_no_digit(s.drop_last(), i);
    }
}

/// A setting above zero is followed as far as the machine goes; any other setting leaves it to
/// the machine.
pub proof fn law_threads_follow_the_setting(hw: nat, setting: Option<Seq<char>>, v: nat)
    requires
        hw >= 1,
    ensures
        setting is None ==> thread_choice(hw, setting) == hw,
        setting is Some && number_of(setting->0) is None ==> thread_choice(hw, setting) == hw,
        setting is Some && number_of(setting->0) == Some(v) ==> {
            &&& v == 0 || v > hw ==> thread_choice(hw, setting) == hw
            &&& 1 <= v <= hw ==> thread_choice(hw, setting) == v
        },
{
}

/// A setting counts in megabytes, from 64 on; any other setting gives no budget.
pub proof fn law_budget_is_in_megabytes(setting: Option<Seq<char>>, v: nat)
    ensures
        setting is None ==> mask_budget(setting) is None,
        setting is Some && number_of(setting->0) is None ==> mask_budget(setting) is None,
        setting is Some && number_of(setting->0) == Some(v) ==> {
            &&& v < 64 ==> mask_budget(setting) is None
            &&& v >= 64 && v * 1024 * 1024 <= usize::MAX ==> mask_budget(setting) == Some(
                v * 1024 * 1024,
            )
            &&& v * 1024 * 1024 > usize::MAX ==> mask_budget(setting) == Some(usize::MAX as nat)
        },
{
}

/// Within a budget, as many workers run as were asked for, unless one more would exceed it, and
/// as many masks wait as two for each worker, unless one more would exceed it.
pub proof fn law_budget_is_used(requested: nat, workers: nat, mask_bytes: nat, budget: nat)
    requires
        requested >= 1,
        1 <= workers,
        2 * workers <= usize::MAX,
        mask_bytes >= 1,
    ensures
        ({
            let a = worker_cap(requested, mask_bytes, Some(budget));
            a == requested || (a < requested && (a + 1) * mask_bytes > budget)
        }),
        ({
            let b = waiting_cap(workers, mask_bytes, Some(budget));
            b == 2 * workers || (b < 2 * workers && (b + 1) * mask_bytes > budget)
        }),
{
    let divisor = greater(mask_bytes, 1);
    let quotient = budget / divisor;
    assert((quotient + 1) * divisor > budget) by (nonlinear_arith)
        requires
            quotient == budget / divisor,
            divisor > 0,
    ;
    let a = worker_cap(requested, mask_bytes, Some(budget));
    let b = waiting_cap(workers, mask_bytes, Some(budget));
    assert(a >= quotient ==> (a + 1) * divisor >= (quotient + 1) * divisor) by (nonlinear_arith)
        requires
            divisor > 0,
    ;
    assert(b >= quotient ==> (b + 1) * divisor >= (quotient + 1) * divisor) by (nonlinear_arith)
        requires
            divisor > 0,
    ;
}

/// Without a budget, masks from 12 megabytes on leave eight workers at most and three masks
/// waiting, from 24 on four and two, and from 48 on two and one. Smaller masks leave every
/// worker that was asked for, and three waiting for each, 24 at most.
pub proof fn law_large_masks_leave_few_workers(requested: nat, workers: nat, mask_bytes: nat)
    requires
        requested >= 1,
        workers >= 1,
    ensures
        ({
            let megabytes = mask_bytes / (1024 * 1024);
            let a = worker_cap(requested, mask_bytes, None);
            let b = waiting_cap(workers, mask_bytes, None);
            let limit: nat = if megabytes >= 48 {
                2
            } else if megabytes >= 24 {
                4
            } else {
                8
            };
            &&& megabytes >= 12 && requested > limit ==> a == limit
            &&& megabytes >= 12 && requested <= limit ==> a == requested
            &&& megabytes < 12 ==> a == requested
            &&& megabytes >= 48 ==> b == 1
            &&& 24 <= megabytes < 48 ==> b == 2
            &&& 12 <= megabytes < 24 ==> b == 3
            &&& megabytes < 12 && workers >= 8 ==> b == 24
            &&& megabytes < 12 && workers < 8 ==> b == 3 * workers
        }),
{
    let megabytes = mask_bytes / (1024 * 1024);
    assert(megabytes == mask_bytes / 1048576);
    assert(megabytes >= 48 <==> mask_bytes >= 50331648);
    assert(megabytes >= 24 <==> mask_bytes >= 25165824);
    assert(megabytes >= 12 <==> mask_bytes >= 12582912);
}

} // verus!
