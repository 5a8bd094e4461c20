//! Where the settings of a print stand in its file.

use vstd::prelude::*;

use crate::bytes::fixed_text;
use crate::container::{
    bytes16, bytes32, header, header_end, header_motion, header_motion2,
    header_previews, header_sizes, header_start, header_waits, layer_def,
    lemma_header_parts, stage_timing, ByteOrder, HeaderFields, StageTiming,
};
use crate::single::Single;
use crate::types::{GooTimingModel, GOO_CRLF};

verus! {

/// The number that the two bytes at `at` give.
#[verifier::opaque]
pub open spec fn number16(order: ByteOrder, s: Seq<u8>, at: int) -> int {
    match order {
        ByteOrder::Big => 256 * s[at] + s[at + 1],
        ByteOrder::Little => s[at] + 256 * s[at + 1],
    }
}

/// The number that the four bytes at `at` give.
#[verifier::opaque]
pub open spec fn number32(order: ByteOrder, s: Seq<u8>, at: int) -> int {
    match order {
        ByteOrder::Big => 16777216 * s[at] + 65536 * s[at + 1] + 256 * s[at + 2] + s[at + 3],
        ByteOrder::Little => s[at] + 256 * s[at + 1] + 65536 * s[at + 2] + 16777216 * s[at + 3],
    }
}

/// The `len` bytes at `at` hold a text: its bytes as far as they leave room for a zero, and
/// zeros.
pub open spec fn holds_text(s: Seq<u8>, at: int, len: int, text: Seq<char>) -> bool {
    let bytes = vstd::utf8::encode_utf8(text);
    forall|i: int|
        0 <= i < len ==> #[trigger] s[at + i] == if i < bytes.len() && i < len - 1 {
            bytes[i]
        } else {
            0
        }
}

proof fn lemma_field16(order: ByteOrder, s: Seq<u8>, at: int, v: u16)
    requires
        0 <= at,
        at + 2 <= s.len(),
        s.subrange(at, at + 2) =~= bytes16(order, v),
    ensures
        number16(order, s, at) == v,
{
    reveal(number16);
    let part = s.subrange(at, at + 2);
    assert(part[0] == s[at] && part[1] == s[at + 1]);
}

pub(crate) proof fn lemma_field32(order: ByteOrder, s: Seq<u8>, at: int, v: u32)
    requires
        0 <= at,
        at + 4 <= s.len(),
        s.subrange(at, at + 4) =~= bytes32(order, v),
    ensures
        number32(order, s, at) == v,
{
    reveal(number32);
    let part = s.subrange(at, at + 4);
    assert(part[0] == s[at] && part[1] == s[at + 1] && part[2] == s[at + 2] && part[3] == s[at + 3]);
    let x = v as int;
    assert(x == x / 0x100 * 0x100 + x % 0x100);
    assert(x / 0x100 == x / 0x1_0000 * 0x100 + x / 0x100 % 0x100);
    assert(x / 0x1_0000 == x / 0x100_0000 * 0x100 + x / 0x1_0000 % 0x100);
}

/// What stands in a part of a file stands in the file.
pub(crate) proof fn lemma_inside(order: ByteOrder, s: Seq<u8>, part: Seq<u8>, from: int)
    requires
        0 <= from,
        from + part.len() <= s.len(),
        s.subrange(from, from + part.len()) == part,
    ensures
        forall|k: int| 0 <= k < part.len() ==> s[from + k] == #[trigger] part[k],
        forall|k: int|
            0 <= k && k + 2 <= part.len() ==> number16(order, s, from + k) == #[trigger] number16(
                order,
                part,
                k,
            ),
        forall|k: int|
            0 <= k && k + 4 <= part.len() ==> number32(order, s, from + k) == #[trigger] number32(
                order,
                part,
                k,
            ),
{
    reveal(number16);
    reveal(number32);
    assert forall|k: int| 0 <= k < part.len() implies s[from + k] == #[trigger] part[k] by {
        assert(s.subrange(from, from + part.len())[k] == s[from + k]);
    }
    assert forall|k: int| 0 <= k && k + 2 <= part.len() implies number16(order, s, from + k)
        == #[trigger] number16(order, part, k) by {
        assert(s[from + k] == part[k] && s[from + (k + 1)] == part[k + 1]);
    }
    assert forall|k: int| 0 <= k && k + 4 <= part.len() implies number32(order, s, from + k)
        == #[trigger] number32(order, part, k) by {
        assert(s[from + k] == part[k] && s[from + (k + 1)] == part[k + 1]);
        assert(s[from + (k + 2)] == part[k + 2] && s[from + (k + 3)] == part[k + 3]);
    }
}

#[verifier::rlimit(40)]
proof fn lemma_sizes(order: ByteOrder, f: HeaderFields)
    ensures
        ({
            let part = header_sizes(order, f);
            &&& number32(order, part, 0) == f.layer_count
            &&& number16(order, part, 4) == f.res_x
            &&& number16(order, part, 6) == f.res_y
            &&& part[8] == if f.build.mirror_x { 1int } else { 0int }
            &&& part[9] == if f.build.mirror_y { 1int } else { 0int }
            &&& number32(order, part, 10) == f.display_width_mm.bits
            &&& number32(order, part, 14) == f.display_height_mm.bits
            &&& number32(order, part, 18) == f.machine_z_mm.bits
            &&& number32(order, part, 22) == f.layer_height_mm.bits
            &&& number32(order, part, 26) == f.timing.normal_exposure_sec.bits
            &&& part[30] == f.timing.delay_mode
            &&& number32(order, part, 31) == f.timing.light_off_delay_sec.bits
        }),
{
    let part = header_sizes(order, f);
    reveal(header_sizes);
    match order {
        ByteOrder::Big => {
            lemma_field32(ByteOrder::Big, part, 0, f.layer_count);
            lemma_field16(ByteOrder::Big, part, 4, f.res_x);
            lemma_field16(ByteOrder::Big, part, 6, f.res_y);
            lemma_field32(ByteOrder::Big, part, 10, f.display_width_mm.bits);
            lemma_field32(ByteOrder::Big, part, 14, f.display_height_mm.bits);
            lemma_field32(ByteOrder::Big, part, 18, f.machine_z_mm.bits);
            lemma_field32(ByteOrder::Big, part, 22, f.layer_height_mm.bits);
            lemma_field32(ByteOrder::Big, part, 26, f.timing.normal_exposure_sec.bits);
            lemma_field32(ByteOrder::Big, part, 31, f.timing.light_off_delay_sec.bits);
        },
        ByteOrder::Little => {
            lemma_field32(ByteOrder::Little, part, 0, f.layer_count);
            lemma_field16(ByteOrder::Little, part, 4, f.res_x);
            lemma_field16(ByteOrder::Little, part, 6, f.res_y);
            lemma_field32(ByteOrder::Little, part, 10, f.display_width_mm.bits);
            lemma_field32(ByteOrder::Little, part, 14, f.display_height_mm.bits);
            lemma_field32(ByteOrder::Little, part, 18, f.machine_z_mm.bits);
            lemma_field32(ByteOrder::Little, part, 22, f.layer_height_mm.bits);
            lemma_field32(ByteOrder::Little, part, 26, f.timing.normal_exposure_sec.bits);
            lemma_field32(ByteOrder::Little, part, 31, f.timing.light_off_delay_sec.bits);
        },
    }
}

proof fn lemma_waits(order: ByteOrder, t: GooTimingModel)
    ensures
        ({
            let part = header_waits(order, t);
            &&& number32(order, part, 0) == t.bottom_wait_time_after_cure_sec.bits
            &&& number32(order, part, 4) == t.bottom_wait_time_after_lift_sec.bits
            &&& number32(order, part, 8) == t.bottom_wait_time_before_cure_sec.bits
            &&& number32(order, part, 12) == t.wait_time_after_cure_sec.bits
            &&& number32(order, part, 16) == t.wait_time_after_lift_sec.bits
            &&& number32(order, part, 20) == t.wait_time_before_cure_sec.bits
            &&& number32(order, part, 24) == t.bottom_exposure_sec.bits
            &&& number32(order, part, 28) == t.bottom_layer_count
        }),
{
    let part = header_waits(order, t);
    reveal(header_waits);
    match order {
        ByteOrder::Big => {
            lemma_field32(ByteOrder::Big, part, 0, t.bottom_wait_time_after_cure_sec.bits);
            lemma_field32(ByteOrder::Big, part, 4, t.bottom_wait_time_after_lift_sec.bits);
            lemma_field32(ByteOrder::Big, part, 8, t.bottom_wait_time_before_cure_sec.bits);
            lemma_field32(ByteOrder::Big, part, 12, t.wait_time_after_cure_sec.bits);
            lemma_field32(ByteOrder::Big, part, 16, t.wait_time_after_lift_sec.bits);
            lemma_field32(ByteOrder::Big, part, 20, t.wait_time_before_cure_sec.bits);
            lemma_field32(ByteOrder::Big, part, 24, t.bottom_exposure_sec.bits);
            lemma_field32(ByteOrder::Big, part, 28, t.bottom_layer_count);
        },
        ByteOrder::Little => {
            lemma_field32(ByteOrder::Little, part, 0, t.bottom_wait_time_after_cure_sec.bits);
            lemma_field32(ByteOrder::Little, part, 4, t.bottom_wait_time_after_lift_sec.bits);
            lemma_field32(ByteOrder::Little, part, 8, t.bottom_wait_time_before_cure_sec.bits);
            lemma_field32(ByteOrder::Little, part, 12, t.wait_time_after_cure_sec.bits);
            lemma_field32(ByteOrder::Little, part, 16, t.wait_time_after_lift_sec.bits);
            lemma_field32(ByteOrder::Little, part, 20, t.wait_time_before_cure_sec.bits);
            lemma_field32(ByteOrder::Little, part, 24, t.bottom_exposure_sec.bits);
            lemma_field32(ByteOrder::Little, part, 28, t.bottom_layer_count);
        },
    }
}

proof fn lemma_motion(order: ByteOrder, t: GooTimingModel)
    ensures
        ({
            let part = header_motion(order, t);
            &&& number32(order, part, 0) == t.bottom_lift_distance_mm.bits
            &&& number32(order, part, 4) == t.bottom_lift_speed_mm_min.bits
            &&& number32(order, part, 8) == t.lift_distance_mm.bits
            &&& number32(order, part, 12) == t.lift_speed_mm_min.bits
            &&& number32(order, part, 16) == t.bottom_retract_distance_mm.bits
            &&& number32(order, part, 20) == t.bottom_retract_speed_mm_min.bits
            &&& number32(order, part, 24) == t.retract_distance_mm.bits
            &&& number32(order, part, 28) == t.retract_speed_mm_min.bits
        }),
{
    let part = header_motion(order, t);
    reveal(header_motion);
    match order {
        ByteOrder::Big => {
            lemma_field32(ByteOrder::Big, part, 0, t.bottom_lift_distance_mm.bits);
            lemma_field32(ByteOrder::Big, part, 4, t.bottom_lift_speed_mm_min.bits);
            lemma_field32(ByteOrder::Big, part, 8, t.lift_distance_mm.bits);
            lemma_field32(ByteOrder::Big, part, 12, t.lift_speed_mm_min.bits);
            lemma_field32(ByteOrder::Big, part, 16, t.bottom_retract_distance_mm.bits);
            lemma_field32(ByteOrder::Big, part, 20, t.bottom_retract_speed_mm_min.bits);
            lemma_field32(ByteOrder::Big, part, 24, t.retract_distance_mm.bits);
            lemma_field32(ByteOrder::Big, part, 28, t.retract_speed_mm_min.bits);
        },
        ByteOrder::Little => {
            lemma_field32(ByteOrder::Little, part, 0, t.bottom_lift_distance_mm.bits);
            lemma_field32(ByteOrder::Little, part, 4, t.bottom_lift_speed_mm_min.bits);
            lemma_field32(ByteOrder::Little, part, 8, t.lift_distance_mm.bits);
            lemma_field32(ByteOrder::Little, part, 12, t.lift_speed_mm_min.bits);
            lemma_field32(ByteOrder::Little, part, 16, t.bottom_retract_distance_mm.bits);
            lemma_field32(ByteOrder::Little, part, 20, t.bottom_retract_speed_mm_min.bits);
            lemma_field32(ByteOrder::Little, part, 24, t.retract_distance_mm.bits);
            lemma_field32(ByteOrder::Little, part, 28, t.retract_speed_mm_min.bits);
        },
    }
}

proof fn lemma_motion2(order: ByteOrder, t: GooTimingModel)
    ensures
        ({
            let part = header_motion2(order, t);
            &&& number32(order, part, 0) == t.bottom_lift_distance2_mm.bits
            &&& number32(order, part, 4) == t.bottom_lift_speed2_mm_min.bits
            &&& number32(order, part, 8) == t.lift_distance2_mm.bits
            &&& number32(order, part, 12) == t.lift_speed2_mm_min.bits
            &&& number32(order, part, 16) == t.bottom_retract_distance2_mm.bits
            &&& number32(order, part, 20) == t.bottom_retract_speed2_mm_min.bits
            &&& number32(order, part, 24) == t.retract_distance2_mm.bits
            &&& number32(order, part, 28) == t.retract_speed2_mm_min.bits
        }),
{
    let part = header_motion2(order, t);
    reveal(header_motion2);
    match order {
        ByteOrder::Big => {
            lemma_field32(ByteOrder::Big, part, 0, t.bottom_lift_distance2_mm.bits);
            lemma_field32(ByteOrder::Big, part, 4, t.bottom_lift_speed2_mm_min.bits);
            lemma_field32(ByteOrder::Big, part, 8, t.lift_distance2_mm.bits);
            lemma_field32(ByteOrder::Big, part, 12, t.lift_speed2_mm_min.bits);
            lemma_field32(ByteOrder::Big, part, 16, t.bottom_retract_distance2_mm.bits);
            lemma_field32(ByteOrder::Big, part, 20, t.bottom_retract_speed2_mm_min.bits);
            lemma_field32(ByteOrder::Big, part, 24, t.retract_distance2_mm.bits);
            lemma_field32(ByteOrder::Big, part, 28, t.retract_speed2_mm_min.bits);
        },
        ByteOrder::Little => {
            lemma_field32(ByteOrder::Little, part, 0, t.bottom_lift_distance2_mm.bits);
            lemma_field32(ByteOrder::Little, part, 4, t.bottom_lift_speed2_mm_min.bits);
            lemma_field32(ByteOrder::Little, part, 8, t.lift_distance2_mm.bits);
            lemma_field32(ByteOrder::Little, part, 12, t.lift_speed2_mm_min.bits);
            lemma_field32(ByteOrder::Little, part, 16, t.bottom_retract_distance2_mm.bits);
            lemma_field32(ByteOrder::Little, part, 20, t.bottom_retract_speed2_mm_min.bits);
            lemma_field32(ByteOrder::Little, part, 24, t.retract_distance2_mm.bits);
            lemma_field32(ByteOrder::Little, part, 28, t.retract_speed2_mm_min.bits);
        },
    }
}

proof fn lemma_end(order: ByteOrder, f: HeaderFields)
    ensures
        ({
            let part = header_end(order, f);
            &&& number16(order, part, 0) == f.timing.bottom_light_pwm
            &&& number16(order, part, 2) == f.timing.light_pwm
            &&& part[4] == 0
            &&& number32(order, part, 5) == f.print_time_sec
            &&& number32(order, part, 9) == 0
            &&& number32(order, part, 13) == 0
            &&& number32(order, part, 17) == 0
            &&& number32(order, part, 29) == 195477
            &&& part[33] == if f.is_grayscale { 1int } else { 0int }
            &&& number16(order, part, 34) == f.timing.transition_layer_count
        }),
{
    let part = header_end(order, f);
    reveal(header_end);
    match order {
        ByteOrder::Big => {
            lemma_field16(ByteOrder::Big, part, 0, f.timing.bottom_light_pwm);
            lemma_field16(ByteOrder::Big, part, 2, f.timing.light_pwm);
            lemma_field32(ByteOrder::Big, part, 5, f.print_time_sec);
            lemma_field32(ByteOrder::Big, part, 9, 0);
            lemma_field32(ByteOrder::Big, part, 13, 0);
            lemma_field32(ByteOrder::Big, part, 17, 0);
            lemma_field32(ByteOrder::Big, part, 29, 195477);
            lemma_field16(ByteOrder::Big, part, 34, f.timing.transition_layer_count);
        },
        ByteOrder::Little => {
            lemma_field16(ByteOrder::Little, part, 0, f.timing.bottom_light_pwm);
            lemma_field16(ByteOrder::Little, part, 2, f.timing.light_pwm);
            lemma_field32(ByteOrder::Little, part, 5, f.print_time_sec);
            lemma_field32(ByteOrder::Little, part, 9, 0);
            lemma_field32(ByteOrder::Little, part, 13, 0);
            lemma_field32(ByteOrder::Little, part, 17, 0);
            lemma_field32(ByteOrder::Little, part, 29, 195477);
            lemma_field16(ByteOrder::Little, part, 34, f.timing.transition_layer_count);
        },
    }
}

/// The parts of a header lie behind each other.
proof fn lemma_places(order: ByteOrder, f: HeaderFields)
    requires
        f.version.len() == 4,
        f.small_preview.len() == 26912,
        f.large_preview.len() == 168200,
    ensures
        ({
            let h = header(order, f);
            &&& h.len() == 195477
            &&& h.subrange(0, 194) == header_start(order, f)
            &&& h.subrange(194, 195310) == header_previews(f)
            &&& h.subrange(195310, 195345) == header_sizes(order, f)
            &&& h.subrange(195345, 195377) == header_waits(order, f.timing)
            &&& h.subrange(195377, 195409) == header_motion(order, f.timing)
            &&& h.subrange(195409, 195441) == header_motion2(order, f.timing)
            &&& h.subrange(195441, 195477) == header_end(order, f)
        }),
{
    lemma_header_parts(order, f);
    reveal(header);
    let h = header(order, f);
    assert(h.subrange(0, 194) =~= header_start(order, f));
    assert(h.subrange(194, 195310) =~= header_previews(f));
    assert(h.subrange(195310, 195345) =~= header_sizes(order, f));
    assert(h.subrange(195345, 195377) =~= header_waits(order, f.timing));
    assert(h.subrange(195377, 195409) =~= header_motion(order, f.timing));
    assert(h.subrange(195409, 195441) =~= header_motion2(order, f.timing));
    assert(h.subrange(195441, 195477) =~= header_end(order, f));
}

/// Every number of a header reads back at its own place, in either byte order: the sizes,
/// each exposure, wait, lift and retract, the light levels, the print time and the flags.
pub proof fn law_header_states_every_setting(order: ByteOrder, f: HeaderFields)
    requires
        f.version.len() == 4,
        f.small_preview.len() == 26912,
        f.large_preview.len() == 168200,
    ensures
        ({
            let h = header(order, f);
            &&& h.len() == 195477
            &&& number32(order, h, 195310) == f.layer_count
            &&& number16(order, h, 195314) == f.res_x
            &&& number16(order, h, 195316) == f.res_y
            &&& h[195318] == if f.build.mirror_x { 1int } else { 0int }
            &&& h[195319] == if f.build.mirror_y { 1int } else { 0int }
            &&& number32(order, h, 195320) == f.display_width_mm.bits
            &&& number32(order, h, 195324) == f.display_height_mm.bits
            &&& number32(order, h, 195328) == f.machine_z_mm.bits
            &&& number32(order, h, 195332) == f.layer_height_mm.bits
            &&& number32(order, h, 195336) == f.timing.normal_exposure_sec.bits
            &&& h[195340] == f.timing.delay_mode
            &&& number32(order, h, 195341) == f.timing.light_off_delay_sec.bits
            &&& number32(order, h, 195345) == f.timing.bottom_wait_time_after_cure_sec.bits
            &&& number32(order, h, 195349) == f.timing.bottom_wait_time_after_lift_sec.bits
            &&& number32(order, h, 195353) == f.timing.bottom_wait_time_before_cure_sec.bits
            &&& number32(order, h, 195357) == f.timing.wait_time_after_cure_sec.bits
            &&& number32(order, h, 195361) == f.timing.wait_time_after_lift_sec.bits
            &&& number32(order, h, 195365) == f.timing.wait_time_before_cure_sec.bits
            &&& number32(order, h, 195369) == f.timing.bottom_exposure_sec.bits
            &&& number32(order, h, 195373) == f.timing.bottom_layer_count
            &&& number32(order, h, 195377) == f.timing.bottom_lift_distance_mm.bits
            &&& number32(order, h, 195381) == f.timing.bottom_lift_speed_mm_min.bits
            &&& number32(order, h, 195385) == f.timing.lift_distance_mm.bits
            &&& number32(order, h, 195389) == f.timing.lift_speed_mm_min.bits
            &&& number32(order, h, 195393) == f.timing.bottom_retract_distance_mm.bits
            &&& number32(order, h, 195397) == f.timing.bottom_retract_speed_mm_min.bits
            &&& number32(order, h, 195401) == f.timing.retract_distance_mm.bits
            &&& number32(order, h, 195405) == f.timing.retract_speed_mm_min.bits
            &&& number32(order, h, 195409) == f.timing.bottom_lift_distance2_mm.bits
            &&& number32(order, h, 195413) == f.timing.bottom_lift_speed2_mm_min.bits
            &&& number32(order, h, 195417) == f.timing.lift_distance2_mm.bits
            &&& number32(order, h, 195421) == f.timing.lift_speed2_mm_min.bits
            &&& number32(order, h, 195425) == f.timing.bottom_retract_distance2_mm.bits
            &&& number32(order, h, 195429) == f.timing.bottom_retract_speed2_mm_min.bits
            &&& number32(order, h, 195433) == f.timing.retract_distance2_mm.bits
            &&& number32(order, h, 195437) == f.timing.retract_speed2_mm_min.bits
            &&& number16(order, h, 195441) == f.timing.bottom_light_pwm
            &&& number16(order, h, 195443) == f.timing.light_pwm
            &&& h[195445] == 0
            &&& number32(order, h, 195446) == f.print_time_sec
            &&& number32(order, h, 195450) == 0
            &&& number32(order, h, 195454) == 0
            &&& number32(order, h, 195458) == 0
            &&& number32(order, h, 195470) == 195477
            &&& h[195474] == if f.is_grayscale { 1int } else { 0int }
            &&& number16(order, h, 195475) == f.timing.transition_layer_count
        }),
{
    let h = header(order, f);
    let t = f.timing;
    lemma_places(order, f);
    lemma_header_parts(order, f);
    lemma_sizes(order, f);
    lemma_waits(order, t);
    lemma_motion(order, t);
    lemma_motion2(order, t);
    lemma_end(order, f);
    let sizes = header_sizes(order, f);
    let waits = header_waits(order, t);
    let motion = header_motion(order, t);
    let motion2 = header_motion2(order, t);
    let end = header_end(order, f);
    lemma_inside(order, h, sizes, 195310);
    lemma_inside(order, h, waits, 195345);
    lemma_inside(order, h, motion, 195377);
    lemma_inside(order, h, motion2, 195409);
    lemma_inside(order, h, end, 195441);
    assert(number32(order, h, 195310) == number32(order, sizes, 0));
    assert(number16(order, h, 195314) == number16(order, sizes, 4));
    assert(number16(order, h, 195316) == number16(order, sizes, 6));
    assert(h[195318] == sizes[8]);
    assert(h[195319] == sizes[9]);
    assert(number32(order, h, 195320) == number32(order, sizes, 10));
    assert(number32(order, h, 195324) == number32(order, sizes, 14));
    assert(number32(order, h, 195328) == number32(order, sizes, 18));
    assert(number32(order, h, 195332) == number32(order, sizes, 22));
    assert(number32(order, h, 195336) == number32(order, sizes, 26));
    assert(h[195340] == sizes[30]);
    assert(number32(order, h, 195341) == number32(order, sizes, 31));
    assert(number32(order, h, 195345) == number32(order, waits, 0));
    assert(number32(order, h, 195349) == number32(order, waits, 4));
    assert(number32(order, h, 195353) == number32(order, waits, 8));
    assert(number32(order, h, 195357) == number32(order, waits, 12));
    assert(number32(order, h, 195361) == number32(order, waits, 16));
    assert(number32(order, h, 195365) == number32(order, waits, 20));
    assert(number32(order, h, 195369) == number32(order, waits, 24));
    assert(number32(order, h, 195373) == number32(order, waits, 28));
    assert(number32(order, h, 195377) == number32(order, motion, 0));
    assert(number32(order, h, 195381) == number32(order, motion, 4));
    assert(number32(order, h, 195385) == number32(order, motion, 8));
    assert(number32(order, h, 195389) == number32(order, motion, 12));
    assert(number32(order, h, 195393) == number32(order, motion, 16));
    assert(number32(order, h, 195397) == number32(order, motion, 20));
    assert(number32(order, h, 195401) == number32(order, motion, 24));
    assert(number32(order, h, 195405) == number32(order, motion, 28));
    assert(number32(order, h, 195409) == number32(order, motion2, 0));
    assert(number32(order, h, 195413) == number32(order, motion2, 4));
    assert(number32(order, h, 195417) == number32(order, motion2, 8));
    assert(number32(order, h, 195421) == number32(order, motion2, 12));
    assert(number32(order, h, 195425) == number32(order, motion2, 16));
    assert(number32(order, h, 195429) == number32(order, motion2, 20));
    assert(number32(order, h, 195433) == number32(order, motion2, 24));
    assert(number32(order, h, 195437) == number32(order, motion2, 28));
    assert(number16(order, h, 195441) == number16(order, end, 0));
    assert(number16(order, h, 195443) == number16(order, end, 2));
    assert(h[195445] == end[4]);
    assert(number32(order, h, 195446) == number32(order, end, 5));
    assert(number32(order, h, 195450) == number32(order, end, 9));
    assert(number32(order, h, 195454) == number32(order, end, 13));
    assert(number32(order, h, 195458) == number32(order, end, 17));
    assert(number32(order, h, 195470) == number32(order, end, 29));
    assert(h[195474] == end[33]);
    assert(number16(order, h, 195475) == number16(order, end, 34));
}

/// A header starts with its version and the magic bytes, names what made it and for which
/// machine and profile, and holds the two previews, each before a line break.
pub proof fn law_header_names_its_origin(order: ByteOrder, f: HeaderFields)
    requires
        f.version.len() == 4,
        f.small_preview.len() == 26912,
        f.large_preview.len() == 168200,
    ensures
        ({
            let h = header(order, f);
            &&& h.subrange(0, 4) == f.version
            &&& h.subrange(4, 12) == seq![0x07u8, 0, 0, 0, 0x44, 0x4C, 0x50, 0]
            &&& holds_text(h, 12, 32, "DragonFruit"@)
            &&& holds_text(h, 44, 24, f.software_version)
            &&& holds_text(h, 68, 24, f.build.created_datetime)
            &&& holds_text(h, 92, 32, f.build.machine_name)
            &&& holds_text(h, 124, 32, f.build.machine_type)
            &&& holds_text(h, 156, 32, f.build.profile_name)
            &&& number16(order, h, 188) == f.build.anti_aliasing_level
            &&& number16(order, h, 190) == f.build.grey_level
            &&& number16(order, h, 192) == f.build.blur_level
            &&& h.subrange(194, 27106) == f.small_preview
            &&& h.subrange(27106, 27108) == seq![13u8, 10u8]
            &&& h.subrange(27108, 195308) == f.large_preview
            &&& h.subrange(195308, 195310) == seq![13u8, 10u8]
            &&& holds_text(h, 195462, 8, "$"@)
        }),
{
    let h = header(order, f);
    let start = header_start(order, f);
    let previews = header_previews(f);
    let end = header_end(order, f);
    lemma_places(order, f);
    lemma_header_parts(order, f);
    lemma_inside(order, h, start, 0);
    lemma_inside(order, h, end, 195441);
    lemma_start(order, f);
    lemma_end_text(order, f);
    assert(number16(order, h, 188) == number16(order, start, 188));
    assert(number16(order, h, 190) == number16(order, start, 190));
    assert(number16(order, h, 192) == number16(order, start, 192));
    assert(h.subrange(0, 4) =~= start.subrange(0, 4));
    assert(h.subrange(4, 12) =~= start.subrange(4, 12));
    lemma_text_inside(h, start, 0, 12, 32, "DragonFruit"@);
    lemma_text_inside(h, start, 0, 44, 24, f.software_version);
    lemma_text_inside(h, start, 0, 68, 24, f.build.created_datetime);
    lemma_text_inside(h, start, 0, 92, 32, f.build.machine_name);
    lemma_text_inside(h, start, 0, 124, 32, f.build.machine_type);
    lemma_text_inside(h, start, 0, 156, 32, f.build.profile_name);
    lemma_text_inside(h, end, 195441, 21, 8, "$"@);
    assert(h.subrange(194, 27106) =~= h.subrange(194, 195310).subrange(0, 26912));
    assert(previews.subrange(0, 26912) =~= f.small_preview);
    assert(h.subrange(27106, 27108) =~= h.subrange(194, 195310).subrange(26912, 26914));
    assert(previews.subrange(26912, 26914) =~= seq![13u8, 10u8]);
    assert(h.subrange(27108, 195308) =~= h.subrange(194, 195310).subrange(26914, 195114));
    assert(previews.subrange(26914, 195114) =~= f.large_preview);
    assert(h.subrange(195308, 195310) =~= h.subrange(194, 195310).subrange(195114, 195116));
    assert(previews.subrange(195114, 195116) =~= seq![13u8, 10u8]);
}

/// A text that stands in a part of a file stands in the file.
proof fn lemma_text_inside(
    s: Seq<u8>,
    part: Seq<u8>,
    from: int,
    at: int,
    len: int,
    text: Seq<char>,
)
    requires
        0 <= from,
        0 <= at,
        0 <= len,
        from + part.len() <= s.len(),
        at + len <= part.len(),
        s.subrange(from, from + part.len()) == part,
        holds_text(part, at, len, text),
    ensures
        holds_text(s, from + at, len, text),
{
    let bytes = vstd::utf8::encode_utf8(text);
    assert forall|i: int| 0 <= i < len implies #[trigger] s[from + at + i] == if i < bytes.len()
        && i < len - 1 {
        bytes[i]
    } else {
        0
    } by {
        assert(part[at + i] == s[from + (at + i)]);
    }
}

/// A text field holds its text.
proof fn lemma_text_field(s: Seq<u8>, at: int, len: nat, text: Seq<char>)
    requires
        0 <= at,
        at + len <= s.len(),
        0 < len,
        s.subrange(at, at + len) =~= fixed_text(vstd::utf8::encode_utf8(text), len),
    ensures
        holds_text(s, at, len as int, text),
{
    let bytes = vstd::utf8::encode_utf8(text);
    let field = fixed_text(bytes, len);
    assert forall|i: int| 0 <= i < len implies #[trigger] s[at + i] == if i < bytes.len() && i < len
        - 1 {
        bytes[i]
    } else {
        0
    } by {
        assert(s.subrange(at, at + len)[i] == s[at + i]);
        assert(field[i] == s[at + i]);
    }
}

proof fn lemma_start(order: ByteOrder, f: HeaderFields)
    requires
        f.version.len() == 4,
    ensures
        ({
            let part = header_start(order, f);
            &&& part.len() == 194
            &&& part.subrange(0, 4) == f.version
            &&& part.subrange(4, 12) == seq![0x07u8, 0, 0, 0, 0x44, 0x4C, 0x50, 0]
            &&& holds_text(part, 12, 32, "DragonFruit"@)
            &&& holds_text(part, 44, 24, f.software_version)
            &&& holds_text(part, 68, 24, f.build.created_datetime)
            &&& holds_text(part, 92, 32, f.build.machine_name)
            &&& holds_text(part, 124, 32, f.build.machine_type)
            &&& holds_text(part, 156, 32, f.build.profile_name)
            &&& number16(order, part, 188) == f.build.anti_aliasing_level
            &&& number16(order, part, 190) == f.build.grey_level
            &&& number16(order, part, 192) == f.build.blur_level
        }),
{
    let part = header_start(order, f);
    reveal(header_start);
    match order {
        ByteOrder::Big => {
            lemma_field16(ByteOrder::Big, part, 188, f.build.anti_aliasing_level);
            lemma_field16(ByteOrder::Big, part, 190, f.build.grey_level);
            lemma_field16(ByteOrder::Big, part, 192, f.build.blur_level);
        },
        ByteOrder::Little => {
            lemma_field16(ByteOrder::Little, part, 188, f.build.anti_aliasing_level);
            lemma_field16(ByteOrder::Little, part, 190, f.build.grey_level);
            lemma_field16(ByteOrder::Little, part, 192, f.build.blur_level);
        },
    }
    assert(part.subrange(0, 4) =~= f.version);
    assert(part.subrange(4, 12) =~= seq![0x07u8, 0, 0, 0, 0x44, 0x4C, 0x50, 0]);
    lemma_text_field(part, 12, 32, "DragonFruit"@);
    lemma_text_field(part, 44, 24, f.software_version);
    lemma_text_field(part, 68, 24, f.build.created_datetime);
    lemma_text_field(part, 92, 32, f.build.machine_name);
    lemma_text_field(part, 124, 32, f.build.machine_type);
    lemma_text_field(part, 156, 32, f.build.profile_name);
}

proof fn lemma_end_text(order: ByteOrder, f: HeaderFields)
    ensures
        header_end(order, f).len() == 36,
        holds_text(header_end(order, f), 21, 8, "$"@),
{
    let part = header_end(order, f);
    reveal(header_end);
    match order {
        ByteOrder::Big => lemma_text_field(part, 21, 8, "$"@),
        ByteOrder::Little => lemma_text_field(part, 21, 8, "$"@),
    }
}

/// Appending a number keeps those before it.
proof fn lemma_append16(order: ByteOrder, p: Seq<u8>, v: u16)
    ensures
        ({
            let q = p + bytes16(order, v);
            &&& q.len() == p.len() + 2
            &&& number16(order, q, p.len() as int) == v
            &&& forall|k: int|
                0 <= k && k + 2 <= p.len() ==> #[trigger] number16(order, q, k) == number16(
                    order,
                    p,
                    k,
                )
            &&& forall|k: int|
                0 <= k && k + 4 <= p.len() ==> #[trigger] number32(order, q, k) == number32(
                    order,
                    p,
                    k,
                )
        }),
{
    let q = p + bytes16(order, v);
    lemma_field16(order, q, p.len() as int, v);
    assert(q.subrange(0, p.len() as int) =~= p);
    lemma_inside(order, q, p, 0);
}

/// Appending a number keeps those before it.
proof fn lemma_append32(order: ByteOrder, p: Seq<u8>, v: u32)
    ensures
        ({
            let q = p + bytes32(order, v);
            &&& q.len() == p.len() + 4
            &&& number32(order, q, p.len() as int) == v
            &&& forall|k: int|
                0 <= k && k + 2 <= p.len() ==> #[trigger] number16(order, q, k) == number16(
                    order,
                    p,
                    k,
                )
            &&& forall|k: int|
                0 <= k && k + 4 <= p.len() ==> #[trigger] number32(order, q, k) == number32(
                    order,
                    p,
                    k,
                )
        }),
{
    let q = p + bytes32(order, v);
    lemma_field32(order, q, p.len() as int, v);
    assert(q.subrange(0, p.len() as int) =~= p);
    lemma_inside(order, q, p, 0);
}

/// The definition of a layer states its height and each of its times, distances and speeds
/// at its own place, in either byte order.
proof fn lemma_def(order: ByteOrder, z: Single, s: StageTiming)
    ensures
        ({
            let d = layer_def(order, z, s);
            &&& d.len() == 66
            &&& number16(order, d, 0) == 0
            &&& number32(order, d, 2) == 0x4348_0000
            &&& number32(order, d, 6) == z.bits
            &&& number32(order, d, 10) == s.exposure.bits
            &&& number32(order, d, 14) == s.light_off.bits
            &&& number32(order, d, 18) == s.wait_after_cure.bits
            &&& number32(order, d, 22) == s.wait_after_lift.bits
            &&& number32(order, d, 26) == s.wait_before_cure.bits
            &&& number32(order, d, 30) == s.lift_distance.bits
            &&& number32(order, d, 34) == s.lift_speed.bits
            &&& number32(order, d, 38) == s.lift_distance2.bits
            &&& number32(order, d, 42) == s.lift_speed2.bits
            &&& number32(order, d, 46) == s.retract_distance.bits
            &&& number32(order, d, 50) == s.retract_speed.bits
            &&& number32(order, d, 54) == s.retract_distance2.bits
            &&& number32(order, d, 58) == s.retract_speed2.bits
            &&& number16(order, d, 62) == s.light_pwm
            &&& d.subrange(64, 66) == seq![13u8, 10u8]
        }),
{
    let d = layer_def(order, z, s);
    let p0 = Seq::<u8>::empty();
    let p1 = p0 + bytes16(order, 0);
    lemma_append16(order, p0, 0);
    let p2 = p1 + bytes32(order, 0x4348_0000);
    lemma_append32(order, p1, 0x4348_0000);
    let p3 = p2 + bytes32(order, z.bits);
    lemma_append32(order, p2, z.bits);
    let p4 = p3 + bytes32(order, s.exposure.bits);
    lemma_append32(order, p3, s.exposure.bits);
    let p5 = p4 + bytes32(order, s.light_off.bits);
    lemma_append32(order, p4, s.light_off.bits);
    let p6 = p5 + bytes32(order, s.wait_after_cure.bits);
    lemma_append32(order, p5, s.wait_after_cure.bits);
    let p7 = p6 + bytes32(order, s.wait_after_lift.bits);
    lemma_append32(order, p6, s.wait_after_lift.bits);
    let p8 = p7 + bytes32(order, s.wait_before_cure.bits);
    lemma_append32(order, p7, s.wait_before_cure.bits);
    let p9 = p8 + bytes32(order, s.lift_distance.bits);
    lemma_append32(order, p8, s.lift_distance.bits);
    let p10 = p9 + bytes32(order, s.lift_speed.bits);
    lemma_append32(order, p9, s.lift_speed.bits);
    let p11 = p10 + bytes32(order, s.lift_distance2.bits);
    lemma_append32(order, p10, s.lift_distance2.bits);
    let p12 = p11 + bytes32(order, s.lift_speed2.bits);
    lemma_append32(order, p11, s.lift_speed2.bits);
    let p13 = p12 + bytes32(order, s.retract_distance.bits);
    lemma_append32(order, p12, s.retract_distance.bits);
    let p14 = p13 + bytes32(order, s.retract_speed.bits);
    lemma_append32(order, p13, s.retract_speed.bits);
    let p15 = p14 + bytes32(order, s.retract_distance2.bits);
    lemma_append32(order, p14, s.retract_distance2.bits);
    let p16 = p15 + bytes32(order, s.retract_speed2.bits);
    lemma_append32(order, p15, s.retract_speed2.bits);
    let p17 = p16 + bytes16(order, s.light_pwm);
    lemma_append16(order, p16, s.light_pwm);
    assert(d == p17 + GOO_CRLF@) by {
        reveal(layer_def);
    }
    assert(d.subrange(0, 64) =~= p17);
    lemma_inside(order, d, p17, 0);
    assert(d.subrange(64, 66) =~= seq![13u8, 10u8]);
    assert(number16(order, d, 0) == number16(order, p17, 0));
    assert(number32(order, d, 2) == number32(order, p17, 2));
    assert(number32(order, d, 6) == number32(order, p17, 6));
    assert(number32(order, d, 10) == number32(order, p17, 10));
    assert(number32(order, d, 14) == number32(order, p17, 14));
    assert(number32(order, d, 18) == number32(order, p17, 18));
    assert(number32(order, d, 22) == number32(order, p17, 22));
    assert(number32(order, d, 26) == number32(order, p17, 26));
    assert(number32(order, d, 30) == number32(order, p17, 30));
    assert(number32(order, d, 34) == number32(order, p17, 34));
    assert(number32(order, d, 38) == number32(order, p17, 38));
    assert(number32(order, d, 42) == number32(order, p17, 42));
    assert(number32(order, d, 46) == number32(order, p17, 46));
    assert(number32(order, d, 50) == number32(order, p17, 50));
    assert(number32(order, d, 54) == number32(order, p17, 54));
    assert(number32(order, d, 58) == number32(order, p17, 58));
    assert(number16(order, d, 62) == number16(order, p17, 62));
}

/// The bytes at `at` define a layer at the height `z`, by its pattern, that is exposed, left
/// and lit as the bottom layers are, or as the others are.
pub open spec fn defines_layer(
    order: ByteOrder,
    s: Seq<u8>,
    at: int,
    z: u32,
    bottom: bool,
    t: GooTimingModel,
) -> bool {
    let pick = |of_bottom: u32, of_others: u32| if bottom {
        of_bottom as int
    } else {
        of_others as int
    };
    &&& 0 <= at && at + 66 <= s.len()
    &&& number16(order, s, at) == 0
    &&& number32(order, s, at + 2) == 0x4348_0000
    &&& number32(order, s, at + 6) == z
    &&& number32(order, s, at + 10) == pick(t.bottom_exposure_sec.bits, t.normal_exposure_sec.bits)
    &&& number32(order, s, at + 14) == pick(t.bottom_light_off_delay_sec.bits, t.light_off_delay_sec.bits)
    &&& number32(order, s, at + 18) == pick(t.bottom_wait_time_after_cure_sec.bits, t.wait_time_after_cure_sec.bits)
    &&& number32(order, s, at + 22) == pick(t.bottom_wait_time_after_lift_sec.bits, t.wait_time_after_lift_sec.bits)
    &&& number32(order, s, at + 26) == pick(t.bottom_wait_time_before_cure_sec.bits, t.wait_time_before_cure_sec.bits)
    &&& number32(order, s, at + 30) == pick(t.bottom_lift_distance_mm.bits, t.lift_distance_mm.bits)
    &&& number32(order, s, at + 34) == pick(t.bottom_lift_speed_mm_min.bits, t.lift_speed_mm_min.bits)
    &&& number32(order, s, at + 38) == pick(t.bottom_lift_distance2_mm.bits, t.lift_distance2_mm.bits)
    &&& number32(order, s, at + 42) == pick(t.bottom_lift_speed2_mm_min.bits, t.lift_speed2_mm_min.bits)
    &&& number32(order, s, at + 46) == pick(t.bottom_retract_distance_mm.bits, t.retract_distance_mm.bits)
    &&& number32(order, s, at + 50) == pick(t.bottom_retract_speed_mm_min.bits, t.retract_speed_mm_min.bits)
    &&& number32(order, s, at + 54) == pick(t.bottom_retract_distance2_mm.bits, t.retract_distance2_mm.bits)
    &&& number32(order, s, at + 58) == pick(t.bottom_retract_speed2_mm_min.bits, t.retract_speed2_mm_min.bits)
    &&& number16(order, s, at + 62) == pick(t.bottom_light_pwm as u32, t.light_pwm as u32)
    &&& s[at + 64] == 13 && s[at + 65] == 10
}

/// A layer definition that stands in a file defines its layer there.
pub proof fn lemma_defines(
    order: ByteOrder,
    s: Seq<u8>,
    at: int,
    z: Single,
    bottom: bool,
    t: GooTimingModel,
)
    requires
        0 <= at,
        at + 66 <= s.len(),
        s.subrange(at, at + 66) == layer_def(order, z, stage_timing(t, bottom)),
    ensures
        defines_layer(order, s, at, z.bits, bottom, t),
{
    let d = layer_def(order, z, stage_timing(t, bottom));
    lemma_def(order, z, stage_timing(t, bottom));
    lemma_inside(order, s, d, at);
    assert(number16(order, s, at + 0) == number16(order, d, 0));
    assert(number32(order, s, at + 2) == number32(order, d, 2));
    assert(number32(order, s, at + 6) == number32(order, d, 6));
    assert(number32(order, s, at + 10) == number32(order, d, 10));
    assert(number32(order, s, at + 14) == number32(order, d, 14));
    assert(number32(order, s, at + 18) == number32(order, d, 18));
    assert(number32(order, s, at + 22) == number32(order, d, 22));
    assert(number32(order, s, at + 26) == number32(order, d, 26));
    assert(number32(order, s, at + 30) == number32(order, d, 30));
    assert(number32(order, s, at + 34) == number32(order, d, 34));
    assert(number32(order, s, at + 38) == number32(order, d, 38));
    assert(number32(order, s, at + 42) == number32(order, d, 42));
    assert(number32(order, s, at + 46) == number32(order, d, 46));
    assert(number32(order, s, at + 50) == number32(order, d, 50));
    assert(number32(order, s, at + 54) == number32(order, d, 54));
    assert(number32(order, s, at + 58) == number32(order, d, 58));
    assert(number16(order, s, at + 62) == number16(order, d, 62));
    assert(d.subrange(64, 66)[0] == d[64] && d.subrange(64, 66)[1] == d[65]);
    assert(s[at + 64] == d[64] && s[at + 65] == d[65]);
}

} // verus!
