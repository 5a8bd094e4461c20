//! How long a print takes.

use vstd::arithmetic::power2::{
    lemma2_to64, lemma_pow2_adds, lemma_pow2_pos, lemma_pow2_strictly_increases, pow2,
};
use vstd::prelude::*;

use crate::container::{pick_timing, stage_timing, StageTiming};
use crate::single::{
    distance, is_plain, law_rounding_error_is_small, lemma_nearest_at_most, lemma_steps_monotone,
    multiply, product, round, rounded_int, sanitize_non_negative, sanitized, steps, Single,
    INFINITY_BITS,
};
use crate::types::GooTimingModel;

verus! {

/// The pattern of 1000.
pub const THOUSAND_BITS: u32 = 0x447A_0000;

/// `x`, or the largest `u32` where that is smaller.
pub open spec fn at_most_u32(x: nat) -> u32 {
    if x <= u32::MAX {
        x as u32
    } else {
        u32::MAX
    }
}

/// The thousandths of a value, as far as `u32` reaches. A value that is negative or not
/// finite has none.
pub open spec fn thousandths(x: Single) -> u32 {
    let p = product(sanitized(x), Single { bits: THOUSAND_BITS });
    if is_plain(p) {
        at_most_u32(rounded_int(p))
    } else {
        u32::MAX
    }
}

/// The milliseconds of a move over `distance` millimeters at `speed` millimeters per
/// minute. What does not move takes no time.
pub open spec fn move_ms(distance: Single, speed: Single) -> nat {
    if thousandths(speed) == 0 {
        0
    } else {
        thousandths(distance) as nat * 60000 / thousandths(speed) as nat
    }
}

/// The milliseconds of the moves between a layer and the next.
pub open spec fn moves_ms(s: StageTiming) -> nat {
    move_ms(s.lift_distance, s.lift_speed) + move_ms(s.lift_distance2, s.lift_speed2) + move_ms(
        s.retract_distance,
        s.retract_speed,
    ) + move_ms(s.retract_distance2, s.retract_speed2)
}

/// The milliseconds of a layer: its exposure, its moves and its waits. With wait times each
/// of them counts. Without, the light is off for the delay at least, and the moves fall into
/// that time.
pub open spec fn layer_ms(s: StageTiming, delay_mode: u8) -> nat {
    let moves = moves_ms(s);
    if delay_mode == 0 {
        thousandths(s.exposure) as nat + if thousandths(s.light_off) > moves {
            thousandths(s.light_off) as nat
        } else {
            moves
        }
    } else {
        thousandths(s.exposure) as nat + thousandths(s.wait_before_cure) as nat + thousandths(
            s.wait_after_cure,
        ) as nat + moves + thousandths(s.wait_after_lift) as nat
    }
}

/// How many of `layer_count` layers are bottom layers.
pub open spec fn bottom_layers(layer_count: nat, timing: GooTimingModel) -> nat {
    if layer_count < timing.bottom_layer_count {
        layer_count
    } else {
        timing.bottom_layer_count as nat
    }
}

/// The milliseconds of a print of `layer_count` layers.
pub open spec fn print_ms(layer_count: nat, timing: GooTimingModel) -> nat {
    let bottoms = bottom_layers(layer_count, timing);
    bottoms * layer_ms(stage_timing(timing, true), timing.delay_mode) + (layer_count - bottoms)
        as nat * layer_ms(stage_timing(timing, false), timing.delay_mode)
}

/// The whole seconds of a print of `layer_count` layers, as far as `u32` reaches.
#[verifier::opaque]
pub open spec fn print_time(layer_count: nat, timing: GooTimingModel) -> u32 {
    at_most_u32(print_ms(layer_count, timing) / 1000)
}

fn in_thousandths(x: Single) -> (r: u32)
    ensures
        r == thousandths(x),
{
    let p: Single = multiply(sanitize_non_negative(x), Single { bits: THOUSAND_BITS });
    if p.bits >= INFINITY_BITS {
        return u32::MAX;
    }
    let n: u64 = round(p);
    if n <= u32::MAX as u64 {
        n as u32
    } else {
        u32::MAX
    }
}

fn time_of_move(distance: Single, speed: Single) -> (r: u64)
    ensures
        r == move_ms(distance, speed),
        r <= u32::MAX * 60000,
{
    let d: u64 = in_thousandths(distance) as u64 * 60000;
    let s: u64 = in_thousandths(speed) as u64;
    if s == 0 {
        0
    } else {
        proof {
            vstd::arithmetic::div_mod::lemma_div_is_ordered_by_denominator(d as int, 1, s as int);
        }
        d / s
    }
}

fn time_of_layer(s: &StageTiming, delay_mode: u8) -> (r: u64)
    ensures
        r == layer_ms(*s, delay_mode),
        r <= u32::MAX * 240004,
{
    let moves: u64 = time_of_move(s.lift_distance, s.lift_speed) + time_of_move(
        s.lift_distance2,
        s.lift_speed2,
    ) + time_of_move(s.retract_distance, s.retract_speed) + time_of_move(
        s.retract_distance2,
        s.retract_speed2,
    );
    let exposure: u64 = in_thousandths(s.exposure) as u64;
    if delay_mode == 0 {
        let delay: u64 = in_thousandths(s.light_off) as u64;
        exposure + if delay > moves {
            delay
        } else {
            moves
        }
    } else {
        exposure + in_thousandths(s.wait_before_cure) as u64 + in_thousandths(s.wait_after_cure)
            as u64 + moves + in_thousandths(s.wait_after_lift) as u64
    }
}

/// The whole seconds of a print of `layer_count` layers, as far as `u32` reaches.
pub fn compute_print_time_seconds(layer_count: usize, timing: &GooTimingModel) -> (r: u32)
    ensures
        r == print_time(layer_count as nat, *timing),
{
    proof {
        reveal(print_time);
    }
    let count: u64 = layer_count as u64;
    let bottoms: u64 = if count < timing.bottom_layer_count as u64 {
        count
    } else {
        timing.bottom_layer_count as u64
    };
    let bottom: u64 = time_of_layer(&pick_timing(timing, true), timing.delay_mode);
    let normal: u64 = time_of_layer(&pick_timing(timing, false), timing.delay_mode);
    let others: u64 = count - bottoms;
    assert(bottoms * bottom <= u64::MAX * (u32::MAX * 240004) && others * normal <= u64::MAX * (
    u32::MAX * 240004)) by (nonlinear_arith)
        requires
            0 <= bottoms <= u64::MAX,
            0 <= others <= u64::MAX,
            0 <= bottom <= u32::MAX * 240004,
            0 <= normal <= u32::MAX * 240004,
    ;
    let ms: u128 = bottoms as u128 * bottom as u128 + others as u128 * normal as u128;
    let secs: u128 = ms / 1000;
    if secs <= u32::MAX as u128 {
        secs as u32
    } else {
        u32::MAX
    }
}

/// More layers do not take less time.
pub proof fn law_more_layers_take_no_less_time(few: nat, many: nat, timing: GooTimingModel)
    requires
        few <= many,
    ensures
        print_time(few, timing) <= print_time(many, timing),
{
    reveal(print_time);
    let (b, c) = (bottom_layers(few, timing), bottom_layers(many, timing));
    let bottom = layer_ms(stage_timing(timing, true), timing.delay_mode);
    let normal = layer_ms(stage_timing(timing, false), timing.delay_mode);
    let (m, n) = ((few - b) as nat, (many - c) as nat);
    assert(b * bottom <= c * bottom && m * normal <= n * normal) by (nonlinear_arith)
        requires
            0 <= b <= c,
            0 <= m <= n,
            bottom >= 0,
            normal >= 0,
    ;
}

/// The milliseconds of a move: the distance over the speed, rounded down.
pub open spec fn time_to_move(distance: Single, speed: Single) -> int {
    if thousandths(speed) == 0 {
        0
    } else {
        thousandths(distance) as int * 60 * 1000 / thousandths(speed) as int
    }
}

/// The milliseconds that a layer takes: the exposure, lifting in two stages, retracting in two
/// stages and the waits. With a delay, the light is off for as long as the moves take, or for
/// the delay where that is longer.
pub open spec fn time_to_print(t: GooTimingModel, bottom: bool) -> int {
    let pick = |of_bottom: Single, of_others: Single| if bottom {
        of_bottom
    } else {
        of_others
    };
    let ms = |of_bottom: Single, of_others: Single| thousandths(pick(of_bottom, of_others)) as int;
    let moves = time_to_move(
        pick(t.bottom_lift_distance_mm, t.lift_distance_mm),
        pick(t.bottom_lift_speed_mm_min, t.lift_speed_mm_min),
    ) + time_to_move(
        pick(t.bottom_lift_distance2_mm, t.lift_distance2_mm),
        pick(t.bottom_lift_speed2_mm_min, t.lift_speed2_mm_min),
    ) + time_to_move(
        pick(t.bottom_retract_distance_mm, t.retract_distance_mm),
        pick(t.bottom_retract_speed_mm_min, t.retract_speed_mm_min),
    ) + time_to_move(
        pick(t.bottom_retract_distance2_mm, t.retract_distance2_mm),
        pick(t.bottom_retract_speed2_mm_min, t.retract_speed2_mm_min),
    );
    let exposure = ms(t.bottom_exposure_sec, t.normal_exposure_sec);
    let delay = ms(t.bottom_light_off_delay_sec, t.light_off_delay_sec);
    let waits = ms(t.bottom_wait_time_before_cure_sec, t.wait_time_before_cure_sec) + ms(
        t.bottom_wait_time_after_cure_sec,
        t.wait_time_after_cure_sec,
    ) + ms(t.bottom_wait_time_after_lift_sec, t.wait_time_after_lift_sec);
    if t.delay_mode != 0 {
        exposure + waits + moves
    } else if delay >= moves {
        exposure + delay
    } else {
        exposure + moves
    }
}

/// The milliseconds that layers take one after the other, the bottom layers first.
pub open spec fn time_to_print_all(t: GooTimingModel, n: nat) -> int
    decreases n,
{
    if n == 0 {
        0
    } else {
        time_to_print_all(t, (n - 1) as nat) + time_to_print(t, n <= t.bottom_layer_count)
    }
}

/// The sum over the layers, the bottom layers and the others taken together.
#[verifier::rlimit(40)]
proof fn lemma_all(t: GooTimingModel, n: nat)
    ensures
        print_ms(n, t) == time_to_print_all(t, n),
    decreases n,
{
    let bottom = layer_ms(stage_timing(t, true), t.delay_mode);
    let normal = layer_ms(stage_timing(t, false), t.delay_mode);
    assert(bottom == time_to_print(t, true));
    assert(normal == time_to_print(t, false));
    if n == 0 {
        assert(0 * bottom == 0 && 0 * normal == 0);
    } else {
        lemma_all(t, (n - 1) as nat);
        let b = bottom_layers((n - 1) as nat, t);
        let m = (n - 1 - b) as nat;
        assert((b + 1) * bottom == b * bottom + bottom) by (nonlinear_arith);
        assert((m + 1) * normal == m * normal + normal) by (nonlinear_arith);
    }
}

/// A print takes the sum of what its layers take, in whole seconds, as far as 32 bits reach.
pub proof fn law_print_takes_the_sum_of_its_layers(t: GooTimingModel, n: nat)
    ensures
        time_to_print_all(t, n) / 1000 <= u32::MAX ==> print_time(n, t) == time_to_print_all(t, n)
            / 1000,
        time_to_print_all(t, n) / 1000 > u32::MAX ==> print_time(n, t) == u32::MAX,
{
    reveal(print_time);
    lemma_all(t, n);
}

/// The thousandths of a value of up to 4096 are off by less than one. What is zero, negative or
/// no finite number has none.
pub proof fn law_thousandths_are_near(x: Single)
    ensures
        x.bits == 0 || x.bits >= INFINITY_BITS ==> thousandths(x) == 0,
        x.bits < INFINITY_BITS && steps(x.bits) <= 4096 * pow2(149) ==> {
            &&& thousandths(x) * pow2(149) < 1000 * steps(x.bits) + pow2(149)
            &&& 1000 * steps(x.bits) < thousandths(x) * pow2(149) + pow2(149)
        },
{
    let p = pow2(149);
    let s = steps(sanitized(x).bits);
    let top: u32 = 0x4A80_0000;
    let out = product(sanitized(x), Single { bits: THOUSAND_BITS });
    let v = steps(out.bits);
    lemma2_to64();
    lemma_pow2_pos(149);
    lemma_pow2_adds(14, 135);
    lemma_pow2_adds(1, 149);
    lemma_pow2_adds(23, 126);
    lemma_pow2_adds(22, 126);
    assert(THOUSAND_BITS / 0x80_0000 == 136 && THOUSAND_BITS % 0x80_0000 == 0x7A_0000);
    assert(steps(THOUSAND_BITS) == 1000 * p) by {
        let q = pow2(135);
        assert(0xFA_0000 * q == 1000 * (0x4000 * q)) by (nonlinear_arith);
    }
    assert(top / 0x80_0000 == 149 && top % 0x80_0000 == 0);
    assert(steps(top) == 0x40_0000 * p) by {
        lemma_pow2_adds(22, 149);
        lemma_pow2_adds(23, 148);
    }
    assert(steps(0) == 0);
    if s <= 4096 * p {
        let n = s * (1000 * p);
        assert(n <= steps(top) * p) by (nonlinear_arith)
            requires
                n == s * (1000 * p),
                s <= 4096 * p,
                steps(top) == 0x40_0000 * p,
                p > 0,
        ;
        lemma_nearest_at_most(n, p, top);
        lemma_steps_monotone(out.bits, top);
        law_rounding_error_is_small(n, p);
        let exact = 1000 * s;
        assert(n == exact * p) by (nonlinear_arith)
            requires
                n == s * (1000 * p),
                exact == 1000 * s,
        ;
        let off = if v >= exact {
            v - exact
        } else {
            exact - v
        };
        assert(0x100_0000 * off <= v + 0x80_0000) by (nonlinear_arith)
            requires
                off == (if v >= exact {
                    v - exact
                } else {
                    exact - v
                }),
                0x100_0000 * distance(exact * p, p, v) <= (v + 0x80_0000) * p,
                distance(exact * p, p, v) == (if v * p >= exact * p {
                    v * p - exact * p
                } else {
                    exact * p - v * p
                }),
                p > 0,
        {
            assert(distance(exact * p, p, v) == off * p);
        }
        lemma_pow2_strictly_increases(64, 149);
        let len = rounded_int(out);
        assert(len * (2 * p) <= 2 * v + p < (len + 1) * (2 * p)) by (nonlinear_arith)
            requires
                len == (2 * v + p) / (2 * p),
                p > 0,
                v >= 0,
        ;
        assert(len <= 0x40_0000) by (nonlinear_arith)
            requires
                len * (2 * p) <= 2 * v + p,
                v <= 0x40_0000 * p,
                p > 0,
        ;
        assert(len * (2 * p) == 2 * (len * p) && (len + 1) * (2 * p) == 2 * (len * p) + 2 * p)
            by (nonlinear_arith);
        assert(thousandths(x) == len);
        if s == 0 {
            assert(v == 0) by {
                lemma_nearest_at_most(0, p, 0);
            }
            assert(len == 0) by (nonlinear_arith)
                requires
                    len * (2 * p) <= 2 * v + p,
                    v == 0,
                    p > 0,
            ;
        }
    }
}

} // verus!
