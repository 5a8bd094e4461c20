//! What the metadata of a job says of thresholds, timing, machine and profile.
//!
//! A setting may stand in more than one place of the metadata; each reading has its order
//! of places, and the first that holds a value of the right type counts.

use vstd::prelude::*;

use crate::bytes::{low_u16, low_u32};
use crate::calendar::{datetime_text, now_datetime_string, LAST_SECOND};
use crate::json::{
    at, bool_of, field, field_bool, field_single, field_str, field_u64, json_parsed, nodes_of,
    parse_json, single_of, text_of, text_view, u64_of, JsonDoc,
};
use crate::single::{
    above_zero, is_plain, is_positive, lemma_pwm_level, pwm_byte, pwm_level, sanitize_non_negative, sanitized, Single,
    HUNDRED_BITS,
};
use crate::text::{is_named, normalized};
use crate::types::{
    GooBuildModel, GooTimingModel, SliceJobV3, DEFAULT_BINARY_THRESHOLD, DEFAULT_MACHINE_NAME,
    DEFAULT_MACHINE_TYPE, DEFAULT_MACHINE_Z_BITS, DEFAULT_PROFILE_NAME,
};

verus! {

/// The pattern of 60.
pub const TILTING_LIFT_SPEED_BITS: u32 = 0x4270_0000;

/// The pattern of 150.
pub const TILTING_RETRACT_SPEED_BITS: u32 = 0x4316_0000;

/// The pattern of 6, a distance that stands in the timing model of unreadable metadata.
pub const FALLBACK_DISTANCE_BITS: u32 = 0x40C0_0000;

/// The pattern of 90, a speed that stands in the timing model of unreadable metadata.
pub const FALLBACK_SPEED_BITS: u32 = 0x42B4_0000;

/// `a`, or `b` where `a` is missing.
pub open spec fn first<T>(a: Option<T>, b: Option<T>) -> Option<T> {
    if a is Some {
        a
    } else {
        b
    }
}

/// The threshold that the readings of its three places give.
pub open spec fn threshold_of(
    direct: Option<u64>,
    nested: Option<u64>,
    material: Option<u64>,
) -> u8 {
    match first(direct, first(nested, material)) {
        Some(v) => if v > 255 {
            255
        } else {
            v as u8
        },
        None => DEFAULT_BINARY_THRESHOLD,
    }
}

/// The threshold that metadata asks for.
pub open spec fn metadata_threshold(doc: Option<JsonDoc>) -> u8 {
    threshold_of(
        u64_of(at(at(doc, "goo"@), "binaryThreshold"@)),
        u64_of(at(at(at(doc, "export"@), "goo"@), "binaryThreshold"@)),
        u64_of(at(at(doc, "material"@), "binaryThreshold"@)),
    )
}

/// The threshold that the readings of its three places give.
pub fn threshold_from_readings(
    direct: Option<u64>,
    nested: Option<u64>,
    material: Option<u64>,
) -> (r: u8)
    ensures
        r == threshold_of(direct, nested, material),
{
    let chosen: Option<u64> = match direct {
        Some(v) => Some(v),
        None => match nested {
            Some(v) => Some(v),
            None => material,
        },
    };
    match chosen {
        Some(v) => if v > 255 {
            255
        } else {
            v as u8
        },
        None => DEFAULT_BINARY_THRESHOLD,
    }
}

/// The threshold that metadata asks for: above it, a mask shows as white.
pub fn parse_threshold_from_metadata(metadata_json: &str) -> (r: u8)
    ensures
        r == metadata_threshold(json_parsed(metadata_json@)),
{
    match parse_json(metadata_json) {
        None => DEFAULT_BINARY_THRESHOLD,
        Some(meta) => {
            let doc = Some(&meta);
            threshold_from_readings(
                field_u64(field(field(doc, "goo"), "binaryThreshold")),
                field_u64(field(field(field(doc, "export"), "goo"), "binaryThreshold")),
                field_u64(field(field(doc, "material"), "binaryThreshold")),
            )
        },
    }
}

/// How the settings of a material are to be read.
#[derive(Debug, Clone, Copy, PartialEq, Eq, Structural)]
pub enum SettingsMode {
    /// One stage of lift and retract.
    Simple,
    /// The vat tilts, and does so at fixed speeds.
    Tilting,
    /// Every setting counts.
    Other,
}

/// The mode that a text names.
pub open spec fn mode_of(name: Option<Seq<char>>) -> SettingsMode {
    match name {
        Some(text) => if normalized(text) == "simple"@ {
            SettingsMode::Simple
        } else if normalized(text) == "tilting"@ {
            SettingsMode::Tilting
        } else {
            SettingsMode::Other
        },
        None => SettingsMode::Other,
    }
}

/// The mode that a text names. White space around the name and its letter case do not
/// matter.
pub fn settings_mode(name: Option<&str>) -> (r: SettingsMode)
    ensures
        r == mode_of(text_view(name)),
{
    match name {
        Some(text) => if is_named(text, "simple") {
            SettingsMode::Simple
        } else if is_named(text, "tilting") {
            SettingsMode::Tilting
        } else {
            SettingsMode::Other
        },
        None => SettingsMode::Other,
    }
}

/// The settings of a material as the metadata has them.
#[derive(Debug, Clone, Copy, PartialEq, Eq)]
pub struct TimingReadings {
    pub mode: SettingsMode,
    pub bottom_layer_count: Option<u64>,
    pub transition_layer_count: Option<u64>,
    pub normal_exposure_sec: Option<Single>,
    pub bottom_exposure_sec: Option<Single>,
    pub light_off_delay_sec: Option<Single>,
    pub bottom_light_off_delay_sec: Option<Single>,
    pub lift_distance_mm: Option<Single>,
    pub lift_distance2_mm: Option<Single>,
    pub lift_speed_mm_min: Option<Single>,
    pub lift_speed2_mm_min: Option<Single>,
    pub retract_distance_mm: Option<Single>,
    pub retract_distance2_mm: Option<Single>,
    pub retract_speed_mm_min: Option<Single>,
    pub retract_speed2_mm_min: Option<Single>,
    pub bottom_lift_distance_mm: Option<Single>,
    pub bottom_lift_distance2_mm: Option<Single>,
    pub bottom_lift_speed_mm_min: Option<Single>,
    pub bottom_lift_speed2_mm_min: Option<Single>,
    pub bottom_retract_distance_mm: Option<Single>,
    pub bottom_retract_distance2_mm: Option<Single>,
    pub bottom_retract_speed_mm_min: Option<Single>,
    pub bottom_retract_speed2_mm_min: Option<Single>,
    pub wait_time_before_cure_sec: Option<Single>,
    pub wait_time_after_cure_sec: Option<Single>,
    pub wait_time_after_lift_sec: Option<Single>,
    pub bottom_wait_time_before_cure_sec: Option<Single>,
    pub bottom_wait_time_after_cure_sec: Option<Single>,
    pub bottom_wait_time_after_lift_sec: Option<Single>,
    pub layer_height_mm: Option<Single>,
    pub projector_pwm_percent: Option<Single>,
    pub bottom_projector_pwm_percent: Option<Single>,
    pub bottom_layer_projector_pwm_percent: Option<Single>,
}

/// The places where a setting of a material may stand, the first to be asked in front.
pub open spec fn places(doc: JsonDoc) -> Seq<Option<JsonDoc>> {
    seq![
        at(Some(doc), "goo"@),
        at(at(Some(doc), "export"@), "goo"@),
        at(Some(doc), "ctb"@),
        at(at(Some(doc), "export"@), "ctb"@),
        at(Some(doc), "material"@),
    ]
}

/// The number under `key` in the first of the places that has one.
pub open spec fn single_in(places: Seq<Option<JsonDoc>>, key: Seq<char>) -> Option<Single>
    decreases places.len(),
{
    if places.len() == 0 {
        None
    } else {
        first(single_of(at(places[0], key)), single_in(places.drop_first(), key))
    }
}

/// The unsigned integer under `key` in the first of the places that has one.
pub open spec fn u64_in(places: Seq<Option<JsonDoc>>, key: Seq<char>) -> Option<u64>
    decreases places.len(),
{
    if places.len() == 0 {
        None
    } else {
        first(u64_of(at(places[0], key)), u64_in(places.drop_first(), key))
    }
}

/// The name of the settings mode.
pub open spec fn mode_name(doc: JsonDoc) -> Option<Seq<char>> {
    let goo = at(Some(doc), "goo"@);
    let export_goo = at(at(Some(doc), "export"@), "goo"@);
    let printer = at(Some(doc), "printer"@);
    first(
        text_of(at(goo, "settingsMode"@)),
        first(
            text_of(at(goo, "mode"@)),
            first(
                text_of(at(export_goo, "settingsMode"@)),
                first(
                    text_of(at(export_goo, "mode"@)),
                    first(
                        text_of(at(printer, "settingsMode"@)),
                        text_of(at(printer, "mode"@)),
                    ),
                ),
            ),
        ),
    )
}

/// What metadata says of timing.
pub open spec fn timing_readings(doc: JsonDoc) -> TimingReadings {
    let places = places(doc);
    TimingReadings {
        mode: mode_of(mode_name(doc)),
        bottom_layer_count: u64_in(places, "bottomLayerCount"@),
        transition_layer_count: u64_in(places, "transitionLayerCount"@),
        normal_exposure_sec: single_in(places, "normalExposureSec"@),
        bottom_exposure_sec: single_in(places, "bottomExposureSec"@),
        light_off_delay_sec: single_in(places, "lightOffDelaySec"@),
        bottom_light_off_delay_sec: single_in(places, "bottomLightOffDelaySec"@),
        lift_distance_mm: single_in(places, "liftDistanceMm"@),
        lift_distance2_mm: single_in(places, "liftDistance2Mm"@),
        lift_speed_mm_min: single_in(places, "liftSpeedMmMin"@),
        lift_speed2_mm_min: single_in(places, "liftSpeed2MmMin"@),
        retract_distance_mm: single_in(places, "retractDistanceMm"@),
        retract_distance2_mm: single_in(places, "retractDistance2Mm"@),
        retract_speed_mm_min: single_in(places, "retractSpeedMmMin"@),
        retract_speed2_mm_min: single_in(places, "retractSpeed2MmMin"@),
        bottom_lift_distance_mm: single_in(places, "bottomLiftDistanceMm"@),
        bottom_lift_distance2_mm: single_in(places, "bottomLiftDistance2Mm"@),
        bottom_lift_speed_mm_min: single_in(places, "bottomLiftSpeedMmMin"@),
        bottom_lift_speed2_mm_min: single_in(places, "bottomLiftSpeed2MmMin"@),
        bottom_retract_distance_mm: single_in(places, "bottomRetractDistanceMm"@),
        bottom_retract_distance2_mm: single_in(places, "bottomRetractDistance2Mm"@),
        bottom_retract_speed_mm_min: single_in(places, "bottomRetractSpeedMmMin"@),
        bottom_retract_speed2_mm_min: single_in(places, "bottomRetractSpeed2MmMin"@),
        wait_time_before_cure_sec: single_in(places, "waitTimeBeforeCureSec"@),
        wait_time_after_cure_sec: single_in(places, "waitTimeAfterCureSec"@),
        wait_time_after_lift_sec: single_in(places, "waitTimeAfterLiftSec"@),
        bottom_wait_time_before_cure_sec: single_in(places, "bottomWaitTimeBeforeCureSec"@),
        bottom_wait_time_after_cure_sec: single_in(places, "bottomWaitTimeAfterCureSec"@),
        bottom_wait_time_after_lift_sec: single_in(places, "bottomWaitTimeAfterLiftSec"@),
        layer_height_mm: single_in(places, "layerHeightMm"@),
        projector_pwm_percent: single_in(places, "projectorPwmPercent"@),
        bottom_projector_pwm_percent: single_in(places, "bottomProjectorPwmPercent"@),
        bottom_layer_projector_pwm_percent: single_in(places, "bottomLayerProjectorPwmPercent"@),
    }
}

/// The reading, if it is finite and above zero; else zero.
pub open spec fn usable(reading: Option<Single>) -> Single {
    match reading {
        Some(s) => sanitized(s),
        None => Single { bits: 0 },
    }
}

/// `a`, or `b` where `a` is not above zero.
pub open spec fn unless_zero(a: Single, b: Single) -> Single {
    if is_positive(a) {
        a
    } else {
        b
    }
}

/// A second stage of motion: nothing in simple mode.
pub open spec fn second_stage(mode: SettingsMode, reading: Option<Single>) -> Single {
    if mode is Simple {
        Single { bits: 0 }
    } else {
        usable(reading)
    }
}

/// A wait time of the bottom layers: in simple mode, the one of the other layers.
pub open spec fn bottom_wait(
    mode: SettingsMode,
    bottom: Option<Single>,
    normal: Option<Single>,
) -> Single {
    if mode is Simple {
        usable(normal)
    } else {
        usable(bottom)
    }
}

/// A percentage as a level; full level where it comes to nothing.
pub open spec fn light_level(percent: Single) -> u16 {
    if pwm_level(percent) == 0 {
        255
    } else {
        pwm_level(percent)
    }
}

/// The low 32 bits of a count; zero where there is none.
pub open spec fn count_of(reading: Option<u64>) -> u32 {
    match reading {
        Some(v) => (v % 0x1_0000_0000) as u32,
        None => 0,
    }
}

/// A setting that tilting overrides.
pub open spec fn tilted(mode: SettingsMode, tilting: Single, otherwise: Single) -> Single {
    if mode is Tilting {
        tilting
    } else {
        otherwise
    }
}

/// The timing that the settings of a material come to.
pub open spec fn timing_of(r: TimingReadings) -> GooTimingModel {
    let lift = usable(r.lift_distance_mm);
    let bottom_lift = unless_zero(usable(r.bottom_lift_distance_mm), lift);
    let tilt = match r.layer_height_mm {
        Some(height) => height,
        None => Single { bits: 0 },
    };
    let lift_speed = usable(r.lift_speed_mm_min);
    let retract_speed = usable(r.retract_speed_mm_min);
    let tilting_lift = Single { bits: TILTING_LIFT_SPEED_BITS };
    let tilting_retract = Single { bits: TILTING_RETRACT_SPEED_BITS };
    let percent = match r.projector_pwm_percent {
        Some(percent) => percent,
        None => Single { bits: HUNDRED_BITS },
    };
    let bottom_percent = match first(
        r.bottom_projector_pwm_percent,
        r.bottom_layer_projector_pwm_percent,
    ) {
        Some(percent) => percent,
        None => percent,
    };
    let before_cure = usable(r.wait_time_before_cure_sec);
    let after_cure = usable(r.wait_time_after_cure_sec);
    let after_lift = usable(r.wait_time_after_lift_sec);
    let bottom_before_cure = bottom_wait(
        r.mode,
        r.bottom_wait_time_before_cure_sec,
        r.wait_time_before_cure_sec,
    );
    let bottom_after_cure = bottom_wait(
        r.mode,
        r.bottom_wait_time_after_cure_sec,
        r.wait_time_after_cure_sec,
    );
    let bottom_after_lift = bottom_wait(
        r.mode,
        r.bottom_wait_time_after_lift_sec,
        r.wait_time_after_lift_sec,
    );
    GooTimingModel {
        normal_exposure_sec: usable(r.normal_exposure_sec),
        bottom_exposure_sec: usable(r.bottom_exposure_sec),
        light_off_delay_sec: usable(r.light_off_delay_sec),
        bottom_light_off_delay_sec: usable(r.bottom_light_off_delay_sec),
        bottom_layer_count: count_of(r.bottom_layer_count),
        lift_distance_mm: tilted(r.mode, tilt, lift),
        lift_distance2_mm: second_stage(r.mode, r.lift_distance2_mm),
        lift_speed_mm_min: tilted(r.mode, tilting_lift, lift_speed),
        lift_speed2_mm_min: second_stage(r.mode, r.lift_speed2_mm_min),
        retract_distance_mm: unless_zero(usable(r.retract_distance_mm), lift),
        retract_distance2_mm: second_stage(r.mode, r.retract_distance2_mm),
        retract_speed_mm_min: tilted(r.mode, tilting_retract, retract_speed),
        retract_speed2_mm_min: second_stage(r.mode, r.retract_speed2_mm_min),
        bottom_lift_distance_mm: tilted(r.mode, tilt, bottom_lift),
        bottom_lift_distance2_mm: second_stage(r.mode, r.bottom_lift_distance2_mm),
        bottom_lift_speed_mm_min: tilted(
            r.mode,
            tilting_lift,
            unless_zero(usable(r.bottom_lift_speed_mm_min), lift_speed),
        ),
        bottom_lift_speed2_mm_min: second_stage(r.mode, r.bottom_lift_speed2_mm_min),
        bottom_retract_distance_mm: unless_zero(
            usable(r.bottom_retract_distance_mm),
            bottom_lift,
        ),
        bottom_retract_distance2_mm: second_stage(r.mode, r.bottom_retract_distance2_mm),
        bottom_retract_speed_mm_min: tilted(
            r.mode,
            tilting_retract,
            unless_zero(usable(r.bottom_retract_speed_mm_min), retract_speed),
        ),
        bottom_retract_speed2_mm_min: second_stage(r.mode, r.bottom_retract_speed2_mm_min),
        wait_time_before_cure_sec: before_cure,
        wait_time_after_cure_sec: after_cure,
        wait_time_after_lift_sec: after_lift,
        bottom_wait_time_before_cure_sec: bottom_before_cure,
        bottom_wait_time_after_cure_sec: bottom_after_cure,
        bottom_wait_time_after_lift_sec: bottom_after_lift,
        transition_layer_count: if count_of(r.transition_layer_count) > u16::MAX {
            u16::MAX
        } else {
            count_of(r.transition_layer_count) as u16
        },
        light_pwm: light_level(percent),
        bottom_light_pwm: light_level(bottom_percent),
        delay_mode: if is_positive(before_cure) || is_positive(after_cure) || is_positive(
            after_lift,
        ) || is_positive(bottom_before_cure) || is_positive(bottom_after_cure) || is_positive(
            bottom_after_lift,
        ) {
            1
        } else {
            0
        },
    }
}

/// The timing model of metadata that cannot be read.
pub open spec fn fallback_timing() -> GooTimingModel {
    let zero = Single { bits: 0 };
    let distance = Single { bits: FALLBACK_DISTANCE_BITS };
    GooTimingModel {
        normal_exposure_sec: zero,
        bottom_exposure_sec: zero,
        light_off_delay_sec: zero,
        bottom_light_off_delay_sec: zero,
        bottom_layer_count: 0,
        lift_distance_mm: zero,
        lift_distance2_mm: zero,
        lift_speed_mm_min: zero,
        lift_speed2_mm_min: zero,
        retract_distance_mm: distance,
        retract_distance2_mm: zero,
        retract_speed_mm_min: zero,
        retract_speed2_mm_min: zero,
        bottom_lift_distance_mm: zero,
        bottom_lift_distance2_mm: zero,
        bottom_lift_speed_mm_min: zero,
        bottom_lift_speed2_mm_min: zero,
        bottom_retract_distance_mm: distance,
        bottom_retract_distance2_mm: zero,
        bottom_retract_speed_mm_min: Single { bits: FALLBACK_SPEED_BITS },
        bottom_retract_speed2_mm_min: zero,
        wait_time_before_cure_sec: zero,
        wait_time_after_cure_sec: zero,
        wait_time_after_lift_sec: zero,
        bottom_wait_time_before_cure_sec: zero,
        bottom_wait_time_after_cure_sec: zero,
        bottom_wait_time_after_lift_sec: zero,
        transition_layer_count: 0,
        light_pwm: 255,
        bottom_light_pwm: 255,
        delay_mode: 0,
    }
}

/// The timing model of metadata.
pub open spec fn metadata_timing(doc: Option<JsonDoc>) -> GooTimingModel {
    match doc {
        Some(d) => timing_of(timing_readings(d)),
        None => fallback_timing(),
    }
}

/// The places where a setting of a material may stand.
struct Places<'a> {
    goo: Option<&'a serde_json::Value>,
    export_goo: Option<&'a serde_json::Value>,
    ctb: Option<&'a serde_json::Value>,
    export_ctb: Option<&'a serde_json::Value>,
    material: Option<&'a serde_json::Value>,
}

impl<'a> Places<'a> {
    spec fn docs(self) -> Seq<Option<JsonDoc>> {
        seq![
            nodes_of(self.goo),
            nodes_of(self.export_goo),
            nodes_of(self.ctb),
            nodes_of(self.export_ctb),
            nodes_of(self.material),
        ]
    }

    fn read_single(&self, key: &str) -> (r: Option<Single>)
        ensures
            r == single_in(self.docs(), key@),
    {
        proof {
            lemma_single_in_five(self.docs(), key@);
        }
        let goo: Option<Single> = field_single(field(self.goo, key));
        if goo.is_some() {
            return goo;
        }
        let export_goo: Option<Single> = field_single(field(self.export_goo, key));
        if export_goo.is_some() {
            return export_goo;
        }
        let ctb: Option<Single> = field_single(field(self.ctb, key));
        if ctb.is_some() {
            return ctb;
        }
        let export_ctb: Option<Single> = field_single(field(self.export_ctb, key));
        if export_ctb.is_some() {
            return export_ctb;
        }
        field_single(field(self.material, key))
    }

    fn read_u64(&self, key: &str) -> (r: Option<u64>)
        ensures
            r == u64_in(self.docs(), key@),
    {
        proof {
            lemma_u64_in_five(self.docs(), key@);
        }
        let goo: Option<u64> = field_u64(field(self.goo, key));
        if goo.is_some() {
            return goo;
        }
        let export_goo: Option<u64> = field_u64(field(self.export_goo, key));
        if export_goo.is_some() {
            return export_goo;
        }
        let ctb: Option<u64> = field_u64(field(self.ctb, key));
        if ctb.is_some() {
            return ctb;
        }
        let export_ctb: Option<u64> = field_u64(field(self.export_ctb, key));
        if export_ctb.is_some() {
            return export_ctb;
        }
        field_u64(field(self.material, key))
    }
}

pub(crate) proof fn lemma_single_in_five(places: Seq<Option<JsonDoc>>, key: Seq<char>)
    requires
        places.len() == 5,
    ensures
        single_in(places, key) == first(
            single_of(at(places[0], key)),
            first(
                single_of(at(places[1], key)),
                first(
                    single_of(at(places[2], key)),
                    first(single_of(at(places[3], key)), single_of(at(places[4], key))),
                ),
            ),
        ),
{
    reveal_with_fuel(single_in, 6);
}

pub(crate) proof fn lemma_u64_in_five(places: Seq<Option<JsonDoc>>, key: Seq<char>)
    requires
        places.len() == 5,
    ensures
        u64_in(places, key) == first(
            u64_of(at(places[0], key)),
            first(
                u64_of(at(places[1], key)),
                first(
                    u64_of(at(places[2], key)),
                    first(u64_of(at(places[3], key)), u64_of(at(places[4], key))),
                ),
            ),
        ),
{
    reveal_with_fuel(u64_in, 6);
}

/// The name of the settings mode.
fn read_mode_name<'a>(places: &Places<'a>, printer: Option<&'a serde_json::Value>) -> (r: Option<
    &'a str,
>)
    ensures
        text_view(r) == first(
            text_of(at(nodes_of(places.goo), "settingsMode"@)),
            first(
                text_of(at(nodes_of(places.goo), "mode"@)),
                first(
                    text_of(at(nodes_of(places.export_goo), "settingsMode"@)),
                    first(
                        text_of(at(nodes_of(places.export_goo), "mode"@)),
                        first(
                            text_of(at(nodes_of(printer), "settingsMode"@)),
                            text_of(at(nodes_of(printer), "mode"@)),
                        ),
                    ),
                ),
            ),
        ),
{
    let goo_settings: Option<&str> = field_str(field(places.goo, "settingsMode"));
    if goo_settings.is_some() {
        return goo_settings;
    }
    let goo_mode: Option<&str> = field_str(field(places.goo, "mode"));
    if goo_mode.is_some() {
        return goo_mode;
    }
    let export_settings: Option<&str> = field_str(field(places.export_goo, "settingsMode"));
    if export_settings.is_some() {
        return export_settings;
    }
    let export_mode: Option<&str> = field_str(field(places.export_goo, "mode"));
    if export_mode.is_some() {
        return export_mode;
    }
    let printer_settings: Option<&str> = field_str(field(printer, "settingsMode"));
    if printer_settings.is_some() {
        return printer_settings;
    }
    field_str(field(printer, "mode"))
}

fn or_zero(reading: Option<Single>) -> (r: Single)
    ensures
        r == (match reading {
            Some(s) => s,
            None => Single { bits: 0 },
        }),
{
    match reading {
        Some(s) => s,
        None => Single { bits: 0 },
    }
}

fn usable_reading(reading: Option<Single>) -> (r: Single)
    ensures
        r == usable(reading),
{
    sanitize_non_negative(or_zero(reading))
}

fn replace_zero(a: Single, b: Single) -> (r: Single)
    ensures
        r == unless_zero(a, b),
{
    if above_zero(a) {
        a
    } else {
        b
    }
}

fn read_count(reading: Option<u64>) -> (r: u32)
    ensures
        r == count_of(reading),
{
    match reading {
        Some(v) => low_u32(v),
        None => 0,
    }
}

fn read_light_level(percent: Single) -> (r: u16)
    ensures
        r == light_level(percent),
{
    let level: u16 = pwm_byte(percent);
    if level == 0 {
        255
    } else {
        level
    }
}

/// The timing that the settings of a material come to.
///
/// Values that are not finite or not above zero count as zero. A distance or speed of zero
/// takes over the one it falls back to. In simple mode the second stages are zero and the
/// bottom layers wait as the others do; in tilting mode the speeds are fixed and the lift
/// is one layer height. The wait times count as soon as one of them is above zero.
pub fn timing_from_readings(r: &TimingReadings) -> (timing: GooTimingModel)
    ensures
        timing == timing_of(*r),
{
    let zero: Single = Single { bits: 0 };
    let percent: Single = match r.projector_pwm_percent {
        Some(percent) => percent,
        None => Single { bits: HUNDRED_BITS },
    };
    let bottom_percent: Single = match r.bottom_projector_pwm_percent {
        Some(bottom) => bottom,
        None => match r.bottom_layer_projector_pwm_percent {
            Some(bottom) => bottom,
            None => percent,
        },
    };
    let transitions: u32 = read_count(r.transition_layer_count);
    let mut timing = GooTimingModel {
        normal_exposure_sec: usable_reading(r.normal_exposure_sec),
        bottom_exposure_sec: usable_reading(r.bottom_exposure_sec),
        light_off_delay_sec: usable_reading(r.light_off_delay_sec),
        bottom_light_off_delay_sec: usable_reading(r.bottom_light_off_delay_sec),
        bottom_layer_count: read_count(r.bottom_layer_count),
        lift_distance_mm: usable_reading(r.lift_distance_mm),
        lift_distance2_mm: usable_reading(r.lift_distance2_mm),
        lift_speed_mm_min: usable_reading(r.lift_speed_mm_min),
        lift_speed2_mm_min: usable_reading(r.lift_speed2_mm_min),
        retract_distance_mm: usable_reading(r.retract_distance_mm),
        retract_distance2_mm: usable_reading(r.retract_distance2_mm),
        retract_speed_mm_min: usable_reading(r.retract_speed_mm_min),
        retract_speed2_mm_min: usable_reading(r.retract_speed2_mm_min),
        bottom_lift_distance_mm: usable_reading(r.bottom_lift_distance_mm),
        bottom_lift_distance2_mm: usable_reading(r.bottom_lift_distance2_mm),
        bottom_lift_speed_mm_min: usable_reading(r.bottom_lift_speed_mm_min),
        bottom_lift_speed2_mm_min: usable_reading(r.bottom_lift_speed2_mm_min),
        bottom_retract_distance_mm: usable_reading(r.bottom_retract_distance_mm),
        bottom_retract_distance2_mm: usable_reading(r.bottom_retract_distance2_mm),
        bottom_retract_speed_mm_min: usable_reading(r.bottom_retract_speed_mm_min),
        bottom_retract_speed2_mm_min: usable_reading(r.bottom_retract_speed2_mm_min),
        wait_time_before_cure_sec: usable_reading(r.wait_time_before_cure_sec),
        wait_time_after_cure_sec: usable_reading(r.wait_time_after_cure_sec),
        wait_time_after_lift_sec: usable_reading(r.wait_time_after_lift_sec),
        bottom_wait_time_before_cure_sec: usable_reading(r.bottom_wait_time_before_cure_sec),
        bottom_wait_time_after_cure_sec: usable_reading(r.bottom_wait_time_after_cure_sec),
        bottom_wait_time_after_lift_sec: usable_reading(r.bottom_wait_time_after_lift_sec),
        transition_layer_count: if transitions > 0xFFFF {
            0xFFFF
        } else {
            transitions as u16
        },
        light_pwm: read_light_level(percent),
        bottom_light_pwm: read_light_level(bottom_percent),
        delay_mode: 1,
    };
    timing.retract_distance_mm = replace_zero(timing.retract_distance_mm, timing.lift_distance_mm);
    timing.bottom_lift_distance_mm =
    replace_zero(timing.bottom_lift_distance_mm, timing.lift_distance_mm);
    timing.bottom_lift_speed_mm_min =
    replace_zero(timing.bottom_lift_speed_mm_min, timing.lift_speed_mm_min);
    timing.bottom_retract_distance_mm =
    replace_zero(timing.bottom_retract_distance_mm, timing.bottom_lift_distance_mm);
    timing.bottom_retract_speed_mm_min =
    replace_zero(timing.bottom_retract_speed_mm_min, timing.retract_speed_mm_min);
    if r.mode == SettingsMode::Simple {
        timing.lift_distance2_mm = zero;
        timing.lift_speed2_mm_min = zero;
        timing.retract_distance2_mm = zero;
        timing.retract_speed2_mm_min = zero;
        timing.bottom_lift_distance2_mm = zero;
        timing.bottom_lift_speed2_mm_min = zero;
        timing.bottom_retract_distance2_mm = zero;
        timing.bottom_retract_speed2_mm_min = zero;
        timing.bottom_wait_time_before_cure_sec = timing.wait_time_before_cure_sec;
        timing.bottom_wait_time_after_cure_sec = timing.wait_time_after_cure_sec;
        timing.bottom_wait_time_after_lift_sec = timing.wait_time_after_lift_sec;
    }
    if r.mode == SettingsMode::Tilting {
        timing.lift_speed_mm_min = Single { bits: TILTING_LIFT_SPEED_BITS };
        timing.bottom_lift_speed_mm_min = Single { bits: TILTING_LIFT_SPEED_BITS };
        timing.retract_speed_mm_min = Single { bits: TILTING_RETRACT_SPEED_BITS };
        timing.bottom_retract_speed_mm_min = Single { bits: TILTING_RETRACT_SPEED_BITS };
        timing.lift_distance_mm = or_zero(r.layer_height_mm);
        timing.bottom_lift_distance_mm = or_zero(r.layer_height_mm);
    }
    timing.delay_mode = if above_zero(timing.wait_time_before_cure_sec) || above_zero(
        timing.wait_time_after_cure_sec,
    ) || above_zero(timing.wait_time_after_lift_sec) || above_zero(
        timing.bottom_wait_time_before_cure_sec,
    ) || above_zero(timing.bottom_wait_time_after_cure_sec) || above_zero(
        timing.bottom_wait_time_after_lift_sec,
    ) {
        1
    } else {
        0
    };
    timing
}

/// What metadata says of timing.
fn read_timing(meta: &serde_json::Value) -> (r: TimingReadings)
    ensures
        r == timing_readings(crate::json::json_nodes(*meta)),
{
    let doc: Option<&serde_json::Value> = Some(meta);
    let export: Option<&serde_json::Value> = field(doc, "export");
    let places = Places {
        goo: field(doc, "goo"),
        export_goo: field(export, "goo"),
        ctb: field(doc, "ctb"),
        export_ctb: field(export, "ctb"),
        material: field(doc, "material"),
    };
    let mode_name: Option<&str> = read_mode_name(&places, field(doc, "printer"));
    assert(places.docs() =~= self::places(crate::json::json_nodes(*meta)));
    TimingReadings {
        mode: settings_mode(mode_name),
        bottom_layer_count: places.read_u64("bottomLayerCount"),
        transition_layer_count: places.read_u64("transitionLayerCount"),
        normal_exposure_sec: places.read_single("normalExposureSec"),
        bottom_exposure_sec: places.read_single("bottomExposureSec"),
        light_off_delay_sec: places.read_single("lightOffDelaySec"),
        bottom_light_off_delay_sec: places.read_single("bottomLightOffDelaySec"),
        lift_distance_mm: places.read_single("liftDistanceMm"),
        lift_distance2_mm: places.read_single("liftDistance2Mm"),
        lift_speed_mm_min: places.read_single("liftSpeedMmMin"),
        lift_speed2_mm_min: places.read_single("liftSpeed2MmMin"),
        retract_distance_mm: places.read_single("retractDistanceMm"),
        retract_distance2_mm: places.read_single("retractDistance2Mm"),
        retract_speed_mm_min: places.read_single("retractSpeedMmMin"),
        retract_speed2_mm_min: places.read_single("retractSpeed2MmMin"),
        bottom_lift_distance_mm: places.read_single("bottomLiftDistanceMm"),
        bottom_lift_distance2_mm: places.read_single("bottomLiftDistance2Mm"),
        bottom_lift_speed_mm_min: places.read_single("bottomLiftSpeedMmMin"),
        bottom_lift_speed2_mm_min: places.read_single("bottomLiftSpeed2MmMin"),
        bottom_retract_distance_mm: places.read_single("bottomRetractDistanceMm"),
        bottom_retract_distance2_mm: places.read_single("bottomRetractDistance2Mm"),
        bottom_retract_speed_mm_min: places.read_single("bottomRetractSpeedMmMin"),
        bottom_retract_speed2_mm_min: places.read_single("bottomRetractSpeed2MmMin"),
        wait_time_before_cure_sec: places.read_single("waitTimeBeforeCureSec"),
        wait_time_after_cure_sec: places.read_single("waitTimeAfterCureSec"),
        wait_time_after_lift_sec: places.read_single("waitTimeAfterLiftSec"),
        bottom_wait_time_before_cure_sec: places.read_single("bottomWaitTimeBeforeCureSec"),
        bottom_wait_time_after_cure_sec: places.read_single("bottomWaitTimeAfterCureSec"),
        bottom_wait_time_after_lift_sec: places.read_single("bottomWaitTimeAfterLiftSec"),
        layer_height_mm: places.read_single("layerHeightMm"),
        projector_pwm_percent: places.read_single("projectorPwmPercent"),
        bottom_projector_pwm_percent: places.read_single("bottomProjectorPwmPercent"),
        bottom_layer_projector_pwm_percent: places.read_single("bottomLayerProjectorPwmPercent"),
    }
}

/// The timing model of metadata.
pub fn parse_timing_model_from_metadata(metadata_json: &str) -> (timing: GooTimingModel)
    ensures
        timing == metadata_timing(json_parsed(metadata_json@)),
{
    match parse_json(metadata_json) {
        None => {
            let zero: Single = Single { bits: 0 };
            GooTimingModel {
                normal_exposure_sec: zero,
                bottom_exposure_sec: zero,
                light_off_delay_sec: zero,
                bottom_light_off_delay_sec: zero,
                bottom_layer_count: 0,
                lift_distance_mm: zero,
                lift_distance2_mm: zero,
                lift_speed_mm_min: zero,
                lift_speed2_mm_min: zero,
                retract_distance_mm: Single { bits: FALLBACK_DISTANCE_BITS },
                retract_distance2_mm: zero,
                retract_speed_mm_min: zero,
                retract_speed2_mm_min: zero,
                bottom_lift_distance_mm: zero,
                bottom_lift_distance2_mm: zero,
                bottom_lift_speed_mm_min: zero,
                bottom_lift_speed2_mm_min: zero,
                bottom_retract_distance_mm: Single { bits: FALLBACK_DISTANCE_BITS },
                bottom_retract_distance2_mm: zero,
                bottom_retract_speed_mm_min: Single { bits: FALLBACK_SPEED_BITS },
                bottom_retract_speed2_mm_min: zero,
                wait_time_before_cure_sec: zero,
                wait_time_after_cure_sec: zero,
                wait_time_after_lift_sec: zero,
                bottom_wait_time_before_cure_sec: zero,
                bottom_wait_time_after_cure_sec: zero,
                bottom_wait_time_after_lift_sec: zero,
                transition_layer_count: 0,
                light_pwm: 255,
                bottom_light_pwm: 255,
                delay_mode: 0,
            }
        },
        Some(meta) => timing_from_readings(&read_timing(&meta)),
    }
}

/// What metadata says of the machine and the profile.
#[derive(Debug, Clone, Copy)]
pub struct BuildReadings<'a> {
    pub goo_machine_name: Option<&'a str>,
    pub printer_name: Option<&'a str>,
    pub goo_machine_type: Option<&'a str>,
    pub goo_profile_name: Option<&'a str>,
    pub material_name: Option<&'a str>,
    pub anti_aliasing_level: Option<u64>,
    pub grey_level: Option<u64>,
    pub blur_level: Option<u64>,
    pub mirror_x: Option<bool>,
    pub mirror_y: Option<bool>,
    pub build_height_mm: Option<Single>,
}

/// What metadata says of the machine and the profile, its texts as sequences.
pub struct BuildFields {
    pub goo_machine_name: Option<Seq<char>>,
    pub printer_name: Option<Seq<char>>,
    pub goo_machine_type: Option<Seq<char>>,
    pub goo_profile_name: Option<Seq<char>>,
    pub material_name: Option<Seq<char>>,
    pub anti_aliasing_level: Option<u64>,
    pub grey_level: Option<u64>,
    pub blur_level: Option<u64>,
    pub mirror_x: Option<bool>,
    pub mirror_y: Option<bool>,
    pub build_height_mm: Option<Single>,
}

impl<'a> View for BuildReadings<'a> {
    type V = BuildFields;

    open spec fn view(&self) -> BuildFields {
        BuildFields {
            goo_machine_name: text_view(self.goo_machine_name),
            printer_name: text_view(self.printer_name),
            goo_machine_type: text_view(self.goo_machine_type),
            goo_profile_name: text_view(self.goo_profile_name),
            material_name: text_view(self.material_name),
            anti_aliasing_level: self.anti_aliasing_level,
            grey_level: self.grey_level,
            blur_level: self.blur_level,
            mirror_x: self.mirror_x,
            mirror_y: self.mirror_y,
            build_height_mm: self.build_height_mm,
        }
    }
}

/// The fields of a build model, its texts as sequences.
pub struct BuildModelView {
    pub machine_name: Seq<char>,
    pub machine_type: Seq<char>,
    pub profile_name: Seq<char>,
    pub anti_aliasing_level: u16,
    pub grey_level: u16,
    pub blur_level: u16,
    pub mirror_x: bool,
    pub mirror_y: bool,
    pub created_datetime: Seq<char>,
    pub machine_z_mm: Single,
}

impl View for GooBuildModel {
    type V = BuildModelView;

    open spec fn view(&self) -> BuildModelView {
        BuildModelView {
            machine_name: self.machine_name@,
            machine_type: self.machine_type@,
            profile_name: self.profile_name@,
            anti_aliasing_level: self.anti_aliasing_level,
            grey_level: self.grey_level,
            blur_level: self.blur_level,
            mirror_x: self.mirror_x,
            mirror_y: self.mirror_y,
            created_datetime: self.created_datetime@,
            machine_z_mm: self.machine_z_mm,
        }
    }
}

/// The text, or `default` where there is none.
pub open spec fn text_or(text: Option<Seq<char>>, default: Seq<char>) -> Seq<char> {
    match text {
        Some(t) => t,
        None => default,
    }
}

/// The low 16 bits of a level, or `default` where there is none.
pub open spec fn level_or(level: Option<u64>, default: u16) -> u16 {
    match level {
        Some(v) => (v % 0x1_0000) as u16,
        None => default,
    }
}

/// The build height, or the default one.
pub open spec fn build_height(reading: Option<Single>) -> Single {
    match reading {
        Some(height) => height,
        None => Single { bits: DEFAULT_MACHINE_Z_BITS },
    }
}

/// The build model that readings come to, for a file made at `created`.
pub open spec fn build_of(r: BuildFields, created: Seq<char>) -> BuildModelView {
    BuildModelView {
        machine_name: text_or(first(r.goo_machine_name, r.printer_name), DEFAULT_MACHINE_NAME@),
        machine_type: text_or(r.goo_machine_type, DEFAULT_MACHINE_TYPE@),
        profile_name: text_or(first(r.goo_profile_name, r.material_name), DEFAULT_PROFILE_NAME@),
        anti_aliasing_level: level_or(r.anti_aliasing_level, 8),
        grey_level: level_or(r.grey_level, 1),
        blur_level: level_or(r.blur_level, 0),
        mirror_x: r.mirror_x == Some(true),
        mirror_y: r.mirror_y == Some(true),
        created_datetime: created,
        machine_z_mm: build_height(r.build_height_mm),
    }
}

/// What metadata says of the machine and the profile.
pub open spec fn build_readings(doc: Option<JsonDoc>) -> BuildFields {
    let goo = at(doc, "goo"@);
    let printer = at(doc, "printer"@);
    BuildFields {
        goo_machine_name: text_of(at(goo, "MachineName"@)),
        printer_name: text_of(at(printer, "name"@)),
        goo_machine_type: text_of(at(goo, "MachineType"@)),
        goo_profile_name: text_of(at(goo, "ProfileName"@)),
        material_name: text_of(at(at(doc, "material"@), "name"@)),
        anti_aliasing_level: u64_of(at(goo, "antiAliasingLevel"@)),
        grey_level: u64_of(at(goo, "greyLevel"@)),
        blur_level: u64_of(at(goo, "blurLevel"@)),
        mirror_x: bool_of(at(goo, "mirrorX"@)),
        mirror_y: bool_of(at(goo, "mirrorY"@)),
        build_height_mm: single_of(at(at(printer, "buildVolumeMm"@), "height"@)),
    }
}

/// The build model of metadata, for a file made at `created`.
pub open spec fn metadata_build(doc: Option<JsonDoc>, created: Seq<char>) -> BuildModelView {
    build_of(build_readings(doc), created)
}

fn first_text<'a>(a: Option<&'a str>, b: Option<&'a str>) -> (r: Option<&'a str>)
    ensures
        text_view(r) == first(text_view(a), text_view(b)),
{
    if a.is_some() {
        a
    } else {
        b
    }
}

/// The text, or `default` where there is none.
pub fn text_or_default(text: Option<&str>, default: &str) -> (r: String)
    ensures
        r@ == text_or(text_view(text), default@),
{
    match text {
        Some(t) => t.to_string(),
        None => default.to_string(),
    }
}

fn level_or_default(level: Option<u64>, default: u16) -> (r: u16)
    ensures
        r == level_or(level, default),
{
    match level {
        Some(v) => low_u16(v),
        None => default,
    }
}

fn is_true(flag: Option<bool>) -> (r: bool)
    ensures
        r == (flag == Some(true)),
{
    match flag {
        Some(b) => b,
        None => false,
    }
}

/// The build height, or the default one.
pub fn build_height_or_default(reading: Option<Single>) -> (r: Single)
    ensures
        r == build_height(reading),
{
    match reading {
        Some(height) => height,
        None => Single { bits: DEFAULT_MACHINE_Z_BITS },
    }
}

/// The build model that readings come to, for a file made at `created_datetime`.
pub fn build_model_from_readings(r: &BuildReadings<'_>, created_datetime: String) -> (build:
    GooBuildModel)
    ensures
        build@ == build_of(r@, created_datetime@),
{
    GooBuildModel {
        machine_name: text_or_default(
            first_text(r.goo_machine_name, r.printer_name),
            DEFAULT_MACHINE_NAME,
        ),
        machine_type: text_or_default(r.goo_machine_type, DEFAULT_MACHINE_TYPE),
        profile_name: text_or_default(
            first_text(r.goo_profile_name, r.material_name),
            DEFAULT_PROFILE_NAME,
        ),
        anti_aliasing_level: level_or_default(r.anti_aliasing_level, 8),
        grey_level: level_or_default(r.grey_level, 1),
        blur_level: level_or_default(r.blur_level, 0),
        mirror_x: is_true(r.mirror_x),
        mirror_y: is_true(r.mirror_y),
        created_datetime,
        machine_z_mm: build_height_or_default(r.build_height_mm),
    }
}

/// The build model of a file made at `created_datetime`.
pub fn build_model_created_at(metadata_json: &str, created_datetime: String) -> (build:
    GooBuildModel)
    ensures
        build@ == metadata_build(json_parsed(metadata_json@), created_datetime@),
{
    let parsed: Option<serde_json::Value> = parse_json(metadata_json);
    let doc: Option<&serde_json::Value> = match &parsed {
        Some(meta) => Some(meta),
        None => None,
    };
    let goo: Option<&serde_json::Value> = field(doc, "goo");
    let printer: Option<&serde_json::Value> = field(doc, "printer");
    build_model_from_readings(
        &BuildReadings {
            goo_machine_name: field_str(field(goo, "MachineName")),
            printer_name: field_str(field(printer, "name")),
            goo_machine_type: field_str(field(goo, "MachineType")),
            goo_profile_name: field_str(field(goo, "ProfileName")),
            material_name: field_str(field(field(doc, "material"), "name")),
            anti_aliasing_level: field_u64(field(goo, "antiAliasingLevel")),
            grey_level: field_u64(field(goo, "greyLevel")),
            blur_level: field_u64(field(goo, "blurLevel")),
            mirror_x: field_bool(field(goo, "mirrorX")),
            mirror_y: field_bool(field(goo, "mirrorY")),
            build_height_mm: field_single(field(field(printer, "buildVolumeMm"), "height")),
        },
        created_datetime,
    )
}

/// The build model of metadata, for a file made now.
pub fn parse_build_model_from_metadata(metadata_json: &str) -> (build: GooBuildModel)
    ensures
        exists|secs: u64|
            secs <= LAST_SECOND && build@ == metadata_build(
                json_parsed(metadata_json@),
                #[trigger] datetime_text(secs as nat),
            ),
{
    build_model_created_at(metadata_json, now_datetime_string())
}

/// The text under `softwareVersion`.
pub open spec fn metadata_software(doc: Option<JsonDoc>) -> Option<Seq<char>> {
    text_of(at(at(doc, "goo"@), "softwareVersion"@))
}

/// The software version of metadata, or that of the engine.
pub fn parse_software_info_from_metadata(metadata_json: &str, engine_version: &str) -> (r: String)
    ensures
        r@ == text_or(metadata_software(json_parsed(metadata_json@)), engine_version@),
{
    match parse_json(metadata_json) {
        None => engine_version.to_string(),
        Some(meta) => text_or_default(
            field_str(field(field(Some(&meta), "goo"), "softwareVersion")),
            engine_version,
        ),
    }
}

/// The build height of metadata.
pub open spec fn metadata_height(doc: Option<JsonDoc>) -> Single {
    build_height(single_of(at(at(at(doc, "printer"@), "buildVolumeMm"@), "height"@)))
}

/// The build height of metadata, in millimetres.
pub fn parse_machine_z_from_metadata(metadata_json: &str) -> (r: Single)
    ensures
        r == metadata_height(json_parsed(metadata_json@)),
{
    match parse_json(metadata_json) {
        None => Single { bits: DEFAULT_MACHINE_Z_BITS },
        Some(meta) => build_height_or_default(
            field_single(
                field(field(field(Some(&meta), "printer"), "buildVolumeMm"), "height"),
            ),
        ),
    }
}

/// The build model of a job, for a file made now.
pub fn parse_goo_build_model_from_job(job: &SliceJobV3) -> (build: GooBuildModel)
    ensures
        exists|secs: u64|
            secs <= LAST_SECOND && build@ == metadata_build(
                json_parsed(job.metadata_json@),
                #[trigger] datetime_text(secs as nat),
            ),
{
    parse_build_model_from_metadata(&job.metadata_json)
}

/// The timing model of a job.
pub fn parse_timing_model_from_job(job: &SliceJobV3) -> (timing: GooTimingModel)
    ensures
        timing == metadata_timing(json_parsed(job.metadata_json@)),
{
    parse_timing_model_from_metadata(&job.metadata_json)
}

/// The threshold of a job.
pub fn parse_threshold_from_job(job: &SliceJobV3) -> (threshold: u8)
    ensures
        threshold == metadata_threshold(json_parsed(job.metadata_json@)),
{
    parse_threshold_from_metadata(&job.metadata_json)
}

/// The first place that holds a number under a key decides, whatever the places after it
/// hold; only where none does is there no reading.
pub proof fn law_first_place_decides(places: Seq<Option<JsonDoc>>, key: Seq<char>, i: int)
    requires
        0 <= i <= places.len(),
        forall|k: int| 0 <= k < i ==> single_of(at(#[trigger] places[k], key)) is None,
        i < places.len() ==> single_of(at(places[i], key)) is Some,
    ensures
        single_in(places, key) == (if i < places.len() {
            single_of(at(places[i], key))
        } else {
            None
        }),
    decreases places.len(),
{
    if places.len() > 0 && i > 0 {
        let rest = places.drop_first();
        assert(single_of(at(places[0], key)) is None);
        assert forall|k: int| 0 <= k < i - 1 implies single_of(
            at(#[trigger] rest[k], key),
        ) is None by {
            assert(rest[k] == places[k + 1]);
        }
        law_first_place_decides(rest, key, i - 1);
    }
}

/// The first place that holds a count under a key decides, whatever the places after it
/// hold; only where none does is there no reading.
pub proof fn law_first_place_decides_counts(places: Seq<Option<JsonDoc>>, key: Seq<char>, i: int)
    requires
        0 <= i <= places.len(),
        forall|k: int| 0 <= k < i ==> u64_of(at(#[trigger] places[k], key)) is None,
        i < places.len() ==> u64_of(at(places[i], key)) is Some,
    ensures
        u64_in(places, key) == (if i < places.len() {
            u64_of(at(places[i], key))
        } else {
            None
        }),
    decreases places.len(),
{
    if places.len() > 0 && i > 0 {
        let rest = places.drop_first();
        assert(u64_of(at(places[0], key)) is None);
        assert forall|k: int| 0 <= k < i - 1 implies u64_of(at(#[trigger] rest[k], key)) is None by {
            assert(rest[k] == places[k + 1]);
        }
        law_first_place_decides_counts(rest, key, i - 1);
    }
}

/// The delay mode tells whether any wait time is above zero.
pub proof fn law_delay_mode_tells_of_waits(doc: Option<JsonDoc>)
    ensures
        ({
            let t = metadata_timing(doc);
            t.delay_mode == (if is_positive(t.wait_time_before_cure_sec) || is_positive(
                t.wait_time_after_cure_sec,
            ) || is_positive(t.wait_time_after_lift_sec) || is_positive(
                t.bottom_wait_time_before_cure_sec,
            ) || is_positive(t.bottom_wait_time_after_cure_sec) || is_positive(
                t.bottom_wait_time_after_lift_sec,
            ) {
                1u8
            } else {
                0u8
            })
        }),
{
}

/// In simple mode there is no second stage, and the bottom layers wait as the others do.
pub proof fn law_simple_mode_has_one_stage(r: TimingReadings)
    requires
        r.mode is Simple,
    ensures
        ({
            let t = timing_of(r);
            let zero = Single { bits: 0 };
            &&& t.lift_distance2_mm == zero && t.lift_speed2_mm_min == zero
            &&& t.retract_distance2_mm == zero && t.retract_speed2_mm_min == zero
            &&& t.bottom_lift_distance2_mm == zero && t.bottom_lift_speed2_mm_min == zero
            &&& t.bottom_retract_distance2_mm == zero && t.bottom_retract_speed2_mm_min == zero
            &&& t.bottom_wait_time_before_cure_sec == t.wait_time_before_cure_sec
            &&& t.bottom_wait_time_after_cure_sec == t.wait_time_after_cure_sec
            &&& t.bottom_wait_time_after_lift_sec == t.wait_time_after_lift_sec
        }),
{
}

/// In tilting mode the speeds are fixed and every lift is one layer height, whatever the
/// other settings say.
pub proof fn law_tilting_mode_fixes_motion(r: TimingReadings)
    requires
        r.mode is Tilting,
    ensures
        ({
            let t = timing_of(r);
            let height = match r.layer_height_mm {
                Some(h) => h,
                None => Single { bits: 0 },
            };
            &&& t.lift_speed_mm_min.bits == TILTING_LIFT_SPEED_BITS
            &&& t.bottom_lift_speed_mm_min.bits == TILTING_LIFT_SPEED_BITS
            &&& t.retract_speed_mm_min.bits == TILTING_RETRACT_SPEED_BITS
            &&& t.bottom_retract_speed_mm_min.bits == TILTING_RETRACT_SPEED_BITS
            &&& t.lift_distance_mm == height
            &&& t.bottom_lift_distance_mm == height
        }),
{
}

/// The times, distances and speeds of a timing model are finite and not negative. A lift
/// in tilting mode is the layer height as it was read, and is left out here.
pub proof fn law_timing_is_sane(r: TimingReadings)
    ensures
        ({
            let t = timing_of(r);
            &&& is_plain(t.normal_exposure_sec) && is_plain(t.bottom_exposure_sec)
            &&& is_plain(t.light_off_delay_sec) && is_plain(t.bottom_light_off_delay_sec)
            &&& r.mode !is Tilting ==> is_plain(t.lift_distance_mm) && is_plain(
                t.bottom_lift_distance_mm,
            )
            &&& is_plain(t.lift_distance2_mm) && is_plain(t.bottom_lift_distance2_mm)
            &&& is_plain(t.lift_speed_mm_min) && is_plain(t.bottom_lift_speed_mm_min)
            &&& is_plain(t.lift_speed2_mm_min) && is_plain(t.bottom_lift_speed2_mm_min)
            &&& is_plain(t.retract_distance_mm) && is_plain(t.bottom_retract_distance_mm)
            &&& is_plain(t.retract_distance2_mm) && is_plain(t.bottom_retract_distance2_mm)
            &&& is_plain(t.retract_speed_mm_min) && is_plain(t.bottom_retract_speed_mm_min)
            &&& is_plain(t.retract_speed2_mm_min) && is_plain(t.bottom_retract_speed2_mm_min)
            &&& is_plain(t.wait_time_before_cure_sec) && is_plain(
                t.bottom_wait_time_before_cure_sec,
            )
            &&& is_plain(t.wait_time_after_cure_sec) && is_plain(t.bottom_wait_time_after_cure_sec)
            &&& is_plain(t.wait_time_after_lift_sec) && is_plain(t.bottom_wait_time_after_lift_sec)
        }),
{
}

/// The light is never off: its levels lie between 1 and 255.
pub proof fn law_light_levels_are_bytes(doc: Option<JsonDoc>)
    ensures
        1 <= metadata_timing(doc).light_pwm <= 255,
        1 <= metadata_timing(doc).bottom_light_pwm <= 255,
{
    if let Some(d) = doc {
        let r = timing_readings(d);
        let percent = match r.projector_pwm_percent {
            Some(percent) => percent,
            None => Single { bits: HUNDRED_BITS },
        };
        lemma_pwm_level(percent);
        match first(r.bottom_projector_pwm_percent, r.bottom_layer_projector_pwm_percent) {
            Some(bottom) => {
                lemma_pwm_level(bottom);
            },
            None => {},
        }
    }
}

/// The bottom layers are lit as the others are, unless a setting says otherwise.
pub proof fn law_bottom_light_follows(r: TimingReadings)
    requires
        r.bottom_projector_pwm_percent is None,
        r.bottom_layer_projector_pwm_percent is None,
    ensures
        timing_of(r).bottom_light_pwm == timing_of(r).light_pwm,
{
}

/// In every mode but the simple one, the second stages and the wait times of the bottom
/// layers are those that were read.
pub proof fn law_other_modes_keep_every_stage(r: TimingReadings)
    requires
        r.mode !is Simple,
    ensures
        ({
            let t = timing_of(r);
            &&& t.lift_distance2_mm == usable(r.lift_distance2_mm)
            &&& t.lift_speed2_mm_min == usable(r.lift_speed2_mm_min)
            &&& t.retract_distance2_mm == usable(r.retract_distance2_mm)
            &&& t.retract_speed2_mm_min == usable(r.retract_speed2_mm_min)
            &&& t.bottom_lift_distance2_mm == usable(r.bottom_lift_distance2_mm)
            &&& t.bottom_lift_speed2_mm_min == usable(r.bottom_lift_speed2_mm_min)
            &&& t.bottom_retract_distance2_mm == usable(r.bottom_retract_distance2_mm)
            &&& t.bottom_retract_speed2_mm_min == usable(r.bottom_retract_speed2_mm_min)
            &&& t.bottom_wait_time_before_cure_sec == usable(r.bottom_wait_time_before_cure_sec)
            &&& t.bottom_wait_time_after_cure_sec == usable(r.bottom_wait_time_after_cure_sec)
            &&& t.bottom_wait_time_after_lift_sec == usable(r.bottom_wait_time_after_lift_sec)
        }),
{
}

} // verus!
