//! What the settings of a job mean: which value of its metadata ends up where.

use vstd::arithmetic::power2::pow2;
use vstd::prelude::*;

use crate::container::{job_header, job_timing};
use crate::json::{at, bool_of, json_parsed, single_of, text_of, u64_of, JsonDoc};
use crate::metadata::{
    light_level, mode_name, mode_of,
};
use crate::single::{law_level_is_a_share_of_255, pwm_level, steps, Single};
use crate::stream::job_settings;
use crate::text::{is_white_space, law_names_match_but_for_space_and_case};
use crate::types::SliceJobV3;

verus! {

/// The number that the metadata of a job gives for a setting of its material. The first of
/// five places that has a number there counts: what is meant for this format, here or in
/// the export settings, then what is meant for a related format, then the material itself.
pub open spec fn told(doc: Option<JsonDoc>, key: Seq<char>) -> Option<u32> {
    let own = single_of(at(at(doc, "goo"@), key));
    let exported = single_of(at(at(at(doc, "export"@), "goo"@), key));
    let related = single_of(at(at(doc, "ctb"@), key));
    let related_exported = single_of(at(at(at(doc, "export"@), "ctb"@), key));
    let material = single_of(at(at(doc, "material"@), key));
    if own is Some {
        Some(own->0.bits)
    } else if exported is Some {
        Some(exported->0.bits)
    } else if related is Some {
        Some(related->0.bits)
    } else if related_exported is Some {
        Some(related_exported->0.bits)
    } else if material is Some {
        Some(material->0.bits)
    } else {
        None
    }
}

/// The whole number that the metadata of a job gives for a setting of its material, from
/// the same places.
pub open spec fn told_count(doc: Option<JsonDoc>, key: Seq<char>) -> Option<u64> {
    let own = u64_of(at(at(doc, "goo"@), key));
    let exported = u64_of(at(at(at(doc, "export"@), "goo"@), key));
    let related = u64_of(at(at(doc, "ctb"@), key));
    let related_exported = u64_of(at(at(at(doc, "export"@), "ctb"@), key));
    if own is Some {
        own
    } else if exported is Some {
        exported
    } else if related is Some {
        related
    } else if related_exported is Some {
        related_exported
    } else {
        u64_of(at(at(doc, "material"@), key))
    }
}

/// The pattern of a time, a distance or a speed that metadata gives: itself where it is
/// finite and above zero, else zero.
pub open spec fn amount(told: Option<u32>) -> u32 {
    match told {
        Some(bits) => if 0 < bits && bits < 0x7F80_0000 {
            bits
        } else {
            0
        },
        None => 0,
    }
}

/// The low 32 bits of a whole number that metadata gives.
pub open spec fn whole(told: Option<u64>) -> int {
    match told {
        Some(n) => n as int % 0x1_0000_0000,
        None => 0,
    }
}

/// The word for the mode: under `settingsMode` or else `mode`, in what is meant for this
/// format, in what the export settings mean for it, or in the printer.
pub open spec fn told_mode(doc: Option<JsonDoc>) -> Option<Seq<char>> {
    let own = at(doc, "goo"@);
    let exported = at(at(doc, "export"@), "goo"@);
    let printer = at(doc, "printer"@);
    if text_of(at(own, "settingsMode"@)) is Some {
        text_of(at(own, "settingsMode"@))
    } else if text_of(at(own, "mode"@)) is Some {
        text_of(at(own, "mode"@))
    } else if text_of(at(exported, "settingsMode"@)) is Some {
        text_of(at(exported, "settingsMode"@))
    } else if text_of(at(exported, "mode"@)) is Some {
        text_of(at(exported, "mode"@))
    } else if text_of(at(printer, "settingsMode"@)) is Some {
        text_of(at(printer, "settingsMode"@))
    } else {
        text_of(at(printer, "mode"@))
    }
}

/// A letter, capital or not.
pub open spec fn is_letter(c: char, small: char) -> bool {
    c == small || c as u32 + 32 == small as u32
}

/// From `from` on, a text is a word of small letters but for capital letters, and before and
/// behind the word there is nothing but white space.
pub open spec fn spells_at(text: Seq<char>, word: Seq<char>, from: int) -> bool {
    &&& 0 <= from
    &&& from + word.len() <= text.len()
    &&& forall|k: int| 0 <= k < from ==> is_white_space(#[trigger] text[k])
    &&& forall|k: int| from + word.len() <= k < text.len() ==> is_white_space(#[trigger] text[k])
    &&& forall|k: int| 0 <= k < word.len() ==> #[trigger] is_letter(text[from + k], word[k])
}

/// A text is a word of small letters but for white space around it and capital letters.
pub open spec fn spells(text: Seq<char>, word: Seq<char>) -> bool {
    exists|from: int| spells_at(text, word, from)
}

/// The metadata of a job ask for a mode by its word.
pub open spec fn asks_for(doc: Option<JsonDoc>, word: Seq<char>) -> bool {
    told_mode(doc) is Some && spells(told_mode(doc)->0, word)
}

/// The exposures, delays and waits of a job are those that its metadata give, each from its
/// own setting, in every mode. The one thing that a mode changes is that in the simple one
/// the bottom layers wait as the others do. The delay mode tells whether there is a wait.
pub proof fn law_times_of_a_job_are_those_told(job: SliceJobV3)
    ensures
        ({
            let doc = json_parsed(job.metadata_json@);
            let t = job_timing(job);
            let simple = asks_for(doc, "simple"@);
            &&& t.normal_exposure_sec.bits == amount(told(doc, "normalExposureSec"@))
            &&& t.bottom_exposure_sec.bits == amount(told(doc, "bottomExposureSec"@))
            &&& t.light_off_delay_sec.bits == amount(told(doc, "lightOffDelaySec"@))
            &&& t.bottom_light_off_delay_sec.bits == amount(told(doc, "bottomLightOffDelaySec"@))
            &&& t.bottom_layer_count == whole(told_count(doc, "bottomLayerCount"@))
            &&& t.transition_layer_count == if whole(told_count(doc, "transitionLayerCount"@))
                < 0xFFFF {
                whole(told_count(doc, "transitionLayerCount"@))
            } else {
                0xFFFF
            }
            &&& t.wait_time_before_cure_sec.bits == amount(told(doc, "waitTimeBeforeCureSec"@))
            &&& t.wait_time_after_cure_sec.bits == amount(told(doc, "waitTimeAfterCureSec"@))
            &&& t.wait_time_after_lift_sec.bits == amount(told(doc, "waitTimeAfterLiftSec"@))
            &&& t.bottom_wait_time_before_cure_sec.bits == amount(
                told(
                    doc,
                    if simple {
                        "waitTimeBeforeCureSec"@
                    } else {
                        "bottomWaitTimeBeforeCureSec"@
                    },
                ),
            )
            &&& t.bottom_wait_time_after_cure_sec.bits == amount(
                told(
                    doc,
                    if simple {
                        "waitTimeAfterCureSec"@
                    } else {
                        "bottomWaitTimeAfterCureSec"@
                    },
                ),
            )
            &&& t.bottom_wait_time_after_lift_sec.bits == amount(
                told(
                    doc,
                    if simple {
                        "waitTimeAfterLiftSec"@
                    } else {
                        "bottomWaitTimeAfterLiftSec"@
                    },
                ),
            )
            &&& t.delay_mode == if t.wait_time_before_cure_sec.bits > 0
                || t.wait_time_after_cure_sec.bits > 0 || t.wait_time_after_lift_sec.bits > 0
                || t.bottom_wait_time_before_cure_sec.bits > 0
                || t.bottom_wait_time_after_cure_sec.bits > 0
                || t.bottom_wait_time_after_lift_sec.bits > 0 {
                1int
            } else {
                0int
            }
        }),
{
    let doc = json_parsed(job.metadata_json@);
    lemma_modes(doc);
    match doc {
        Some(d) => {
            lemma_told(d, "normalExposureSec"@);
            lemma_told(d, "bottomExposureSec"@);
            lemma_told(d, "lightOffDelaySec"@);
            lemma_told(d, "bottomLightOffDelaySec"@);
            lemma_told(d, "waitTimeBeforeCureSec"@);
            lemma_told(d, "waitTimeAfterCureSec"@);
            lemma_told(d, "waitTimeAfterLiftSec"@);
            lemma_told(d, "bottomWaitTimeBeforeCureSec"@);
            lemma_told(d, "bottomWaitTimeAfterCureSec"@);
            lemma_told(d, "bottomWaitTimeAfterLiftSec"@);
            lemma_told_count(d, "bottomLayerCount"@);
            lemma_told_count(d, "transitionLayerCount"@);
        },
        None => {},
    }
}

/// The distances and speeds of a job are those that its metadata give, each from its own
/// setting. Where one is missing or zero, a bottom layer moves as the others do, and a retract
/// goes back as far as the lift went. In simple mode there is no second stage. In tilting mode
/// the lift is one layer height at 60, and the retract goes at 150 millimetres per minute.
pub proof fn law_moves_of_a_job_are_those_told(job: SliceJobV3)
    requires
        json_parsed(job.metadata_json@) is Some,
    ensures
        ({
            let doc = json_parsed(job.metadata_json@);
            let t = job_timing(job);
            let simple = asks_for(doc, "simple"@);
            let tilting = asks_for(doc, "tilting"@);
            let lift = amount(told(doc, "liftDistanceMm"@));
            let bottom_lift = if amount(told(doc, "bottomLiftDistanceMm"@)) > 0 {
                amount(told(doc, "bottomLiftDistanceMm"@))
            } else {
                lift
            };
            let tilt = if told(doc, "layerHeightMm"@) is Some {
                told(doc, "layerHeightMm"@)->0
            } else {
                0
            };
            &&& t.lift_distance_mm.bits == if tilting {
                tilt
            } else {
                lift
            }
            &&& t.bottom_lift_distance_mm.bits == if tilting {
                tilt
            } else {
                bottom_lift
            }
            &&& t.retract_distance_mm.bits == if amount(told(doc, "retractDistanceMm"@)) > 0 {
                amount(told(doc, "retractDistanceMm"@))
            } else {
                lift
            }
            &&& t.bottom_retract_distance_mm.bits == if amount(
                told(doc, "bottomRetractDistanceMm"@),
            ) > 0 {
                amount(told(doc, "bottomRetractDistanceMm"@))
            } else {
                bottom_lift
            }
            &&& t.lift_speed_mm_min.bits == if tilting {
                0x4270_0000
            } else {
                amount(told(doc, "liftSpeedMmMin"@))
            }
            &&& t.bottom_lift_speed_mm_min.bits == if tilting {
                0x4270_0000
            } else if amount(told(doc, "bottomLiftSpeedMmMin"@)) > 0 {
                amount(told(doc, "bottomLiftSpeedMmMin"@))
            } else {
                amount(told(doc, "liftSpeedMmMin"@))
            }
            &&& t.retract_speed_mm_min.bits == if tilting {
                0x4316_0000
            } else {
                amount(told(doc, "retractSpeedMmMin"@))
            }
            &&& t.bottom_retract_speed_mm_min.bits == if tilting {
                0x4316_0000
            } else if amount(told(doc, "bottomRetractSpeedMmMin"@)) > 0 {
                amount(told(doc, "bottomRetractSpeedMmMin"@))
            } else {
                amount(told(doc, "retractSpeedMmMin"@))
            }
            &&& t.lift_distance2_mm.bits == if simple {
                0
            } else {
                amount(told(doc, "liftDistance2Mm"@))
            }
            &&& t.lift_speed2_mm_min.bits == if simple {
                0
            } else {
                amount(told(doc, "liftSpeed2MmMin"@))
            }
            &&& t.retract_distance2_mm.bits == if simple {
                0
            } else {
                amount(told(doc, "retractDistance2Mm"@))
            }
            &&& t.retract_speed2_mm_min.bits == if simple {
                0
            } else {
                amount(told(doc, "retractSpeed2MmMin"@))
            }
            &&& t.bottom_lift_distance2_mm.bits == if simple {
                0
            } else {
                amount(told(doc, "bottomLiftDistance2Mm"@))
            }
            &&& t.bottom_lift_speed2_mm_min.bits == if simple {
                0
            } else {
                amount(told(doc, "bottomLiftSpeed2MmMin"@))
            }
            &&& t.bottom_retract_distance2_mm.bits == if simple {
                0
            } else {
                amount(told(doc, "bottomRetractDistance2Mm"@))
            }
            &&& t.bottom_retract_speed2_mm_min.bits == if simple {
                0
            } else {
                amount(told(doc, "bottomRetractSpeed2MmMin"@))
            }
        }),
{
    let doc = json_parsed(job.metadata_json@);
    let d = doc->0;
    lemma_modes(doc);
    lemma_told(d, "layerHeightMm"@);
    lemma_told(d, "liftDistanceMm"@);
    lemma_told(d, "liftDistance2Mm"@);
    lemma_told(d, "liftSpeedMmMin"@);
    lemma_told(d, "liftSpeed2MmMin"@);
    lemma_told(d, "retractDistanceMm"@);
    lemma_told(d, "retractDistance2Mm"@);
    lemma_told(d, "retractSpeedMmMin"@);
    lemma_told(d, "retractSpeed2MmMin"@);
    lemma_told(d, "bottomLiftDistanceMm"@);
    lemma_told(d, "bottomLiftDistance2Mm"@);
    lemma_told(d, "bottomLiftSpeedMmMin"@);
    lemma_told(d, "bottomLiftSpeed2MmMin"@);
    lemma_told(d, "bottomRetractDistanceMm"@);
    lemma_told(d, "bottomRetractDistance2Mm"@);
    lemma_told(d, "bottomRetractSpeedMmMin"@);
    lemma_told(d, "bottomRetractSpeed2MmMin"@);
}

/// A light level is the share of 255 that a percentage, by its pattern, stands for, to within
/// 0.51. It is full for a percentage of 100 or more, and where the share comes to nothing.
pub open spec fn lights_at(level: int, percent: u32) -> bool {
    let unit = pow2(149) as int;
    let exact = 255 * steps(percent);
    if percent == 0 || percent >= 0x42C8_0000 {
        level == 255
    } else {
        ||| level > 0 && -51 * unit <= level * (100 * unit) - exact <= 51 * unit
        ||| level == 255 && exact <= 51 * unit
    }
}

/// The light of a job is at the level that its metadata give as a percentage, full where they
/// give none. The bottom layers have a percentage of their own, under either of two names,
/// and else that of the others.
pub proof fn law_light_of_a_job_is_as_told(job: SliceJobV3)
    ensures
        ({
            let doc = json_parsed(job.metadata_json@);
            let t = job_timing(job);
            let percent = match told(doc, "projectorPwmPercent"@) {
                Some(bits) => bits,
                None => 0x42C8_0000,
            };
            let of_bottom = match told(doc, "bottomProjectorPwmPercent"@) {
                Some(bits) => bits,
                None => match told(doc, "bottomLayerProjectorPwmPercent"@) {
                    Some(bits) => bits,
                    None => percent,
                },
            };
            &&& lights_at(t.light_pwm as int, percent)
            &&& lights_at(t.bottom_light_pwm as int, of_bottom)
        }),
{
    let doc = json_parsed(job.metadata_json@);
    match doc {
        Some(d) => {
            lemma_told(d, "projectorPwmPercent"@);
            lemma_told(d, "bottomProjectorPwmPercent"@);
            lemma_told(d, "bottomLayerProjectorPwmPercent"@);
            let percent = match told(doc, "projectorPwmPercent"@) {
                Some(bits) => bits,
                None => 0x42C8_0000,
            };
            let of_bottom = match told(doc, "bottomProjectorPwmPercent"@) {
                Some(bits) => bits,
                None => match told(doc, "bottomLayerProjectorPwmPercent"@) {
                    Some(bits) => bits,
                    None => percent,
                },
            };
            lemma_lights(percent);
            lemma_lights(of_bottom);
        },
        None => {},
    }
}

proof fn lemma_lights(percent: u32)
    ensures
        lights_at(light_level(Single { bits: percent }) as int, percent),
{
    law_level_is_a_share_of_255(Single { bits: percent });
    let level = pwm_level(Single { bits: percent }) as int;
    let unit = pow2(149) as int;
    assert(0 * (100 * unit) == 0);
}

/// Metadata that cannot be read leave every distance and speed at zero, but for a retract of
/// 6 millimetres, which the bottom layers do at 90 millimetres per minute, and the light at
/// its full level.
pub proof fn law_unreadable_metadata_leave_little(job: SliceJobV3)
    requires
        json_parsed(job.metadata_json@) is None,
    ensures
        ({
            let t = job_timing(job);
            &&& t.lift_distance_mm.bits == 0 && t.bottom_lift_distance_mm.bits == 0
            &&& t.lift_speed_mm_min.bits == 0 && t.bottom_lift_speed_mm_min.bits == 0
            &&& t.lift_distance2_mm.bits == 0 && t.bottom_lift_distance2_mm.bits == 0
            &&& t.lift_speed2_mm_min.bits == 0 && t.bottom_lift_speed2_mm_min.bits == 0
            &&& t.retract_distance_mm.bits == 0x40C0_0000
            &&& t.bottom_retract_distance_mm.bits == 0x40C0_0000
            &&& t.retract_speed_mm_min.bits == 0
            &&& t.bottom_retract_speed_mm_min.bits == 0x42B4_0000
            &&& t.retract_distance2_mm.bits == 0 && t.bottom_retract_distance2_mm.bits == 0
            &&& t.retract_speed2_mm_min.bits == 0 && t.bottom_retract_speed2_mm_min.bits == 0
            &&& t.light_pwm == 255 && t.bottom_light_pwm == 255
        }),
{
}

/// The text that one of two places gives, the first before the second, or `otherwise`.
pub open spec fn named(
    first: Option<Seq<char>>,
    second: Option<Seq<char>>,
    otherwise: Seq<char>,
) -> Seq<char> {
    if first is Some {
        first->0
    } else if second is Some {
        second->0
    } else {
        otherwise
    }
}

/// The header of a job names its machine, its profile and its software as the metadata do,
/// and states the levels and mirrors given there, the size of the screen and of the build
/// space, the layer height and whether the masks are gray.
pub proof fn law_header_of_a_job_is_as_told(
    job: SliceJobV3,
    version: Seq<u8>,
    layer_count: nat,
    created: Seq<char>,
)
    ensures
        ({
            let doc = json_parsed(job.metadata_json@);
            let own = at(doc, "goo"@);
            let printer = at(doc, "printer"@);
            let f = job_header(job, version, layer_count, created);
            let level = |key: Seq<char>, otherwise: int| match u64_of(at(own, key)) {
                Some(n) => n as int % 0x1_0000,
                None => otherwise,
            };
            &&& f.version == version
            &&& f.build.created_datetime == created
            &&& f.timing == job_timing(job)
            &&& f.software_version == named(
                text_of(at(own, "softwareVersion"@)),
                None,
                job.engine_version@,
            )
            &&& f.build.machine_name == named(
                text_of(at(own, "MachineName"@)),
                text_of(at(printer, "name"@)),
                "DragonFruit Printer"@,
            )
            &&& f.build.machine_type == named(text_of(at(own, "MachineType"@)), None, "DLP"@)
            &&& f.build.profile_name == named(
                text_of(at(own, "ProfileName"@)),
                text_of(at(at(doc, "material"@), "name"@)),
                "DragonFruit Profile"@,
            )
            &&& f.build.anti_aliasing_level == level("antiAliasingLevel"@, 8)
            &&& f.build.grey_level == level("greyLevel"@, 1)
            &&& f.build.blur_level == level("blurLevel"@, 0)
            &&& f.build.mirror_x == (bool_of(at(own, "mirrorX"@)) == Some(true))
            &&& f.build.mirror_y == (bool_of(at(own, "mirrorY"@)) == Some(true))
            &&& f.machine_z_mm.bits == match single_of(
                at(at(printer, "buildVolumeMm"@), "height"@),
            ) {
                Some(height) => height.bits,
                None => 0x435C_0000,
            }
            &&& f.layer_count == layer_count % 0x1_0000_0000
            &&& f.res_x == job.source_width_px % 0x1_0000
            &&& f.res_y == job.source_height_px % 0x1_0000
            &&& f.display_width_mm == job.build_width_mm
            &&& f.display_height_mm == job.build_depth_mm
            &&& f.layer_height_mm == job.layer_height_mm
            &&& f.is_grayscale == job.grayscale_output
        }),
{
}

/// Above which value the masks of a job show as white: the first of the settings for this
/// format, the export settings for it and the material says so, up to 255; else 127. Masks
/// stay gray where the job asks for gray values.
pub proof fn law_threshold_of_a_job_is_as_told(job: SliceJobV3)
    ensures
        ({
            let doc = json_parsed(job.metadata_json@);
            let own = u64_of(at(at(doc, "goo"@), "binaryThreshold"@));
            let exported = u64_of(at(at(at(doc, "export"@), "goo"@), "binaryThreshold"@));
            let material = u64_of(at(at(doc, "material"@), "binaryThreshold"@));
            let told = if own is Some {
                own
            } else if exported is Some {
                exported
            } else {
                material
            };
            let s = job_settings(job);
            &&& s.threshold == match told {
                Some(n) => if n < 255 {
                    n as int
                } else {
                    255
                },
                None => 127,
            }
            &&& s.is_anti_aliased == job.grayscale_output
            &&& s.layer_height_mm == job.layer_height_mm
            &&& s.bottom_layer_count == whole(told_count(doc, "bottomLayerCount"@))
        }),
{
    law_times_of_a_job_are_those_told(job);
}

proof fn lemma_told(d: JsonDoc, key: Seq<char>)
    ensures
        told(Some(d), key) == match crate::metadata::single_in(crate::metadata::places(d), key) {
            Some(s) => Some(s.bits),
            None => None,
        },
{
    let places = crate::metadata::places(d);
    crate::metadata::lemma_single_in_five(places, key);
}

proof fn lemma_told_count(d: JsonDoc, key: Seq<char>)
    ensures
        told_count(Some(d), key) == crate::metadata::u64_in(crate::metadata::places(d), key),
{
    let places = crate::metadata::places(d);
    crate::metadata::lemma_u64_in_five(places, key);
}

proof fn lemma_modes(doc: Option<JsonDoc>)
    ensures
        doc is Some ==> asks_for(doc, "simple"@) == (mode_of(
            mode_name(doc->0),
        ) is Simple),
        doc is Some ==> asks_for(doc, "tilting"@) == (mode_of(
            mode_name(doc->0),
        ) is Tilting),
        doc is None ==> !asks_for(doc, "simple"@) && !asks_for(doc, "tilting"@),
{
    reveal_strlit("simple");
    reveal_strlit("tilting");
    if let Some(d) = doc {
        assert(told_mode(doc) == mode_name(d));
        if let Some(text) = told_mode(doc) {
            law_names_match_but_for_space_and_case(text, "simple"@);
            law_names_match_but_for_space_and_case(text, "tilting"@);
            assert("simple"@.len() != "tilting"@.len());
        }
    }
}

} // verus!
