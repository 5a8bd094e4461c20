use goo::metadata::{
    build_model_created_at, build_model_from_readings, parse_build_model_from_metadata,
    parse_machine_z_from_metadata, parse_software_info_from_metadata,
    parse_threshold_from_metadata, parse_timing_model_from_metadata, settings_mode,
    threshold_from_readings, timing_from_readings, BuildReadings, SettingsMode, TimingReadings,
};
use goo::single::Single;

fn value(s: Single) -> f32 {
    f32::from_bits(s.bits)
}

fn single(x: f32) -> Option<Single> {
    Some(Single { bits: x.to_bits() })
}

fn no_readings() -> TimingReadings {
    TimingReadings {
        mode: SettingsMode::Other,
        bottom_layer_count: None,
        transition_layer_count: None,
        normal_exposure_sec: None,
        bottom_exposure_sec: None,
        light_off_delay_sec: None,
        bottom_light_off_delay_sec: None,
        lift_distance_mm: None,
        lift_distance2_mm: None,
        lift_speed_mm_min: None,
        lift_speed2_mm_min: None,
        retract_distance_mm: None,
        retract_distance2_mm: None,
        retract_speed_mm_min: None,
        retract_speed2_mm_min: None,
        bottom_lift_distance_mm: None,
        bottom_lift_distance2_mm: None,
        bottom_lift_speed_mm_min: None,
        bottom_lift_speed2_mm_min: None,
        bottom_retract_distance_mm: None,
        bottom_retract_distance2_mm: None,
        bottom_retract_speed_mm_min: None,
        bottom_retract_speed2_mm_min: None,
        wait_time_before_cure_sec: None,
        wait_time_after_cure_sec: None,
        wait_time_after_lift_sec: None,
        bottom_wait_time_before_cure_sec: None,
        bottom_wait_time_after_cure_sec: None,
        bottom_wait_time_after_lift_sec: None,
        layer_height_mm: None,
        projector_pwm_percent: None,
        bottom_projector_pwm_percent: None,
        bottom_layer_projector_pwm_percent: None,
    }
}

#[test]
fn metadata_threshold_defaults_when_missing_or_invalid() {
    assert_eq!(parse_threshold_from_metadata("{}"), 127);
    assert_eq!(parse_threshold_from_metadata("not-json"), 127);
}

#[test]
fn metadata_threshold_reads_supported_paths() {
    let direct = r#"{ "goo": { "binaryThreshold": 180 } }"#;
    let nested = r#"{ "export": { "goo": { "binaryThreshold": 200 } } }"#;
    let material = r#"{ "material": { "binaryThreshold": 90 } }"#;

    assert_eq!(parse_threshold_from_metadata(direct), 180);
    assert_eq!(parse_threshold_from_metadata(nested), 200);
    assert_eq!(parse_threshold_from_metadata(material), 90);
}

#[test]
fn metadata_timing_prefers_goo_over_material() {
    let meta = r#"{
            "material": {
                "liftDistanceMm": 4.0,
                "liftSpeedMmMin": 40.0,
                "retractSpeedMmMin": 120.0,
                "bottomLayerCount": 4
            },
            "goo": {
                "liftDistanceMm": 7.5,
                "liftSpeedMmMin": 65.0,
                "retractSpeedMmMin": 190.0,
                "bottomLayerCount": 8
            }
        }"#;

    let timing = parse_timing_model_from_metadata(meta);
    assert!((value(timing.lift_distance_mm) - 7.5).abs() < f32::EPSILON);
    assert!((value(timing.lift_speed_mm_min) - 65.0).abs() < f32::EPSILON);
    assert!((value(timing.retract_speed_mm_min) - 190.0).abs() < f32::EPSILON);
    assert_eq!(timing.bottom_layer_count, 8);
}

#[test]
fn metadata_timing_reads_shared_ctb_namespace() {
    // Some fields arrive under `ctb`, which the material settings share.
    let meta = r#"{
            "ctb": {
                "waitTimeBeforeCureSec": 1.5,
                "waitTimeAfterCureSec": 0.5,
                "bottomWaitTimeAfterLiftSec": 2.0
            }
        }"#;

    let timing = parse_timing_model_from_metadata(meta);
    assert!((value(timing.wait_time_before_cure_sec) - 1.5).abs() < f32::EPSILON);
    assert!((value(timing.wait_time_after_cure_sec) - 0.5).abs() < f32::EPSILON);
    assert!((value(timing.bottom_wait_time_after_lift_sec) - 2.0).abs() < f32::EPSILON);
    assert_eq!(timing.delay_mode, 1);
}

#[test]
fn metadata_timing_simple_mode_zeroes_two_stage_fields() {
    let meta = r#"{
            "printer": {
                "settingsMode": "simple"
            },
            "goo": {
                "liftDistanceMm": 6.0,
                "liftSpeedMmMin": 60.0,
                "retractDistanceMm": 4.0,
                "retractSpeedMmMin": 150.0,
                "liftDistance2Mm": 2.5,
                "liftSpeed2MmMin": 75.0,
                "retractDistance2Mm": 1.25,
                "retractSpeed2MmMin": 110.0,
                "bottomRetractDistance2Mm": 0.8,
                "bottomRetractSpeed2MmMin": 90.0
            }
        }"#;

    let timing = parse_timing_model_from_metadata(meta);
    assert!((value(timing.lift_distance2_mm) - 0.0).abs() < f32::EPSILON);
    assert!((value(timing.lift_speed2_mm_min) - 0.0).abs() < f32::EPSILON);
    assert!((value(timing.retract_distance2_mm) - 0.0).abs() < f32::EPSILON);
    assert!((value(timing.retract_speed2_mm_min) - 0.0).abs() < f32::EPSILON);
    assert!((value(timing.bottom_retract_distance2_mm) - 0.0).abs() < f32::EPSILON);
    assert!((value(timing.bottom_retract_speed2_mm_min) - 0.0).abs() < f32::EPSILON);
}

#[test]
fn metadata_timing_tilting_mode_overrides_motion() {
    let meta = r#"{
            "printer": {
                "settingsMode": "tilting"
            },
            "material": {
                "layerHeightMm": 0.1,
                "liftDistanceMm": 6.0,
                "liftSpeedMmMin": 80.0,
                "retractSpeedMmMin": 200.0
            }
        }"#;

    let timing = parse_timing_model_from_metadata(meta);
    assert!((value(timing.lift_speed_mm_min) - 60.0).abs() < f32::EPSILON);
    assert!((value(timing.bottom_lift_speed_mm_min) - 60.0).abs() < f32::EPSILON);
    assert!((value(timing.retract_speed_mm_min) - 150.0).abs() < f32::EPSILON);
    assert!((value(timing.bottom_retract_speed_mm_min) - 150.0).abs() < f32::EPSILON);
    assert!((value(timing.lift_distance_mm) - 0.1).abs() < f32::EPSILON);
    assert!((value(timing.bottom_lift_distance_mm) - 0.1).abs() < f32::EPSILON);
}

#[test]
fn metadata_pwm_percent_maps_to_byte_range() {
    let meta = r#"{ "goo": { "projectorPwmPercent": 50.0 } }"#;
    let timing = parse_timing_model_from_metadata(meta);
    assert_eq!(timing.light_pwm, 128);
    // The bottom layers take over the percentage of the others.
    assert_eq!(timing.bottom_light_pwm, 128);

    let full = parse_timing_model_from_metadata("{}");
    assert_eq!(full.light_pwm, 255);
    assert_eq!(full.bottom_light_pwm, 255);
    assert_eq!(full.delay_mode, 0);
}

#[test]
fn threshold_is_a_byte_and_the_first_place_decides() {
    assert_eq!(threshold_from_readings(Some(1000), Some(3), Some(4)), 255);
    assert_eq!(threshold_from_readings(None, Some(3), Some(4)), 3);
    assert_eq!(threshold_from_readings(None, None, Some(255)), 255);
    assert_eq!(threshold_from_readings(None, None, None), 127);
    // A negative or broken number is no threshold.
    let odd = r#"{ "goo": { "binaryThreshold": -5 }, "material": { "binaryThreshold": 0 } }"#;
    assert_eq!(parse_threshold_from_metadata(odd), 0);
    let real = r#"{ "goo": { "binaryThreshold": 12.5 } }"#;
    assert_eq!(parse_threshold_from_metadata(real), 127);
}

#[test]
fn places_are_asked_in_order() {
    let meta = r#"{
            "goo": { "liftDistanceMm": 1, "liftSpeedMmMin": "fast" },
            "export": {
                "goo": { "liftDistanceMm": 2, "liftSpeedMmMin": 2, "bottomLayerCount": 2 },
                "ctb": { "normalExposureSec": 4, "bottomExposureSec": 4, "lightOffDelaySec": 4 }
            },
            "ctb": { "normalExposureSec": 3, "transitionLayerCount": 70000 },
            "material": { "bottomExposureSec": 5, "lightOffDelaySec": 5, "retractSpeedMmMin": 5 }
        }"#;
    let timing = parse_timing_model_from_metadata(meta);
    assert_eq!(value(timing.lift_distance_mm), 1.0);
    assert_eq!(value(timing.lift_speed_mm_min), 2.0);
    assert_eq!(timing.bottom_layer_count, 2);
    assert_eq!(value(timing.normal_exposure_sec), 3.0);
    assert_eq!(value(timing.bottom_exposure_sec), 4.0);
    assert_eq!(value(timing.light_off_delay_sec), 4.0);
    assert_eq!(value(timing.retract_speed_mm_min), 5.0);
    assert_eq!(timing.transition_layer_count, 65535);
}

#[test]
fn unreadable_metadata_has_a_timing_of_its_own() {
    let timing = parse_timing_model_from_metadata("not-json");
    assert_eq!(value(timing.retract_distance_mm), 6.0);
    assert_eq!(value(timing.bottom_retract_distance_mm), 6.0);
    assert_eq!(value(timing.bottom_retract_speed_mm_min), 90.0);
    assert_eq!(value(timing.lift_distance_mm), 0.0);
    assert_eq!(timing.light_pwm, 255);
    assert_eq!(timing.bottom_light_pwm, 255);
    assert_eq!(timing.delay_mode, 0);
}

#[test]
fn zero_settings_fall_back() {
    let mut r = no_readings();
    r.lift_distance_mm = single(5.0);
    r.lift_speed_mm_min = single(70.0);
    r.retract_speed_mm_min = single(160.0);
    r.bottom_lift_distance_mm = single(-3.0);
    let t = timing_from_readings(&r);
    assert_eq!(value(t.retract_distance_mm), 5.0);
    assert_eq!(value(t.bottom_lift_distance_mm), 5.0);
    assert_eq!(value(t.bottom_lift_speed_mm_min), 70.0);
    assert_eq!(value(t.bottom_retract_distance_mm), 5.0);
    assert_eq!(value(t.bottom_retract_speed_mm_min), 160.0);

    r.bottom_lift_distance_mm = single(9.0);
    let t = timing_from_readings(&r);
    assert_eq!(value(t.bottom_retract_distance_mm), 9.0);
}

#[test]
fn settings_that_are_no_numbers_count_as_zero() {
    let mut r = no_readings();
    r.normal_exposure_sec = single(f32::INFINITY);
    r.bottom_exposure_sec = single(f32::NAN);
    r.light_off_delay_sec = single(-1.0);
    r.wait_time_after_lift_sec = single(-0.0);
    let t = timing_from_readings(&r);
    assert_eq!(t.normal_exposure_sec.bits, 0);
    assert_eq!(t.bottom_exposure_sec.bits, 0);
    assert_eq!(t.light_off_delay_sec.bits, 0);
    assert_eq!(t.wait_time_after_lift_sec.bits, 0);
    assert_eq!(t.delay_mode, 0);
}

#[test]
fn simple_mode_lets_the_bottom_layers_wait_as_the_others() {
    let mut r = no_readings();
    r.mode = SettingsMode::Simple;
    r.wait_time_before_cure_sec = single(1.0);
    r.bottom_wait_time_before_cure_sec = single(7.0);
    r.bottom_wait_time_after_lift_sec = single(8.0);
    let t = timing_from_readings(&r);
    assert_eq!(value(t.bottom_wait_time_before_cure_sec), 1.0);
    assert_eq!(t.bottom_wait_time_after_lift_sec.bits, 0);
    assert_eq!(t.delay_mode, 1);
    r.mode = SettingsMode::Other;
    let t = timing_from_readings(&r);
    assert_eq!(value(t.bottom_wait_time_before_cure_sec), 7.0);
    assert_eq!(value(t.bottom_wait_time_after_lift_sec), 8.0);
}

#[test]
fn mode_names_are_trimmed_and_folded() {
    assert_eq!(settings_mode(Some(" \tSimple\n")), SettingsMode::Simple);
    assert_eq!(settings_mode(Some("TILTING")), SettingsMode::Tilting);
    assert_eq!(settings_mode(Some("twostage")), SettingsMode::Other);
    assert_eq!(settings_mode(Some("simple mode")), SettingsMode::Other);
    assert_eq!(settings_mode(Some("")), SettingsMode::Other);
    assert_eq!(settings_mode(None), SettingsMode::Other);

    let meta = r#"{
            "goo": { "mode": "  Tilting " , "layerHeightMm": 0.05 },
            "printer": { "settingsMode": "simple" }
        }"#;
    let t = parse_timing_model_from_metadata(meta);
    assert_eq!(value(t.lift_speed_mm_min), 60.0);
    assert_eq!(value(t.lift_distance_mm), 0.05);
}

#[test]
fn light_levels_are_never_zero() {
    for (percent, level) in [
        (0.0f32, 255u16),
        (0.1, 255),
        (0.2, 1),
        (10.0, 26),
        (33.3, 85),
        (99.9, 255),
        (100.0, 255),
        (250.0, 255),
        (-5.0, 255),
    ] {
        let mut r = no_readings();
        r.projector_pwm_percent = single(percent);
        let t = timing_from_readings(&r);
        let raw = ((percent.clamp(0.0, 100.0) / 100.0) * 255.0).round() as u16;
        assert_eq!(t.light_pwm, if raw == 0 { 255 } else { raw });
        assert_eq!(t.light_pwm, level);
        assert_eq!(t.bottom_light_pwm, level);
    }
    let mut r = no_readings();
    r.projector_pwm_percent = single(10.0);
    r.bottom_layer_projector_pwm_percent = single(20.0);
    assert_eq!(timing_from_readings(&r).bottom_light_pwm, 51);
    r.bottom_projector_pwm_percent = single(40.0);
    assert_eq!(timing_from_readings(&r).bottom_light_pwm, 102);
}

#[test]
fn counts_keep_their_low_bits() {
    let meta = r#"{ "goo": { "bottomLayerCount": 4294967299 } }"#;
    assert_eq!(parse_timing_model_from_metadata(meta).bottom_layer_count, 3);
}

#[test]
fn build_model_reads_names_levels_and_mirrors() {
    let meta = r#"{
            "goo": {
                "MachineName": "Jupiter",
                "MachineType": "LCD",
                "antiAliasingLevel": 65540,
                "greyLevel": 5,
                "blurLevel": 6,
                "mirrorX": true
            },
            "printer": { "name": "Other", "buildVolumeMm": { "height": 123.5 } },
            "material": { "name": "Resin" }
        }"#;
    let b = build_model_created_at(meta, "2024-01-02 03:04:05".to_string());
    assert_eq!(b.machine_name, "Jupiter");
    assert_eq!(b.machine_type, "LCD");
    assert_eq!(b.profile_name, "Resin");
    assert_eq!(b.anti_aliasing_level, 4);
    assert_eq!(b.grey_level, 5);
    assert_eq!(b.blur_level, 6);
    assert!(b.mirror_x);
    assert!(!b.mirror_y);
    assert_eq!(b.created_datetime, "2024-01-02 03:04:05");
    assert_eq!(value(b.machine_z_mm), 123.5);
    assert_eq!(value(parse_machine_z_from_metadata(meta)), 123.5);
}

#[test]
fn build_model_has_defaults() {
    for meta in ["{}", "not-json", "[1]"] {
        let b = build_model_created_at(meta, "now".to_string());
        assert_eq!(b.machine_name, "DragonFruit Printer");
        assert_eq!(b.machine_type, "DLP");
        assert_eq!(b.profile_name, "DragonFruit Profile");
        assert_eq!(b.anti_aliasing_level, 8);
        assert_eq!(b.grey_level, 1);
        assert_eq!(b.blur_level, 0);
        assert!(!b.mirror_x && !b.mirror_y);
        assert_eq!(value(b.machine_z_mm), 220.0);
        assert_eq!(value(parse_machine_z_from_metadata(meta)), 220.0);
    }
    let b = parse_build_model_from_metadata("{}");
    assert_eq!(b.created_datetime.len(), 19);
    assert!(b.created_datetime.as_str() > "2024");
}

#[test]
fn build_model_prefers_its_own_names() {
    let r = BuildReadings {
        goo_machine_name: None,
        printer_name: Some("Printer"),
        goo_machine_type: None,
        goo_profile_name: Some("Profile"),
        material_name: Some("Material"),
        anti_aliasing_level: None,
        grey_level: None,
        blur_level: None,
        mirror_x: Some(false),
        mirror_y: Some(true),
        build_height_mm: None,
    };
    let b = build_model_from_readings(&r, String::new());
    assert_eq!(b.machine_name, "Printer");
    assert_eq!(b.profile_name, "Profile");
    assert!(!b.mirror_x);
    assert!(b.mirror_y);
}

#[test]
fn software_version_falls_back_to_the_engine() {
    let meta = r#"{ "goo": { "softwareVersion": "9.9" } }"#;
    assert_eq!(parse_software_info_from_metadata(meta, "1.0"), "9.9");
    assert_eq!(parse_software_info_from_metadata("{}", "1.0"), "1.0");
    assert_eq!(parse_software_info_from_metadata("nope", "1.0"), "1.0");
}

#[test]
fn white_space_is_what_std_says() {
    for code in 0..=0x10FFFFu32 {
        if let Some(c) = char::from_u32(code) {
            let text = format!("{c}Simple{c}");
            let simple = text.trim().to_ascii_lowercase() == "simple";
            assert_eq!(settings_mode(Some(&text)) == SettingsMode::Simple, simple, "{code:x}");
        }
    }
}
