use goo::container::build_goo_container_bytes_created_at;
use goo::container_v5::build_goo_v5_container_bytes_created_at;
use goo::duration::compute_print_time_seconds;
use goo::metadata::parse_timing_model_from_metadata;
use goo::single::Single;
use goo::types::{GooPreparedLayer, GooTimingModel, SliceJobV3, GOO_LAYER_COUNT_OFFSET};

fn single(x: f32) -> Single {
    Single { bits: x.to_bits() }
}

/// Bottom layers of 38 seconds, others of 12.25 seconds.
fn timing() -> GooTimingModel {
    GooTimingModel {
        normal_exposure_sec: single(2.5),
        bottom_exposure_sec: single(30.0),
        bottom_layer_count: 3,
        lift_distance_mm: single(5.0),
        lift_speed_mm_min: single(60.0),
        retract_distance_mm: single(6.0),
        retract_speed_mm_min: single(120.0),
        bottom_lift_distance_mm: single(2.0),
        bottom_lift_speed_mm_min: single(60.0),
        bottom_lift_distance2_mm: single(3.0),
        bottom_lift_speed2_mm_min: single(60.0),
        bottom_retract_distance_mm: single(5.0),
        bottom_retract_speed_mm_min: single(120.0),
        bottom_retract_distance2_mm: single(1.0),
        bottom_retract_speed2_mm_min: single(120.0),
        wait_time_before_cure_sec: single(0.5),
        wait_time_after_cure_sec: single(0.25),
        wait_time_after_lift_sec: single(1.0),
        delay_mode: 1,
        ..parse_timing_model_from_metadata("no document")
    }
}

#[test]
fn print_time_counts_bottom_and_other_layers() {
    let timing = timing();
    assert_eq!(compute_print_time_seconds(0, &timing), 0);
    assert_eq!(compute_print_time_seconds(1, &timing), 38);
    assert_eq!(compute_print_time_seconds(3, &timing), 114);
    assert_eq!(compute_print_time_seconds(4, &timing), 126);
    assert_eq!(compute_print_time_seconds(10, &timing), 199);
    assert_eq!(compute_print_time_seconds(usize::MAX, &timing), u32::MAX);
}

#[test]
fn moves_fall_into_the_light_off_delay() {
    let mut timing = timing();
    timing.bottom_layer_count = 0;
    timing.delay_mode = 0;
    // The moves take eight seconds; the wait times do not count.
    timing.light_off_delay_sec = single(1.0);
    assert_eq!(compute_print_time_seconds(2, &timing), 21);
    timing.light_off_delay_sec = single(10.0);
    assert_eq!(compute_print_time_seconds(2, &timing), 25);
    // Values that are no durations count as zero.
    timing.light_off_delay_sec = single(f32::NAN);
    timing.lift_speed_mm_min = single(-1.0);
    assert_eq!(compute_print_time_seconds(2, &timing), 11);
    timing.normal_exposure_sec = single(f32::MAX);
    assert_eq!(compute_print_time_seconds(1, &timing), 4_294_970);
}

#[test]
fn more_layers_take_no_less_time() {
    let timing = timing();
    let mut before = 0;
    for n in 0..500 {
        let now = compute_print_time_seconds(n, &timing);
        assert!(before <= now);
        before = now;
    }
}

#[test]
fn headers_state_the_print_time() {
    let job = SliceJobV3 {
        source_width_px: 4,
        source_height_px: 4,
        metadata_json: r#"{ "goo": {
            "normalExposureSec": 2.5,
            "bottomExposureSec": 30,
            "bottomLayerCount": 1,
            "liftDistanceMm": 5,
            "liftSpeedMmMin": 60
        } }"#
            .to_string(),
        ..Default::default()
    };
    let timing = parse_timing_model_from_metadata(&job.metadata_json);
    let layers: Vec<GooPreparedLayer> = (0..3)
        .map(|index| GooPreparedLayer {
            index,
            position_z_mm: single(0.05),
            is_bottom: index == 0,
            encoded: vec![0x55, 0xFF],
        })
        .collect();
    let expected = compute_print_time_seconds(3, &timing);
    assert!(expected > 35);
    let at = GOO_LAYER_COUNT_OFFSET as usize + 67 + 64 + 5;
    let bytes = build_goo_container_bytes_created_at(&job, &layers, "2024");
    assert_eq!(bytes[at..at + 4], expected.to_be_bytes());
    let bytes = build_goo_v5_container_bytes_created_at(&job, &layers, "2024", &mut Vec::new());
    assert_eq!(bytes[at..at + 4], expected.to_le_bytes());
}
