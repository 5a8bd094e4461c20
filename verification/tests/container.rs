use goo::container::{build_goo_container_bytes, build_goo_container_bytes_created_at};
use goo::container_v5::{
    build_goo_v5_container_bytes_created_at, build_goo_v5_container_bytes_with_progress,
    write_goo_v5_header, write_goo_v5_layer_def,
};
use goo::layers::{encode_single_goo_layer_from_raw_mask, prepare_layers_for_goo_v5_with_progress};
use goo::metadata::{build_model_created_at, parse_timing_model_from_metadata};
use goo::rle::{decode_goo_rle, goo_rle_encode};
use goo::single::Single;
use goo::types::{
    GooPreparedLayer, SliceJobV3, GOO_FILE_MAGIC, GOO_FILE_VERSION, GOO_HEADER_SIZE,
    GOO_LAYER_COUNT_OFFSET, GOO_LAYER_DEF_ADDRESS_OFFSET, GOO_LAYER_DEF_SIZE,
    GOO_V5_LAYER_DEF_SIZE,
};

use md5::Digest;

fn single(x: f32) -> Single {
    Single { bits: x.to_bits() }
}

fn make_test_job() -> SliceJobV3 {
    SliceJobV3 {
        output_format: ".goo".to_string(),
        source_width_px: 4,
        source_height_px: 4,
        width_px: 4,
        height_px: 4,
        build_width_mm: single(10.0),
        build_depth_mm: single(20.0),
        layer_height_mm: single(0.05),
        total_layers: 2,
        anti_aliasing_level: "Off".to_string(),
        metadata_json: "{}".to_string(),
        ..Default::default()
    }
}

fn make_prepared_layers(job: &SliceJobV3, bottom_layer_count: u32) -> Vec<GooPreparedLayer> {
    let pixels = (job.source_width_px * job.source_height_px) as usize;
    let mask = vec![255u8; pixels];
    (0..2)
        .map(|index| {
            encode_single_goo_layer_from_raw_mask(
                index,
                &mask,
                false,
                127,
                job.layer_height_mm,
                bottom_layer_count,
            )
        })
        .collect()
}

fn u32_be(bytes: &[u8], at: usize) -> u32 {
    u32::from_be_bytes(bytes[at..at + 4].try_into().unwrap())
}

fn f32_be(bytes: &[u8], at: usize) -> f32 {
    f32::from_bits(u32_be(bytes, at))
}

fn u32_le(bytes: &[u8], at: usize) -> u32 {
    u32::from_le_bytes(bytes[at..at + 4].try_into().unwrap())
}

fn f32_le(bytes: &[u8], at: usize) -> f32 {
    f32::from_bits(u32_le(bytes, at))
}

#[test]
fn container_header_is_exact_size_and_versioned() {
    let job = make_test_job();
    let prepared = make_prepared_layers(&job, 1);

    let bytes = build_goo_container_bytes(&job, &prepared).expect("container should build");

    assert_eq!(&bytes[0..4], &GOO_FILE_VERSION);
    assert_eq!(&bytes[4..12], &GOO_FILE_MAGIC);

    let layer_count_off = GOO_LAYER_COUNT_OFFSET as usize;
    let layer_count =
        u32::from_be_bytes(bytes[layer_count_off..layer_count_off + 4].try_into().unwrap());
    assert_eq!(layer_count, 2);

    let addr_off = GOO_LAYER_DEF_ADDRESS_OFFSET as usize;
    let layer_def_address = u32::from_be_bytes(bytes[addr_off..addr_off + 4].try_into().unwrap());
    assert_eq!(layer_def_address, GOO_HEADER_SIZE);

    // At the end: three padding bytes, then the file magic.
    let len = bytes.len();
    assert_eq!(&bytes[len - 8..], &GOO_FILE_MAGIC);
    assert_eq!(&bytes[len - 11..len - 8], &[0u8, 0, 0]);
}

#[test]
fn container_layer_defs_use_bottom_then_normal_timing() {
    let mut job = make_test_job();
    job.metadata_json = r#"{
            "material": {
                "normalExposureSec": 2.0,
                "bottomExposureSec": 20.0,
                "bottomLayerCount": 1
            }
        }"#
    .to_string();

    let prepared = make_prepared_layers(&job, 1);
    let layer0_len = prepared[0].encoded.len();

    let bytes = build_goo_container_bytes(&job, &prepared).expect("container should build");

    // The exposure lies at +10 of a definition (pause 2, pause position 4, position 4).
    let def0 = GOO_HEADER_SIZE as usize;
    let exposure0 = f32::from_be_bytes(bytes[def0 + 10..def0 + 14].try_into().unwrap());
    assert!((exposure0 - 20.0).abs() < f32::EPSILON);

    let def1 = def0 + GOO_LAYER_DEF_SIZE + layer0_len + 2;
    let exposure1 = f32::from_be_bytes(bytes[def1 + 10..def1 + 14].try_into().unwrap());
    assert!((exposure1 - 2.0).abs() < f32::EPSILON);

    // The data length ends each definition; the data and a CRLF follow.
    let data_len0 = u32::from_be_bytes(bytes[def0 + 66..def0 + 70].try_into().unwrap()) as usize;
    assert_eq!(data_len0, layer0_len);
    assert_eq!(
        &bytes[def0 + GOO_LAYER_DEF_SIZE + data_len0..def0 + GOO_LAYER_DEF_SIZE + data_len0 + 2],
        &[0x0D, 0x0A]
    );
}

fn full_job() -> SliceJobV3 {
    let mut job = make_test_job();
    job.source_width_px = 0x1_0203;
    job.grayscale_output = true;
    job.engine_version = "engine 1.2.3 with a name that is too long".to_string();
    job.metadata_json = r#"{
            "goo": {
                "MachineName": "Jupiter",
                "antiAliasingLevel": 258,
                "mirrorY": true,
                "normalExposureSec": 2.5,
                "liftDistanceMm": 5,
                "liftSpeedMmMin": 65,
                "retractSpeedMmMin": 170,
                "retractSpeed2MmMin": 1,
                "waitTimeAfterCureSec": 0.5,
                "bottomLayerCount": 3,
                "transitionLayerCount": 9,
                "projectorPwmPercent": 50
            },
            "printer": { "buildVolumeMm": { "height": 300 } }
        }"#
    .to_string();
    job
}

#[test]
fn header_fields_stand_in_their_places() {
    let job = full_job();
    let bytes = build_goo_container_bytes_created_at(&job, &[], "2024-05-06 07:08:09");
    assert_eq!(bytes.len(), GOO_HEADER_SIZE as usize + 11);
    assert_eq!(&bytes[12..24], b"DragonFruit\0");
    // The software version is cut so that a zero byte ends it.
    assert_eq!(&bytes[44..68], b"engine 1.2.3 with a nam\0");
    assert_eq!(&bytes[68..88], b"2024-05-06 07:08:09\0");
    assert_eq!(&bytes[92..100], b"Jupiter\0");
    assert_eq!(&bytes[124..128], b"DLP\0");
    assert_eq!(&bytes[156..176], b"DragonFruit Profile\0");
    assert_eq!(&bytes[188..194], &[1, 2, 0, 1, 0, 0]);
    assert_eq!(&bytes[194 + 26912..194 + 26914], &[0x0D, 0x0A]);
    let at = GOO_LAYER_COUNT_OFFSET as usize;
    assert_eq!(&bytes[at - 2..at], &[0x0D, 0x0A]);
    assert_eq!(u32_be(&bytes, at), 0);
    assert_eq!(&bytes[at + 4..at + 8], &[2, 3, 0, 4]);
    assert_eq!(&bytes[at + 8..at + 10], &[0, 1]);
    assert_eq!(f32_be(&bytes, at + 10), 10.0);
    assert_eq!(f32_be(&bytes, at + 14), 20.0);
    assert_eq!(f32_be(&bytes, at + 18), 300.0);
    assert_eq!(f32_be(&bytes, at + 22), 0.05);
    assert_eq!(f32_be(&bytes, at + 26), 2.5);
    assert_eq!(bytes[at + 30], 1);
    // Wait times: bottom after cure, after lift, before cure; then the others.
    assert_eq!(f32_be(&bytes, at + 35 + 12), 0.5);
    assert_eq!(u32_be(&bytes, at + 35 + 28), 3);
    // Motion: the bottom layers take over lift and speed.
    assert_eq!(f32_be(&bytes, at + 67), 5.0);
    assert_eq!(f32_be(&bytes, at + 67 + 4), 65.0);
    assert_eq!(f32_be(&bytes, at + 67 + 28), 170.0);
    assert_eq!(f32_be(&bytes, at + 67 + 60), 1.0);
    let end = at + 67 + 64;
    assert_eq!(&bytes[end..end + 5], &[0, 128, 0, 128, 0]);
    assert_eq!(u32_be(&bytes, end + 5), 0);
    assert_eq!(&bytes[end + 21..end + 29], b"$\0\0\0\0\0\0\0");
    assert_eq!(end + 29, GOO_LAYER_DEF_ADDRESS_OFFSET as usize);
    assert_eq!(bytes[end + 33], 1);
    assert_eq!(&bytes[end + 34..end + 36], &[0, 9]);
    assert_eq!(end + 36, GOO_HEADER_SIZE as usize);
}

#[test]
fn header_size_does_not_depend_on_the_job() {
    let mut job = full_job();
    job.export_thumbnail_png_base64 = Some("no picture".to_string());
    job.metadata_json = r#"{ "goo": { "MachineName": "A name that is longer than its field" } }"#
        .to_string();
    for created in ["", "2024-05-06 07:08:09", "a text that is longer than the field is"] {
        let bytes = build_goo_container_bytes_created_at(&job, &[], created);
        assert_eq!(bytes.len(), GOO_HEADER_SIZE as usize + 11);
    }
}

#[test]
fn fifth_version_header_is_little_endian() {
    let job = full_job();
    let timing = parse_timing_model_from_metadata(&job.metadata_json);
    let build = build_model_created_at(&job.metadata_json, "2024".to_string());
    let mut out = vec![9, 9];
    write_goo_v5_header(
        &mut out,
        &timing,
        &build,
        "v",
        &[0; 26912],
        &[0; 168200],
        7,
        0x0203,
        4,
        single(10.0),
        single(20.0),
        single(300.0),
        single(0.05),
        77,
        true,
    );
    assert_eq!(out.len(), 2 + GOO_HEADER_SIZE as usize);
    let out = &out[2..];
    assert_eq!(&out[0..4], b"V5.1");
    assert_eq!(&out[4..12], &GOO_FILE_MAGIC);
    assert_eq!(&out[188..194], &[2, 1, 1, 0, 0, 0]);
    let at = GOO_LAYER_COUNT_OFFSET as usize;
    assert_eq!(u32_le(out, at), 7);
    assert_eq!(&out[at + 4..at + 8], &[3, 2, 4, 0]);
    assert_eq!(f32_le(out, at + 18), 300.0);
    assert_eq!(u32_le(out, GOO_LAYER_DEF_ADDRESS_OFFSET as usize), GOO_HEADER_SIZE);
}

#[test]
fn fifth_version_layer_def_has_its_fields() {
    let timing = parse_timing_model_from_metadata(
        r#"{ "goo": { "normalExposureSec": 2, "bottomExposureSec": 30, "bottomLayerCount": 1,
             "liftDistanceMm": 5, "retractSpeed2MmMin": 11, "projectorPwmPercent": 50 } }"#,
    );
    let mut out = Vec::new();
    write_goo_v5_layer_def(&mut out, 0, &timing, single(0.05));
    write_goo_v5_layer_def(&mut out, 1, &timing, single(0.05));
    assert_eq!(out.len(), 2 * GOO_V5_LAYER_DEF_SIZE as usize);
    for (def, z, exposure) in [(0usize, 0.05f32, 30.0f32), (66, 2.0 * 0.05f32, 2.0)] {
        assert_eq!(&out[def..def + 2], &[0, 0]);
        assert_eq!(f32_le(&out, def + 2), 200.0);
        assert_eq!(f32_le(&out, def + 6), z);
        assert_eq!(f32_le(&out, def + 10), exposure);
        assert_eq!(f32_le(&out, def + 30), 5.0);
        assert_eq!(&out[def + 62..def + 66], &[128, 0, 0x0D, 0x0A]);
    }
    assert_eq!(f32_le(&out, 66 + 58), 11.0);
    assert_eq!(f32_le(&out, 58), 0.0);
}

#[test]
fn fifth_version_container_has_tables_and_a_digest() {
    let mut job = make_test_job();
    job.layer_height_mm = single(0.1);
    let prepared = make_prepared_layers(&job, 1);
    let mut reports = vec![(1, 2)];
    let bytes =
        build_goo_v5_container_bytes_created_at(&job, &prepared, "2024", &mut reports);
    assert_eq!(reports, vec![(1, 2), (3, 3)]);
    let n = 2usize;
    let total: usize = prepared.iter().map(|l| l.encoded.len()).sum();
    let head = GOO_HEADER_SIZE as usize;
    assert_eq!(bytes.len(), head + 60 + 90 * n + total + 32);
    assert_eq!(&bytes[head..head + 4], &[0x02, 0xa4, 0xfb, 0x02]);
    let t1 = head + 16;
    let t2 = t1 + 8 * n;
    let page = ((total as u64 * 105 / 100) / n as u64) as u32;
    for i in 0..n {
        let address = u32_le(&bytes, t1 + 8 * i) as usize;
        assert_eq!(u32_le(&bytes, t1 + 8 * i + 4), 66);
        assert_eq!(f32_le(&bytes, address + 6), (i as f32 + 1.0) * 0.1);
        assert_eq!(&bytes[address + 64..address + 66], &[0x0D, 0x0A]);
    }
    for i in 0..2 * n {
        assert_eq!(u32_le(&bytes, t2 + 8 * i), 0x037449a2 + i as u32 * page);
        assert_eq!(u32_le(&bytes, t2 + 8 * i + 4), page);
    }
    let data = t2 + 16 * n + 14 + 66 * n;
    assert_eq!(&bytes[t2 + 16 * n..t2 + 16 * n + 3], &[0x00, 0xa3, 0x01]);
    assert_eq!(&bytes[data..data + prepared[0].encoded.len()], &prepared[0].encoded[..]);
    let end = data + total;
    assert_eq!(&bytes[end..end + 20], &[0; 20]);
    assert_eq!(f32_le(&bytes, end + 20), 1.15);
    assert_eq!(&bytes[end + 24..end + 30], &[0, 0, 0, 0, 0x0D, 0x0A]);
    let digest = format!("{:x}", md5::Md5::digest(&bytes[..end + 30]));
    assert_eq!(&bytes[end + 30..], digest.as_bytes());
}

#[test]
fn fifth_version_container_is_made_now() {
    let job = make_test_job();
    let prepared = make_prepared_layers(&job, 1);
    let mut reports = Vec::new();
    let bytes =
        build_goo_v5_container_bytes_with_progress(&job, &prepared, &mut reports).unwrap();
    assert_eq!(reports, vec![(3, 3)]);
    assert!(&bytes[68..87] > &b"2024-01-01 00:00:00"[..]);
}

#[test]
fn masks_are_split_into_halves() {
    // Three rows of five pixels: the left half has two columns.
    let mask: Vec<u8> = (0..15).collect();
    let mut reports = Vec::new();
    let layers = prepare_layers_for_goo_v5_with_progress(
        &[mask.clone(), vec![0; 15]],
        true,
        0,
        single(0.5),
        1,
        5,
        &mut reports,
    );
    assert_eq!(reports, vec![(2, 4), (4, 4)]);
    assert_eq!(layers.len(), 4);
    assert_eq!(layers[0].encoded, goo_rle_encode(&[0, 1, 5, 6, 10, 11]));
    assert_eq!(layers[1].encoded, goo_rle_encode(&[2, 3, 4, 7, 8, 9, 12, 13, 14]));
    assert_eq!(decode_goo_rle(&layers[3].encoded, 9), Ok(vec![0; 9]));
    let facts: Vec<(usize, f32, bool)> = layers
        .iter()
        .map(|l| (l.index, f32::from_bits(l.position_z_mm.bits), l.is_bottom))
        .collect();
    assert_eq!(facts, vec![(0, 0.5, true), (1, 0.5, true), (2, 1.0, false), (3, 1.0, false)]);
}
