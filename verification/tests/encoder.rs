use goo::encoder::{create_plugin_encoder, ContainerEncoding, GooPluginEncoder};
use goo::error::SlicerV3Error;
use goo::reader::{read_layer, read_layer_preview_png, LayerReadError};
use goo::rle::{decode_goo_rle, goo_rle_encode, RleError, RleRun};
use goo::single::Single;
use goo::stream::{encode_task, order_layers};
use goo::types::{GooPreparedLayer, RenderedLayersV3, SliceJobV3, GOO_LAYER_DEF_SIZE};

fn single(x: f32) -> Single {
    Single { bits: x.to_bits() }
}

fn job() -> SliceJobV3 {
    SliceJobV3 {
        source_width_px: 3,
        source_height_px: 2,
        layer_height_mm: single(0.05),
        grayscale_output: true,
        metadata_json: r#"{ "goo": { "bottomLayerCount": 1, "binaryThreshold": 100 } }"#
            .to_string(),
        ..Default::default()
    }
}

fn masks() -> Vec<Vec<u8>> {
    vec![vec![0, 0, 0, 255, 255, 255], vec![1, 100, 101, 102, 200, 0], vec![255; 6]]
}

fn rendered() -> RenderedLayersV3 {
    RenderedLayersV3 { raw_mask_layers: Some(masks()) }
}

/// The pixels of a PNG file, with its size.
fn png_pixels(file: &[u8]) -> (u32, u32, png::ColorType, Vec<u8>) {
    let mut reader = png::Decoder::new(std::io::Cursor::new(file)).read_info().unwrap();
    let mut buf = vec![0; reader.output_buffer_size()];
    let info = reader.next_frame(&mut buf).unwrap();
    (info.width, info.height, info.color_type, buf)
}

fn text_of(e: SlicerV3Error) -> String {
    match e {
        SlicerV3Error::MissingRenderedLayerPayload(t) => format!("missing: {t}"),
        SlicerV3Error::UnsupportedOutput(t) => format!("unsupported: {t}"),
        SlicerV3Error::LayerPreview(t) => format!("preview: {t}"),
    }
}

/// A container without the time it was made.
fn timeless(mut bytes: Vec<u8>) -> Vec<u8> {
    for b in &mut bytes[68..92] {
        *b = 0;
    }
    bytes
}

fn encode(job: &SliceJobV3, rendered: &RenderedLayersV3) -> Vec<u8> {
    GooPluginEncoder.encode_container_from_rendered_layers(job, rendered).unwrap()
}

#[test]
fn there_is_one_encoder() {
    let encoders = create_plugin_encoder();
    assert_eq!(encoders, vec![GooPluginEncoder]);
    assert_eq!(encoders[0].output_format(), ".goo");
    assert!(!encoders[0].requires_png_layers());
    assert!(encoders[0].requires_raw_mask_layers());
}

#[test]
fn what_is_written_is_read() {
    let bytes = encode(&job(), &rendered());
    for (i, mask) in masks().iter().enumerate() {
        let image = read_layer(&bytes, i as u32 + 1).unwrap();
        assert_eq!((image.width, image.height), (3, 2));
        assert_eq!(&image.pixels, mask);
        let png = read_layer_preview_png(&bytes, i as u32 + 1).unwrap();
        assert_eq!(png_pixels(&png), (3, 2, png::ColorType::Grayscale, mask.clone()));
        let png = GooPluginEncoder.read_layer_preview_png(&bytes, i as u32 + 1).unwrap();
        assert_eq!(png_pixels(&png).3, *mask);
    }
}

#[test]
fn without_gray_values_masks_are_black_and_white() {
    let mut job = job();
    job.grayscale_output = false;
    let bytes = encode(&job, &rendered());
    assert_eq!(read_layer(&bytes, 2).unwrap().pixels, vec![0, 0, 255, 255, 255, 0]);
}

#[test]
fn layers_that_are_not_there_are_refused() {
    let bytes = encode(&job(), &rendered());
    assert_eq!(read_layer(&bytes, 0).unwrap_err(), LayerReadError::ZeroLayerNumber);
    assert_eq!(
        read_layer(&bytes, 4).unwrap_err(),
        LayerReadError::OutOfRange { layer_number: 4, layer_count: 3 }
    );
    assert_eq!(read_layer_preview_png(&bytes, 0).unwrap_err(), "Layer number must be >= 1");
    assert_eq!(
        read_layer_preview_png(&bytes, 4).unwrap_err(),
        "Layer 4 out of range (file has 3 layers)"
    );
    let e = GooPluginEncoder.read_layer_preview_png(&bytes, 9).unwrap_err();
    assert_eq!(text_of(e), "preview: Layer 9 out of range (file has 3 layers)");
}

#[test]
fn broken_files_are_refused() {
    let bytes = encode(&job(), &rendered());
    let full = "failed to fill whole buffer";
    let message = |bytes: &[u8], n: u32| read_layer_preview_png(bytes, n).unwrap_err();
    assert_eq!(message(&bytes[..11], 1), format!("Goo header read failed: {full}"));
    let mut other = bytes.clone();
    other[7] = 1;
    assert_eq!(message(&other, 1), "Goo file magic mismatch");
    assert_eq!(message(&bytes[..195317], 1), format!("Goo layer count read failed: {full}"));
    let mut flat = bytes.clone();
    flat[195316] = 0;
    flat[195317] = 0;
    assert_eq!(message(&flat, 1), "Goo file reports invalid dimensions 3×0");
    assert_eq!(
        message(&bytes[..195473], 1),
        format!("Goo layer def address read failed: {full}")
    );
    assert_eq!(message(&bytes[..195477 + 69], 1), format!("Goo layer def read failed: {full}"));
    assert_eq!(message(&bytes[..195477 + 69], 2), format!("Goo layer def read failed: {full}"));
    assert_eq!(message(&bytes[..195477 + 71], 1), format!("Goo layer RLE read failed: {full}"));
    let mut magic = bytes.clone();
    magic[195477 + 70] = 0x54;
    assert_eq!(message(&magic, 1), "Goo layer RLE missing 0x55 magic");
    let mut sum = bytes.clone();
    // Three black pixels, three white ones: 0x03, 0xC3.
    assert_eq!(&sum[195477 + 71..195477 + 74], &[0x03, 0xC3, 0x39]);
    sum[195477 + 73] = 0x0A;
    assert_eq!(
        message(&sum, 1),
        "Goo layer RLE checksum mismatch: expected 0x39, got 0x0a"
    );
    // An address behind the end.
    let mut far = bytes.clone();
    for b in &mut far[195470..195474] {
        *b = 0xFF;
    }
    assert_eq!(message(&far, 1), format!("Goo layer def read failed: {full}"));
    // A data length behind the end.
    let mut long = bytes.clone();
    for b in &mut long[195477 + 66..195477 + 70] {
        *b = 0xFF;
    }
    assert_eq!(message(&long, 1), format!("Goo layer RLE read failed: {full}"));
    assert_eq!(message(&long, 3), format!("Goo layer def read failed: {full}"));
}

#[test]
fn any_changed_byte_of_layer_data_is_refused() {
    let data = goo_rle_encode(&[0, 0, 7, 7, 255, 3]);
    assert!(decode_goo_rle(&data, 6).is_ok());
    for i in 0..data.len() {
        for b in 0..=255u8 {
            if b != data[i] {
                let mut other = data.clone();
                other[i] = b;
                assert!(decode_goo_rle(&other, 6).is_err());
            }
        }
    }
    assert_eq!(decode_goo_rle(&[], 6), Err(RleError::MissingMagic));
}

#[test]
fn missing_or_odd_layers_are_refused() {
    let none = RenderedLayersV3 { raw_mask_layers: None };
    let empty = RenderedLayersV3 { raw_mask_layers: Some(vec![]) };
    let odd = RenderedLayersV3 { raw_mask_layers: Some(vec![vec![0; 6], vec![0; 5], vec![]]) };
    let refused = |r: &RenderedLayersV3| {
        let mut reports = vec![(5, 6)];
        let e = GooPluginEncoder
            .encode_container_from_rendered_layers_with_progress(&job(), r, &mut reports)
            .unwrap_err();
        assert_eq!(reports, vec![(5, 6)]);
        text_of(e)
    };
    assert_eq!(refused(&none), "missing: raw mask layers are required for Goo encoding");
    assert_eq!(refused(&empty), "missing: no rendered layers were provided for Goo encoding");
    assert_eq!(refused(&odd), "missing: Goo layer 1 size mismatch: expected 6 bytes, got 5");
}

#[test]
fn progress_counts_up_to_the_estimate() {
    let mut reports = Vec::new();
    GooPluginEncoder
        .encode_container_from_rendered_layers_with_progress(&job(), &rendered(), &mut reports)
        .unwrap();
    let expected: Vec<(u32, u32)> = (1..=7).map(|k| (k, 7)).collect();
    assert_eq!(reports, expected);
    assert_eq!(GooPluginEncoder.estimate_encode_progress_units(&rendered()), 7);
    let none = RenderedLayersV3 { raw_mask_layers: None };
    assert_eq!(GooPluginEncoder.estimate_encode_progress_units(&none), 1);
}

#[test]
fn encoding_can_be_done_step_by_step() {
    let (job, rendered) = (job(), rendered());
    let mut reports = Vec::new();
    let whole = GooPluginEncoder
        .encode_container_created_at(&job, &rendered, "2024".to_string(), &mut reports)
        .unwrap();
    for steps in 0..9usize {
        let started = ContainerEncoding::start(&job, &rendered, "2024".to_string());
        let mut encoding = match started {
            Ok(encoding) => encoding,
            Err(e) => panic!("{}", text_of(e)),
        };
        for k in 0..steps {
            assert_eq!(encoding.step(), reports.get(k).copied());
        }
        assert_eq!(encoding.finish(), whole);
    }
}

fn runs_of(mask: &[u8]) -> Vec<RleRun> {
    mask.iter().map(|v| RleRun { length: 1, value: *v }).collect()
}

#[test]
fn runs_give_the_same_container_in_any_order() {
    let job = job();
    let whole = timeless(encode(&job, &rendered()));
    for order in [[0usize, 1, 2], [2, 0, 1], [2, 1, 0]] {
        let mut stream = GooPluginEncoder.create_rle_stream_encoder(&job);
        for i in order {
            stream.consume_rle_layer(i as u32, runs_of(&masks()[i])).unwrap();
        }
        assert_eq!(timeless(stream.finalize_to_bytes().unwrap()), whole);
    }
    // Coded elsewhere, stored here.
    let mut stream = GooPluginEncoder.create_rle_stream_encoder(&job);
    for i in [1usize, 2, 0] {
        let data = stream.encode_runs(&runs_of(&masks()[i]));
        stream.store_encoded_layer(i as u32, data);
    }
    assert_eq!(timeless(stream.finalize_to_bytes().unwrap()), whole);

    let empty = GooPluginEncoder.create_rle_stream_encoder(&job);
    assert_eq!(
        text_of(empty.finalize_to_bytes().unwrap_err()),
        "missing: no rendered layers were provided for Goo RLE encoding"
    );
}

#[test]
fn masks_give_the_same_container_in_any_order() {
    let job = job();
    let whole = timeless(encode(&job, &rendered()));
    for order in [[0usize, 1, 2], [1, 2, 0]] {
        let mut stream = GooPluginEncoder.create_raw_mask_stream_encoder(&job, 4, None, None);
        assert_eq!((stream.worker_count, stream.queue_depth), (4, 12));
        let mut answers = Vec::new();
        for i in order {
            let mask = &masks()[i];
            answers.push(encode_task(&stream.settings, stream.expected_pixels, i as u32, mask));
            stream.count_consumed();
        }
        assert_eq!(timeless(stream.finalize_to_bytes(answers).unwrap()), whole);
    }
}

#[test]
fn workers_answer_to_every_mask() {
    let stream = GooPluginEncoder.create_raw_mask_stream_encoder(&job(), 1, None, None);
    let task = |i: u32, mask: &[u8]| encode_task(&stream.settings, 6, i, mask);
    let black = task(0, &[]).unwrap();
    assert_eq!(black.encoded, goo_rle_encode(&[0; 6]));
    assert!(black.is_bottom);
    let layer = task(1, &[9; 6]).unwrap();
    assert_eq!(layer.index, 1);
    assert!(!layer.is_bottom);
    assert_eq!(f32::from_bits(layer.position_z_mm.bits), 2.0 * 0.05f32);
    assert_eq!(
        text_of(task(3, &[0; 7]).unwrap_err()),
        "missing: Goo layer 3 size mismatch: expected 6 bytes, got 7"
    );
}

fn answer(index: usize) -> Result<GooPreparedLayer, SlicerV3Error> {
    Ok(GooPreparedLayer {
        index,
        position_z_mm: single(0.0),
        is_bottom: false,
        encoded: vec![index as u8],
    })
}

fn refused(answers: Vec<Result<GooPreparedLayer, SlicerV3Error>>, expected: usize) -> String {
    text_of(order_layers(answers, expected).unwrap_err())
}

#[test]
fn answers_are_put_in_order() {
    let layers = order_layers(vec![answer(2), answer(0), answer(1), answer(7)], 3).unwrap();
    let data: Vec<u8> = layers.iter().map(|l| l.encoded[0]).collect();
    assert_eq!(data, vec![0, 1, 2]);
    assert_eq!(
        refused(vec![answer(0), answer(3)], 3),
        "missing: Goo worker emitted out-of-range layer index 3 (expected < 3)"
    );
    assert_eq!(
        refused(vec![answer(1), answer(1), answer(0)], 3),
        "missing: Goo worker emitted duplicate layer index 1"
    );
    assert_eq!(
        refused(vec![answer(1), answer(0)], 3),
        "missing: Goo streaming worker results ended unexpectedly"
    );
    let failed = Err(SlicerV3Error::UnsupportedOutput("broken".to_string()));
    assert_eq!(refused(vec![answer(1), failed, answer(9)], 3), "unsupported: broken");
}

#[test]
fn a_stream_without_masks_is_refused() {
    let stream = GooPluginEncoder.create_raw_mask_stream_encoder(&job(), 2, Some("1"), Some("64"));
    assert_eq!((stream.worker_count, stream.queue_depth), (1, 2));
    assert_eq!(
        text_of(stream.finalize_to_bytes(vec![]).unwrap_err()),
        "missing: no rendered layers were provided for Goo encoding"
    );
}

#[test]
fn records_follow_each_other() {
    let bytes = encode(&job(), &rendered());
    let mut at = 195477;
    for mask in masks() {
        let data = goo_rle_encode(&mask);
        let from = at + GOO_LAYER_DEF_SIZE;
        assert_eq!(&bytes[from..from + data.len()], &data[..]);
        at = from + data.len() + 2;
    }
    assert_eq!(at + 11, bytes.len());
}
