//! What the files of a job hold: each layer at its place, with its height, its timing and the
//! pixels of its mask.

use vstd::prelude::*;

use crate::container::{
    container_end, goo_container, header, job_header, job_timing, law_job_header_size,
    law_layer_def_size, layer_def, owned_text, record, records, stage_timing, ByteOrder,
};
use crate::duration::print_time;
use crate::encoder::{layers_refusal, size_refusal};
use crate::error::Refusal;
use crate::json::{at, bool_of, json_parsed, single_of, text_of, u64_of};
use crate::layers::{
    columns, half_layers, half_mask_layers, mask_layer, mask_layers, LayerSettings, LayerView,
};
use crate::layout::{
    defines_layer, holds_text, law_header_names_its_origin, law_header_states_every_setting,
    lemma_defines, lemma_field32, lemma_inside, number16, number32,
};
use crate::preview::{job_previews, law_preview_sizes};
use crate::reader::{lemma_record_placed, record_start};
use crate::rle::{
    expanded, goo_rle, goo_rle_decoded, law_decode_inverts_encode, mask_pixels, repeated, run_pixels,
    runs_fit, RleError, RleRun,
};
use crate::settings::{
    amount, law_header_of_a_job_is_as_told, law_times_of_a_job_are_those_told, named, told,
    told_count, whole,
};
use crate::single::layer_position;
use crate::stream::{job_settings, task_answer};
use crate::text::decimal;
use crate::types::{GooTimingModel, RenderedLayersV3, SliceJobV3};

verus! {

/// Where the record of layer `i` starts: behind the header and the records before it, each of
/// which takes 72 bytes more than its data.
pub open spec fn record_at(layers: Seq<LayerView>, i: nat) -> int
    decreases i,
{
    if i == 0 {
        195477
    } else {
        record_at(layers, (i - 1) as nat) + 72 + layers[i - 1].encoded.len()
    }
}

proof fn lemma_record_at(layers: Seq<LayerView>, i: nat, timing: GooTimingModel)
    requires
        i <= layers.len(),
    ensures
        record_at(layers, i) == record_start(layers, i as int, timing),
    decreases i,
{
    if i == 0 {
        assert(layers.take(0) =~= seq![]);
    } else {
        let k = i - 1;
        lemma_record_at(layers, k as nat, timing);
        lemma_record_placed(seq![], layers, k, timing, seq![]);
        lemma_record_len(layers[k], timing);
    }
}

proof fn lemma_record_len(layer: LayerView, timing: GooTimingModel)
    ensures
        record(layer, timing).len() == 72 + layer.encoded.len(),
        record(layer, timing).take(66) == layer_def(
            ByteOrder::Big,
            layer.position_z_mm,
            stage_timing(timing, layer.is_bottom),
        ),
{
    let def = layer_def(
        ByteOrder::Big,
        layer.position_z_mm,
        stage_timing(timing, layer.is_bottom),
    );
    reveal(record);
    law_layer_def_size(
        ByteOrder::Big,
        layer.position_z_mm,
        stage_timing(timing, layer.is_bottom),
    );
    assert(record(layer, timing).take(66) =~= def);
}

/// A file holds the record of each layer: its definition with the height of the layer and the
/// timing of the job, that of the bottom layers or of the others, then how long the data is,
/// the data, and a line break. The end follows the last record.
#[verifier::rlimit(40)]
pub proof fn law_file_holds_every_layer(
    job: SliceJobV3,
    layers: Seq<LayerView>,
    created: Seq<char>,
    i: nat,
)
    requires
        i < layers.len(),
    ensures
        ({
            let bytes = goo_container(job, layers, created);
            let layer = layers[i as int];
            let at = record_at(layers, i);
            let n = layer.encoded.len();
            &&& defines_layer(
                ByteOrder::Big,
                bytes,
                at,
                layer.position_z_mm.bits,
                layer.is_bottom,
                job_timing(job),
            )
            &&& number32(ByteOrder::Big, bytes, at + 66) == n % 0x1_0000_0000
            &&& bytes.subrange(at + 70, at + 70 + n) == layer.encoded
            &&& bytes.subrange(at + 70 + n, at + 72 + n) == seq![13u8, 10u8]
            &&& bytes.len() == record_at(layers, layers.len()) + 11
        }),
{
    let bytes = goo_container(job, layers, created);
    let timing = job_timing(job);
    let layer = layers[i as int];
    let at = record_at(layers, i);
    let n = layer.encoded.len();
    let head = header(
        ByteOrder::Big,
        job_header(job, crate::types::GOO_FILE_VERSION@, layers.len(), created),
    );
    let front = head + records(layers.take(i as int), timing);
    let this = record(layer, timing);
    law_job_header_size(
        ByteOrder::Big,
        job,
        crate::types::GOO_FILE_VERSION@,
        layers.len(),
        created,
    );
    lemma_record_at(layers, i, timing);
    lemma_record_at(layers, layers.len(), timing);
    assert(layers.take(layers.len() as int) =~= layers);
    lemma_record_placed(head, layers, i as int, timing, container_end());
    lemma_record_len(layer, timing);
    assert(front.len() == at);
    assert(bytes.subrange(at, at + 72 + n) =~= this);
    assert(bytes.subrange(at, at + 66) =~= this.take(66));
    lemma_defines(ByteOrder::Big, bytes, at, layer.position_z_mm, layer.is_bottom, timing);
    let def = layer_def(
        ByteOrder::Big,
        layer.position_z_mm,
        stage_timing(timing, layer.is_bottom),
    );
    let stated = (n % 0x1_0000_0000) as u32;
    law_layer_def_size(
        ByteOrder::Big,
        layer.position_z_mm,
        stage_timing(timing, layer.is_bottom),
    );
    reveal(record);
    assert(this.subrange(66, 70) =~= crate::bytes::be32(stated));
    assert(this.subrange(70, 70int + n) =~= layer.encoded);
    assert(this.subrange(70int + n, 72int + n) =~= seq![13u8, 10u8]);
    assert(bytes.subrange(at + 66, at + 70) =~= this.subrange(66, 70));
    lemma_field32(ByteOrder::Big, bytes, at + 66, stated);
    assert(bytes.subrange(at + 70, at + 70 + n) =~= this.subrange(70, 70int + n));
    assert(bytes.subrange(at + 70 + n, at + 72 + n) =~= this.subrange(70int + n, 72int + n));
}

/// The header at the start of a file states the settings of its job: the number of layers, the
/// sizes, the mirrors, and every exposure, delay, wait, lift, retract and light level of its
/// timing, each at its own place.
pub open spec fn states_settings(
    order: ByteOrder,
    bytes: Seq<u8>,
    job: SliceJobV3,
    count: nat,
) -> bool {
    let doc = json_parsed(job.metadata_json@);
    let t = job_timing(job);
    &&& bytes.len() >= 195477
    &&& number32(order, bytes, 195310) == count as int % 0x1_0000_0000
    &&& number16(order, bytes, 195314) == job.source_width_px as int % 0x1_0000
    &&& number16(order, bytes, 195316) == job.source_height_px as int % 0x1_0000
    &&& bytes[195318] == if bool_of(at(at(doc, "goo"@), "mirrorX"@)) == Some(true) {
        1int
    } else {
        0int
    }
    &&& bytes[195319] == if bool_of(at(at(doc, "goo"@), "mirrorY"@)) == Some(true) {
        1int
    } else {
        0int
    }
    &&& number32(order, bytes, 195320) == job.build_width_mm.bits
    &&& number32(order, bytes, 195324) == job.build_depth_mm.bits
    &&& number32(order, bytes, 195328) == match single_of(
        at(at(at(doc, "printer"@), "buildVolumeMm"@), "height"@),
    ) {
        Some(height) => height.bits as int,
        None => 0x435C_0000,
    }
    &&& number32(order, bytes, 195332) == job.layer_height_mm.bits
    &&& number32(order, bytes, 195336) == t.normal_exposure_sec.bits
    &&& bytes[195340] == t.delay_mode
    &&& number32(order, bytes, 195341) == t.light_off_delay_sec.bits
    &&& number32(order, bytes, 195345) == t.bottom_wait_time_after_cure_sec.bits
    &&& number32(order, bytes, 195349) == t.bottom_wait_time_after_lift_sec.bits
    &&& number32(order, bytes, 195353) == t.bottom_wait_time_before_cure_sec.bits
    &&& number32(order, bytes, 195357) == t.wait_time_after_cure_sec.bits
    &&& number32(order, bytes, 195361) == t.wait_time_after_lift_sec.bits
    &&& number32(order, bytes, 195365) == t.wait_time_before_cure_sec.bits
    &&& number32(order, bytes, 195369) == t.bottom_exposure_sec.bits
    &&& number32(order, bytes, 195373) == t.bottom_layer_count
    &&& number32(order, bytes, 195377) == t.bottom_lift_distance_mm.bits
    &&& number32(order, bytes, 195381) == t.bottom_lift_speed_mm_min.bits
    &&& number32(order, bytes, 195385) == t.lift_distance_mm.bits
    &&& number32(order, bytes, 195389) == t.lift_speed_mm_min.bits
    &&& number32(order, bytes, 195393) == t.bottom_retract_distance_mm.bits
    &&& number32(order, bytes, 195397) == t.bottom_retract_speed_mm_min.bits
    &&& number32(order, bytes, 195401) == t.retract_distance_mm.bits
    &&& number32(order, bytes, 195405) == t.retract_speed_mm_min.bits
    &&& number32(order, bytes, 195409) == t.bottom_lift_distance2_mm.bits
    &&& number32(order, bytes, 195413) == t.bottom_lift_speed2_mm_min.bits
    &&& number32(order, bytes, 195417) == t.lift_distance2_mm.bits
    &&& number32(order, bytes, 195421) == t.lift_speed2_mm_min.bits
    &&& number32(order, bytes, 195425) == t.bottom_retract_distance2_mm.bits
    &&& number32(order, bytes, 195429) == t.bottom_retract_speed2_mm_min.bits
    &&& number32(order, bytes, 195433) == t.retract_distance2_mm.bits
    &&& number32(order, bytes, 195437) == t.retract_speed2_mm_min.bits
    &&& number16(order, bytes, 195441) == t.bottom_light_pwm
    &&& number16(order, bytes, 195443) == t.light_pwm
    &&& bytes[195445] == 0
    &&& number32(order, bytes, 195446) == print_time((count % 0x1_0000_0000) as nat, t)
    &&& number32(order, bytes, 195450) == 0
    &&& number32(order, bytes, 195454) == 0
    &&& number32(order, bytes, 195458) == 0
    &&& number32(order, bytes, 195470) == 195477
    &&& bytes[195474] == if job.grayscale_output { 1int } else { 0int }
    &&& number16(order, bytes, 195475) == t.transition_layer_count
}

/// A file that starts with the header of a job states the settings of the job.
pub(crate) proof fn lemma_states_settings(
    order: ByteOrder,
    bytes: Seq<u8>,
    job: SliceJobV3,
    version: Seq<u8>,
    count: nat,
    created: Seq<char>,
)
    requires
        version.len() == 4,
        bytes.len() >= 195477,
        bytes.subrange(0, 195477) == header(order, job_header(job, version, count, created)),
    ensures
        states_settings(order, bytes, job, count),
{
    let f = job_header(job, version, count, created);
    let h = header(order, f);
    law_preview_sizes(owned_text(job.export_thumbnail_png_base64));
    law_header_states_every_setting(order, f);
    law_header_of_a_job_is_as_told(job, version, count, created);
    lemma_inside(order, bytes, h, 0);
    assert(number32(order, bytes, 195310) == number32(order, h, 195310));
    assert(number16(order, bytes, 195314) == number16(order, h, 195314));
    assert(number16(order, bytes, 195316) == number16(order, h, 195316));
    assert(bytes[195318] == h[195318]);
    assert(bytes[195319] == h[195319]);
    assert(number32(order, bytes, 195320) == number32(order, h, 195320));
    assert(number32(order, bytes, 195324) == number32(order, h, 195324));
    assert(number32(order, bytes, 195328) == number32(order, h, 195328));
    assert(number32(order, bytes, 195332) == number32(order, h, 195332));
    assert(number32(order, bytes, 195336) == number32(order, h, 195336));
    assert(bytes[195340] == h[195340]);
    assert(number32(order, bytes, 195341) == number32(order, h, 195341));
    assert(number32(order, bytes, 195345) == number32(order, h, 195345));
    assert(number32(order, bytes, 195349) == number32(order, h, 195349));
    assert(number32(order, bytes, 195353) == number32(order, h, 195353));
    assert(number32(order, bytes, 195357) == number32(order, h, 195357));
    assert(number32(order, bytes, 195361) == number32(order, h, 195361));
    assert(number32(order, bytes, 195365) == number32(order, h, 195365));
    assert(number32(order, bytes, 195369) == number32(order, h, 195369));
    assert(number32(order, bytes, 195373) == number32(order, h, 195373));
    assert(number32(order, bytes, 195377) == number32(order, h, 195377));
    assert(number32(order, bytes, 195381) == number32(order, h, 195381));
    assert(number32(order, bytes, 195385) == number32(order, h, 195385));
    assert(number32(order, bytes, 195389) == number32(order, h, 195389));
    assert(number32(order, bytes, 195393) == number32(order, h, 195393));
    assert(number32(order, bytes, 195397) == number32(order, h, 195397));
    assert(number32(order, bytes, 195401) == number32(order, h, 195401));
    assert(number32(order, bytes, 195405) == number32(order, h, 195405));
    assert(number32(order, bytes, 195409) == number32(order, h, 195409));
    assert(number32(order, bytes, 195413) == number32(order, h, 195413));
    assert(number32(order, bytes, 195417) == number32(order, h, 195417));
    assert(number32(order, bytes, 195421) == number32(order, h, 195421));
    assert(number32(order, bytes, 195425) == number32(order, h, 195425));
    assert(number32(order, bytes, 195429) == number32(order, h, 195429));
    assert(number32(order, bytes, 195433) == number32(order, h, 195433));
    assert(number32(order, bytes, 195437) == number32(order, h, 195437));
    assert(number16(order, bytes, 195441) == number16(order, h, 195441));
    assert(number16(order, bytes, 195443) == number16(order, h, 195443));
    assert(bytes[195445] == h[195445]);
    assert(number32(order, bytes, 195446) == number32(order, h, 195446));
    assert(number32(order, bytes, 195450) == number32(order, h, 195450));
    assert(number32(order, bytes, 195454) == number32(order, h, 195454));
    assert(number32(order, bytes, 195458) == number32(order, h, 195458));
    assert(number32(order, bytes, 195470) == number32(order, h, 195470));
    assert(bytes[195474] == h[195474]);
    assert(number16(order, bytes, 195475) == number16(order, h, 195475));
}

/// A file starts with its version and its header, which states the settings of the job, and
/// ends with three zeros and the magic bytes. The exposures and the number of bottom layers
/// in the header are those that the metadata give.
pub proof fn law_file_states_its_settings(
    job: SliceJobV3,
    layers: Seq<LayerView>,
    created: Seq<char>,
)
    ensures
        ({
            let bytes = goo_container(job, layers, created);
            let doc = json_parsed(job.metadata_json@);
            let n = bytes.len() as int;
            let o = ByteOrder::Big;
            &&& n >= 195488
            &&& states_settings(o, bytes, job, layers.len())
            &&& bytes.subrange(0, 12) == seq![
                0x56u8, 0x31, 0x2E, 0x32, 0x07, 0, 0, 0, 0x44, 0x4C, 0x50, 0,
            ]
            &&& bytes.subrange(n - 11, n) == seq![0u8, 0, 0, 0x07, 0, 0, 0, 0x44, 0x4C, 0x50, 0]
            &&& number32(o, bytes, 195336) == amount(told(doc, "normalExposureSec"@))
            &&& number32(o, bytes, 195369) == amount(told(doc, "bottomExposureSec"@))
            &&& number32(o, bytes, 195373) == whole(told_count(doc, "bottomLayerCount"@))
        }),
{
    let bytes = goo_container(job, layers, created);
    let version = crate::types::GOO_FILE_VERSION@;
    let f = job_header(job, version, layers.len(), created);
    let h = header(ByteOrder::Big, f);
    law_job_header_size(ByteOrder::Big, job, version, layers.len(), created);
    assert(bytes.subrange(0, 195477) =~= h);
    lemma_states_settings(ByteOrder::Big, bytes, job, version, layers.len(), created);
    law_preview_sizes(owned_text(job.export_thumbnail_png_base64));
    law_header_names_its_origin(ByteOrder::Big, f);
    law_times_of_a_job_are_those_told(job);
    assert(bytes.subrange(0, 4) =~= h.subrange(0, 4));
    assert(bytes.subrange(4, 12) =~= h.subrange(4, 12));
    assert(bytes.subrange(0, 12) =~= bytes.subrange(0, 4) + bytes.subrange(4, 12));
    assert(bytes.subrange(0, 12) =~= seq![
        0x56u8, 0x31, 0x2E, 0x32, 0x07, 0, 0, 0, 0x44, 0x4C, 0x50, 0,
    ]);
    let n = bytes.len() as int;
    assert(container_end() =~= seq![0u8, 0, 0, 0x07, 0, 0, 0, 0x44, 0x4C, 0x50, 0]);
    assert(bytes.subrange(n - 11, n) =~= container_end());
}

/// In the file of the masks of a job, the layers up to the number of bottom layers that the
/// metadata give are timed as bottom layers, and the others are not: the record of layer `i`
/// states the exposure that the metadata give for its kind. Each layer lies at its number
/// times the layer height of the job.
#[verifier::rlimit(40)]
pub proof fn law_first_layers_are_bottom_layers(
    job: SliceJobV3,
    masks: Seq<Vec<u8>>,
    created: Seq<char>,
    i: nat,
)
    requires
        i < masks.len(),
        i < 0x1_0000_0000,
    ensures
        ({
            let doc = json_parsed(job.metadata_json@);
            let layers = mask_layers(masks, job_settings(job));
            let bytes = goo_container(job, layers, created);
            let at = record_at(layers, i);
            let bottom = i < whole(told_count(doc, "bottomLayerCount"@));
            &&& layers.len() == masks.len()
            &&& layers[i as int].index == i
            &&& layers[i as int].is_bottom == bottom
            &&& defines_layer(
                ByteOrder::Big,
                bytes,
                at,
                layer_position(i, job.layer_height_mm).bits,
                bottom,
                job_timing(job),
            )
            &&& number32(ByteOrder::Big, bytes, at + 10) == amount(
                told(
                    doc,
                    if bottom {
                        "bottomExposureSec"@
                    } else {
                        "normalExposureSec"@
                    },
                ),
            )
        }),
{
    let layers = mask_layers(masks, job_settings(job));
    law_times_of_a_job_are_those_told(job);
    law_file_holds_every_layer(job, layers, created, i);
    assert(layers[i as int] == mask_layer(i, masks[i as int]@, job_settings(job)));
}

/// A layer that arrives by itself, as data or as runs, is a bottom layer by the same rule.
#[verifier::rlimit(40)]
pub proof fn law_single_layers_are_bottom_layers_by_index(
    job: SliceJobV3,
    index: nat,
    encoded: Seq<u8>,
)
    requires
        index < 0x1_0000_0000,
    ensures
        ({
            let layer = crate::layers::layer_with(
                index,
                encoded,
                job_settings(job).layer_height_mm,
                job_settings(job).bottom_layer_count,
            );
            &&& layer.index == index
            &&& layer.encoded == encoded
            &&& layer.position_z_mm == layer_position(index, job.layer_height_mm)
            &&& layer.is_bottom == (index < whole(
                told_count(json_parsed(job.metadata_json@), "bottomLayerCount"@),
            ))
        }),
{
    law_times_of_a_job_are_those_told(job);
}

/// The value that a pixel of a mask shows: its own where gray values are asked for, else white
/// above the threshold and black up to it.
pub open spec fn shown(value: u8, gray: bool, threshold: u8) -> u8 {
    if gray {
        value
    } else if value > threshold {
        255
    } else {
        0
    }
}

/// A mask shows as many pixels as it has, each by its own value.
pub proof fn law_masks_show_their_values(mask: Seq<u8>, gray: bool, threshold: u8)
    ensures
        mask_pixels(mask, gray, threshold).len() == mask.len(),
        forall|k: int|
            0 <= k < mask.len() ==> #[trigger] mask_pixels(mask, gray, threshold)[k] == shown(
                mask[k],
                gray,
                threshold,
            ),
{
}

/// How many pixels the first `n` runs have.
pub open spec fn length_of(runs: Seq<RleRun>, n: nat) -> nat
    decreases n,
{
    if n == 0 {
        0
    } else {
        length_of(runs, (n - 1) as nat) + runs[n - 1].length as nat
    }
}

/// Runs show as many pixels as a layer has. Each run shows its value as often as it is long,
/// behind the runs before it, and behind the last run the layer is black.
pub proof fn law_runs_show_their_values(
    runs: Seq<RleRun>,
    gray: bool,
    threshold: u8,
    total: nat,
    r: nat,
    k: nat,
)
    requires
        k < total,
        r < runs.len(),
    ensures
        run_pixels(runs, gray, threshold, total).len() == total,
        length_of(runs, r) <= k < length_of(runs, r + 1) ==> run_pixels(
            runs,
            gray,
            threshold,
            total,
        )[k as int] == shown(runs[r as int].value, gray, threshold),
        length_of(runs, runs.len()) <= k ==> run_pixels(runs, gray, threshold, total)[k as int]
            == 0,
{
    lemma_length_of(runs, r);
    lemma_length_of(runs, r + 1);
    lemma_length_of(runs, runs.len());
    assert(runs.take(runs.len() as int) =~= runs);
    crate::rle::lemma_expanded_run(runs, r as int);
    let p = expanded(runs);
    law_masks_show_their_values(p, gray, threshold);
    if k < p.len() {
        assert(mask_pixels(p, gray, threshold)[k as int] == shown(p[k as int], gray, threshold));
    }
}

proof fn lemma_length_of(runs: Seq<RleRun>, n: nat)
    requires
        n <= runs.len(),
    ensures
        expanded(runs.take(n as int)).len() == length_of(runs, n),
    decreases n,
{
    if n > 0 {
        lemma_length_of(runs, (n - 1) as nat);
        assert(runs.take(n as int).drop_last() =~= runs.take(n - 1));
    } else {
        assert(runs.take(0) =~= seq![]);
    }
}

/// `half` holds the columns of a mask `width` pixels wide from `from` up to `to`, row by row,
/// as they show.
pub open spec fn shows_columns(
    half: Seq<u8>,
    mask: Seq<u8>,
    width: int,
    from: int,
    to: int,
    gray: bool,
    threshold: u8,
) -> bool {
    let rows = mask.len() as int / width;
    &&& half.len() == rows * (to - from)
    &&& forall|x: int, y: int|
        0 <= x < to - from && 0 <= y < rows ==> #[trigger] half[y * (to - from) + x] == shown(
            mask[y * width + (from + x)],
            gray,
            threshold,
        )
}

/// Coding masks for a screen of two halves gives two blocks for each, in order. The first
/// decodes to the columns before the middle and the second to those from it on, as they show.
/// Both lie at the height of their mask, and are bottom layers where it is one.
pub proof fn law_halves_show_the_mask(
    masks: Seq<Vec<u8>>,
    width: u16,
    settings: LayerSettings,
    i: nat,
    left: Seq<u8>,
    right: Seq<u8>,
)
    requires
        0 < width,
        i < masks.len(),
        masks[i as int]@.len() as int % width as int == 0,
        shows_columns(
            left,
            masks[i as int]@,
            width as int,
            0,
            (width / 2) as int,
            settings.is_anti_aliased,
            settings.threshold,
        ),
        shows_columns(
            right,
            masks[i as int]@,
            width as int,
            (width / 2) as int,
            width as int,
            settings.is_anti_aliased,
            settings.threshold,
        ),
        runs_fit(left),
        runs_fit(right),
    ensures
        ({
            let blocks = half_mask_layers(masks, width, settings);
            let (a, b) = (blocks[2 * (i as int)], blocks[2 * (i as int) + 1]);
            &&& blocks.len() == 2 * masks.len()
            &&& a.index == 2 * i && b.index == 2 * i + 1
            &&& goo_rle_decoded(a.encoded, left.len()) == Ok::<_, RleError>(left)
            &&& goo_rle_decoded(b.encoded, right.len()) == Ok::<_, RleError>(right)
            &&& a.position_z_mm == layer_position(i, settings.layer_height_mm)
            &&& b.position_z_mm == layer_position(i, settings.layer_height_mm)
            &&& i < 0x1_0000_0000 ==> a.is_bottom == (i < settings.bottom_layer_count)
            &&& i < 0x1_0000_0000 ==> b.is_bottom == (i < settings.bottom_layer_count)
        }),
{
    let mask = masks[i as int]@;
    let blocks = half_mask_layers(masks, width, settings);
    assert((2 * i) / 2 == i && (2 * i) % 2 == 0 && (2 * i + 1) / 2 == i && (2 * i + 1) % 2 == 1);
    let w = width as int;
    let m = (width / 2) as int;
    let (gray, threshold) = (settings.is_anti_aliased, settings.threshold);
    lemma_shown_columns(mask, w, 0, m, gray, threshold, left);
    lemma_shown_columns(mask, w, m, w, gray, threshold, right);
    law_decode_inverts_encode(left);
    law_decode_inverts_encode(right);
}

/// The columns that are picked out of a mask show as described.
proof fn lemma_shown_columns(
    mask: Seq<u8>,
    width: int,
    from: int,
    to: int,
    gray: bool,
    threshold: u8,
    half: Seq<u8>,
)
    requires
        0 <= from <= to <= width,
        0 < width,
        mask.len() as int % width == 0,
        shows_columns(half, mask, width, from, to, gray, threshold),
    ensures
        mask_pixels(
            columns(mask, width as nat, from as nat, to as nat, mask.len()),
            gray,
            threshold,
        ) == half,
{
    let rows = mask.len() as int / width;
    let picked = columns(mask, width as nat, from as nat, to as nat, mask.len());
    let n = to - from;
    vstd::arithmetic::div_mod::lemma_fundamental_div_mod(mask.len() as int, width);
    assert(width * rows == rows * width) by (nonlinear_arith);
    assert(rows >= 0) by (nonlinear_arith)
        requires
            rows == mask.len() as int / width,
            width > 0,
            mask.len() >= 0,
    ;
    lemma_columns_rows(mask, width, from, to, rows);
    law_masks_show_their_values(picked, gray, threshold);
    assert forall|k: int| 0 <= k < half.len() implies mask_pixels(picked, gray, threshold)[k]
        == half[k] by {
        let y = k / n;
        let x = k % n;
        assert(n > 0) by (nonlinear_arith)
            requires
                0 <= k < rows * n,
                n >= 0,
        ;
        vstd::arithmetic::div_mod::lemma_fundamental_div_mod(k, n);
        vstd::arithmetic::div_mod::lemma_mod_bound(k, n);
        assert(0 <= y < rows && k == y * n + x) by (nonlinear_arith)
            requires
                k == n * y + x,
                0 <= x < n,
                0 <= k < rows * n,
                n > 0,
        ;
        assert(picked[y * n + x] == mask[y * width + (from + x)]);
        assert(half[y * n + x] == shown(mask[y * width + (from + x)], gray, threshold));
    }
    assert(mask_pixels(picked, gray, threshold) =~= half);
}

/// The columns of the first `rows` rows, row by row.
proof fn lemma_columns_rows(mask: Seq<u8>, width: int, from: int, to: int, rows: int)
    requires
        0 <= from <= to <= width,
        0 < width,
        0 <= rows,
        rows * width <= mask.len(),
    ensures
        rows * width >= 0,
        ({
            let n = to - from;
            let picked = columns(
                mask,
                width as nat,
                from as nat,
                to as nat,
                (rows * width) as nat,
            );
            &&& picked.len() == rows * n
            &&& forall|x: int, y: int|
                0 <= x < n && 0 <= y < rows ==> #[trigger] picked[y * n + x] == mask[y * width + (
                from + x)]
        }),
    decreases rows,
{
    let n = to - from;
    if rows == 0 {
        assert(0 * width == 0 && 0 * n == 0);
    } else {
        let r = rows - 1;
        assert(r * width + width == rows * width && r * n + n == rows * n) by (nonlinear_arith)
            requires
                rows == r + 1,
        ;
        lemma_columns_rows(mask, width, from, to, r);
        lemma_columns_in_row(mask, width, from, to, r, width);
        let before = columns(mask, width as nat, from as nat, to as nat, (r * width) as nat);
        let picked = columns(mask, width as nat, from as nat, to as nat, (rows * width) as nat);
        assert forall|x: int, y: int| 0 <= x < n && 0 <= y < rows implies #[trigger] picked[y * n
            + x] == mask[y * width + (from + x)] by {
            if y < r {
                assert(0 <= y * n + x < r * n) by (nonlinear_arith)
                    requires
                        0 <= x < n,
                        0 <= y,
                        y + 1 <= r,
                ;
                assert(picked[y * n + x] == before[y * n + x]);
            } else {
                assert(picked[r * n + x] == mask[r * width + (from + x)]);
            }
        }
    }
}

/// How many of the first `end` columns lie from `from` up to `to`.
spec fn columns_before(from: int, to: int, end: int) -> int {
    if end <= from {
        0
    } else if end < to {
        end - from
    } else {
        to - from
    }
}

/// The columns of row `r` up to `end`, behind those of the rows before it.
proof fn lemma_columns_in_row(mask: Seq<u8>, width: int, from: int, to: int, r: int, end: int)
    requires
        0 <= from <= to <= width,
        0 < width,
        0 <= r,
        0 <= end <= width,
        r * width + width <= mask.len(),
        r * width >= 0,
    ensures
        ({
            let before = columns(mask, width as nat, from as nat, to as nat, (r * width) as nat);
            let picked = columns(
                mask,
                width as nat,
                from as nat,
                to as nat,
                (r * width + end) as nat,
            );
            &&& picked.len() == before.len() + columns_before(from, to, end)
            &&& forall|k: int| 0 <= k < before.len() ==> #[trigger] picked[k] == before[k]
            &&& forall|x: int|
                0 <= x < columns_before(from, to, end) ==> #[trigger] picked[before.len() + x]
                    == mask[r * width + (from + x)]
        }),
    decreases end,
{
    if end > 0 {
        lemma_columns_in_row(mask, width, from, to, r, end - 1);
        let last = r * width + end - 1;
        assert(last % width == end - 1) by {
            vstd::arithmetic::div_mod::lemma_fundamental_div_mod_converse(
                last,
                width,
                r,
                end - 1,
            );
        }
    }
}

/// The header at the start of a file names where the file comes from: the software, its version,
/// when it was made, the machine, the profile and the levels that go with it. It holds the
/// previews of the thumbnail of the job.
pub open spec fn names_its_origin(
    order: ByteOrder,
    bytes: Seq<u8>,
    job: SliceJobV3,
    created: Seq<char>,
) -> bool {
    let doc = json_parsed(job.metadata_json@);
    let own = at(doc, "goo"@);
    let level = |key: Seq<char>, otherwise: int| match u64_of(at(own, key)) {
        Some(n) => n as int % 0x1_0000,
        None => otherwise,
    };
    let previews = job_previews(owned_text(job.export_thumbnail_png_base64));
    &&& bytes.len() >= 195477
    &&& holds_text(bytes, 12, 32, "DragonFruit"@)
    &&& holds_text(
        bytes,
        44,
        24,
        named(text_of(at(own, "softwareVersion"@)), None, job.engine_version@),
    )
    &&& holds_text(bytes, 68, 24, created)
    &&& holds_text(
        bytes,
        92,
        32,
        named(
            text_of(at(own, "MachineName"@)),
            text_of(at(at(doc, "printer"@), "name"@)),
            "DragonFruit Printer"@,
        ),
    )
    &&& holds_text(bytes, 124, 32, named(text_of(at(own, "MachineType"@)), None, "DLP"@))
    &&& holds_text(
        bytes,
        156,
        32,
        named(
            text_of(at(own, "ProfileName"@)),
            text_of(at(at(doc, "material"@), "name"@)),
            "DragonFruit Profile"@,
        ),
    )
    &&& number16(order, bytes, 188) == level("antiAliasingLevel"@, 8)
    &&& number16(order, bytes, 190) == level("greyLevel"@, 1)
    &&& number16(order, bytes, 192) == level("blurLevel"@, 0)
    &&& bytes.subrange(194, 27106) == previews.0
    &&& bytes.subrange(27108, 195308) == previews.1
}

/// A text in a part of bytes is a text in the bytes.
proof fn lemma_text_inside(bytes: Seq<u8>, h: Seq<u8>, at: int, size: int, text: Seq<char>)
    requires
        h.len() == 195477,
        bytes.len() >= 195477,
        bytes.subrange(0, 195477) == h,
        0 <= at,
        at + size <= 195477,
        holds_text(h, at, size, text),
    ensures
        holds_text(bytes, at, size, text),
{
    let content = vstd::utf8::encode_utf8(text);
    assert forall|i: int| 0 <= i < size implies #[trigger] bytes[at + i] == if i < content.len()
        && i < size - 1 {
        content[i]
    } else {
        0
    } by {
        assert(bytes.subrange(0, 195477)[at + i] == bytes[at + i]);
        assert(h[at + i] == bytes[at + i]);
    }
}

/// A file that starts with the header of a job names its origin.
pub(crate) proof fn lemma_names_its_origin(
    order: ByteOrder,
    bytes: Seq<u8>,
    job: SliceJobV3,
    version: Seq<u8>,
    count: nat,
    created: Seq<char>,
)
    requires
        version.len() == 4,
        bytes.len() >= 195477,
        bytes.subrange(0, 195477) == header(order, job_header(job, version, count, created)),
    ensures
        names_its_origin(order, bytes, job, created),
{
    let f = job_header(job, version, count, created);
    let h = header(order, f);
    law_preview_sizes(owned_text(job.export_thumbnail_png_base64));
    law_header_names_its_origin(order, f);
    law_header_of_a_job_is_as_told(job, version, count, created);
    lemma_inside(order, bytes, h, 0);
    lemma_text_inside(bytes, h, 12, 32, "DragonFruit"@);
    lemma_text_inside(bytes, h, 44, 24, f.software_version);
    lemma_text_inside(bytes, h, 68, 24, f.build.created_datetime);
    lemma_text_inside(bytes, h, 92, 32, f.build.machine_name);
    lemma_text_inside(bytes, h, 124, 32, f.build.machine_type);
    lemma_text_inside(bytes, h, 156, 32, f.build.profile_name);
    assert(number16(order, bytes, 188) == number16(order, h, 188));
    assert(number16(order, bytes, 190) == number16(order, h, 190));
    assert(number16(order, bytes, 192) == number16(order, h, 192));
    assert(bytes.subrange(194, 27106) =~= h.subrange(194, 27106));
    assert(bytes.subrange(27108, 195308) =~= h.subrange(27108, 195308));
}

/// A file names its origin, and holds the previews of its job.
pub proof fn law_file_names_its_origin(
    job: SliceJobV3,
    layers: Seq<LayerView>,
    created: Seq<char>,
)
    ensures
        names_its_origin(ByteOrder::Big, goo_container(job, layers, created), job, created),
{
    let bytes = goo_container(job, layers, created);
    let version = crate::types::GOO_FILE_VERSION@;
    law_job_header_size(ByteOrder::Big, job, version, layers.len(), created);
    assert(bytes.subrange(0, 195477) =~= header(
        ByteOrder::Big,
        job_header(job, version, layers.len(), created),
    ));
    lemma_names_its_origin(ByteOrder::Big, bytes, job, version, layers.len(), created);
}

/// What is said of a layer with the wrong number of pixels.
pub open spec fn complaint(layer: nat, expected: nat, got: nat) -> Refusal {
    Refusal::MissingRenderedLayerPayload(
        "Goo layer "@ + decimal(layer) + " size mismatch: expected "@ + decimal(expected)
            + " bytes, got "@ + decimal(got),
    )
}

/// A worker answers an empty mask with a black layer, a mask of the wrong size with a refusal,
/// and any other mask with a layer that shows it. The layer has the number that was asked for,
/// lies at its height, and is a bottom layer up to the number of those.
pub proof fn law_workers_answer_with_what_masks_show(
    settings: LayerSettings,
    expected: nat,
    index: nat,
    mask: Seq<u8>,
)
    requires
        index < 0x1_0000_0000,
        runs_fit(mask_pixels(mask, settings.is_anti_aliased, settings.threshold)),
    ensures
        match task_answer(settings, expected, index, mask) {
            Err(refusal) => 0 < mask.len() && mask.len() != expected && refusal == complaint(
                index,
                expected,
                mask.len(),
            ),
            Ok(layer) => {
                &&& mask.len() == 0 || mask.len() == expected
                &&& layer.index == index
                &&& layer.is_bottom == (index < settings.bottom_layer_count)
                &&& layer.position_z_mm == layer_position(index, settings.layer_height_mm)
                &&& goo_rle_decoded(layer.encoded, expected) matches Ok(pixels) && {
                    &&& pixels.len() == expected
                    &&& forall|k: int|
                        0 <= k < expected ==> #[trigger] pixels[k] == if mask.len() == 0 {
                            0u8
                        } else {
                            shown(mask[k], settings.is_anti_aliased, settings.threshold)
                        }
                }
            },
        },
{
    if mask.len() == 0 {
        let black = repeated(0, expected);
        assert(runs_fit(black));
        law_decode_inverts_encode(black);
    } else if mask.len() == expected {
        law_masks_show_their_values(mask, settings.is_anti_aliased, settings.threshold);
        law_decode_inverts_encode(
            mask_pixels(mask, settings.is_anti_aliased, settings.threshold),
        );
    }
}

/// Rendered layers are refused where they are missing, where there are none, or where one does
/// not have a pixel for each of the job. Of those the first is named.
pub proof fn law_layers_are_refused_for_a_reason(
    job: SliceJobV3,
    rendered: RenderedLayersV3,
    i: int,
)
    requires
        job.source_width_px * job.source_height_px <= usize::MAX,
    ensures
        ({
            let expected = (job.source_width_px * job.source_height_px) as nat;
            let refusal = layers_refusal(job, rendered);
            match rendered.raw_mask_layers {
                None => refusal == Some(
                    Refusal::MissingRenderedLayerPayload(
                        "raw mask layers are required for Goo encoding"@,
                    ),
                ),
                Some(masks) => {
                    &&& masks@.len() == 0 ==> refusal == Some(
                        Refusal::MissingRenderedLayerPayload(
                            "no rendered layers were provided for Goo encoding"@,
                        ),
                    )
                    &&& masks@.len() > 0 && (forall|k: int|
                        0 <= k < masks@.len() ==> (#[trigger] masks@[k])@.len() == expected)
                        ==> refusal is None
                    &&& 0 <= i < masks@.len() && masks@[i]@.len() != expected && (forall|k: int|
                        0 <= k < i ==> (#[trigger] masks@[k])@.len() == expected) ==> refusal
                        == Some(complaint(i as nat, expected, masks@[i]@.len()))
                },
            }
        }),
{
    let expected = (job.source_width_px * job.source_height_px) as nat;
    if let Some(masks) = rendered.raw_mask_layers {
        if forall|k: int| 0 <= k < masks@.len() ==> (#[trigger] masks@[k])@.len() == expected {
            lemma_sizes_before(masks@, expected, masks@.len() as int, 0);
        }
        if 0 <= i < masks@.len() && (forall|k: int|
            0 <= k < i ==> (#[trigger] masks@[k])@.len() == expected) {
            lemma_sizes_before(masks@, expected, i, 0);
        }
    }
}

/// Masks of the right size are passed over.
proof fn lemma_sizes_before(masks: Seq<Vec<u8>>, expected: nat, i: int, from: int)
    requires
        0 <= from <= i <= masks.len(),
        forall|k: int| from <= k < i ==> (#[trigger] masks[k])@.len() == expected,
    ensures
        size_refusal(masks, expected, from) == size_refusal(masks, expected, i),
    decreases i - from,
{
    if from < i {
        assert(masks[from]@.len() == expected);
        lemma_sizes_before(masks, expected, i, from + 1);
    }
}

/// A picture shows a mask, pixel by pixel.
pub open spec fn draws_mask(p: Seq<u8>, mask: Seq<u8>, gray: bool, threshold: u8) -> bool {
    &&& p.len() == mask.len()
    &&& forall|k: int| 0 <= k < mask.len() ==> #[trigger] p[k] == shown(mask[k], gray, threshold)
}

/// One picture shows a mask.
pub(crate) proof fn lemma_draws_mask(mask: Seq<u8>, gray: bool, threshold: u8)
    ensures
        forall|p: Seq<u8>| #[trigger]
            draws_mask(p, mask, gray, threshold) ==> p == mask_pixels(mask, gray, threshold),
{
    law_masks_show_their_values(mask, gray, threshold);
    assert forall|p: Seq<u8>| #[trigger] draws_mask(p, mask, gray, threshold) implies p
        == mask_pixels(mask, gray, threshold) by {
        assert(p =~= mask_pixels(mask, gray, threshold));
    }
}

/// A picture of `total` pixels shows runs, one behind the other, and black behind them.
pub open spec fn draws_runs(
    p: Seq<u8>,
    runs: Seq<RleRun>,
    gray: bool,
    threshold: u8,
    total: nat,
) -> bool {
    &&& p.len() == total
    &&& forall|k: int, r: int|
        #![trigger p[k], runs[r]]
        0 <= k < total && 0 <= r < runs.len() && length_of(runs, r as nat) <= k < length_of(
            runs,
            (r + 1) as nat,
        ) ==> p[k] == shown(runs[r].value, gray, threshold)
    &&& forall|k: int| length_of(runs, runs.len()) <= k < total ==> #[trigger] p[k] == 0
}

/// Every pixel before the end of the runs lies in one of them.
proof fn lemma_covered(runs: Seq<RleRun>, n: nat, k: int) -> (r: int)
    requires
        n <= runs.len(),
        0 <= k < length_of(runs, n),
    ensures
        0 <= r < n,
        length_of(runs, r as nat) <= k < length_of(runs, (r + 1) as nat),
    decreases n,
{
    if k < length_of(runs, (n - 1) as nat) {
        lemma_covered(runs, (n - 1) as nat, k)
    } else {
        n - 1
    }
}

/// One picture shows runs.
pub(crate) proof fn lemma_draws_runs(
    runs: Seq<RleRun>,
    gray: bool,
    threshold: u8,
    total: nat,
)
    ensures
        forall|p: Seq<u8>| #[trigger]
            draws_runs(p, runs, gray, threshold, total) ==> p == run_pixels(
                runs,
                gray,
                threshold,
                total,
            ),
{
    let q = run_pixels(runs, gray, threshold, total);
    assert forall|p: Seq<u8>| #[trigger] draws_runs(p, runs, gray, threshold, total) implies p
        == q by {
        assert forall|k: int| 0 <= k < total implies p[k] == q[k] by {
            if k < length_of(runs, runs.len()) {
                let r = lemma_covered(runs, runs.len(), k);
                law_runs_show_their_values(runs, gray, threshold, total, r as nat, k as nat);
                assert(p[k] == shown(runs[r].value, gray, threshold));
            } else if runs.len() > 0 {
                law_runs_show_their_values(runs, gray, threshold, total, 0, k as nat);
            }
        }
        assert(p =~= q);
    }
}

/// Two pictures show the columns of a mask before its middle and from its middle on.
pub open spec fn draws_halves(
    left: Seq<u8>,
    right: Seq<u8>,
    mask: Seq<u8>,
    width: u16,
    gray: bool,
    threshold: u8,
) -> bool {
    let middle = (width / 2) as int;
    &&& mask.len() as int % width as int == 0
    &&& shows_columns(left, mask, width as int, 0, middle, gray, threshold)
    &&& shows_columns(right, mask, width as int, middle, width as int, gray, threshold)
}

/// One pair of pictures shows the halves of a mask.
pub(crate) proof fn lemma_draws_halves(
    layer_id: nat,
    mask: Seq<u8>,
    width: u16,
    settings: LayerSettings,
)
    requires
        width > 0,
    ensures
        forall|left: Seq<u8>, right: Seq<u8>| #[trigger]
            draws_halves(
                left,
                right,
                mask,
                width,
                settings.is_anti_aliased,
                settings.threshold,
            ) ==> {
                let halves = half_layers(layer_id, mask, width, settings);
                halves.0.encoded == goo_rle(left) && halves.1.encoded == goo_rle(right)
            },
{
    let (gray, threshold) = (settings.is_anti_aliased, settings.threshold);
    let (w, m) = (width as int, (width / 2) as int);
    assert forall|left: Seq<u8>, right: Seq<u8>| #[trigger]
        draws_halves(left, right, mask, width, gray, threshold) implies {
        let halves = half_layers(layer_id, mask, width, settings);
        halves.0.encoded == goo_rle(left) && halves.1.encoded == goo_rle(right)
    } by {
        lemma_shown_columns(mask, w, 0, m, gray, threshold, left);
        lemma_shown_columns(mask, w, m, w, gray, threshold, right);
    }
}

} // verus!
