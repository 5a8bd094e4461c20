//! The container: a header, the layers, an end.

use vstd::prelude::*;

use crate::bytes::{
    be16, be32, fixed_text, law_u16_reads_back, law_u32_reads_back, le16, le32, low_u16, low_u32, push_bytes, push_crlf, push_f32_be, push_f32_le, push_str_fixed,
    push_u16_be, push_u16_le, push_u32_be, push_u32_le, push_u8, push_zeros, u16_at, u32_at, zeros,
};
use crate::calendar::{datetime_text, now_datetime_string, LAST_SECOND};
use crate::duration::{compute_print_time_seconds, print_time};
use crate::error::SlicerV3Error;
use crate::json::{json_parsed, text_view};
use crate::layers::{layer_views, LayerView};
use crate::metadata::{
    build_model_created_at, metadata_build, metadata_height, metadata_software, metadata_timing,
    parse_software_info_from_metadata, parse_timing_model_from_job, text_or, BuildModelView,
};
use crate::preview::{build_goo_previews, job_previews, law_preview_sizes, GooPreviewBlobs};
use crate::single::Single;
use crate::types::{
    GooBuildModel, GooPreparedLayer, GooTimingModel, SliceJobV3, GOO_CRLF, GOO_FILE_MAGIC,
    GOO_FILE_VERSION, GOO_HEADER_SIZE, GOO_LAYER_COUNT_OFFSET, GOO_LAYER_DEF_ADDRESS_OFFSET,
    GOO_LAYER_DEF_SIZE,
};

verus! {

/// Which byte of a number comes first.
#[derive(Debug, Clone, Copy, PartialEq, Eq, Structural)]
pub enum ByteOrder {
    /// The most significant byte.
    Big,
    /// The least significant byte.
    Little,
}

/// The bytes of a 16-bit number.
pub open spec fn bytes16(order: ByteOrder, v: u16) -> Seq<u8> {
    match order {
        ByteOrder::Big => be16(v),
        ByteOrder::Little => le16(v),
    }
}

/// The bytes of a 32-bit number.
pub open spec fn bytes32(order: ByteOrder, v: u32) -> Seq<u8> {
    match order {
        ByteOrder::Big => be32(v),
        ByteOrder::Little => le32(v),
    }
}

fn push16(out: &mut Vec<u8>, order: ByteOrder, v: u16)
    ensures
        final(out)@ == old(out)@ + bytes16(order, v),
{
    match order {
        ByteOrder::Big => push_u16_be(out, v),
        ByteOrder::Little => push_u16_le(out, v),
    }
}

fn push32(out: &mut Vec<u8>, order: ByteOrder, v: u32)
    ensures
        final(out)@ == old(out)@ + bytes32(order, v),
{
    match order {
        ByteOrder::Big => push_u32_be(out, v),
        ByteOrder::Little => push_u32_le(out, v),
    }
}

fn push_single(out: &mut Vec<u8>, order: ByteOrder, v: Single)
    ensures
        final(out)@ == old(out)@ + bytes32(order, v.bits),
{
    match order {
        ByteOrder::Big => push_f32_be(out, v),
        ByteOrder::Little => push_f32_le(out, v),
    }
}

/// The bytes of a text.
pub open spec fn utf8(text: Seq<char>) -> Seq<u8> {
    vstd::utf8::encode_utf8(text)
}

/// What a header says.
pub struct HeaderFields {
    pub version: Seq<u8>,
    pub timing: GooTimingModel,
    pub build: BuildModelView,
    pub software_version: Seq<char>,
    pub small_preview: Seq<u8>,
    pub large_preview: Seq<u8>,
    pub layer_count: u32,
    pub res_x: u16,
    pub res_y: u16,
    pub display_width_mm: Single,
    pub display_height_mm: Single,
    pub machine_z_mm: Single,
    pub layer_height_mm: Single,
    pub print_time_sec: u32,
    pub is_grayscale: bool,
}

/// The start of a header: which file this is, and what it is for.
#[verifier::opaque]
pub open spec fn header_start(order: ByteOrder, f: HeaderFields) -> Seq<u8> {
    Seq::<u8>::empty() + f.version + GOO_FILE_MAGIC@ + fixed_text(utf8("DragonFruit"@), 32)
        + fixed_text(utf8(f.software_version), 24) + fixed_text(
        utf8(f.build.created_datetime),
        24,
    ) + fixed_text(utf8(f.build.machine_name), 32) + fixed_text(utf8(f.build.machine_type), 32)
        + fixed_text(utf8(f.build.profile_name), 32) + bytes16(order, f.build.anti_aliasing_level)
        + bytes16(order, f.build.grey_level) + bytes16(order, f.build.blur_level)
}

/// The previews of a header.
pub open spec fn header_previews(f: HeaderFields) -> Seq<u8> {
    Seq::<u8>::empty() + f.small_preview + GOO_CRLF@ + f.large_preview + GOO_CRLF@
}

/// A flag as a byte.
pub open spec fn flag(b: bool) -> u8 {
    if b {
        1
    } else {
        0
    }
}

/// The sizes that a header states, and the first times.
#[verifier::opaque]
pub open spec fn header_sizes(order: ByteOrder, f: HeaderFields) -> Seq<u8> {
    Seq::<u8>::empty() + bytes32(order, f.layer_count) + bytes16(order, f.res_x) + bytes16(
        order,
        f.res_y,
    ) + seq![flag(f.build.mirror_x)] + seq![flag(f.build.mirror_y)] + bytes32(
        order,
        f.display_width_mm.bits,
    ) + bytes32(order, f.display_height_mm.bits) + bytes32(order, f.machine_z_mm.bits) + bytes32(
        order,
        f.layer_height_mm.bits,
    ) + bytes32(order, f.timing.normal_exposure_sec.bits) + seq![f.timing.delay_mode] + bytes32(
        order,
        f.timing.light_off_delay_sec.bits,
    )
}

/// The wait times of a header, and how the bottom layers are exposed.
#[verifier::opaque]
pub open spec fn header_waits(order: ByteOrder, t: GooTimingModel) -> Seq<u8> {
    Seq::<u8>::empty() + bytes32(order, t.bottom_wait_time_after_cure_sec.bits) + bytes32(
        order,
        t.bottom_wait_time_after_lift_sec.bits,
    ) + bytes32(order, t.bottom_wait_time_before_cure_sec.bits) + bytes32(
        order,
        t.wait_time_after_cure_sec.bits,
    ) + bytes32(order, t.wait_time_after_lift_sec.bits) + bytes32(
        order,
        t.wait_time_before_cure_sec.bits,
    ) + bytes32(order, t.bottom_exposure_sec.bits) + bytes32(order, t.bottom_layer_count)
}

/// The first stage of motion in a header.
#[verifier::opaque]
pub open spec fn header_motion(order: ByteOrder, t: GooTimingModel) -> Seq<u8> {
    Seq::<u8>::empty() + bytes32(order, t.bottom_lift_distance_mm.bits) + bytes32(
        order,
        t.bottom_lift_speed_mm_min.bits,
    ) + bytes32(order, t.lift_distance_mm.bits) + bytes32(order, t.lift_speed_mm_min.bits)
        + bytes32(order, t.bottom_retract_distance_mm.bits) + bytes32(
        order,
        t.bottom_retract_speed_mm_min.bits,
    ) + bytes32(order, t.retract_distance_mm.bits) + bytes32(order, t.retract_speed_mm_min.bits)
}

/// The second stage of motion in a header.
#[verifier::opaque]
pub open spec fn header_motion2(order: ByteOrder, t: GooTimingModel) -> Seq<u8> {
    Seq::<u8>::empty() + bytes32(order, t.bottom_lift_distance2_mm.bits) + bytes32(
        order,
        t.bottom_lift_speed2_mm_min.bits,
    ) + bytes32(order, t.lift_distance2_mm.bits) + bytes32(order, t.lift_speed2_mm_min.bits)
        + bytes32(order, t.bottom_retract_distance2_mm.bits) + bytes32(
        order,
        t.bottom_retract_speed2_mm_min.bits,
    ) + bytes32(order, t.retract_distance2_mm.bits) + bytes32(order, t.retract_speed2_mm_min.bits)
}

/// The end of a header. The settings of the layers do not override it, the volume, weight
/// and price are left at zero, and the first layer follows right behind.
#[verifier::opaque]
pub open spec fn header_end(order: ByteOrder, f: HeaderFields) -> Seq<u8> {
    Seq::<u8>::empty() + bytes16(order, f.timing.bottom_light_pwm) + bytes16(
        order,
        f.timing.light_pwm,
    ) + seq![0u8] + bytes32(order, f.print_time_sec) + bytes32(order, 0) + bytes32(order, 0)
        + bytes32(order, 0) + fixed_text(utf8("$"@), 8) + bytes32(order, GOO_HEADER_SIZE) + seq![
        flag(f.is_grayscale),
    ] + bytes16(order, f.timing.transition_layer_count)
}

/// A header.
#[verifier::opaque]
pub open spec fn header(order: ByteOrder, f: HeaderFields) -> Seq<u8> {
    header_start(order, f) + header_previews(f) + header_sizes(order, f) + header_waits(
        order,
        f.timing,
    ) + header_motion(order, f.timing) + header_motion2(order, f.timing) + header_end(order, f)
}

fn write_header_start(
    order: ByteOrder,
    version: &[u8],
    build: &GooBuildModel,
    software_version: &str,
    Ghost(f): Ghost<HeaderFields>,
) -> (out: Vec<u8>)
    requires
        f.version == version@,
        f.build == build@,
        f.software_version == software_version@,
    ensures
        out@ == header_start(order, f),
{
    let mut out: Vec<u8> = Vec::new();
    push_bytes(&mut out, version);
    push_bytes(&mut out, GOO_FILE_MAGIC.as_slice());
    push_str_fixed(&mut out, "DragonFruit", 32);
    push_str_fixed(&mut out, software_version, 24);
    push_str_fixed(&mut out, &build.created_datetime, 24);
    push_str_fixed(&mut out, &build.machine_name, 32);
    push_str_fixed(&mut out, &build.machine_type, 32);
    push_str_fixed(&mut out, &build.profile_name, 32);
    push16(&mut out, order, build.anti_aliasing_level);
    push16(&mut out, order, build.grey_level);
    push16(&mut out, order, build.blur_level);
    proof {
        reveal(header_start);
    }
    out
}

fn as_flag(b: bool) -> (r: u8)
    ensures
        r == flag(b),
{
    if b {
        1
    } else {
        0
    }
}

fn write_header_waits(order: ByteOrder, t: &GooTimingModel) -> (out: Vec<u8>)
    ensures
        out@ == header_waits(order, *t),
{
    let mut out: Vec<u8> = Vec::new();
    push_single(&mut out, order, t.bottom_wait_time_after_cure_sec);
    push_single(&mut out, order, t.bottom_wait_time_after_lift_sec);
    push_single(&mut out, order, t.bottom_wait_time_before_cure_sec);
    push_single(&mut out, order, t.wait_time_after_cure_sec);
    push_single(&mut out, order, t.wait_time_after_lift_sec);
    push_single(&mut out, order, t.wait_time_before_cure_sec);
    push_single(&mut out, order, t.bottom_exposure_sec);
    push32(&mut out, order, t.bottom_layer_count);
    proof {
        reveal(header_waits);
    }
    out
}

fn write_header_motion(order: ByteOrder, t: &GooTimingModel) -> (out: Vec<u8>)
    ensures
        out@ == header_motion(order, *t),
{
    let mut out: Vec<u8> = Vec::new();
    push_single(&mut out, order, t.bottom_lift_distance_mm);
    push_single(&mut out, order, t.bottom_lift_speed_mm_min);
    push_single(&mut out, order, t.lift_distance_mm);
    push_single(&mut out, order, t.lift_speed_mm_min);
    push_single(&mut out, order, t.bottom_retract_distance_mm);
    push_single(&mut out, order, t.bottom_retract_speed_mm_min);
    push_single(&mut out, order, t.retract_distance_mm);
    push_single(&mut out, order, t.retract_speed_mm_min);
    proof {
        reveal(header_motion);
    }
    out
}

fn write_header_motion2(order: ByteOrder, t: &GooTimingModel) -> (out: Vec<u8>)
    ensures
        out@ == header_motion2(order, *t),
{
    let mut out: Vec<u8> = Vec::new();
    push_single(&mut out, order, t.bottom_lift_distance2_mm);
    push_single(&mut out, order, t.bottom_lift_speed2_mm_min);
    push_single(&mut out, order, t.lift_distance2_mm);
    push_single(&mut out, order, t.lift_speed2_mm_min);
    push_single(&mut out, order, t.bottom_retract_distance2_mm);
    push_single(&mut out, order, t.bottom_retract_speed2_mm_min);
    push_single(&mut out, order, t.retract_distance2_mm);
    push_single(&mut out, order, t.retract_speed2_mm_min);
    proof {
        reveal(header_motion2);
    }
    out
}

/// Appends a header.
#[allow(clippy::too_many_arguments)]
pub fn write_header(
    out: &mut Vec<u8>,
    order: ByteOrder,
    version: &[u8],
    timing: &GooTimingModel,
    build: &GooBuildModel,
    software_version: &str,
    small_preview: &[u8],
    large_preview: &[u8],
    layer_count: u32,
    res_x: u16,
    res_y: u16,
    display_width_mm: Single,
    display_height_mm: Single,
    machine_z_mm: Single,
    layer_height_mm: Single,
    print_time_sec: u32,
    is_grayscale: bool,
)
    ensures
        final(out)@ == old(out)@ + header(
            order,
            (HeaderFields {
                version: version@,
                timing: *timing,
                build: build@,
                software_version: software_version@,
                small_preview: small_preview@,
                large_preview: large_preview@,
                layer_count,
                res_x,
                res_y,
                display_width_mm,
                display_height_mm,
                machine_z_mm,
                layer_height_mm,
                print_time_sec,
                is_grayscale,
            }),
        ),
{
    let ghost f = HeaderFields {
        version: version@,
        timing: *timing,
        build: build@,
        software_version: software_version@,
        small_preview: small_preview@,
        large_preview: large_preview@,
        layer_count,
        res_x,
        res_y,
        display_width_mm,
        display_height_mm,
        machine_z_mm,
        layer_height_mm,
        print_time_sec,
        is_grayscale,
    };
    let mut head: Vec<u8> = write_header_start(order, version, build, software_version, Ghost(f));

    let mut previews: Vec<u8> = Vec::new();
    push_bytes(&mut previews, small_preview);
    push_crlf(&mut previews);
    push_bytes(&mut previews, large_preview);
    push_crlf(&mut previews);
    push_bytes(&mut head, &previews);

    let mut sizes: Vec<u8> = Vec::new();
    push32(&mut sizes, order, layer_count);
    push16(&mut sizes, order, res_x);
    push16(&mut sizes, order, res_y);
    push_u8(&mut sizes, as_flag(build.mirror_x));
    push_u8(&mut sizes, as_flag(build.mirror_y));
    push_single(&mut sizes, order, display_width_mm);
    push_single(&mut sizes, order, display_height_mm);
    push_single(&mut sizes, order, machine_z_mm);
    push_single(&mut sizes, order, layer_height_mm);
    push_single(&mut sizes, order, timing.normal_exposure_sec);
    push_u8(&mut sizes, timing.delay_mode);
    push_single(&mut sizes, order, timing.light_off_delay_sec);
    push_bytes(&mut head, &sizes);

    push_bytes(&mut head, &write_header_waits(order, timing));
    push_bytes(&mut head, &write_header_motion(order, timing));
    push_bytes(&mut head, &write_header_motion2(order, timing));

    let mut end: Vec<u8> = Vec::new();
    push16(&mut end, order, timing.bottom_light_pwm);
    push16(&mut end, order, timing.light_pwm);
    push_u8(&mut end, 0);
    push32(&mut end, order, print_time_sec);
    push32(&mut end, order, 0);
    push32(&mut end, order, 0);
    push32(&mut end, order, 0);
    push_str_fixed(&mut end, "$", 8);
    push32(&mut end, order, GOO_HEADER_SIZE);
    push_u8(&mut end, as_flag(is_grayscale));
    push16(&mut end, order, timing.transition_layer_count);
    push_bytes(&mut head, &end);

    proof {
        reveal(header);
        reveal(header_sizes);
        reveal(header_end);
    }
    push_bytes(out, &head);
}

/// How one layer is exposed and left.
#[derive(Debug, Clone, Copy, PartialEq, Eq, Structural)]
pub struct StageTiming {
    pub exposure: Single,
    pub light_off: Single,
    pub wait_after_cure: Single,
    pub wait_after_lift: Single,
    pub wait_before_cure: Single,
    pub lift_distance: Single,
    pub lift_speed: Single,
    pub lift_distance2: Single,
    pub lift_speed2: Single,
    pub retract_distance: Single,
    pub retract_speed: Single,
    pub retract_distance2: Single,
    pub retract_speed2: Single,
    pub light_pwm: u16,
}

/// The timing of a bottom layer, or of another one.
pub open spec fn stage_timing(t: GooTimingModel, is_bottom: bool) -> StageTiming {
    if is_bottom {
        StageTiming {
            exposure: t.bottom_exposure_sec,
            light_off: t.bottom_light_off_delay_sec,
            wait_after_cure: t.bottom_wait_time_after_cure_sec,
            wait_after_lift: t.bottom_wait_time_after_lift_sec,
            wait_before_cure: t.bottom_wait_time_before_cure_sec,
            lift_distance: t.bottom_lift_distance_mm,
            lift_speed: t.bottom_lift_speed_mm_min,
            lift_distance2: t.bottom_lift_distance2_mm,
            lift_speed2: t.bottom_lift_speed2_mm_min,
            retract_distance: t.bottom_retract_distance_mm,
            retract_speed: t.bottom_retract_speed_mm_min,
            retract_distance2: t.bottom_retract_distance2_mm,
            retract_speed2: t.bottom_retract_speed2_mm_min,
            light_pwm: t.bottom_light_pwm,
        }
    } else {
        StageTiming {
            exposure: t.normal_exposure_sec,
            light_off: t.light_off_delay_sec,
            wait_after_cure: t.wait_time_after_cure_sec,
            wait_after_lift: t.wait_time_after_lift_sec,
            wait_before_cure: t.wait_time_before_cure_sec,
            lift_distance: t.lift_distance_mm,
            lift_speed: t.lift_speed_mm_min,
            lift_distance2: t.lift_distance2_mm,
            lift_speed2: t.lift_speed2_mm_min,
            retract_distance: t.retract_distance_mm,
            retract_speed: t.retract_speed_mm_min,
            retract_distance2: t.retract_distance2_mm,
            retract_speed2: t.retract_speed2_mm_min,
            light_pwm: t.light_pwm,
        }
    }
}

/// The pattern of 200, the height to pause at; no layer pauses.
pub const PAUSE_POSITION_BITS: u32 = 0x4348_0000;

/// The definition of a layer at height `z`.
#[verifier::opaque]
pub open spec fn layer_def(order: ByteOrder, z: Single, s: StageTiming) -> Seq<u8> {
    Seq::<u8>::empty() + bytes16(order, 0) + bytes32(order, PAUSE_POSITION_BITS) + bytes32(
        order,
        z.bits,
    ) + bytes32(order, s.exposure.bits) + bytes32(order, s.light_off.bits) + bytes32(
        order,
        s.wait_after_cure.bits,
    ) + bytes32(order, s.wait_after_lift.bits) + bytes32(order, s.wait_before_cure.bits) + bytes32(
        order,
        s.lift_distance.bits,
    ) + bytes32(order, s.lift_speed.bits) + bytes32(order, s.lift_distance2.bits) + bytes32(
        order,
        s.lift_speed2.bits,
    ) + bytes32(order, s.retract_distance.bits) + bytes32(order, s.retract_speed.bits) + bytes32(
        order,
        s.retract_distance2.bits,
    ) + bytes32(order, s.retract_speed2.bits) + bytes16(order, s.light_pwm) + GOO_CRLF@
}

/// The timing of a bottom layer, or of another one.
pub(crate) fn pick_timing(t: &GooTimingModel, is_bottom: bool) -> (r: StageTiming)
    ensures
        r == stage_timing(*t, is_bottom),
{
    if is_bottom {
        StageTiming {
            exposure: t.bottom_exposure_sec,
            light_off: t.bottom_light_off_delay_sec,
            wait_after_cure: t.bottom_wait_time_after_cure_sec,
            wait_after_lift: t.bottom_wait_time_after_lift_sec,
            wait_before_cure: t.bottom_wait_time_before_cure_sec,
            lift_distance: t.bottom_lift_distance_mm,
            lift_speed: t.bottom_lift_speed_mm_min,
            lift_distance2: t.bottom_lift_distance2_mm,
            lift_speed2: t.bottom_lift_speed2_mm_min,
            retract_distance: t.bottom_retract_distance_mm,
            retract_speed: t.bottom_retract_speed_mm_min,
            retract_distance2: t.bottom_retract_distance2_mm,
            retract_speed2: t.bottom_retract_speed2_mm_min,
            light_pwm: t.bottom_light_pwm,
        }
    } else {
        StageTiming {
            exposure: t.normal_exposure_sec,
            light_off: t.light_off_delay_sec,
            wait_after_cure: t.wait_time_after_cure_sec,
            wait_after_lift: t.wait_time_after_lift_sec,
            wait_before_cure: t.wait_time_before_cure_sec,
            lift_distance: t.lift_distance_mm,
            lift_speed: t.lift_speed_mm_min,
            lift_distance2: t.lift_distance2_mm,
            lift_speed2: t.lift_speed2_mm_min,
            retract_distance: t.retract_distance_mm,
            retract_speed: t.retract_speed_mm_min,
            retract_distance2: t.retract_distance2_mm,
            retract_speed2: t.retract_speed2_mm_min,
            light_pwm: t.light_pwm,
        }
    }
}

/// Appends the definition of a layer at height `z`.
pub fn write_layer_def(
    out: &mut Vec<u8>,
    order: ByteOrder,
    z: Single,
    is_bottom: bool,
    timing: &GooTimingModel,
)
    ensures
        final(out)@ == old(out)@ + layer_def(order, z, stage_timing(*timing, is_bottom)),
{
    let s: StageTiming = pick_timing(timing, is_bottom);
    let mut def: Vec<u8> = Vec::new();
    push16(&mut def, order, 0);
    push32(&mut def, order, PAUSE_POSITION_BITS);
    push_single(&mut def, order, z);
    push_single(&mut def, order, s.exposure);
    push_single(&mut def, order, s.light_off);
    push_single(&mut def, order, s.wait_after_cure);
    push_single(&mut def, order, s.wait_after_lift);
    push_single(&mut def, order, s.wait_before_cure);
    push_single(&mut def, order, s.lift_distance);
    push_single(&mut def, order, s.lift_speed);
    push_single(&mut def, order, s.lift_distance2);
    push_single(&mut def, order, s.lift_speed2);
    push_single(&mut def, order, s.retract_distance);
    push_single(&mut def, order, s.retract_speed);
    push_single(&mut def, order, s.retract_distance2);
    push_single(&mut def, order, s.retract_speed2);
    push16(&mut def, order, s.light_pwm);
    push_crlf(&mut def);
    proof {
        reveal(layer_def);
    }
    push_bytes(out, &def);
}

/// The record of a layer: its definition, the length of its data, the data.
#[verifier::opaque]
pub open spec fn record(layer: LayerView, timing: GooTimingModel) -> Seq<u8> {
    layer_def(ByteOrder::Big, layer.position_z_mm, stage_timing(timing, layer.is_bottom)) + be32(
        (layer.encoded.len() % 0x1_0000_0000) as u32,
    ) + layer.encoded + GOO_CRLF@
}

/// The records of layers, one after the other.
pub open spec fn records(layers: Seq<LayerView>, timing: GooTimingModel) -> Seq<u8>
    decreases layers.len(),
{
    if layers.len() == 0 {
        seq![]
    } else {
        records(layers.drop_last(), timing) + record(layers.last(), timing)
    }
}

/// What ends a container.
pub open spec fn container_end() -> Seq<u8> {
    zeros(3) + GOO_FILE_MAGIC@
}

/// The text of an optional string.
pub open spec fn owned_text(s: Option<String>) -> Option<Seq<char>> {
    match s {
        Some(text) => Some(text@),
        None => None,
    }
}

/// What the header of a job says, for a file of `layer_count` layers made at `created`.
pub open spec fn job_header(
    job: SliceJobV3,
    version: Seq<u8>,
    layer_count: nat,
    created: Seq<char>,
) -> HeaderFields {
    let doc = json_parsed(job.metadata_json@);
    let previews = job_previews(owned_text(job.export_thumbnail_png_base64));
    HeaderFields {
        version,
        timing: metadata_timing(doc),
        build: metadata_build(doc, created),
        software_version: text_or(metadata_software(doc), job.engine_version@),
        small_preview: previews.0,
        large_preview: previews.1,
        layer_count: (layer_count % 0x1_0000_0000) as u32,
        res_x: (job.source_width_px % 0x1_0000) as u16,
        res_y: (job.source_height_px % 0x1_0000) as u16,
        display_width_mm: job.build_width_mm,
        display_height_mm: job.build_depth_mm,
        machine_z_mm: metadata_build(doc, created).machine_z_mm,
        layer_height_mm: job.layer_height_mm,
        print_time_sec: print_time(layer_count % 0x1_0000_0000, metadata_timing(doc)),
        is_grayscale: job.grayscale_output,
    }
}

/// The timing of a job.
pub open spec fn job_timing(job: SliceJobV3) -> GooTimingModel {
    metadata_timing(json_parsed(job.metadata_json@))
}

/// The container of a job, made at `created`.
pub open spec fn goo_container(job: SliceJobV3, layers: Seq<LayerView>, created: Seq<char>) -> Seq<
    u8,
> {
    header(ByteOrder::Big, job_header(job, GOO_FILE_VERSION@, layers.len(), created)) + records(
        layers,
        job_timing(job),
    ) + container_end()
}

/// A text that may be missing, borrowed.
pub(crate) fn borrowed(s: &Option<String>) -> (r: Option<&str>)
    ensures
        text_view(r) == owned_text(*s),
{
    match s {
        Some(text) => Some(text.as_str()),
        None => None,
    }
}

/// What the header of a job takes from its metadata and its thumbnail.
pub(crate) struct HeaderParts {
    pub build: GooBuildModel,
    pub software_version: String,
    pub previews: GooPreviewBlobs,
}

/// What the header of a job takes from its metadata and its thumbnail, for a file made at
/// `created_datetime`.
pub(crate) fn header_parts(job: &SliceJobV3, created_datetime: &str) -> (r: HeaderParts)
    ensures
        r.build@ == metadata_build(json_parsed(job.metadata_json@), created_datetime@),
        r.software_version@ == text_or(
            metadata_software(json_parsed(job.metadata_json@)),
            job.engine_version@,
        ),
        (r.previews.small@, r.previews.large@) == job_previews(
            owned_text(job.export_thumbnail_png_base64),
        ),
{
    HeaderParts {
        build: build_model_created_at(&job.metadata_json, created_datetime.to_string()),
        software_version: parse_software_info_from_metadata(
            &job.metadata_json,
            &job.engine_version,
        ),
        previews: match build_goo_previews(borrowed(&job.export_thumbnail_png_base64)) {
            Ok(previews) => previews,
            Err(_) => vstd::pervasive::unreached(),
        },
    }
}

/// The header of a job, for a file of `layer_count` layers made at `created_datetime`.
pub(crate) fn goo_header(
    job: &SliceJobV3,
    timing: &GooTimingModel,
    layer_count: usize,
    created_datetime: &str,
) -> (out: Vec<u8>)
    requires
        *timing == job_timing(*job),
    ensures
        out@ == header(
            ByteOrder::Big,
            job_header(*job, GOO_FILE_VERSION@, layer_count as nat, created_datetime@),
        ),
{
    let parts: HeaderParts = header_parts(job, created_datetime);
    let mut out: Vec<u8> = Vec::new();
    write_header(
        &mut out,
        ByteOrder::Big,
        GOO_FILE_VERSION.as_slice(),
        timing,
        &parts.build,
        &parts.software_version,
        &parts.previews.small,
        &parts.previews.large,
        low_u32(layer_count as u64),
        low_u16(job.source_width_px as u64),
        low_u16(job.source_height_px as u64),
        job.build_width_mm,
        job.build_depth_mm,
        parts.build.machine_z_mm,
        job.layer_height_mm,
        compute_print_time_seconds(low_u32(layer_count as u64) as usize, timing),
        job.produces_grayscale_output(),
    );
    assert(out@ =~= header(
        ByteOrder::Big,
        job_header(*job, GOO_FILE_VERSION@, layer_count as nat, created_datetime@),
    ));
    out
}

/// Appends the record of a layer.
pub(crate) fn push_record(out: &mut Vec<u8>, layer: &GooPreparedLayer, timing: &GooTimingModel)
    ensures
        final(out)@ == old(out)@ + record(layer@, *timing),
{
    let mut rec: Vec<u8> = Vec::new();
    write_layer_def(&mut rec, ByteOrder::Big, layer.position_z_mm, layer.is_bottom, timing);
    assert(rec@ =~= layer_def(
        ByteOrder::Big,
        layer.position_z_mm,
        stage_timing(*timing, layer.is_bottom),
    ));
    push_u32_be(&mut rec, low_u32(layer.encoded.len() as u64));
    push_bytes(&mut rec, &layer.encoded);
    push_crlf(&mut rec);
    proof {
        reveal(record);
    }
    push_bytes(out, &rec);
}

/// Appends what ends a container.
pub(crate) fn push_container_end(out: &mut Vec<u8>)
    ensures
        final(out)@ == old(out)@ + container_end(),
{
    let ghost before = out@;
    push_zeros(out, 3);
    push_bytes(out, GOO_FILE_MAGIC.as_slice());
    assert(out@ =~= before + container_end());
}

pub(crate) proof fn lemma_records_step(layers: Seq<LayerView>, i: int, timing: GooTimingModel)
    requires
        0 <= i < layers.len(),
    ensures
        records(layers.take(i + 1), timing) == records(layers.take(i), timing) + record(
            layers[i],
            timing,
        ),
{
    assert(layers.take(i + 1).drop_last() =~= layers.take(i));
}

/// The container of a job, made at `created_datetime`.
pub fn build_goo_container_bytes_created_at(
    job: &SliceJobV3,
    prepared: &[GooPreparedLayer],
    created_datetime: &str,
) -> (out: Vec<u8>)
    ensures
        out@ == goo_container(*job, layer_views(prepared@), created_datetime@),
{
    let timing: GooTimingModel = parse_timing_model_from_job(job);
    let ghost layers = layer_views(prepared@);
    let mut out: Vec<u8> = goo_header(job, &timing, prepared.len(), created_datetime);
    let ghost head = out@;
    let mut i: usize = 0;
    assert(layers.take(0) =~= seq![]);
    assert(out@ =~= head + records(layers.take(0), timing));
    while i < prepared.len()
        invariant
            i <= prepared@.len(),
            layers == layer_views(prepared@),
            out@ == head + records(layers.take(i as int), timing),
        decreases prepared@.len() - i,
    {
        push_record(&mut out, &prepared[i], &timing);
        proof {
            lemma_records_step(layers, i as int, timing);
            assert(out@ =~= head + records(layers.take(i + 1), timing));
        }
        i = i + 1;
    }
    assert(layers.take(prepared@.len() as int) =~= layers);
    push_container_end(&mut out);
    out
}

/// The container of a job, made now. This never fails.
pub fn build_goo_container_bytes(job: &SliceJobV3, prepared: &[GooPreparedLayer]) -> (r: Result<
    Vec<u8>,
    SlicerV3Error,
>)
    ensures
        exists|secs: u64|
            secs <= LAST_SECOND && (r matches Ok(out) && out@ == goo_container(
                *job,
                layer_views(prepared@),
                #[trigger] datetime_text(secs as nat),
            )),
{
    let created: String = now_datetime_string();
    Ok(build_goo_container_bytes_created_at(job, prepared, &created))
}

/// How many bytes numbers take.
proof fn lemma_number_len(order: ByteOrder)
    ensures
        forall|v: u16| (#[trigger] bytes16(order, v)).len() == 2,
        forall|v: u32| (#[trigger] bytes32(order, v)).len() == 4,
{
}

proof fn lemma_start_len(order: ByteOrder, f: HeaderFields)
    requires
        f.version.len() == 4,
    ensures
        header_start(order, f).len() == 194,
{
    reveal(header_start);
    lemma_number_len(order);
}

proof fn lemma_previews_len(f: HeaderFields)
    requires
        f.small_preview.len() == 26912,
        f.large_preview.len() == 168200,
    ensures
        header_previews(f).len() == 26914 + 168202,
{
}

proof fn lemma_sizes_len(order: ByteOrder, f: HeaderFields)
    ensures
        header_sizes(order, f).len() == 35,
{
    reveal(header_sizes);
    lemma_number_len(order);
}

proof fn lemma_waits_len(order: ByteOrder, t: GooTimingModel)
    ensures
        header_waits(order, t).len() == 24 + 8,
{
    reveal(header_waits);
    lemma_number_len(order);
}

proof fn lemma_motion_len(order: ByteOrder, t: GooTimingModel)
    ensures
        header_motion(order, t).len() == 32,
{
    reveal(header_motion);
    lemma_number_len(order);
}

proof fn lemma_motion2_len(order: ByteOrder, t: GooTimingModel)
    ensures
        header_motion2(order, t).len() == 32,
{
    reveal(header_motion2);
    lemma_number_len(order);
}

proof fn lemma_end_len(order: ByteOrder, f: HeaderFields)
    ensures
        header_end(order, f).len() == 36,
{
    reveal(header_end);
    lemma_number_len(order);
}

/// The parts of a header have the sizes that `GOO_HEADER_SIZE` adds up.
pub(crate) proof fn lemma_header_parts(order: ByteOrder, f: HeaderFields)
    requires
        f.version.len() == 4,
        f.small_preview.len() == 26912,
        f.large_preview.len() == 168200,
    ensures
        header_start(order, f).len() == 194,
        header_previews(f).len() == 26914 + 168202,
        header_sizes(order, f).len() == 35,
        header_waits(order, f.timing).len() == 24 + 8,
        header_motion(order, f.timing).len() == 32,
        header_motion2(order, f.timing).len() == 32,
        header_end(order, f).len() == 36,
{
    lemma_start_len(order, f);
    lemma_previews_len(f);
    lemma_sizes_len(order, f);
    lemma_waits_len(order, f.timing);
    lemma_motion_len(order, f.timing);
    lemma_motion2_len(order, f.timing);
    lemma_end_len(order, f);
}

/// A header is exactly as long as the address of the first layer says.
pub proof fn law_header_size(order: ByteOrder, f: HeaderFields)
    requires
        f.version.len() == 4,
        f.small_preview.len() == 26912,
        f.large_preview.len() == 168200,
    ensures
        header(order, f).len() == GOO_HEADER_SIZE,
{
    reveal(header);
    lemma_header_parts(order, f);
}

/// The header of every job, in either version, is exactly as long as the address of the
/// first layer says.
pub proof fn law_job_header_size(
    order: ByteOrder,
    job: SliceJobV3,
    version: Seq<u8>,
    layer_count: nat,
    created: Seq<char>,
)
    requires
        version.len() == 4,
    ensures
        header(order, job_header(job, version, layer_count, created)).len() == GOO_HEADER_SIZE,
{
    law_preview_sizes(owned_text(job.export_thumbnail_png_base64));
    law_header_size(order, job_header(job, version, layer_count, created));
}

/// What lies at the start of the part of a header that states sizes.
proof fn lemma_sizes_start(f: HeaderFields)
    ensures
        ({
            let part = header_sizes(ByteOrder::Big, f);
            &&& u32_at(part, 0) == f.layer_count
            &&& u16_at(part, 4) == f.res_x
            &&& u16_at(part, 6) == f.res_y
        }),
{
    let part = header_sizes(ByteOrder::Big, f);
    let rest = part.skip(8);
    let numbers = be32(f.layer_count) + be16(f.res_x) + be16(f.res_y);
    assert(part.len() >= 8 && part.take(8) =~= numbers) by {
        reveal(header_sizes);
    }
    assert(part =~= part.take(8) + rest);
    law_u32_reads_back(seq![], f.layer_count, be16(f.res_x) + be16(f.res_y) + rest);
    assert(part =~= Seq::<u8>::empty() + be32(f.layer_count) + (be16(f.res_x) + be16(f.res_y)
        + rest));
    law_u16_reads_back(be32(f.layer_count), f.res_x, be16(f.res_y) + rest);
    assert(part =~= be32(f.layer_count) + be16(f.res_x) + (be16(f.res_y) + rest));
    law_u16_reads_back(be32(f.layer_count) + be16(f.res_x), f.res_y, rest);
}

/// Where the last part of a header states the address of the first layer.
proof fn lemma_end_address(f: HeaderFields)
    ensures
        u32_at(header_end(ByteOrder::Big, f), 29) == GOO_HEADER_SIZE,
{
    let o = ByteOrder::Big;
    let before = Seq::<u8>::empty() + bytes16(o, f.timing.bottom_light_pwm) + bytes16(
        o,
        f.timing.light_pwm,
    ) + seq![0u8] + bytes32(o, f.print_time_sec) + bytes32(o, 0) + bytes32(o, 0) + bytes32(o, 0)
        + fixed_text(utf8("$"@), 8);
    let after = seq![flag(f.is_grayscale)] + bytes16(o, f.timing.transition_layer_count);
    reveal(header_end);
    assert(before.len() == 29);
    assert(header_end(o, f) =~= before + be32(GOO_HEADER_SIZE) + after);
    law_u32_reads_back(before, GOO_HEADER_SIZE, after);
}

/// Reading inside a part of a sequence is reading inside the sequence.
pub proof fn lemma_read_inside(before: Seq<u8>, part: Seq<u8>, after: Seq<u8>, at: int)
    requires
        0 <= at,
    ensures
        at + 2 <= part.len() ==> u16_at(before + part + after, before.len() + at) == u16_at(
            part,
            at,
        ),
        at + 4 <= part.len() ==> u32_at(before + part + after, before.len() + at) == u32_at(
            part,
            at,
        ),
{
    let all = before + part + after;
    assert(forall|k: int| 0 <= k < part.len() ==> all[before.len() + k] == #[trigger] part[k]);
}

/// A header with the most significant bytes first reads back: its version, its magic, its
/// layer count, its resolution and the address of the first layer stand where readers look
/// for them.
pub proof fn law_header_reads_back(f: HeaderFields)
    requires
        f.version.len() == 4,
        f.small_preview.len() == 26912,
        f.large_preview.len() == 168200,
    ensures
        ({
            let h = header(ByteOrder::Big, f);
            &&& h.len() == GOO_HEADER_SIZE
            &&& h.subrange(0, 4) == f.version
            &&& h.subrange(4, 12) == GOO_FILE_MAGIC@
            &&& u32_at(h, GOO_LAYER_COUNT_OFFSET as int) == f.layer_count
            &&& u16_at(h, GOO_LAYER_COUNT_OFFSET + 4) == f.res_x
            &&& u16_at(h, GOO_LAYER_COUNT_OFFSET + 6) == f.res_y
            &&& u32_at(h, GOO_LAYER_DEF_ADDRESS_OFFSET as int) == GOO_HEADER_SIZE
        }),
{
    let o = ByteOrder::Big;
    let h = header(o, f);
    reveal(header);
    lemma_header_parts(o, f);
    let start = header_start(o, f);
    assert(start.subrange(0, 4) =~= f.version && start.subrange(4, 12) =~= GOO_FILE_MAGIC@) by {
        reveal(header_start);
    }
    assert(h.subrange(0, 4) =~= start.subrange(0, 4));
    assert(h.subrange(4, 12) =~= start.subrange(4, 12));
    let front = start + header_previews(f);
    let sizes = header_sizes(o, f);
    let middle = header_waits(o, f.timing) + header_motion(o, f.timing) + header_motion2(
        o,
        f.timing,
    );
    let end = header_end(o, f);
    assert(h =~= front + sizes + (middle + end));
    assert(h =~= (front + sizes + middle) + end + seq![]);
    lemma_sizes_start(f);
    lemma_read_inside(front, sizes, middle + end, 0);
    lemma_read_inside(front, sizes, middle + end, 4);
    lemma_read_inside(front, sizes, middle + end, 6);
    lemma_end_address(f);
    lemma_read_inside(front + sizes + middle, end, seq![], 29);
}

/// The definition of a layer takes 66 bytes, and 70 with the length of its data.
pub proof fn law_layer_def_size(order: ByteOrder, z: Single, s: StageTiming)
    ensures
        layer_def(order, z, s).len() == 66,
        layer_def(order, z, s).len() + 4 == GOO_LAYER_DEF_SIZE,
{
    reveal(layer_def);
    match order {
        ByteOrder::Big => assert(layer_def(ByteOrder::Big, z, s).len() == 66),
        ByteOrder::Little => assert(layer_def(ByteOrder::Little, z, s).len() == 66),
    }
}

/// What the definition of a layer starts with: its height and its exposure.
proof fn lemma_def_start(z: Single, s: StageTiming)
    ensures
        u32_at(layer_def(ByteOrder::Big, z, s), 6) == z.bits,
        u32_at(layer_def(ByteOrder::Big, z, s), 10) == s.exposure.bits,
{
    let def = layer_def(ByteOrder::Big, z, s);
    let first = be16(0) + be32(PAUSE_POSITION_BITS);
    let rest = def.skip(14);
    assert(def.len() >= 14 && def.take(14) =~= first + be32(z.bits) + be32(s.exposure.bits)) by {
        reveal(layer_def);
    }
    assert(def =~= def.take(14) + rest);
    assert(def =~= first + be32(z.bits) + (be32(s.exposure.bits) + rest));
    law_u32_reads_back(first, z.bits, be32(s.exposure.bits) + rest);
    assert(def =~= (first + be32(z.bits)) + be32(s.exposure.bits) + rest);
    law_u32_reads_back(first + be32(z.bits), s.exposure.bits, rest);
}

/// A record reads back: the height and the exposure of its layer, those of the bottom layers
/// for a bottom layer, the length of its data, and the data.
pub proof fn law_record_reads_back(layer: LayerView, timing: GooTimingModel)
    requires
        layer.encoded.len() <= u32::MAX,
    ensures
        ({
            let r = record(layer, timing);
            &&& r.len() == GOO_LAYER_DEF_SIZE + layer.encoded.len() + 2
            &&& u32_at(r, 6) == layer.position_z_mm.bits
            &&& u32_at(r, 10) == (if layer.is_bottom {
                timing.bottom_exposure_sec.bits
            } else {
                timing.normal_exposure_sec.bits
            })
            &&& u32_at(r, 66) == layer.encoded.len()
            &&& r.subrange(70, 70int + layer.encoded.len()) == layer.encoded
            &&& r.subrange(70int + layer.encoded.len(), r.len() as int) == GOO_CRLF@
        }),
{
    reveal(record);
    let r = record(layer, timing);
    let s = stage_timing(timing, layer.is_bottom);
    let def = layer_def(ByteOrder::Big, layer.position_z_mm, s);
    law_layer_def_size(ByteOrder::Big, layer.position_z_mm, s);
    let len = layer.encoded.len() as u32;
    assert(r =~= def + be32(len) + (layer.encoded + GOO_CRLF@));
    law_u32_reads_back(def, len, layer.encoded + GOO_CRLF@);
    assert(r.subrange(70, 70int + layer.encoded.len()) =~= layer.encoded);
    assert(r.subrange(70int + layer.encoded.len(), r.len() as int) =~= GOO_CRLF@);
    lemma_def_start(layer.position_z_mm, s);
    let tail = be32(len) + layer.encoded + GOO_CRLF@;
    assert(r =~= Seq::<u8>::empty() + def + tail);
    lemma_read_inside(seq![], def, tail, 6);
    lemma_read_inside(seq![], def, tail, 10);
}

/// The build height in a header is the one that the metadata gives.
pub proof fn law_height_readings_agree(
    job: SliceJobV3,
    version: Seq<u8>,
    layer_count: nat,
    created: Seq<char>,
)
    ensures
        job_header(job, version, layer_count, created).machine_z_mm == metadata_height(
            json_parsed(job.metadata_json@),
        ),
{
}

} // verus!
