//! The data that a print job is described by, and the constants of the container format.

use vstd::prelude::*;

use crate::single::Single;

verus! {

/// The machine name where the metadata has none.
pub const DEFAULT_MACHINE_NAME: &'static str = "DragonFruit Printer";

/// The machine type where the metadata has none.
pub const DEFAULT_MACHINE_TYPE: &'static str = "DLP";

/// The profile name where the metadata has none.
pub const DEFAULT_PROFILE_NAME: &'static str = "DragonFruit Profile";

/// The threshold where the metadata has none.
pub const DEFAULT_BINARY_THRESHOLD: u8 = 127;

/// The pattern of 220, the build height in millimetres where the metadata has none.
pub const DEFAULT_MACHINE_Z_BITS: u32 = 0x435C_0000;

/// The first byte of coded layer data.
pub const GOO_LAYER_MAGIC: u8 = 0x55;

/// What ends the blocks of a container.
pub const GOO_CRLF: [u8; 2] = [0x0D, 0x0A];

/// "V1.2".
pub const GOO_FILE_VERSION: [u8; 4] = [0x56, 0x31, 0x2E, 0x32];

/// "V5.1".
pub const GOO_V5_FILE_VERSION: [u8; 4] = [0x56, 0x35, 0x2E, 0x31];

/// What follows the version at the start of a container, and ends it.
pub const GOO_FILE_MAGIC: [u8; 8] = [0x07, 0x00, 0x00, 0x00, 0x44, 0x4C, 0x50, 0x00];

/// The size of the header, in bytes. It is also the address of the first layer, which
/// the header states.
///
/// | part                       | bytes                                     |
/// |----------------------------|-------------------------------------------|
/// | before the previews        | 4+8+32+24+24+32+32+32+2+2+2 = 194          |
/// | small preview and CRLF     | 26912+2 = 26914                           |
/// | large preview and CRLF     | 168200+2 = 168202                         |
/// | after the previews         | 4+2+2+1+1+4+4+4+4+4+1+4 = 35               |
/// | wait times                 | 6*4 = 24                                  |
/// | bottom exposure and count  | 8                                         |
/// | lift and retract           | 16*4 = 64                                 |
/// | end fields                 | 2+2+1+4+4+4+4+8+4+1+2 = 36                 |
pub const GOO_HEADER_SIZE: u32 = 195477;

/// Where the header states how many layers there are, right after the previews.
pub const GOO_LAYER_COUNT_OFFSET: u64 = 195310;

/// Where the header states the address of the first layer.
pub const GOO_LAYER_DEF_ADDRESS_OFFSET: u64 = 195470;

/// The size of a layer definition, its data length included.
pub const GOO_LAYER_DEF_SIZE: usize = 70;

/// The size of a layer definition of the fifth version.
pub const GOO_V5_LAYER_DEF_SIZE: u32 = 66;

/// A coded layer.
#[derive(Debug)]
pub struct GooPreparedLayer {
    pub index: usize,
    pub position_z_mm: Single,
    pub is_bottom: bool,
    /// The coded pixels: magic byte, chunks, checksum.
    pub encoded: Vec<u8>,
}

/// How long to expose and wait, and how to move between layers.
#[derive(Debug, Clone, Copy, PartialEq, Eq, Structural)]
pub struct GooTimingModel {
    pub normal_exposure_sec: Single,
    pub bottom_exposure_sec: Single,
    pub light_off_delay_sec: Single,
    pub bottom_light_off_delay_sec: Single,
    pub bottom_layer_count: u32,
    pub lift_distance_mm: Single,
    pub lift_distance2_mm: Single,
    pub lift_speed_mm_min: Single,
    pub lift_speed2_mm_min: Single,
    pub retract_distance_mm: Single,
    pub retract_distance2_mm: Single,
    pub retract_speed_mm_min: Single,
    pub retract_speed2_mm_min: Single,
    pub bottom_lift_distance_mm: Single,
    pub bottom_lift_distance2_mm: Single,
    pub bottom_lift_speed_mm_min: Single,
    pub bottom_lift_speed2_mm_min: Single,
    pub bottom_retract_distance_mm: Single,
    pub bottom_retract_distance2_mm: Single,
    pub bottom_retract_speed_mm_min: Single,
    pub bottom_retract_speed2_mm_min: Single,
    pub wait_time_before_cure_sec: Single,
    pub wait_time_after_cure_sec: Single,
    pub wait_time_after_lift_sec: Single,
    pub bottom_wait_time_before_cure_sec: Single,
    pub bottom_wait_time_after_cure_sec: Single,
    pub bottom_wait_time_after_lift_sec: Single,
    pub transition_layer_count: u16,
    pub light_pwm: u16,
    pub bottom_light_pwm: u16,
    /// 0: the light-off delay counts. 1: the wait times of the stages count.
    pub delay_mode: u8,
}

/// Which machine and profile a job is for.
#[derive(Debug)]
pub struct GooBuildModel {
    pub machine_name: String,
    pub machine_type: String,
    pub profile_name: String,
    pub anti_aliasing_level: u16,
    pub grey_level: u16,
    pub blur_level: u16,
    pub mirror_x: bool,
    pub mirror_y: bool,
    pub created_datetime: String,
    pub machine_z_mm: Single,
}

/// A slicing job, as the host describes it.
#[derive(Debug)]
pub struct SliceJobV3 {
    pub output_format: String,
    pub source_width_px: u32,
    pub source_height_px: u32,
    pub width_px: u32,
    pub height_px: u32,
    pub build_width_mm: Single,
    pub build_depth_mm: Single,
    pub layer_height_mm: Single,
    pub total_layers: u32,
    pub anti_aliasing_level: String,
    pub metadata_json: String,
    pub export_thumbnail_png_base64: Option<String>,
    /// The job is sliced into gray values and not into black and white.
    pub grayscale_output: bool,
    /// The version of the slicing engine.
    pub engine_version: String,
}

impl Default for SliceJobV3 {
    fn default() -> (r: SliceJobV3)
        ensures
            r.output_format@ == Seq::<char>::empty(),
            r.source_width_px == 0,
            r.source_height_px == 0,
            r.width_px == 0,
            r.height_px == 0,
            r.build_width_mm.bits == 0,
            r.build_depth_mm.bits == 0,
            r.layer_height_mm.bits == 0,
            r.total_layers == 0,
            r.anti_aliasing_level@ == Seq::<char>::empty(),
            r.metadata_json@ == Seq::<char>::empty(),
            r.export_thumbnail_png_base64 is None,
            !r.grayscale_output,
            r.engine_version@ == Seq::<char>::empty(),
    {
        SliceJobV3 {
            output_format: String::new(),
            source_width_px: 0,
            source_height_px: 0,
            width_px: 0,
            height_px: 0,
            build_width_mm: Single { bits: 0 },
            build_depth_mm: Single { bits: 0 },
            layer_height_mm: Single { bits: 0 },
            total_layers: 0,
            anti_aliasing_level: String::new(),
            metadata_json: String::new(),
            export_thumbnail_png_base64: None,
            grayscale_output: false,
            engine_version: String::new(),
        }
    }
}

impl Clone for SliceJobV3 {
    fn clone(&self) -> (r: SliceJobV3)
        ensures
            r == *self,
    {
        SliceJobV3 {
            output_format: self.output_format.clone(),
            source_width_px: self.source_width_px,
            source_height_px: self.source_height_px,
            width_px: self.width_px,
            height_px: self.height_px,
            build_width_mm: self.build_width_mm,
            build_depth_mm: self.build_depth_mm,
            layer_height_mm: self.layer_height_mm,
            total_layers: self.total_layers,
            anti_aliasing_level: self.anti_aliasing_level.clone(),
            metadata_json: self.metadata_json.clone(),
            export_thumbnail_png_base64: match &self.export_thumbnail_png_base64 {
                Some(text) => Some(text.clone()),
                None => None,
            },
            grayscale_output: self.grayscale_output,
            engine_version: self.engine_version.clone(),
        }
    }
}

/// The number of pixels of a width and a height, as far as `usize` reaches.
pub open spec fn pixel_count(width: u32, height: u32) -> usize {
    if width * height <= usize::MAX {
        (width * height) as usize
    } else {
        usize::MAX
    }
}

impl SliceJobV3 {
    /// The number of pixels of a layer, as far as `usize` reaches.
    pub fn expected_pixels(&self) -> (r: usize)
        ensures
            r == pixel_count(self.source_width_px, self.source_height_px),
    {
        assert(self.source_width_px * self.source_height_px <= u32::MAX * u32::MAX)
            by (nonlinear_arith)
            requires
                self.source_width_px <= u32::MAX,
                self.source_height_px <= u32::MAX,
        ;
        let area: u64 = self.source_width_px as u64 * self.source_height_px as u64;
        if area <= usize::MAX as u64 {
            area as usize
        } else {
            usize::MAX
        }
    }

    /// Whether the job is sliced into gray values.
    pub fn produces_grayscale_output(&self) -> (r: bool)
        ensures
            r == self.grayscale_output,
    {
        self.grayscale_output
    }
}

/// What the slicer has rendered.
#[derive(Debug)]
pub struct RenderedLayersV3 {
    /// The mask of each layer, one byte per pixel.
    pub raw_mask_layers: Option<Vec<Vec<u8>>>,
}

} // verus!
