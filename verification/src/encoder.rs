//! The encoder that a slicer plugs in for `.goo` files.

use vstd::prelude::*;

use crate::bytes::low_u32;
use crate::calendar::now_datetime_string;
use crate::container::{
    container_end, goo_container, goo_header, header, job_header, job_timing,
    lemma_records_step, push_container_end, push_record, records, ByteOrder,
};
use crate::error::{missing_layers, size_mismatch, size_mismatch_text, Refusal, SlicerV3Error};
use crate::layers::{
    encode_single_goo_layer_from_raw_mask, layer_views, mask_layer, mask_layers, LayerSettings,
};
use crate::json::text_view;
use crate::metadata::parse_timing_model_from_job;
use crate::picture::{gray_png, png_decoded};
use crate::planning::{mask_budget, thread_choice, waiting_cap, worker_cap};
use crate::reader::{
    error_text, gray_frame, law_layer_shows_what_was_coded, layer_picture, LayerPicture,
    LayerReadError,
};
use crate::rle::{goo_rle, mask_pixels, runs_fit};
use crate::stream::{
    is_container_now, job_settings, settings_of_job, GooRawMaskStream, GooRleStreamingEncoder,
};
use crate::types::{
    pixel_count, GooPreparedLayer, GooTimingModel, RenderedLayersV3, SliceJobV3, GOO_FILE_VERSION,
};

verus! {

/// Why rendered layers cannot be encoded, if so: they are missing, there are none, or one has
/// the wrong number of pixels.
pub open spec fn layers_refusal(job: SliceJobV3, rendered: RenderedLayersV3) -> Option<Refusal> {
    match rendered.raw_mask_layers {
        None => Some(
            Refusal::MissingRenderedLayerPayload("raw mask layers are required for Goo encoding"@),
        ),
        Some(masks) => if masks@.len() == 0 {
            Some(
                Refusal::MissingRenderedLayerPayload(
                    "no rendered layers were provided for Goo encoding"@,
                ),
            )
        } else {
            size_refusal(
                masks@,
                pixel_count(job.source_width_px, job.source_height_px) as nat,
                0,
            )
        },
    }
}

/// The refusal of the first mask from `i` on that has the wrong number of pixels.
pub open spec fn size_refusal(masks: Seq<Vec<u8>>, expected: nat, i: int) -> Option<Refusal>
    decreases masks.len() - i,
{
    if i < 0 || i >= masks.len() {
        None
    } else if masks[i]@.len() != expected {
        Some(
            Refusal::MissingRenderedLayerPayload(
                size_mismatch_text(i as nat, expected, masks[i]@.len()),
            ),
        )
    } else {
        size_refusal(masks, expected, i + 1)
    }
}

/// A sum, as far as 32 bits reach.
pub open spec fn saturating_sum(a: u32, b: u32) -> u32 {
    if a + b <= u32::MAX {
        (a + b) as u32
    } else {
        u32::MAX
    }
}

/// A share of work in proportion to what is done of a total.
pub open spec fn share_done(done: u32, total: u32, share: u32) -> u32 {
    let safe_total = if total == 0 {
        1
    } else {
        total as int
    };
    let counted = if done < safe_total {
        done as int
    } else {
        safe_total
    };
    (counted * share / safe_total % 0x1_0000_0000) as u32
}

/// The low 32 bits of a number.
pub open spec fn low32(n: int) -> u32 {
    (n % 0x1_0000_0000) as u32
}

/// How many units of work `n` layers are: two each, and one at the end.
pub open spec fn progress_total(n: nat) -> u32 {
    saturating_sum(saturating_sum(low32(n as int), low32(n as int)), 1)
}

/// What is reported after step `k` of encoding `n` layers: each is coded, then each is laid
/// out, then the container is closed.
pub open spec fn progress_report(n: nat, k: int) -> (u32, u32) {
    let count = low32(n as int);
    let total = progress_total(n);
    if k < n {
        (share_done(low32(k + 1), count, count), total)
    } else if k < 2 * n {
        (saturating_sum(count, share_done(low32(k - n + 1), count, count)), total)
    } else {
        (total, total)
    }
}

/// Everything that is reported while `n` layers are encoded.
pub open spec fn progress_reports(n: nat) -> Seq<(u32, u32)> {
    Seq::new(2 * n + 1, |k: int| progress_report(n, k))
}

/// The reports count up to the total one by one, and the last one says that all is done.
pub proof fn law_progress_is_steady(n: nat, k: int)
    requires
        2 * n + 1 <= u32::MAX,
        0 <= k <= 2 * n,
    ensures
        progress_reports(n)[k] == ((k + 1) as u32, (2 * n + 1) as u32),
{
    let count = n as int;
    assert(progress_reports(n)[k] == progress_report(n, k));
    assert(low32(count) == count);
    assert(progress_total(n) == 2 * n + 1);
    if k < n {
        assert(low32(k + 1) == k + 1);
        lemma_share(k + 1, count);
    } else if k < 2 * n {
        assert(low32(k - n + 1) == k - n + 1);
        lemma_share(k - n + 1, count);
    }
}

/// What is done of a total is that share of itself.
proof fn lemma_share(done: int, total: int)
    requires
        0 < done <= total <= u32::MAX,
    ensures
        share_done(done as u32, total as u32, total as u32) == done,
{
    assert(done * total / total == done) by (nonlinear_arith)
        requires
            total > 0,
    ;
}

fn saturating_add(a: u32, b: u32) -> (r: u32)
    ensures
        r == saturating_sum(a, b),
{
    if a <= u32::MAX - b {
        a + b
    } else {
        u32::MAX
    }
}

fn find_share(done: u32, total: u32, share: u32) -> (r: u32)
    ensures
        r == share_done(done, total, share),
{
    let safe_total: u32 = if total == 0 {
        1
    } else {
        total
    };
    let counted: u32 = if done < safe_total {
        done
    } else {
        safe_total
    };
    assert(0 <= counted * share <= u32::MAX * u32::MAX) by (nonlinear_arith)
        requires
            0 <= counted <= u32::MAX,
            0 <= share <= u32::MAX,
    ;
    low_u32(counted as u64 * share as u64 / safe_total as u64)
}

/// What is reported after step `k` of encoding `n` layers.
fn find_report(n: usize, coded: usize, laid_out: usize, closed: bool) -> (r: (u32, u32))
    requires
        coded <= n,
        laid_out <= n,
        laid_out > 0 || closed ==> coded == n,
        closed ==> laid_out == n,
        coded > 0,
    ensures
        r == progress_report(
            n as nat,
            coded + laid_out + (if closed {
                1int
            } else {
                0int
            }) - 1,
        ),
{
    let count: u32 = low_u32(n as u64);
    let total: u32 = saturating_add(saturating_add(count, count), 1);
    if closed {
        (total, total)
    } else if laid_out > 0 {
        (saturating_add(count, find_share(low_u32(laid_out as u64), count, count)), total)
    } else {
        (find_share(low_u32(coded as u64), count, count), total)
    }
}

/// Encoding a job, step by step.
pub struct ContainerEncoding<'a> {
    job: &'a SliceJobV3,
    masks: &'a Vec<Vec<u8>>,
    settings: LayerSettings,
    timing: GooTimingModel,
    created: String,
    prepared: Vec<GooPreparedLayer>,
    out: Vec<u8>,
    laid_out: usize,
    closed: bool,
}

impl<'a> ContainerEncoding<'a> {
    /// The steps so far have done what they should.
    pub closed spec fn wf(&self) -> bool {
        let n = self.masks@.len();
        let layers = mask_layers(self.masks@, self.settings);
        &&& n > 0
        &&& self.settings == job_settings(*self.job)
        &&& self.timing == job_timing(*self.job)
        &&& self.prepared@.len() <= n
        &&& self.laid_out <= n
        &&& layer_views(self.prepared@) == layers.take(self.prepared@.len() as int)
        &&& self.laid_out > 0 || self.closed ==> self.prepared@.len() == n
        &&& self.closed ==> self.laid_out == n
        &&& self.out@ == if self.laid_out == 0 {
            Seq::<u8>::empty()
        } else {
            let head = header(
                ByteOrder::Big,
                job_header(*self.job, GOO_FILE_VERSION@, n, self.created@),
            );
            let so_far = head + records(layers.take(self.laid_out as int), self.timing);
            if self.closed {
                so_far + container_end()
            } else {
                so_far
            }
        }
    }

    /// The job that is encoded.
    pub closed spec fn job(&self) -> SliceJobV3 {
        *self.job
    }

    /// The masks that are encoded.
    pub closed spec fn masks(&self) -> Seq<Vec<u8>> {
        self.masks@
    }

    /// When the file says it was made.
    pub closed spec fn created(&self) -> Seq<char> {
        self.created@
    }

    /// How many steps are done.
    pub closed spec fn steps_done(&self) -> nat {
        self.prepared@.len() + self.laid_out as nat + (if self.closed {
            1nat
        } else {
            0nat
        })
    }

    /// The container that comes of it.
    pub open spec fn container(&self) -> Seq<u8> {
        goo_container(
            self.job(),
            mask_layers(self.masks(), job_settings(self.job())),
            self.created(),
        )
    }

    /// Starts to encode a job, for a file made at `created`.
    pub fn start(job: &'a SliceJobV3, rendered_layers: &'a RenderedLayersV3, created: String) -> (r:
        Result<ContainerEncoding<'a>, SlicerV3Error>)
        ensures
            match r {
                Ok(encoding) => {
                    &&& layers_refusal(*job, *rendered_layers) is None
                    &&& encoding.wf()
                    &&& encoding.job() == *job
                    &&& encoding.masks() == rendered_layers.raw_mask_layers->0@
                    &&& encoding.created() == created@
                    &&& encoding.steps_done() == 0
                },
                Err(e) => layers_refusal(*job, *rendered_layers) == Some(e@),
            },
    {
        let masks: &'a Vec<Vec<u8>> = match &rendered_layers.raw_mask_layers {
            Some(masks) => masks,
            None => {
                return Err(missing_layers("raw mask layers are required for Goo encoding"));
            },
        };
        if masks.len() == 0 {
            return Err(missing_layers("no rendered layers were provided for Goo encoding"));
        }
        let expected: usize = job.expected_pixels();
        let mut i: usize = 0;
        while i < masks.len()
            invariant
                i <= masks@.len(),
                size_refusal(masks@, expected as nat, 0) == size_refusal(
                    masks@,
                    expected as nat,
                    i as int,
                ),
                rendered_layers.raw_mask_layers == Some(*masks),
                masks@.len() > 0,
                expected == pixel_count(job.source_width_px, job.source_height_px),
            decreases masks@.len() - i,
        {
            if masks[i].len() != expected {
                return Err(size_mismatch(i, expected, masks[i].len()));
            }
            i = i + 1;
        }
        let encoding = ContainerEncoding {
            job,
            masks,
            settings: settings_of_job(job),
            timing: parse_timing_model_from_job(job),
            created,
            prepared: Vec::new(),
            out: Vec::new(),
            laid_out: 0,
            closed: false,
        };
        proof {
            let layers = mask_layers(masks@, encoding.settings);
            assert(layer_views(encoding.prepared@) =~= layers.take(0));
        }
        Ok(encoding)
    }

    /// Does the next step, and gives the report on it; nothing once all is done.
    pub fn step(&mut self) -> (r: Option<(u32, u32)>)
        requires
            old(self).wf(),
        ensures
            final(self).wf(),
            final(self).job() == old(self).job(),
            final(self).masks() == old(self).masks(),
            final(self).created() == old(self).created(),
            ({
                let n = old(self).masks().len();
                let k = old(self).steps_done();
                if k < 2 * n + 1 {
                    r == Some(progress_report(n, k as int)) && final(self).steps_done() == k + 1
                } else {
                    r is None && final(self).steps_done() == k
                }
            }),
    {
        let n: usize = self.masks.len();
        let ghost layers = mask_layers(self.masks@, self.settings);
        if self.prepared.len() < n {
            let i: usize = self.prepared.len();
            let ghost before = layer_views(self.prepared@);
            let layer: GooPreparedLayer = encode_single_goo_layer_from_raw_mask(
                i,
                &self.masks[i],
                self.settings.is_anti_aliased,
                self.settings.threshold,
                self.settings.layer_height_mm,
                self.settings.bottom_layer_count,
            );
            self.prepared.push(layer);
            proof {
                assert(layer@ == layers[i as int]);
                assert(layer_views(self.prepared@) =~= layers.take(i + 1));
            }
        } else if self.laid_out < n {
            let i: usize = self.laid_out;
            if i == 0 {
                self.out = goo_header(self.job, &self.timing, n, &self.created);
                proof {
                    assert(layers.take(0) =~= seq![]);
                    assert(self.out@ =~= self.out@ + records(layers.take(0), self.timing));
                }
            }
            let ghost so_far = self.out@;
            proof {
                assert(layers.take(n as int) =~= layers);
                assert(layers[i as int] == self.prepared@[i as int]@) by {
                    assert(layer_views(self.prepared@)[i as int] == layers[i as int]);
                }
                lemma_records_step(layers, i as int, self.timing);
            }
            push_record(&mut self.out, &self.prepared[i], &self.timing);
            self.laid_out = i + 1;
            proof {
                let head = header(
                    ByteOrder::Big,
                    job_header(*self.job, GOO_FILE_VERSION@, n as nat, self.created@),
                );
                assert(self.out@ =~= head + records(layers.take(i + 1), self.timing));
            }
        } else if !self.closed {
            push_container_end(&mut self.out);
            self.closed = true;
        } else {
            return None;
        }
        Some(find_report(n, self.prepared.len(), self.laid_out, self.closed))
    }

    /// The container, once the steps that are left are done.
    pub fn finish(self) -> (out: Vec<u8>)
        requires
            self.wf(),
        ensures
            out@ == self.container(),
    {
        let mut encoding = self;
        let mut open: bool = true;
        while open
            invariant
                encoding.wf(),
                encoding.job() == self.job(),
                encoding.masks() == self.masks(),
                encoding.created() == self.created(),
                !open ==> encoding.steps_done() >= 2 * encoding.masks().len() + 1,
            decreases
                    2 * encoding.masks().len() + 2 - encoding.steps_done() + (if open {
                        1int
                    } else {
                        0int
                    }),
        {
            open = encoding.step().is_some();
        }
        proof {
            let layers = mask_layers(encoding.masks@, encoding.settings);
            assert(layers.take(layers.len() as int) =~= layers);
        }
        encoding.out
    }
}

/// The encoder for `.goo` files.
#[derive(Debug, Clone, Copy, PartialEq, Eq, Structural)]
pub struct GooPluginEncoder;

/// The encoders of this plugin: there is one.
pub fn create_plugin_encoder() -> (r: Vec<GooPluginEncoder>)
    ensures
        r@ == seq![GooPluginEncoder],
{
    let mut r: Vec<GooPluginEncoder> = Vec::new();
    r.push(GooPluginEncoder);
    assert(r@ =~= seq![GooPluginEncoder]);
    r
}

impl GooPluginEncoder {
    /// The ending of the files.
    pub fn output_format(&self) -> (r: &'static str)
        ensures
            r@ == ".goo"@,
    {
        ".goo"
    }

    /// Layers are not taken as PNG files.
    pub fn requires_png_layers(&self) -> (r: bool)
        ensures
            !r,
    {
        false
    }

    /// Layers are taken as masks.
    pub fn requires_raw_mask_layers(&self) -> (r: bool)
        ensures
            r,
    {
        true
    }

    /// How many units of work the rendered layers are.
    pub fn estimate_encode_progress_units(&self, rendered_layers: &RenderedLayersV3) -> (r: u32)
        ensures
            r == progress_total(
                match rendered_layers.raw_mask_layers {
                    Some(masks) => masks@.len(),
                    None => 0,
                },
            ),
    {
        let layers: u32 = match &rendered_layers.raw_mask_layers {
            Some(masks) => low_u32(masks.len() as u64),
            None => 0,
        };
        saturating_add(saturating_add(layers, layers), 1)
    }

    /// The container of rendered layers, for a file made at `created_datetime`.
    pub fn encode_container_created_at(
        &self,
        job: &SliceJobV3,
        rendered_layers: &RenderedLayersV3,
        created_datetime: String,
        reports: &mut Vec<(u32, u32)>,
    ) -> (r: Result<Vec<u8>, SlicerV3Error>)
        ensures
            match layers_refusal(*job, *rendered_layers) {
                Some(refusal) => {
                    &&& r matches Err(e) && e@ == refusal
                    &&& final(reports)@ == old(reports)@
                },
                None => {
                    let masks = rendered_layers.raw_mask_layers->0@;
                    &&& r matches Ok(bytes) && bytes@ == goo_container(
                        *job,
                        mask_layers(masks, job_settings(*job)),
                        created_datetime@,
                    )
                    &&& final(reports)@ == old(reports)@ + progress_reports(masks.len())
                },
            },
    {
        let mut encoding = match ContainerEncoding::start(job, rendered_layers, created_datetime) {
            Ok(encoding) => encoding,
            Err(e) => {
                return Err(e);
            },
        };
        let ghost n = encoding.masks().len();
        let mut open: bool = true;
        assert(reports@ =~= old(reports)@ + progress_reports(n).take(0));
        while open
            invariant
                encoding.wf(),
                encoding.job() == *job,
                encoding.masks() == rendered_layers.raw_mask_layers->0@,
                encoding.created() == created_datetime@,
                n == encoding.masks().len(),
                encoding.steps_done() <= 2 * n + 1,
                !open ==> encoding.steps_done() == 2 * n + 1,
                reports@ == old(reports)@ + progress_reports(n).take(encoding.steps_done() as int),
            decreases
                    2 * n + 2 - encoding.steps_done() + (if open {
                        1int
                    } else {
                        0int
                    }),
        {
            match encoding.step() {
                Some(report) => {
                    reports.push(report);
                },
                None => {
                    open = false;
                },
            }
            assert(reports@ =~= old(reports)@ + progress_reports(n).take(
                encoding.steps_done() as int,
            ));
        }
        assert(progress_reports(n).take((2 * n + 1) as int) =~= progress_reports(n));
        Ok(encoding.finish())
    }

    /// The container of rendered layers, for a file made now, and a report on each step. It
    /// fails only if the layers are missing or have the wrong number of pixels.
    pub fn encode_container_from_rendered_layers_with_progress(
        &self,
        job: &SliceJobV3,
        rendered_layers: &RenderedLayersV3,
        reports: &mut Vec<(u32, u32)>,
    ) -> (r: Result<Vec<u8>, SlicerV3Error>)
        ensures
            match layers_refusal(*job, *rendered_layers) {
                Some(refusal) => {
                    &&& r matches Err(e) && e@ == refusal
                    &&& final(reports)@ == old(reports)@
                },
                None => {
                    let masks = rendered_layers.raw_mask_layers->0@;
                    &&& r matches Ok(bytes) && is_container_now(
                        *job,
                        mask_layers(masks, job_settings(*job)),
                        bytes@,
                    )
                    &&& final(reports)@ == old(reports)@ + progress_reports(masks.len())
                },
            },
    {
        self.encode_container_created_at(job, rendered_layers, now_datetime_string(), reports)
    }

    /// The container of rendered layers, for a file made now.
    pub fn encode_container_from_rendered_layers(
        &self,
        job: &SliceJobV3,
        rendered_layers: &RenderedLayersV3,
    ) -> (r: Result<Vec<u8>, SlicerV3Error>)
        ensures
            match layers_refusal(*job, *rendered_layers) {
                Some(refusal) => r matches Err(e) && e@ == refusal,
                None => r matches Ok(bytes) && is_container_now(
                    *job,
                    mask_layers(rendered_layers.raw_mask_layers->0@, job_settings(*job)),
                    bytes@,
                ),
            },
    {
        let mut reports: Vec<(u32, u32)> = Vec::new();
        self.encode_container_from_rendered_layers_with_progress(
            job,
            rendered_layers,
            &mut reports,
        )
    }

    /// A stream that takes masks.
    pub fn create_raw_mask_stream_encoder(
        &self,
        job: &SliceJobV3,
        hw: usize,
        threads_setting: Option<&str>,
        budget_setting: Option<&str>,
    ) -> (r: GooRawMaskStream)
        requires
            hw >= 1,
        ensures
            r.job == *job,
            r.settings == job_settings(*job),
            r.expected_pixels == pixel_count(job.source_width_px, job.source_height_px),
            r.worker_count == worker_cap(
                thread_choice(hw as nat, text_view(threads_setting)),
                r.expected_pixels as nat,
                mask_budget(text_view(budget_setting)),
            ),
            r.queue_depth == waiting_cap(
                r.worker_count as nat,
                r.expected_pixels as nat,
                mask_budget(text_view(budget_setting)),
            ),
            r.consumed_layers == 0,
    {
        GooRawMaskStream::new(job, hw, threads_setting, budget_setting)
    }

    /// A stream that takes runs.
    pub fn create_rle_stream_encoder(&self, job: &SliceJobV3) -> (r: GooRleStreamingEncoder)
        ensures
            r.job == *job,
            r.settings == job_settings(*job),
            r.total_pixels == pixel_count(job.source_width_px, job.source_height_px),
            r.prepared@ == Seq::<GooPreparedLayer>::empty(),
    {
        GooRleStreamingEncoder::new(job)
    }

    /// Reads the preview of one layer, as a PNG file, from the bytes of a container. Layers
    /// are counted from one.
    pub fn read_layer_preview_png(&self, bytes: &[u8], layer_number: u32) -> (r: Result<
        Vec<u8>,
        SlicerV3Error,
    >)
        ensures
            match layer_picture(bytes@, layer_number) {
                Ok(picture) => {
                    &&& r matches Ok(png)
                    &&& png@ == gray_png(picture.width, picture.height, picture.pixels)
                    &&& png_decoded(png@) == Some(gray_frame(picture))
                },
                Err(e) => r matches Err(error) && error@ == Refusal::LayerPreview(error_text(e)),
            },
    {
        match crate::reader::read_layer_preview_png(bytes, layer_number) {
            Ok(png) => Ok(png),
            Err(text) => Err(SlicerV3Error::LayerPreview(text)),
        }
    }
}

/// What a job was given to print is what its file shows: encoding masks and reading a layer
/// back gives the pixels that the mask of that layer shows.
pub proof fn law_file_shows_the_masks(
    job: SliceJobV3,
    rendered: RenderedLayersV3,
    created: Seq<char>,
    layer_number: u32,
)
    requires
        layers_refusal(job, rendered) is None,
        1 <= layer_number <= rendered.raw_mask_layers->0@.len() <= u32::MAX,
        0 < job.source_width_px < 0x1_0000,
        0 < job.source_height_px < 0x1_0000,
        forall|j: int|
            0 <= j < rendered.raw_mask_layers->0@.len() ==> goo_rle(
                mask_pixels(
                    #[trigger] rendered.raw_mask_layers->0@[j]@,
                    job_settings(job).is_anti_aliased,
                    job_settings(job).threshold,
                ),
            ).len() <= u32::MAX,
        runs_fit(
            mask_pixels(
                rendered.raw_mask_layers->0@[layer_number - 1]@,
                job_settings(job).is_anti_aliased,
                job_settings(job).threshold,
            ),
        ),
    ensures
        layer_picture(
            goo_container(
                job,
                mask_layers(rendered.raw_mask_layers->0@, job_settings(job)),
                created,
            ),
            layer_number,
        ) == Ok::<LayerPicture, LayerReadError>(
            (LayerPicture {
                width: job.source_width_px,
                height: job.source_height_px,
                pixels: mask_pixels(
                    rendered.raw_mask_layers->0@[layer_number - 1]@,
                    job_settings(job).is_anti_aliased,
                    job_settings(job).threshold,
                ),
            }),
        ),
{
    let masks = rendered.raw_mask_layers->0@;
    let settings = job_settings(job);
    let layers = mask_layers(masks, settings);
    let i = layer_number - 1;
    let pixels = mask_pixels(masks[i]@, settings.is_anti_aliased, settings.threshold);
    let expected = pixel_count(job.source_width_px, job.source_height_px) as nat;
    lemma_sizes_agree(masks, expected, 0, i);
    assert(job.source_width_px * job.source_height_px <= 65535 * 65535) by (nonlinear_arith)
        requires
            job.source_width_px <= 65535,
            job.source_height_px <= 65535,
    ;
    assert forall|j: int| 0 <= j < layers.len() implies (#[trigger] layers[j]).encoded.len()
        <= u32::MAX by {
        assert(layers[j] == mask_layer(j as nat, masks[j]@, settings));
    }
    assert(layers[i] == mask_layer(i as nat, masks[i]@, settings));
    law_layer_shows_what_was_coded(job, layers, created, layer_number, pixels);
}

/// Where no mask is refused, every mask has the right number of pixels.
proof fn lemma_sizes_agree(masks: Seq<Vec<u8>>, expected: nat, from: int, i: int)
    requires
        size_refusal(masks, expected, from) is None,
        0 <= from <= i < masks.len(),
    ensures
        masks[i]@.len() == expected,
    decreases i - from,
{
    if from < i {
        lemma_sizes_agree(masks, expected, from + 1, i);
    }
}

} // verus!
