//! Coding the layers of a job.

use vstd::prelude::*;

use crate::bytes::low_u32;
use crate::contents::{draws_halves, draws_mask, lemma_draws_halves, lemma_draws_mask};
use crate::rle::{
    encode_goo_rle_from_runs, goo_rle, goo_rle_encode, mask_pixels, repeated, run_pixels, shown_pixels,
    RleRun,
};
use crate::single::{layer_position, position_of_layer, Single};
use crate::types::GooPreparedLayer;

verus! {

/// A coded layer, its data as a sequence.
pub struct LayerView {
    pub index: nat,
    pub position_z_mm: Single,
    pub is_bottom: bool,
    pub encoded: Seq<u8>,
}

impl View for GooPreparedLayer {
    type V = LayerView;

    open spec fn view(&self) -> LayerView {
        LayerView {
            index: self.index as nat,
            position_z_mm: self.position_z_mm,
            is_bottom: self.is_bottom,
            encoded: self.encoded@,
        }
    }
}

/// Coded layers, their data as sequences.
pub open spec fn layer_views(layers: Seq<GooPreparedLayer>) -> Seq<LayerView> {
    Seq::new(layers.len(), |i: int| layers[i]@)
}

/// What goes for every layer of a job.
#[derive(Debug, Clone, Copy, PartialEq, Eq, Structural)]
pub struct LayerSettings {
    pub is_anti_aliased: bool,
    pub threshold: u8,
    pub layer_height_mm: Single,
    pub bottom_layer_count: u32,
}

/// The layer at `index` with the data `encoded`. Where the index has more than 32 bits, the
/// low ones decide whether it is a bottom layer.
pub open spec fn layer_with(
    index: nat,
    encoded: Seq<u8>,
    layer_height: Single,
    bottom_layer_count: u32,
) -> LayerView {
    LayerView {
        index,
        position_z_mm: layer_position(index, layer_height),
        is_bottom: index % 0x1_0000_0000 < bottom_layer_count,
        encoded,
    }
}

/// The layer at `index` that shows a mask.
pub open spec fn mask_layer(index: nat, mask: Seq<u8>, settings: LayerSettings) -> LayerView {
    layer_with(
        index,
        goo_rle(mask_pixels(mask, settings.is_anti_aliased, settings.threshold)),
        settings.layer_height_mm,
        settings.bottom_layer_count,
    )
}

/// The layer at `index` with the data `encoded`.
pub fn layer_from_data(
    layer_index: usize,
    encoded: Vec<u8>,
    layer_height_mm: Single,
    bottom_layer_count: u32,
) -> (layer: GooPreparedLayer)
    ensures
        layer@ == layer_with(
            layer_index as nat,
            encoded@,
            layer_height_mm,
            bottom_layer_count,
        ),
        layer_index < 0x1_0000_0000 ==> layer.is_bottom == (layer_index < bottom_layer_count),
{
    GooPreparedLayer {
        index: layer_index,
        position_z_mm: position_of_layer(layer_index as u64, layer_height_mm),
        is_bottom: low_u32(layer_index as u64) < bottom_layer_count,
        encoded,
    }
}

/// Codes the mask of a layer.
pub fn encode_single_goo_layer_from_raw_mask(
    layer_index: usize,
    raw_mask: &[u8],
    is_anti_aliased: bool,
    threshold: u8,
    layer_height_mm: Single,
    bottom_layer_count: u32,
) -> (layer: GooPreparedLayer)
    ensures
        layer@ == mask_layer(
            layer_index as nat,
            raw_mask@,
            (LayerSettings { is_anti_aliased, threshold, layer_height_mm, bottom_layer_count }),
        ),
        layer_index < 0x1_0000_0000 ==> layer.is_bottom == (layer_index < bottom_layer_count),
        forall|p: Seq<u8>| #[trigger]
            draws_mask(p, raw_mask@, is_anti_aliased, threshold) ==> layer.encoded@ == goo_rle(p),
{
    proof {
        lemma_draws_mask(raw_mask@, is_anti_aliased, threshold);
    }
    let pixels: Vec<u8> = shown_pixels(raw_mask, is_anti_aliased, threshold);
    layer_from_data(layer_index, goo_rle_encode(&pixels), layer_height_mm, bottom_layer_count)
}

/// Codes a layer of `pixels` black pixels.
pub fn encode_single_goo_empty_layer(
    layer_index: usize,
    pixels: usize,
    layer_height_mm: Single,
    bottom_layer_count: u32,
) -> (layer: GooPreparedLayer)
    ensures
        layer@ == layer_with(
            layer_index as nat,
            goo_rle(repeated(0, pixels as nat)),
            layer_height_mm,
            bottom_layer_count,
        ),
        layer_index < 0x1_0000_0000 ==> layer.is_bottom == (layer_index < bottom_layer_count),
        layer.encoded@ == goo_rle(Seq::new(pixels as nat, |i: int| 0u8)),
{
    let no_runs: Vec<RleRun> = Vec::new();
    let encoded: Vec<u8> = encode_goo_rle_from_runs(&no_runs, true, 0, pixels);
    proof {
        assert(run_pixels(no_runs@, true, 0, pixels as nat) =~= repeated(0, pixels as nat));
    }
    layer_from_data(layer_index, encoded, layer_height_mm, bottom_layer_count)
}

/// The layers that masks show.
pub open spec fn mask_layers(masks: Seq<Vec<u8>>, settings: LayerSettings) -> Seq<LayerView> {
    Seq::new(masks.len(), |i: int| mask_layer(i as nat, masks[i]@, settings))
}

/// `n`, or one where that is zero.
pub open spec fn at_least_one(n: u32) -> u32 {
    if n == 0 {
        1
    } else {
        n
    }
}

/// The pixels before `end` that lie in the columns from `from` up to `to` of a picture `width`
/// pixels wide, in their order.
pub open spec fn columns(p: Seq<u8>, width: nat, from: nat, to: nat, end: nat) -> Seq<u8>
    decreases end,
{
    if end == 0 {
        seq![]
    } else {
        let before = columns(p, width, from, to, (end - 1) as nat);
        if from <= (end - 1) as nat % width < to {
            before.push(p[end - 1])
        } else {
            before
        }
    }
}

/// The left half of a picture: the columns before the middle.
pub open spec fn left_half(p: Seq<u8>, width: u16) -> Seq<u8> {
    columns(p, width as nat, 0, (width / 2) as nat, p.len())
}

/// The right half of a picture: the columns from the middle on.
pub open spec fn right_half(p: Seq<u8>, width: u16) -> Seq<u8> {
    columns(p, width as nat, (width / 2) as nat, width as nat, p.len())
}

/// The blocks of a layer that is shown by two halves of a screen. They lie at the same height.
pub open spec fn half_layers(
    layer_id: nat,
    mask: Seq<u8>,
    width: u16,
    settings: LayerSettings,
) -> (LayerView, LayerView) {
    (
        LayerView { index: 2 * layer_id, ..mask_layer(layer_id, left_half(mask, width), settings) },
        LayerView {
            index: 2 * layer_id + 1,
            ..mask_layer(layer_id, right_half(mask, width), settings)
        },
    )
}

/// The halves of a picture.
fn split_halves(mask: &[u8], width: u16) -> (r: (Vec<u8>, Vec<u8>))
    requires
        width > 0,
    ensures
        r.0@ == left_half(mask@, width),
        r.1@ == right_half(mask@, width),
{
    let middle: usize = width as usize / 2;
    let mut left: Vec<u8> = Vec::new();
    let mut right: Vec<u8> = Vec::new();
    let mut i: usize = 0;
    while i < mask.len()
        invariant
            i <= mask@.len(),
            width > 0,
            middle == width / 2,
            left@ == columns(mask@, width as nat, 0, middle as nat, i as nat),
            right@ == columns(mask@, width as nat, middle as nat, width as nat, i as nat),
        decreases mask@.len() - i,
    {
        if i % (width as usize) < middle {
            left.push(mask[i]);
        } else {
            right.push(mask[i]);
        }
        i = i + 1;
    }
    (left, right)
}

/// Codes the two halves of a layer.
pub fn encode_v5_layer_left_right(
    layer_id: usize,
    mask: &[u8],
    full_width_px: u16,
    is_anti_aliased: bool,
    threshold: u8,
    layer_height_mm: Single,
    bottom_layer_count: u32,
) -> (r: (GooPreparedLayer, GooPreparedLayer))
    requires
        full_width_px > 0,
        2 * layer_id < usize::MAX,
    ensures
        (r.0@, r.1@) == half_layers(
            layer_id as nat,
            mask@,
            full_width_px,
            (LayerSettings { is_anti_aliased, threshold, layer_height_mm, bottom_layer_count }),
        ),
        forall|left: Seq<u8>, right: Seq<u8>| #[trigger]
            draws_halves(left, right, mask@, full_width_px, is_anti_aliased, threshold)
                ==> r.0.encoded@ == goo_rle(left) && r.1.encoded@ == goo_rle(right),
{
    proof {
        let settings = LayerSettings {
            is_anti_aliased,
            threshold,
            layer_height_mm,
            bottom_layer_count,
        };
        lemma_draws_halves(layer_id as nat, mask@, full_width_px, settings);
    }
    let (left, right) = split_halves(mask, full_width_px);
    let mut left_layer = encode_single_goo_layer_from_raw_mask(
        layer_id,
        &left,
        is_anti_aliased,
        threshold,
        layer_height_mm,
        bottom_layer_count,
    );
    let mut right_layer = encode_single_goo_layer_from_raw_mask(
        layer_id,
        &right,
        is_anti_aliased,
        threshold,
        layer_height_mm,
        bottom_layer_count,
    );
    left_layer.index = 2 * layer_id;
    right_layer.index = 2 * layer_id + 1;
    (left_layer, right_layer)
}

/// The blocks of the layers that masks show, the left half of each before the right one.
pub open spec fn half_mask_layers(
    masks: Seq<Vec<u8>>,
    width: u16,
    settings: LayerSettings,
) -> Seq<LayerView> {
    Seq::new(
        2 * masks.len(),
        |i: int| {
            let halves = half_layers((i / 2) as nat, masks[i / 2]@, width, settings);
            if i % 2 == 0 {
                halves.0
            } else {
                halves.1
            }
        },
    )
}

/// What is reported while the halves of `n` masks are coded: how many blocks are done, out
/// of how many, both in 32 bits.
pub open spec fn half_reports(n: nat) -> Seq<(u32, u32)> {
    Seq::new(
        n,
        |i: int|
            (
                ((2 * i + 2) % 0x1_0000_0000) as u32,
                at_least_one((2 * n % 0x1_0000_0000) as u32),
            ),
    )
}

/// The low 32 bits of twice `n`.
fn doubled(n: usize) -> (r: u32)
    ensures
        r == 2 * n % 0x1_0000_0000,
{
    low_u32(n as u64 % 0x8000_0000 * 2)
}

/// Codes the masks of a job for a screen of two halves, and reports after each.
pub fn prepare_layers_for_goo_v5_with_progress(
    raw_masks: &[Vec<u8>],
    is_anti_aliased: bool,
    threshold: u8,
    layer_height_mm: Single,
    bottom_layer_count: u32,
    full_width_px: u16,
    reports: &mut Vec<(u32, u32)>,
) -> (layers: Vec<GooPreparedLayer>)
    requires
        full_width_px > 0,
        2 * raw_masks@.len() <= usize::MAX,
    ensures
        layer_views(layers@) == half_mask_layers(
            raw_masks@,
            full_width_px,
            (LayerSettings { is_anti_aliased, threshold, layer_height_mm, bottom_layer_count }),
        ),
        final(reports)@ == old(reports)@ + half_reports(raw_masks@.len()),
        layers@.len() == 2 * raw_masks@.len(),
        forall|i: int, left: Seq<u8>, right: Seq<u8>|
            0 <= i < raw_masks@.len() && #[trigger] draws_halves(
                left,
                right,
                raw_masks@[i]@,
                full_width_px,
                is_anti_aliased,
                threshold,
            ) ==> layers@[2 * i].encoded@ == goo_rle(left) && layers@[2 * i + 1].encoded@
                == goo_rle(right),
{
    let ghost settings = LayerSettings {
        is_anti_aliased,
        threshold,
        layer_height_mm,
        bottom_layer_count,
    };
    let ghost all = half_mask_layers(raw_masks@, full_width_px, settings);
    let total: u32 = doubled(raw_masks.len());
    let shown_total: u32 = if total == 0 {
        1
    } else {
        total
    };
    let mut layers: Vec<GooPreparedLayer> = Vec::new();
    let mut i: usize = 0;
    assert(reports@ =~= old(reports)@ + half_reports(raw_masks@.len()).take(0));
    while i < raw_masks.len()
        invariant
            i <= raw_masks@.len(),
            full_width_px > 0,
            2 * raw_masks@.len() <= usize::MAX,
            shown_total == at_least_one((2 * raw_masks@.len() % 0x1_0000_0000) as u32),
            settings == (LayerSettings {
                is_anti_aliased,
                threshold,
                layer_height_mm,
                bottom_layer_count,
            }),
            all == half_mask_layers(raw_masks@, full_width_px, settings),
            layers@.len() == 2 * i,
            forall|k: int| 0 <= k < 2 * i ==> (#[trigger] layers@[k])@ == all[k],
            reports@ == old(reports)@ + half_reports(raw_masks@.len()).take(i as int),
        decreases raw_masks@.len() - i,
    {
        let (left, right) = encode_v5_layer_left_right(
            i,
            &raw_masks[i],
            full_width_px,
            is_anti_aliased,
            threshold,
            layer_height_mm,
            bottom_layer_count,
        );
        assert(all[2 * i] == left@ && all[2 * i + 1] == right@);
        layers.push(left);
        layers.push(right);
        i = i + 1;
        reports.push((doubled(i), shown_total));
        assert(reports@ =~= old(reports)@ + half_reports(raw_masks@.len()).take(i as int));
    }
    assert(layer_views(layers@) =~= all);
    assert(half_reports(raw_masks@.len()).take(raw_masks@.len() as int) =~= half_reports(
        raw_masks@.len(),
    ));
    proof {
        assert forall|i: int, left: Seq<u8>, right: Seq<u8>|
            0 <= i < raw_masks@.len() && #[trigger] draws_halves(
                left,
                right,
                raw_masks@[i]@,
                full_width_px,
                is_anti_aliased,
                threshold,
            ) implies layers@[2 * i].encoded@ == goo_rle(left) && layers@[2 * i + 1].encoded@
            == goo_rle(right) by {
            lemma_draws_halves(i as nat, raw_masks@[i]@, full_width_px, settings);
            assert((2 * i) / 2 == i && (2 * i) % 2 == 0);
            assert((2 * i + 1) / 2 == i && (2 * i + 1) % 2 == 1);
            assert(layers@[2 * i]@ == all[2 * i] && layers@[2 * i + 1]@ == all[2 * i + 1]);
        }
    }
    layers
}

/// Runs and masks that describe the same picture are coded the same way.
pub proof fn law_runs_and_masks_agree(
    runs: Seq<RleRun>,
    mask: Seq<u8>,
    is_anti_aliased: bool,
    threshold: u8,
)
    requires
        crate::rle::expanded(runs) == mask,
    ensures
        goo_rle(run_pixels(runs, is_anti_aliased, threshold, mask.len())) == goo_rle(
            mask_pixels(mask, is_anti_aliased, threshold),
        ),
{
    assert(run_pixels(runs, is_anti_aliased, threshold, mask.len()) =~= mask_pixels(
        mask,
        is_anti_aliased,
        threshold,
    ));
}

/// Every pixel before `end` lies in one of the two halves.
proof fn lemma_columns_cover(p: Seq<u8>, width: nat, middle: nat, end: nat)
    requires
        middle <= width,
        0 < width,
    ensures
        columns(p, width, 0, middle, end).len() + columns(p, width, middle, width, end).len()
            == end,
    decreases end,
{
    if end > 0 {
        lemma_columns_cover(p, width, middle, (end - 1) as nat);
        assert((end - 1) as nat % width < width) by (nonlinear_arith)
            requires
                0 < width,
        ;
    }
}

/// The two halves of a picture have all of its pixels.
pub proof fn law_halves_cover_the_picture(p: Seq<u8>, width: u16)
    requires
        width > 0,
    ensures
        left_half(p, width).len() + right_half(p, width).len() == p.len(),
{
    lemma_columns_cover(p, width as nat, (width / 2) as nat, p.len());
}

/// The data of a layer is never empty.
pub proof fn law_layer_data_is_never_empty(p: Seq<u8>)
    ensures
        goo_rle(p).len() >= 2,
{
}

/// While masks are coded for two halves, the reports count the blocks that are done, two for
/// each mask, out of all of them.
pub proof fn law_half_reports_count_blocks(n: nat, k: int)
    requires
        2 * n <= u32::MAX,
        0 <= k < n,
    ensures
        half_reports(n).len() == n,
        half_reports(n)[k] == ((2 * k + 2) as u32, (2 * n) as u32),
{
}

} // verus!
