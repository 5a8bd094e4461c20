//! Layers that arrive one by one.

use vstd::prelude::*;

use crate::calendar::{datetime_text, LAST_SECOND};
use crate::container::{build_goo_container_bytes, goo_container, job_timing};
use crate::contents::{draws_runs, lemma_draws_runs};
use crate::error::{
    duplicate, duplicate_text, missing_layers, out_of_range, out_of_range_text, size_mismatch,
    size_mismatch_text, Refusal, SlicerV3Error,
};
use crate::json::{json_parsed, text_view};
use crate::layers::{
    encode_single_goo_empty_layer, encode_single_goo_layer_from_raw_mask, layer_from_data,
    layer_views, layer_with, mask_layer, mask_layers, LayerSettings, LayerView,
};
use crate::metadata::{
    metadata_threshold, parse_threshold_from_job, parse_timing_model_from_job,
};
use crate::planning::{
    cap_goo_encode_workers_for_mask_bytes, choose_goo_encode_queue_depth,
    choose_goo_encode_threads, mask_budget, thread_choice, waiting_cap, worker_cap,
};
use crate::rle::{encode_goo_rle_from_runs, goo_rle, repeated, run_pixels, RleRun};
use crate::text::decimal;
use crate::types::{pixel_count, GooPreparedLayer, GooTimingModel, SliceJobV3};

verus! {

/// The layers come in the order of their indices.
pub open spec fn in_order(layers: Seq<LayerView>) -> bool {
    forall|i: int, j: int| 0 <= i < j < layers.len() ==> layers[i].index <= layers[j].index
}

/// `sorted` holds the layers of `layers`, in the order of their indices.
pub open spec fn sorted_version(layers: Seq<LayerView>, sorted: Seq<LayerView>) -> bool {
    &&& in_order(sorted)
    &&& sorted.to_multiset() == layers.to_multiset()
}

/// Puts an item between others.
proof fn lemma_insert_multiset<A>(s: Seq<A>, i: int, a: A)
    requires
        0 <= i <= s.len(),
    ensures
        s.insert(i, a).to_multiset() == s.to_multiset().insert(a),
{
    broadcast use vstd::seq_lib::group_to_multiset_ensures;

    assert(s.insert(i, a).remove(i) =~= s);
    assert(s.insert(i, a).to_multiset().remove(a) == s.to_multiset());
    assert(s.insert(i, a).contains(a)) by {
        assert(s.insert(i, a)[i] == a);
    }
    assert(s.insert(i, a).to_multiset() =~= s.to_multiset().insert(a));
}

/// Sorts layers by their indices.
fn sort_layers(layers: Vec<GooPreparedLayer>) -> (sorted: Vec<GooPreparedLayer>)
    ensures
        sorted_version(layer_views(layers@), layer_views(sorted@)),
        sorted@.len() == layers@.len(),
{
    let ghost all = layer_views(layers@);
    let ghost given = layers@;
    let mut sorted: Vec<GooPreparedLayer> = Vec::new();
    let mut rest: Vec<GooPreparedLayer> = layers;
    proof {
        assert(layer_views(sorted@) =~= Seq::<LayerView>::empty());
        assert(Seq::<LayerView>::empty().to_multiset().add(layer_views(rest@).to_multiset())
            =~= all.to_multiset()) by {
            broadcast use vstd::seq_lib::group_to_multiset_ensures;

        }
    }
    while rest.len() > 0
        invariant
            sorted@.len() + rest@.len() == all.len(),
            in_order(layer_views(sorted@)),
            layer_views(sorted@).to_multiset().add(layer_views(rest@).to_multiset())
                == all.to_multiset(),
        decreases rest@.len(),
    {
        let ghost s0 = layer_views(sorted@);
        let ghost r0 = layer_views(rest@);
        let ghost sorted0 = sorted@;
        let last: usize = rest.len() - 1;
        let layer: GooPreparedLayer = rest.remove(last);
        let ghost v = layer@;
        // The first place behind which every index is larger.
        let mut at: usize = sorted.len();
        while at > 0 && sorted[at - 1].index > layer.index
            invariant
                at <= sorted@.len(),
                sorted@ == sorted0,
                forall|k: int| at <= k < sorted@.len() ==> (#[trigger] sorted@[k]).index
                    > layer.index,
            decreases at,
        {
            at = at - 1;
        }
        sorted.insert(at, layer);
        proof {
            broadcast use vstd::seq_lib::group_to_multiset_ensures;

            let s1 = layer_views(sorted@);
            let r1 = layer_views(rest@);
            assert(s1 =~= s0.insert(at as int, v));
            lemma_insert_multiset(s0, at as int, v);
            assert(r0 =~= r1.push(v));
            assert(s1.to_multiset().add(r1.to_multiset()) =~= s0.to_multiset().add(
                r0.to_multiset(),
            ));
            assert(at > 0 ==> s0[at - 1].index <= v.index);
            assert(forall|k: int| at <= k < s0.len() ==> (#[trigger] s0[k]).index > v.index);
            assert forall|i: int, j: int| 0 <= i < j < s1.len() implies s1[i].index
                <= s1[j].index by {
                if i < at {
                    assert(s1[i] == s0[i]);
                    assert(i <= at - 1);
                    assert(s0[i].index <= s0[at - 1].index);
                }
            }
        }
    }
    proof {
        broadcast use vstd::seq_lib::group_to_multiset_ensures;

        assert(layer_views(rest@) =~= Seq::<LayerView>::empty());
        assert(layer_views(sorted@).to_multiset() =~= layer_views(sorted@).to_multiset().add(
            Seq::<LayerView>::empty().to_multiset(),
        ));
    }
    sorted
}

/// No two layers have the same index.
pub open spec fn distinct(layers: Seq<LayerView>) -> bool {
    forall|i: int, j: int| 0 <= i < j < layers.len() ==> layers[i].index != layers[j].index
}

/// Where no two layers have the same index, the order of the layers does not depend on the
/// order in which they arrived.
pub proof fn law_arrival_order_does_not_matter(
    arrived: Seq<LayerView>,
    otherwise: Seq<LayerView>,
    a: Seq<LayerView>,
    b: Seq<LayerView>,
)
    requires
        arrived.to_multiset() == otherwise.to_multiset(),
        distinct(arrived),
        sorted_version(arrived, a),
        sorted_version(otherwise, b),
    ensures
        a == b,
{
    lemma_distinct_permutes(arrived, a);
    lemma_distinct_permutes(arrived, b);
    lemma_sorted_is_unique(a, b);
}

/// Distinct indices stay distinct in another order.
proof fn lemma_distinct_permutes(x: Seq<LayerView>, y: Seq<LayerView>)
    requires
        distinct(x),
        x.to_multiset() == y.to_multiset(),
    ensures
        distinct(y),
{
    x.to_multiset_ensures();
    y.to_multiset_ensures();
    assert(x.no_duplicates());
    x.lemma_multiset_has_no_duplicates();
    y.lemma_multiset_has_no_duplicates_conv();
    assert forall|i: int, j: int| 0 <= i < j < y.len() implies y[i].index != y[j].index by {
        assert(y.contains(y[i]) && y.contains(y[j]));
        assert(y.to_multiset().count(y[i]) > 0 && y.to_multiset().count(y[j]) > 0);
        assert(x.contains(y[i]) && x.contains(y[j]));
        let p = choose|p: int| 0 <= p < x.len() && x[p] == y[i];
        let q = choose|q: int| 0 <= q < x.len() && x[q] == y[j];
        assert(y[i] != y[j]);
        if p < q {
            assert(x[p].index != x[q].index);
        } else {
            assert(x[q].index != x[p].index);
        }
    }
}

/// Layers with distinct indices have one order.
proof fn lemma_sorted_is_unique(a: Seq<LayerView>, b: Seq<LayerView>)
    requires
        a.to_multiset() == b.to_multiset(),
        distinct(a),
        distinct(b),
        in_order(a),
        in_order(b),
    ensures
        a == b,
    decreases a.len(),
{
    a.to_multiset_ensures();
    b.to_multiset_ensures();
    assert(a.to_multiset().len() == b.to_multiset().len());
    if a.len() > 0 {
        let n = a.len() as int;
        assert(a.contains(a.last()) && b.contains(b.last()));
        assert(a.to_multiset().count(a.last()) > 0 && b.to_multiset().count(b.last()) > 0);
        assert(b.contains(a.last()) && a.contains(b.last()));
        let p = choose|p: int| 0 <= p < n && b[p] == a.last();
        let q = choose|q: int| 0 <= q < n && a[q] == b.last();
        assert(p == n - 1) by {
            if p < n - 1 {
                assert(b[p].index != b[n - 1].index && b[p].index <= b[n - 1].index);
                assert(q < n - 1 ==> a[q].index <= a[n - 1].index);
            }
        }
        assert(a.last() == b.last());
        assert(a.remove(n - 1) =~= a.drop_last());
        assert(b.remove(n - 1) =~= b.drop_last());
        assert(a.drop_last().to_multiset() == a.to_multiset().remove(a.last()));
        assert(b.drop_last().to_multiset() == b.to_multiset().remove(b.last()));
        lemma_sorted_is_unique(a.drop_last(), b.drop_last());
        assert(a =~= a.drop_last().push(a.last()));
        assert(b =~= b.drop_last().push(b.last()));
    } else {
        assert(a =~= b);
    }
}

/// The settings of the layers of a job.
pub open spec fn job_settings(job: SliceJobV3) -> LayerSettings {
    LayerSettings {
        is_anti_aliased: job.grayscale_output,
        threshold: metadata_threshold(json_parsed(job.metadata_json@)),
        layer_height_mm: job.layer_height_mm,
        bottom_layer_count: job_timing(job).bottom_layer_count,
    }
}

/// The settings of the layers of a job.
pub fn settings_of_job(job: &SliceJobV3) -> (r: LayerSettings)
    ensures
        r == job_settings(*job),
{
    let timing: GooTimingModel = parse_timing_model_from_job(job);
    LayerSettings {
        is_anti_aliased: job.produces_grayscale_output(),
        threshold: parse_threshold_from_job(job),
        layer_height_mm: job.layer_height_mm,
        bottom_layer_count: timing.bottom_layer_count,
    }
}

/// Some moment's container of a job.
pub open spec fn is_container_now(job: SliceJobV3, layers: Seq<LayerView>, bytes: Seq<u8>) -> bool {
    exists|secs: u64|
        secs <= LAST_SECOND && bytes == goo_container(
            job,
            layers,
            #[trigger] datetime_text(secs as nat),
        )
}

/// Takes layers as runs, in any order, and makes a container of them.
#[derive(Debug)]
pub struct GooRleStreamingEncoder {
    pub job: SliceJobV3,
    pub settings: LayerSettings,
    pub total_pixels: usize,
    pub prepared: Vec<GooPreparedLayer>,
}

impl GooRleStreamingEncoder {
    /// An encoder that has taken no layers yet.
    pub fn new(job: &SliceJobV3) -> (r: GooRleStreamingEncoder)
        ensures
            r.job == *job,
            r.settings == job_settings(*job),
            r.total_pixels == pixel_count(job.source_width_px, job.source_height_px),
            r.prepared@ == Seq::<GooPreparedLayer>::empty(),
    {
        GooRleStreamingEncoder {
            job: job.clone(),
            settings: settings_of_job(job),
            total_pixels: job.expected_pixels(),
            prepared: Vec::new(),
        }
    }

    /// The layer at `layer_index` with the data `encoded`.
    pub fn prepared_layer(&self, layer_index: u32, encoded: Vec<u8>) -> (layer: GooPreparedLayer)
        ensures
            layer@ == layer_with(
                layer_index as nat,
                encoded@,
                self.settings.layer_height_mm,
                self.settings.bottom_layer_count,
            ),
    {
        layer_from_data(
            layer_index as usize,
            encoded,
            self.settings.layer_height_mm,
            self.settings.bottom_layer_count,
        )
    }

    /// Codes the runs of a layer. This needs no more of the encoder than its settings, so
    /// that layers can be coded at the same time.
    pub fn encode_runs(&self, runs: &[RleRun]) -> (data: Vec<u8>)
        ensures
            data@ == goo_rle(
                run_pixels(
                    runs@,
                    self.settings.is_anti_aliased,
                    self.settings.threshold,
                    self.total_pixels as nat,
                ),
            ),
            forall|p: Seq<u8>| #[trigger]
                draws_runs(
                    p,
                    runs@,
                    self.settings.is_anti_aliased,
                    self.settings.threshold,
                    self.total_pixels as nat,
                ) ==> data@ == goo_rle(p),
    {
        proof {
            lemma_draws_runs(
                runs@,
                self.settings.is_anti_aliased,
                self.settings.threshold,
                self.total_pixels as nat,
            );
        }
        encode_goo_rle_from_runs(
            runs,
            self.settings.is_anti_aliased,
            self.settings.threshold,
            self.total_pixels,
        )
    }

    /// Takes a layer that has been coded already.
    pub fn store_encoded_layer(&mut self, layer_index: u32, bytes: Vec<u8>)
        ensures
            final(self).job == old(self).job,
            final(self).settings == old(self).settings,
            final(self).total_pixels == old(self).total_pixels,
            layer_views(final(self).prepared@) == layer_views(old(self).prepared@).push(
                layer_with(
                    layer_index as nat,
                    bytes@,
                    old(self).settings.layer_height_mm,
                    old(self).settings.bottom_layer_count,
                ),
            ),
    {
        let layer: GooPreparedLayer = self.prepared_layer(layer_index, bytes);
        self.prepared.push(layer);
        assert(layer_views(self.prepared@) =~= layer_views(old(self).prepared@).push(
            layer_with(
                layer_index as nat,
                bytes@,
                old(self).settings.layer_height_mm,
                old(self).settings.bottom_layer_count,
            ),
        ));
    }

    /// Takes a layer. This never fails.
    pub fn consume_rle_layer(&mut self, layer_index: u32, runs: Vec<RleRun>) -> (r: Result<
        (),
        SlicerV3Error,
    >)
        ensures
            r is Ok,
            final(self).job == old(self).job,
            final(self).settings == old(self).settings,
            final(self).total_pixels == old(self).total_pixels,
            layer_views(final(self).prepared@) == layer_views(old(self).prepared@).push(
                layer_with(
                    layer_index as nat,
                    goo_rle(
                        run_pixels(
                            runs@,
                            old(self).settings.is_anti_aliased,
                            old(self).settings.threshold,
                            old(self).total_pixels as nat,
                        ),
                    ),
                    old(self).settings.layer_height_mm,
                    old(self).settings.bottom_layer_count,
                ),
            ),
            final(self).prepared@.len() == old(self).prepared@.len() + 1,
            final(self).prepared@.last().index == layer_index,
            final(self).prepared@.last().is_bottom == (layer_index
                < old(self).settings.bottom_layer_count),
            forall|p: Seq<u8>| #[trigger]
                draws_runs(
                    p,
                    runs@,
                    old(self).settings.is_anti_aliased,
                    old(self).settings.threshold,
                    old(self).total_pixels as nat,
                ) ==> final(self).prepared@.last().encoded@ == goo_rle(p),
    {
        let data: Vec<u8> = self.encode_runs(&runs);
        self.store_encoded_layer(layer_index, data);
        proof {
            let views = layer_views(self.prepared@);
            assert(views.last() == self.prepared@.last()@);
        }
        Ok(())
    }

    /// The container of the layers that were taken, in the order of their indices. It fails
    /// only if there are none.
    pub fn finalize_to_bytes(self) -> (r: Result<Vec<u8>, SlicerV3Error>)
        ensures
            match r {
                Ok(bytes) => self.prepared@.len() > 0 && exists|layers: Seq<LayerView>|
                    sorted_version(layer_views(self.prepared@), layers)
                        && #[trigger] is_container_now(self.job, layers, bytes@),
                Err(e) => self.prepared@.len() == 0 && e@ == Refusal::MissingRenderedLayerPayload(
                    "no rendered layers were provided for Goo RLE encoding"@,
                ),
            },
    {
        if self.prepared.len() == 0 {
            return Err(missing_layers("no rendered layers were provided for Goo RLE encoding"));
        }
        let sorted: Vec<GooPreparedLayer> = sort_layers(self.prepared);
        let r = build_goo_container_bytes(&self.job, &sorted);
        proof {
            let bytes = r->Ok_0@;
            assert(is_container_now(self.job, layer_views(sorted@), bytes));
        }
        r
    }
}

/// What a worker answers to a mask.
pub open spec fn task_answer(
    settings: LayerSettings,
    expected_pixels: nat,
    layer_index: nat,
    mask: Seq<u8>,
) -> Result<LayerView, Refusal> {
    if mask.len() == 0 {
        Ok(
            layer_with(
                layer_index,
                goo_rle(repeated(0, expected_pixels)),
                settings.layer_height_mm,
                settings.bottom_layer_count,
            ),
        )
    } else if mask.len() != expected_pixels {
        Err(
            Refusal::MissingRenderedLayerPayload(
                size_mismatch_text(layer_index, expected_pixels, mask.len()),
            ),
        )
    } else {
        Ok(mask_layer(layer_index, mask, settings))
    }
}

/// The answer of a worker, its data as sequences.
pub open spec fn answer_view(answer: Result<GooPreparedLayer, SlicerV3Error>) -> Result<
    LayerView,
    Refusal,
> {
    match answer {
        Ok(layer) => Ok(layer@),
        Err(e) => Err(e@),
    }
}

/// The answers of workers, their data as sequences.
pub open spec fn answer_views(answers: Seq<Result<GooPreparedLayer, SlicerV3Error>>) -> Seq<
    Result<LayerView, Refusal>,
> {
    Seq::new(answers.len(), |i: int| answer_view(answers[i]))
}

/// What is wrong with the `j`th of `expected` answers, if anything.
pub open spec fn fault_at(answers: Seq<Result<LayerView, Refusal>>, expected: nat, j: int) -> Option<
    Refusal,
> {
    if j >= answers.len() {
        Some(
            Refusal::MissingRenderedLayerPayload(
                "Goo streaming worker results ended unexpectedly"@,
            ),
        )
    } else {
        match answers[j] {
            Err(e) => Some(e),
            Ok(layer) => if layer.index >= expected {
                Some(
                    Refusal::MissingRenderedLayerPayload(out_of_range_text(layer.index, expected)),
                )
            } else if exists|k: int|
                0 <= k < j && (#[trigger] answers[k]) is Ok && answers[k]->Ok_0.index
                    == layer.index {
                Some(Refusal::MissingRenderedLayerPayload(duplicate_text(layer.index)))
            } else {
                None
            },
        }
    }
}

/// The first thing that is wrong with `expected` answers, from the `j`th on.
pub open spec fn first_fault(answers: Seq<Result<LayerView, Refusal>>, expected: nat, j: int)
    -> Option<Refusal>
    decreases expected - j,
{
    if j >= expected {
        None
    } else if fault_at(answers, expected, j) is Some {
        fault_at(answers, expected, j)
    } else {
        first_fault(answers, expected, j + 1)
    }
}

/// The layers are those of the first `expected` answers, each at its index.
pub open spec fn ordered_answers(
    answers: Seq<Result<LayerView, Refusal>>,
    expected: nat,
    layers: Seq<LayerView>,
) -> bool {
    &&& layers.len() == expected
    &&& forall|i: int| 0 <= i < expected ==> (#[trigger] layers[i]).index == i
    &&& forall|j: int|
        0 <= j < expected ==> (#[trigger] answers[j]) is Ok && layers[answers[j]->Ok_0.index as int]
            == answers[j]->Ok_0
    &&& forall|i: int|
        0 <= i < expected ==> exists|j: int|
            0 <= j < expected && (#[trigger] answers[j]) == Ok::<LayerView, Refusal>(
                #[trigger] layers[i],
            )
}

/// How many places are filled.
spec fn filled(slots: Seq<Option<GooPreparedLayer>>) -> nat
    decreases slots.len(),
{
    if slots.len() == 0 {
        0
    } else {
        filled(slots.drop_last()) + (if slots.last() is Some {
            1nat
        } else {
            0nat
        })
    }
}

proof fn lemma_filled_bound(slots: Seq<Option<GooPreparedLayer>>)
    ensures
        filled(slots) <= slots.len(),
        filled(slots) == slots.len() ==> forall|i: int|
            0 <= i < slots.len() ==> (#[trigger] slots[i]) is Some,
    decreases slots.len(),
{
    if slots.len() > 0 {
        lemma_filled_bound(slots.drop_last());
        if filled(slots) == slots.len() {
            assert forall|i: int| 0 <= i < slots.len() implies (#[trigger] slots[i]) is Some by {
                if i < slots.len() - 1 {
                    assert(slots.drop_last()[i] is Some);
                }
            }
        }
    }
}

proof fn lemma_filled_update(
    slots: Seq<Option<GooPreparedLayer>>,
    i: int,
    layer: GooPreparedLayer,
)
    requires
        0 <= i < slots.len(),
        slots[i] is None,
    ensures
        filled(slots.update(i, Some(layer))) == filled(slots) + 1,
    decreases slots.len(),
{
    let after = slots.update(i, Some(layer));
    if i == slots.len() - 1 {
        assert(after.drop_last() =~= slots.drop_last());
    } else {
        lemma_filled_update(slots.drop_last(), i, layer);
        assert(after.drop_last() =~= slots.drop_last().update(i, Some(layer)));
    }
}

proof fn lemma_filled_none(slots: Seq<Option<GooPreparedLayer>>)
    requires
        forall|i: int| 0 <= i < slots.len() ==> (#[trigger] slots[i]) is None,
    ensures
        filled(slots) == 0,
    decreases slots.len(),
{
    if slots.len() > 0 {
        lemma_filled_none(slots.drop_last());
    }
}

/// Empty places.
fn empty_slots(n: usize) -> (slots: Vec<Option<GooPreparedLayer>>)
    ensures
        slots@.len() == n,
        forall|i: int| 0 <= i < n ==> (#[trigger] slots@[i]) is None,
{
    let mut slots: Vec<Option<GooPreparedLayer>> = Vec::new();
    while slots.len() < n
        invariant
            slots@.len() <= n,
            forall|i: int| 0 <= i < slots@.len() ==> (#[trigger] slots@[i]) is None,
        decreases n - slots@.len(),
    {
        slots.push(None);
    }
    slots
}

/// The layers of full places.
fn unwrap_slots(slots: Vec<Option<GooPreparedLayer>>) -> (layers: Vec<GooPreparedLayer>)
    requires
        forall|i: int| 0 <= i < slots@.len() ==> (#[trigger] slots@[i]) is Some,
    ensures
        layers@.len() == slots@.len(),
        forall|i: int| 0 <= i < slots@.len() ==> slots@[i] == Some(#[trigger] layers@[i]),
{
    let ghost given = slots@;
    let mut waiting: Vec<Option<GooPreparedLayer>> = reversed(slots);
    let mut layers: Vec<GooPreparedLayer> = Vec::new();
    while waiting.len() > 0
        invariant
            waiting@.len() + layers@.len() == given.len(),
            waiting@ == given.reverse().take(waiting@.len() as int),
            forall|i: int| 0 <= i < given.len() ==> (#[trigger] given[i]) is Some,
            forall|i: int| 0 <= i < layers@.len() ==> given[i] == Some(#[trigger] layers@[i]),
        decreases waiting@.len(),
    {
        if let Some(Some(layer)) = waiting.pop() {
            layers.push(layer);
        }
    }
    layers
}

/// Items in reverse.
fn reversed<T>(items: Vec<T>) -> (r: Vec<T>)
    ensures
        r@ == items@.reverse(),
{
    let ghost given = items@;
    let mut rest: Vec<T> = items;
    let mut back: Vec<T> = Vec::new();
    while rest.len() > 0
        invariant
            rest@.len() + back@.len() == given.len(),
            rest@ == given.take(rest@.len() as int),
            forall|i: int| 0 <= i < back@.len() ==> given[given.len() - 1 - i] == #[trigger] back@[i],
        decreases rest@.len(),
    {
        if let Some(item) = rest.pop() {
            back.push(item);
        }
    }
    assert(back@ =~= given.reverse());
    back
}

/// Puts the answers of the workers into the order of their layers. `expected` answers count;
/// the first that is wrong decides.
pub fn order_layers(
    answers: Vec<Result<GooPreparedLayer, SlicerV3Error>>,
    expected: usize,
) -> (r: Result<Vec<GooPreparedLayer>, SlicerV3Error>)
    ensures
        match first_fault(answer_views(answers@), expected as nat, 0) {
            Some(refusal) => r matches Err(e) && e@ == refusal,
            None => r matches Ok(layers) && ordered_answers(
                answer_views(answers@),
                expected as nat,
                layer_views(layers@),
            ),
        },
{
    let ghost given = answers@;
    let ghost views = answer_views(given);
    let mut waiting: Vec<Result<GooPreparedLayer, SlicerV3Error>> = reversed(answers);
    let mut slots: Vec<Option<GooPreparedLayer>> = empty_slots(expected);
    let mut j: usize = 0;
    proof {
        lemma_filled_none(slots@);
    }
    while j < expected
        invariant
            j <= expected,
            j <= given.len(),
            given == answers@,
            views == answer_views(given),
            waiting@.len() == given.len() - j,
            forall|i: int|
                0 <= i < waiting@.len() ==> #[trigger] waiting@[i] == given[given.len() - 1 - i],
            slots@.len() == expected,
            filled(slots@) == j,
            forall|k: int|
                0 <= k < j ==> (#[trigger] views[k]) is Ok && views[k]->Ok_0.index < expected
                    && slots@[views[k]->Ok_0.index as int] is Some
                    && slots@[views[k]->Ok_0.index as int]->0@ == views[k]->Ok_0,
            forall|i: int|
                0 <= i < expected && (#[trigger] slots@[i]) is Some ==> slots@[i]->0.index == i
                    && exists|k: int|
                    0 <= k < j && (#[trigger] views[k]) is Ok && views[k]->Ok_0.index == i,
            first_fault(views, expected as nat, 0) == first_fault(views, expected as nat, j as int),
        decreases expected - j,
    {
        match waiting.pop() {
            None => {
                return Err(missing_layers("Goo streaming worker results ended unexpectedly"));
            },
            Some(Err(e)) => {
                assert(views[j as int] == Err::<LayerView, Refusal>(e@));
                return Err(e);
            },
            Some(Ok(layer)) => {
                let ghost v = layer@;
                assert(views[j as int] == Ok::<LayerView, Refusal>(v));
                let index: usize = layer.index;
                if index >= expected {
                    return Err(out_of_range(index, expected));
                }
                if slots[index].is_some() {
                    return Err(duplicate(index));
                }
                proof {
                    lemma_filled_update(slots@, index as int, layer);
                    if exists|k: int|
                        0 <= k < j && (#[trigger] views[k]) is Ok && views[k]->Ok_0.index
                            == v.index {
                        let k = choose|k: int|
                            0 <= k < j && (#[trigger] views[k]) is Ok && views[k]->Ok_0.index
                                == v.index;
                        assert(slots@[index as int] is Some);
                    }
                    assert(fault_at(views, expected as nat, j as int) is None);
                }
                slots.set(index, Some(layer));
            },
        }
        j = j + 1;
    }
    proof {
        lemma_filled_bound(slots@);
    }
    let ghost full = slots@;
    let layers: Vec<GooPreparedLayer> = unwrap_slots(slots);
    proof {
        let lv = layer_views(layers@);
        assert forall|i: int| 0 <= i < expected implies exists|k: int|
            0 <= k < expected && (#[trigger] views[k]) == Ok::<LayerView, Refusal>(
                #[trigger] lv[i],
            ) by {
            assert(full[i] == Some(layers@[i]));
            let k = choose|k: int|
                0 <= k < expected && (#[trigger] views[k]) is Ok && views[k]->Ok_0.index == i;
            assert(views[k] == Ok::<LayerView, Refusal>(lv[i]));
        }
    }
    Ok(layers)
}

/// All of `expected` answers are layers of the print, and no two are the same layer.
spec fn each_layer_once(answers: Seq<Result<LayerView, Refusal>>, expected: nat) -> bool {
    &&& answers.len() >= expected
    &&& forall|j: int|
        0 <= j < expected ==> (#[trigger] answers[j]) is Ok && answers[j]->Ok_0.index < expected
    &&& forall|j: int, k: int|
        0 <= k < j < expected ==> (#[trigger] answers[k])->Ok_0.index != (
        #[trigger] answers[j])->Ok_0.index
}

/// Nothing is wrong from the `j`th answer on exactly where nothing is wrong with any of them.
proof fn lemma_first_fault(answers: Seq<Result<LayerView, Refusal>>, expected: nat, j: int)
    requires
        0 <= j,
    ensures
        first_fault(answers, expected, j) is None <==> forall|i: int|
            j <= i < expected ==> (#[trigger] fault_at(answers, expected, i)) is None,
    decreases expected - j,
{
    if j < expected {
        lemma_first_fault(answers, expected, j + 1);
    }
}

/// What answers without a fault are.
proof fn lemma_no_fault(answers: Seq<Result<LayerView, Refusal>>, expected: nat)
    ensures
        first_fault(answers, expected, 0) is None <==> each_layer_once(answers, expected),
{
    lemma_first_fault(answers, expected, 0);
    if first_fault(answers, expected, 0) is None {
        if answers.len() < expected {
            assert(fault_at(answers, expected, answers.len() as int) is Some);
        }
        assert forall|j: int| 0 <= j < expected implies (#[trigger] answers[j]) is Ok
            && answers[j]->Ok_0.index < expected by {
            assert(fault_at(answers, expected, j) is None);
        }
        assert forall|j: int, k: int| 0 <= k < j < expected implies (
        #[trigger] answers[k])->Ok_0.index != (#[trigger] answers[j])->Ok_0.index by {
            assert(fault_at(answers, expected, j) is None);
            assert(answers[k] is Ok);
        }
    }
    if each_layer_once(answers, expected) {
        assert forall|j: int| 0 <= j < expected implies (#[trigger] fault_at(
            answers,
            expected,
            j,
        )) is None by {
            assert(answers[j] is Ok);
        }
    }
}

/// Rearranged answers hold each layer once where they did before.
proof fn lemma_rearranged(
    answers: Seq<Result<LayerView, Refusal>>,
    otherwise: Seq<Result<LayerView, Refusal>>,
    expected: nat,
)
    requires
        answers.len() <= expected,
        answers.to_multiset() == otherwise.to_multiset(),
        each_layer_once(answers, expected),
    ensures
        each_layer_once(otherwise, expected),
{
    answers.to_multiset_ensures();
    otherwise.to_multiset_ensures();
    assert(answers.no_duplicates()) by {
        assert forall|j: int, k: int| 0 <= j < expected && 0 <= k < expected && j != k implies
            answers[j] != answers[k] by {
            if k < j {
                assert(answers[k]->Ok_0.index != answers[j]->Ok_0.index);
            } else {
                assert(answers[j]->Ok_0.index != answers[k]->Ok_0.index);
            }
        }
    }
    answers.lemma_multiset_has_no_duplicates();
    otherwise.lemma_multiset_has_no_duplicates_conv();
    assert forall|j: int| 0 <= j < expected implies answers.contains(#[trigger] otherwise[j]) by {
        assert(otherwise.contains(otherwise[j]));
        assert(answers.to_multiset().count(otherwise[j]) > 0);
    }
    assert forall|j: int, k: int| 0 <= k < j < expected implies (
    #[trigger] otherwise[k])->Ok_0.index != (#[trigger] otherwise[j])->Ok_0.index by {
        assert(answers.contains(otherwise[j]) && answers.contains(otherwise[k]));
        let p = choose|p: int| 0 <= p < answers.len() && answers[p] == otherwise[j];
        let q = choose|q: int| 0 <= q < answers.len() && answers[q] == otherwise[k];
        if p == q {
            assert(otherwise[j] == otherwise[k]);
        }
    }
}

/// Whether the answers are accepted does not depend on the order in which the workers gave
/// them.
pub proof fn law_acceptance_does_not_depend_on_answer_order(
    answers: Seq<Result<LayerView, Refusal>>,
    otherwise: Seq<Result<LayerView, Refusal>>,
    expected: nat,
)
    requires
        answers.len() <= expected,
        answers.to_multiset() == otherwise.to_multiset(),
    ensures
        first_fault(answers, expected, 0) is None <==> first_fault(otherwise, expected, 0) is None,
{
    answers.to_multiset_ensures();
    otherwise.to_multiset_ensures();
    lemma_no_fault(answers, expected);
    lemma_no_fault(otherwise, expected);
    if each_layer_once(answers, expected) {
        lemma_rearranged(answers, otherwise, expected);
    }
    if each_layer_once(otherwise, expected) {
        lemma_rearranged(otherwise, answers, expected);
    }
}

/// The order of the layers does not depend on the order in which the workers answered.
pub proof fn law_answer_order_does_not_matter(
    answers: Seq<Result<LayerView, Refusal>>,
    otherwise: Seq<Result<LayerView, Refusal>>,
    expected: nat,
    a: Seq<LayerView>,
    b: Seq<LayerView>,
)
    requires
        answers.len() == expected,
        otherwise.len() == expected,
        answers.to_multiset() == otherwise.to_multiset(),
        ordered_answers(answers, expected, a),
        ordered_answers(otherwise, expected, b),
    ensures
        a == b,
{
    answers.to_multiset_ensures();
    otherwise.to_multiset_ensures();
    assert forall|i: int| 0 <= i < expected implies a[i] == b[i] by {
        let j = choose|j: int|
            0 <= j < expected && (#[trigger] answers[j]) == Ok::<LayerView, Refusal>(a[i]);
        assert(answers.contains(answers[j]));
        assert(answers.to_multiset().count(answers[j]) > 0);
        assert(otherwise.contains(answers[j]));
        let k = choose|k: int| 0 <= k < expected && otherwise[k] == answers[j];
        assert(otherwise[k]->Ok_0 == a[i]);
    }
    assert(a =~= b);
}

/// Takes masks, hands them to workers, and makes a container of their answers. Whoever runs
/// the workers asks `encode_task` for their answers.
#[derive(Debug)]
pub struct GooRawMaskStream {
    pub job: SliceJobV3,
    pub settings: LayerSettings,
    pub expected_pixels: usize,
    /// How many workers to run.
    pub worker_count: usize,
    /// How many masks may wait for a worker.
    pub queue_depth: usize,
    /// How many masks were taken.
    pub consumed_layers: u32,
}

impl GooRawMaskStream {
    /// A stream that has taken no masks yet, on a machine for `hw` workers. The settings are
    /// those of the number of workers and of the megabytes that masks may take.
    pub fn new(
        job: &SliceJobV3,
        hw: usize,
        threads_setting: Option<&str>,
        budget_setting: Option<&str>,
    ) -> (r: GooRawMaskStream)
        requires
            hw >= 1,
        ensures
            r.job == *job,
            r.settings == job_settings(*job),
            r.expected_pixels == pixel_count(job.source_width_px, job.source_height_px),
            r.worker_count == worker_cap(
                thread_choice(hw as nat, text_view(threads_setting)),
                r.expected_pixels as nat,
                mask_budget(text_view(budget_setting)),
            ),
            r.queue_depth == waiting_cap(
                r.worker_count as nat,
                r.expected_pixels as nat,
                mask_budget(text_view(budget_setting)),
            ),
            r.consumed_layers == 0,
    {
        let expected_pixels: usize = job.expected_pixels();
        let worker_count: usize = cap_goo_encode_workers_for_mask_bytes(
            choose_goo_encode_threads(hw, threads_setting),
            expected_pixels,
            budget_setting,
        );
        GooRawMaskStream {
            job: job.clone(),
            settings: settings_of_job(job),
            expected_pixels,
            worker_count,
            queue_depth: choose_goo_encode_queue_depth(
                worker_count,
                expected_pixels,
                budget_setting,
            ),
            consumed_layers: 0,
        }
    }

    /// Counts a mask that was handed on, as far as 32 bits reach.
    pub fn count_consumed(&mut self)
        ensures
            *final(self) == (GooRawMaskStream {
                consumed_layers: if old(self).consumed_layers == u32::MAX {
                    u32::MAX
                } else {
                    (old(self).consumed_layers + 1) as u32
                },
                ..*old(self)
            }),
    {
        if self.consumed_layers < u32::MAX {
            self.consumed_layers = self.consumed_layers + 1;
        }
    }

    /// The container of the layers that the workers answered with. It fails if no mask was
    /// taken, or for the first answer that is missing or wrong.
    pub fn finalize_to_bytes(
        self,
        answers: Vec<Result<GooPreparedLayer, SlicerV3Error>>,
    ) -> (r: Result<Vec<u8>, SlicerV3Error>)
        ensures
            if self.consumed_layers == 0 {
                r matches Err(e) && e@ == Refusal::MissingRenderedLayerPayload(
                    "no rendered layers were provided for Goo encoding"@,
                )
            } else {
                match first_fault(answer_views(answers@), self.consumed_layers as nat, 0) {
                    Some(refusal) => r matches Err(e) && e@ == refusal,
                    None => r matches Ok(bytes) && exists|layers: Seq<LayerView>|
                        ordered_answers(
                            answer_views(answers@),
                            self.consumed_layers as nat,
                            layers,
                        ) && #[trigger] is_container_now(self.job, layers, bytes@),
                }
            },
    {
        if self.consumed_layers == 0 {
            return Err(missing_layers("no rendered layers were provided for Goo encoding"));
        }
        match order_layers(answers, self.consumed_layers as usize) {
            Err(e) => Err(e),
            Ok(layers) => {
                let r = build_goo_container_bytes(&self.job, &layers);
                proof {
                    let bytes = r->Ok_0@;
                    assert(is_container_now(self.job, layer_views(layers@), bytes));
                }
                r
            },
        }
    }
}

/// What a worker answers to the mask of layer `layer_index`. An empty mask stands for a black
/// layer.
pub fn encode_task(
    settings: &LayerSettings,
    expected_pixels: usize,
    layer_index: u32,
    raw_mask: &[u8],
) -> (r: Result<GooPreparedLayer, SlicerV3Error>)
    ensures
        answer_view(r) == task_answer(
            *settings,
            expected_pixels as nat,
            layer_index as nat,
            raw_mask@,
        ),
{
    if raw_mask.len() == 0 {
        return Ok(
            encode_single_goo_empty_layer(
                layer_index as usize,
                expected_pixels,
                settings.layer_height_mm,
                settings.bottom_layer_count,
            ),
        );
    }
    if raw_mask.len() != expected_pixels {
        return Err(size_mismatch(layer_index as usize, expected_pixels, raw_mask.len()));
    }
    Ok(
        encode_single_goo_layer_from_raw_mask(
            layer_index as usize,
            raw_mask,
            settings.is_anti_aliased,
            settings.threshold,
            settings.layer_height_mm,
            settings.bottom_layer_count,
        ),
    )
}

/// The layers that masks show are in order, and no two have the same index.
proof fn lemma_mask_layers_in_order(masks: Seq<Vec<u8>>, settings: LayerSettings)
    ensures
        in_order(mask_layers(masks, settings)),
        distinct(mask_layers(masks, settings)),
{
}

/// A stream that has taken every layer once, in whatever order, makes the container that the
/// layers make when they are encoded together.
pub proof fn law_stream_agrees_with_encoding_together(
    masks: Seq<Vec<u8>>,
    settings: LayerSettings,
    arrived: Seq<LayerView>,
    sorted: Seq<LayerView>,
)
    requires
        arrived.to_multiset() == mask_layers(masks, settings).to_multiset(),
        sorted_version(arrived, sorted),
    ensures
        sorted == mask_layers(masks, settings),
{
    let layers = mask_layers(masks, settings);
    lemma_mask_layers_in_order(masks, settings);
    law_arrival_order_does_not_matter(layers, arrived, layers, sorted);
}

/// Workers that answer to every mask make the layers that the masks make when they are
/// encoded together, whatever the order of their answers.
pub proof fn law_workers_agree_with_encoding_together(
    masks: Seq<Vec<u8>>,
    settings: LayerSettings,
    expected_pixels: nat,
    answers: Seq<Result<LayerView, Refusal>>,
    layers: Seq<LayerView>,
)
    requires
        expected_pixels > 0,
        forall|i: int| 0 <= i < masks.len() ==> (#[trigger] masks[i])@.len() == expected_pixels,
        ordered_answers(answers, masks.len(), layers),
        forall|j: int|
            0 <= j < masks.len() ==> exists|i: int|
                0 <= i < masks.len() && #[trigger] answers[j] == task_answer(
                    settings,
                    expected_pixels,
                    i as nat,
                    (#[trigger] masks[i])@,
                ),
    ensures
        layers == mask_layers(masks, settings),
{
    let all = mask_layers(masks, settings);
    assert forall|k: int| 0 <= k < masks.len() implies layers[k] == all[k] by {
        let j = choose|j: int|
            0 <= j < masks.len() && (#[trigger] answers[j]) == Ok::<LayerView, Refusal>(layers[k]);
        let i = choose|i: int|
            0 <= i < masks.len() && answers[j] == task_answer(
                settings,
                expected_pixels,
                i as nat,
                (#[trigger] masks[i])@,
            );
        assert(layers[k].index == k);
        assert(i == k);
    }
    assert(layers =~= all);
}

/// Answers are accepted where as many as are expected are layers of the print, each of them
/// once, and only there.
pub proof fn law_each_layer_is_answered_once(
    answers: Seq<Result<LayerView, Refusal>>,
    expected: nat,
)
    ensures
        first_fault(answers, expected, 0) is None <==> {
            &&& answers.len() >= expected
            &&& forall|j: int|
                0 <= j < expected ==> (#[trigger] answers[j]) is Ok && answers[j]->Ok_0.index
                    < expected
            &&& forall|j: int, k: int|
                0 <= k < j < expected ==> (#[trigger] answers[k])->Ok_0.index != (
                #[trigger] answers[j])->Ok_0.index
        },
{
    lemma_no_fault(answers, expected);
}

/// The first answer that is missing or wrong decides what is said: that the answers ended, what
/// the worker said, that the layer is none of the print, or that it came before.
pub proof fn law_first_wrong_answer_decides(
    answers: Seq<Result<LayerView, Refusal>>,
    expected: nat,
    j: int,
)
    requires
        0 <= j < expected,
        j <= answers.len(),
        forall|k: int|
            0 <= k < j ==> (#[trigger] answers[k]) is Ok && answers[k]->Ok_0.index < expected,
        forall|i: int, k: int|
            0 <= k < i < j ==> (#[trigger] answers[k])->Ok_0.index != (
            #[trigger] answers[i])->Ok_0.index,
    ensures
        ({
            let fault = first_fault(answers, expected, 0);
            if j == answers.len() {
                fault == Some(
                    Refusal::MissingRenderedLayerPayload(
                        "Goo streaming worker results ended unexpectedly"@,
                    ),
                )
            } else {
                match answers[j] {
                    Err(e) => fault == Some(e),
                    Ok(layer) => {
                        &&& layer.index >= expected ==> fault == Some(
                            Refusal::MissingRenderedLayerPayload(
                                "Goo worker emitted out-of-range layer index "@ + decimal(
                                    layer.index,
                                ) + " (expected < "@ + decimal(expected) + ")"@,
                            ),
                        )
                        &&& layer.index < expected && (exists|k: int|
                            0 <= k < j && (#[trigger] answers[k])->Ok_0.index == layer.index)
                            ==> fault == Some(
                            Refusal::MissingRenderedLayerPayload(
                                "Goo worker emitted duplicate layer index "@ + decimal(
                                    layer.index,
                                ),
                            ),
                        )
                    },
                }
            }
        }),
{
    lemma_faults_before(answers, expected, j, 0);
    if j < answers.len() && answers[j] is Ok {
        let layer = answers[j]->Ok_0;
        if exists|k: int| 0 <= k < j && (#[trigger] answers[k])->Ok_0.index == layer.index {
            let k = choose|k: int|
                0 <= k < j && (#[trigger] answers[k])->Ok_0.index == layer.index;
            assert(answers[k] is Ok);
        }
    }
}

/// Answers that are right are passed over.
proof fn lemma_faults_before(
    answers: Seq<Result<LayerView, Refusal>>,
    expected: nat,
    j: int,
    from: int,
)
    requires
        0 <= from <= j < expected,
        j <= answers.len(),
        forall|k: int|
            0 <= k < j ==> (#[trigger] answers[k]) is Ok && answers[k]->Ok_0.index < expected,
        forall|i: int, k: int|
            0 <= k < i < j ==> (#[trigger] answers[k])->Ok_0.index != (
            #[trigger] answers[i])->Ok_0.index,
    ensures
        first_fault(answers, expected, from) == first_fault(answers, expected, j),
    decreases j - from,
{
    if from < j {
        assert(answers[from] is Ok);
        assert(fault_at(answers, expected, from) is None);
        lemma_faults_before(answers, expected, j, from + 1);
    }
}

} // verus!
