//! Why a job cannot be encoded, and the texts that say so.

use vstd::prelude::*;

use crate::text::{decimal, push_decimal};

verus! {

/// Why a request is refused.
#[derive(Debug)]
pub enum SlicerV3Error {
    /// Layers are missing or not as they should be.
    MissingRenderedLayerPayload(String),
    /// The output cannot be made.
    UnsupportedOutput(String),
    /// The preview of a layer cannot be read.
    LayerPreview(String),
}

/// Why a request is refused, the text as a sequence.
pub enum Refusal {
    MissingRenderedLayerPayload(Seq<char>),
    UnsupportedOutput(Seq<char>),
    LayerPreview(Seq<char>),
}

impl View for SlicerV3Error {
    type V = Refusal;

    open spec fn view(&self) -> Refusal {
        match self {
            SlicerV3Error::MissingRenderedLayerPayload(text) => Refusal::MissingRenderedLayerPayload(
                text@,
            ),
            SlicerV3Error::UnsupportedOutput(text) => Refusal::UnsupportedOutput(text@),
            SlicerV3Error::LayerPreview(text) => Refusal::LayerPreview(text@),
        }
    }
}

/// Layers are missing, for a reason that the text gives.
pub fn missing_layers(text: &str) -> (r: SlicerV3Error)
    ensures
        r@ == Refusal::MissingRenderedLayerPayload(text@),
{
    SlicerV3Error::MissingRenderedLayerPayload(text.to_string())
}

/// What is said of a layer that has the wrong number of pixels.
pub open spec fn size_mismatch_text(layer: nat, expected: nat, got: nat) -> Seq<char> {
    "Goo layer "@ + decimal(layer) + " size mismatch: expected "@ + decimal(expected)
        + " bytes, got "@ + decimal(got)
}

/// A layer has the wrong number of pixels.
pub fn size_mismatch(layer: usize, expected: usize, got: usize) -> (r: SlicerV3Error)
    ensures
        r@ == Refusal::MissingRenderedLayerPayload(
            size_mismatch_text(layer as nat, expected as nat, got as nat),
        ),
{
    let mut text: String = String::new();
    text.append("Goo layer ");
    push_decimal(&mut text, layer as u64);
    text.append(" size mismatch: expected ");
    push_decimal(&mut text, expected as u64);
    text.append(" bytes, got ");
    push_decimal(&mut text, got as u64);
    assert(text@ =~= size_mismatch_text(layer as nat, expected as nat, got as nat));
    SlicerV3Error::MissingRenderedLayerPayload(text)
}

/// What is said of a layer whose index is too large.
pub open spec fn out_of_range_text(index: nat, expected: nat) -> Seq<char> {
    "Goo worker emitted out-of-range layer index "@ + decimal(index) + " (expected < "@ + decimal(
        expected,
    ) + ")"@
}

/// The index of a layer is too large.
pub fn out_of_range(index: usize, expected: usize) -> (r: SlicerV3Error)
    ensures
        r@ == Refusal::MissingRenderedLayerPayload(
            out_of_range_text(index as nat, expected as nat),
        ),
{
    let mut text: String = String::new();
    text.append("Goo worker emitted out-of-range layer index ");
    push_decimal(&mut text, index as u64);
    text.append(" (expected < ");
    push_decimal(&mut text, expected as u64);
    text.append(")");
    assert(text@ =~= out_of_range_text(index as nat, expected as nat));
    SlicerV3Error::MissingRenderedLayerPayload(text)
}

/// What is said of a layer that comes twice.
pub open spec fn duplicate_text(index: nat) -> Seq<char> {
    "Goo worker emitted duplicate layer index "@ + decimal(index)
}

/// A layer comes twice.
pub fn duplicate(index: usize) -> (r: SlicerV3Error)
    ensures
        r@ == Refusal::MissingRenderedLayerPayload(duplicate_text(index as nat)),
{
    let mut text: String = String::new();
    text.append("Goo worker emitted duplicate layer index ");
    push_decimal(&mut text, index as u64);
    assert(text@ =~= duplicate_text(index as nat));
    SlicerV3Error::MissingRenderedLayerPayload(text)
}

} // verus!
