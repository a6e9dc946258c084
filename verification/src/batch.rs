//! The batch orchestrator: applies the compositor across a list of base
//! images against one shared watermark. Each job is independent — its
//! outcome is a function of its own bytes and the shared watermark alone —
//! and results are collected in input order, whatever order jobs complete
//! in.

use vstd::prelude::*;
use vstd::pervasive::unreached;
use crate::pixel::Opacity;
use crate::raster::{Image, ImageModel};
use crate::compose::{apply_watermark, composite_model};
use crate::codec::{decode_image, decoded, encode_png, png_encoding};

verus! {

/// One batch input: a caller-supplied identity (a filename, as bytes) and
/// the raw bytes of the base image.
pub struct NamedInput {
    pub name: Vec<u8>,
    pub bytes: Vec<u8>,
}

/// The result of one compositing job.
#[derive(Debug, PartialEq, Eq)]
pub enum JobOutcome {
    /// The watermarked image, re-encoded as PNG bytes.
    Encoded(Vec<u8>),
    /// The base image's bytes could not be parsed into a pixel grid.
    DecodeFailure,
    /// The composited image could not be serialized back to bytes.
    EncodeFailure,
}

/// The model of one job result.
pub ghost enum JobOutcomeModel {
    Encoded(Seq<u8>),
    DecodeFailure,
    EncodeFailure,
}

impl View for JobOutcome {
    type V = JobOutcomeModel;

    open spec fn view(&self) -> JobOutcomeModel {
        match self {
            JobOutcome::Encoded(v) => JobOutcomeModel::Encoded(v@),
            JobOutcome::DecodeFailure => JobOutcomeModel::DecodeFailure,
            JobOutcome::EncodeFailure => JobOutcomeModel::EncodeFailure,
        }
    }
}

/// A batch-level failure: no job is dispatched when one of these holds.
#[derive(Clone, Copy, Debug, PartialEq, Eq, Structural)]
pub enum BatchError {
    /// The request supplied no watermark payload.
    MissingWatermark,
    /// The request supplied no base images.
    EmptyBatch,
    /// The shared watermark's bytes could not be parsed; no job can proceed.
    WatermarkDecodeFailure,
}

/// What one job returns for the given base-image bytes under the shared
/// watermark: decode, composite, re-encode, with each failure reported as
/// its own outcome.
pub open spec fn job_outcome_model(
    wm: ImageModel,
    op: Opacity,
    margin: u32,
    bytes: Seq<u8>,
) -> JobOutcomeModel {
    match decoded(bytes) {
        None => JobOutcomeModel::DecodeFailure,
        Some(base) => match png_encoding(composite_model(base, wm, op, margin)) {
            Some(v) => JobOutcomeModel::Encoded(v),
            None => JobOutcomeModel::EncodeFailure,
        },
    }
}

/// Runs one compositing job: decodes the base bytes, overlays the shared
/// watermark, and re-encodes the result as PNG.
pub fn run_job(wm: &Image, opacity: Opacity, margin: u32, bytes: &Vec<u8>) -> (r: JobOutcome)
    requires
        wm.wf(),
        opacity.valid(),
    ensures
        r@ == job_outcome_model(wm@, opacity, margin, bytes@),
{
    match decode_image(bytes) {
        None => JobOutcome::DecodeFailure,
        Some(base) => {
            let out = apply_watermark(&base, wm, opacity, margin);
            match encode_png(&out) {
                Some(v) => JobOutcome::Encoded(v),
                None => JobOutcome::EncodeFailure,
            }
        },
    }
}

/// Processes a whole batch in input order: every job's outcome stands at its
/// input's index, under its input's name. A missing watermark, an empty
/// input list, or a watermark that does not decode fails the whole batch
/// before any job runs; a single job's failure is confined to its own entry.
pub fn process_batch(
    inputs: Vec<NamedInput>,
    watermark: Option<&Vec<u8>>,
    opacity: Opacity,
    margin: u32,
) -> (r: Result<Vec<(Vec<u8>, JobOutcome)>, BatchError>)
    requires
        opacity.valid(),
    ensures
        watermark is None ==> r matches Err(BatchError::MissingWatermark),
        watermark is Some && inputs@.len() == 0 ==> r matches Err(BatchError::EmptyBatch),
        watermark is Some && inputs@.len() > 0 && decoded(watermark->Some_0@) is None
            ==> r matches Err(BatchError::WatermarkDecodeFailure),
        watermark is Some && inputs@.len() > 0 && decoded(watermark->Some_0@) is Some ==> (
        r matches Ok(out) && out@.len() == inputs@.len() && (forall|i: int|
            0 <= i < inputs@.len() ==> out@[i].0@ == inputs@[i].name@ && out@[i].1@
                == job_outcome_model(
                decoded(watermark->Some_0@)->Some_0,
                opacity,
                margin,
                inputs@[i].bytes@,
            ))),
{
    let wm_bytes = match watermark {
        Some(w) => w,
        None => {
            return Err(BatchError::MissingWatermark);
        },
    };
    if inputs.len() == 0 {
        return Err(BatchError::EmptyBatch);
    }
    let wm_img = match decode_image(wm_bytes) {
        Some(img) => img,
        None => {
            return Err(BatchError::WatermarkDecodeFailure);
        },
    };
    let ghost inputs0 = inputs@;
    let mut rest = inputs;
    let mut out: Vec<(Vec<u8>, JobOutcome)> = Vec::new();
    while rest.len() > 0
        invariant
            wm_img.wf(),
            decoded(wm_bytes@) == Some(wm_img@),
            opacity.valid(),
            out@.len() + rest@.len() == inputs0.len(),
            forall|j: int| 0 <= j < rest@.len() ==> rest@[j] == inputs0[out@.len() + j],
            forall|i: int|
                0 <= i < out@.len() ==> out@[i].0@ == inputs0[i].name@ && out@[i].1@
                    == job_outcome_model(wm_img@, opacity, margin, inputs0[i].bytes@),
        decreases rest@.len(),
    {
        let inp = rest.remove(0);
        let outcome = run_job(&wm_img, opacity, margin, &inp.bytes);
        out.push((inp.name, outcome));
    }
    Ok(out)
}

/// Reassembles per-job results delivered in an arbitrary physical completion
/// order into input order: the outcome completed for job index `k` ends up
/// at position `k`. The completions must cover every index below `n`, each
/// exactly once.
pub fn collect_in_order(n: usize, completions: Vec<(usize, JobOutcome)>) -> (r: Vec<JobOutcome>)
    requires
        completions@.len() == n,
        forall|i: int| 0 <= i < n ==> (#[trigger] completions@[i].0) < n,
        forall|i: int, j: int|
            #![trigger completions@[i].0, completions@[j].0]
            0 <= i < j < n ==> completions@[i].0 != completions@[j].0,
        forall|t: int| 0 <= t < n ==> (#[trigger] slot_value(completions@, t)) is Some,
    ensures
        r@.len() == n,
        forall|i: int|
            0 <= i < n ==> r@[completions@[i].0 as int] == completions@[i].1,
{
    let ghost comps = completions@;
    let mut slots: Vec<Option<JobOutcome>> = Vec::new();
    let mut s: usize = 0;
    while s < n
        invariant
            s <= n,
            slots@.len() == s,
        decreases n - s,
    {
        slots.push(None);
        s = s + 1;
    }
    let mut pending = completions;
    while pending.len() > 0
        invariant
            comps.len() == n,
            slots@.len() == n,
            pending@.len() <= n,
            forall|j: int|
                0 <= j < pending@.len() ==> pending@[j] == comps[n - pending@.len() + j],
            forall|i: int| 0 <= i < n ==> (#[trigger] comps[i].0) < n,
            forall|i: int, j: int|
                #![trigger comps[i].0, comps[j].0]
                0 <= i < j < n ==> comps[i].0 != comps[j].0,
            forall|i: int|
                0 <= i < n - pending@.len() ==> slots@[comps[i].0 as int] == Some(comps[i].1),
        decreases pending@.len(),
    {
        let ghost done = (n - pending@.len()) as int;
        let (idx, outcome) = pending.remove(0);
        proof {
            assert(comps[done].0 == idx && comps[done].1 == outcome);
        }
        slots.set(idx, Some(outcome));
        proof {
            assert forall|i: int| 0 <= i < n - pending@.len() implies slots@[comps[i].0 as int]
                == Some(comps[i].1) by {
                if i < done {
                    assert(comps[i].0 != comps[done].0);
                }
            }
        }
    }
    proof {
        assert forall|t: int| 0 <= t < n implies slots@[t] == slot_value(comps, t) by {
            assert(slot_value(comps, t) is Some);
            let i = choose|i: int| 0 <= i < comps.len() && (#[trigger] comps[i].0) == t;
            assert(comps[i].0 == t && 0 <= i < n);
            assert(slots@[t] == Some(comps[i].1));
            assert(0 <= i < comps.len() && comps[i].0 == t);
            let i2 = choose|j: int| 0 <= j < comps.len() && (#[trigger] comps[j].0) == t;
            assert(comps[i2].0 == t && 0 <= i2 < n);
            assert(i2 == i);
        }
    }
    let mut r: Vec<JobOutcome> = Vec::new();
    let mut k: usize = 0;
    while k < n
        invariant
            comps.len() == n,
            slots@.len() == n - k,
            k <= n,
            r@.len() == k,
            forall|i: int| 0 <= i < n ==> (#[trigger] comps[i].0) < n,
            forall|i: int, j: int|
                #![trigger comps[i].0, comps[j].0]
                0 <= i < j < n ==> comps[i].0 != comps[j].0,
            forall|t: int| 0 <= t < n ==> (#[trigger] slot_value(comps, t)) is Some,
            forall|j: int| 0 <= j < n - k ==> slots@[j] == slot_value(comps, k + j),
            forall|i: int| 0 <= i < k ==> #[trigger] r@[i] == slot_value(comps, i)->Some_0,
        decreases n - k,
    {
        proof {
            assert(slot_value(comps, k as int) is Some);
        }
        let slot = slots.remove(0);
        let outcome = match slot {
            Some(o) => o,
            None => unreached(),
        };
        r.push(outcome);
        k = k + 1;
    }
    proof {
        assert forall|i: int| 0 <= i < n implies r@[comps[i].0 as int] == comps[i].1 by {
            let t = comps[i].0 as int;
            assert(0 <= i < comps.len() && comps[i].0 == t);
            let i2 = choose|j: int| 0 <= j < comps.len() && (#[trigger] comps[j].0) == t;
            assert(comps[i2].0 == t && 0 <= i2 < n);
            assert(i2 == i);
            assert(r@[t] == slot_value(comps, t)->Some_0);
        }
    }
    r
}

/// The outcome delivered for job index `s`, if any completion carries it.
pub open spec fn slot_value(comps: Seq<(usize, JobOutcome)>, s: int) -> Option<JobOutcome> {
    if exists|i: int| 0 <= i < comps.len() && (#[trigger] comps[i].0) == s {
        let i = choose|i: int| 0 <= i < comps.len() && (#[trigger] comps[i].0) == s;
        Some(comps[i].1)
    } else {
        None
    }
}

/// Law: one job's outcome is a function of the shared watermark and that
/// job's own bytes alone — whatever the sibling entries of the batch hold,
/// including corrupt ones, the outcome at index `i` is the same.
pub proof fn lemma_job_isolation(
    wm: ImageModel,
    op: Opacity,
    margin: u32,
    xs: Seq<Seq<u8>>,
    ys: Seq<Seq<u8>>,
    i: int,
)
    requires
        0 <= i < xs.len(),
        0 <= i < ys.len(),
        xs[i] == ys[i],
    ensures
        job_outcome_model(wm, op, margin, xs[i]) == job_outcome_model(wm, op, margin, ys[i]),
{
}

} // verus!
