//! The isolated-process dispatch plan: one worker invocation per base
//! image, each with its own freshly named output location. The caller runs
//! each job in an independent worker process and collects the outputs at the
//! returned locations; planning the jobs — the batch-level precondition,
//! paths, pairing, order — is verified here.

use vstd::prelude::*;
use vstd::string::StringExecFns;
use crate::batch::BatchError;

verus! {

/// One worker invocation: exactly the three locations the worker unit
/// takes — base image, watermark, output.
pub struct WorkerJob {
    pub base_path: String,
    pub watermark_path: String,
    pub output_path: String,
}

/// An orchestrator-generated output location: `tmp/`, a 36-character token,
/// `.png`.
pub open spec fn is_output_path(p: Seq<char>) -> bool {
    p.len() == 44 && p.subrange(0, 4) == "tmp/"@ && p.subrange(40, 44) == ".png"@
}

/// Relies on `uuid::Uuid::new_v4` for a collision-resistant random
/// identifier, rendered in its hyphenated form: 36 characters. Nothing more
/// is assumed of a random value.
#[verifier::external_body]
fn fresh_token() -> (r: String)
    ensures
        r@.len() == 36,
{
    uuid::Uuid::new_v4().to_string()
}

/// Plans one isolated-process batch: one job per base image, in input
/// order, every job against the one shared watermark, each with a fresh
/// `tmp/<token>.png` output location. An empty image list is a batch-level
/// failure: the whole request is rejected before any job is planned. The
/// expected output locations are available immediately, before any worker
/// has run.
pub fn process_multiprocess(images: Vec<String>, watermark: String) -> (r: Result<
    Vec<WorkerJob>,
    BatchError,
>)
    ensures
        images@.len() == 0 ==> r matches Err(BatchError::EmptyBatch),
        images@.len() > 0 ==> (r matches Ok(jobs) && jobs@.len() == images@.len() && (forall|
            i: int,
        |
            0 <= i < jobs@.len() ==> (#[trigger] jobs@[i]).base_path@ == images@[i]@
                && jobs@[i].watermark_path@ == watermark@ && is_output_path(
                jobs@[i].output_path@,
            ))),
{
    if images.len() == 0 {
        return Err(BatchError::EmptyBatch);
    }
    let ghost images0 = images@;
    let mut rest = images;
    let mut jobs: Vec<WorkerJob> = Vec::new();
    while rest.len() > 0
        invariant
            jobs@.len() + rest@.len() == images0.len(),
            forall|j: int| 0 <= j < rest@.len() ==> rest@[j] == images0[jobs@.len() + j],
            forall|i: int|
                0 <= i < jobs@.len() ==> (#[trigger] jobs@[i]).base_path@ == images0[i]@
                    && jobs@[i].watermark_path@ == watermark@ && is_output_path(
                    jobs@[i].output_path@,
                ),
        decreases rest@.len(),
    {
        let img = rest.remove(0);
        let output_path = fresh_output_path();
        jobs.push(
            WorkerJob { base_path: img, watermark_path: watermark.clone(), output_path },
        );
    }
    Ok(jobs)
}

/// Builds a fresh output location `tmp/<token>.png` around a new random
/// token.
fn fresh_output_path() -> (r: String)
    ensures
        is_output_path(r@),
{
    let token = fresh_token();
    let mut path = String::from_str("tmp/");
    path.append(token.as_str());
    path.append(".png");
    proof {
        reveal_strlit("tmp/");
        reveal_strlit(".png");
        assert(path@.subrange(0, 4) =~= "tmp/"@);
        assert(path@.subrange(40, 44) =~= ".png"@);
    }
    path
}

} // verus!
