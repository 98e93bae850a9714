use vstd::prelude::*;

pub mod codec;
pub mod draw;
pub mod model;
pub mod topk;

use crate::model::FrequencyModel;
use crate::topk::TopKEntry;
use crate::topk::select_top_k;
use crate::topk::select_top_k_parallel;
use crate::topk::topk_sel;
use crate::topk::vs;

verus! {

/// Number of entries kept in a top-K list.
pub const TOP_COMBINATIONS_COUNT: usize = 5;

/// How many iterations pass between two checkpoint saves.
pub const SAVE_FREQUENCY: u64 = 10_000_000;

/// Whether the driver should persist the current top-K list before
/// recomputing it on this iteration.
pub fn should_save(iteration_count: u64) -> (r: bool)
    ensures
        r == (iteration_count % SAVE_FREQUENCY == 0),
{
    iteration_count % SAVE_FREQUENCY == 0
}

/// The iteration counter seeded after a resume: a coarse estimate of
/// prior progress, one save interval per recovered top-K entry.
pub fn resume_iteration_count(recovered: usize) -> (r: u64)
    requires
        recovered <= TOP_COMBINATIONS_COUNT,
    ensures
        r == recovered * SAVE_FREQUENCY,
{
    (recovered as u64) * SAVE_FREQUENCY
}

/// The sequential selector over a model snapshot: the
/// `TOP_COMBINATIONS_COUNT` highest-count draws.
pub fn find_top_combinations(model: &FrequencyModel) -> (r: Vec<TopKEntry>)
    requires
        model.wf(),
    ensures
        topk_sel(model.entries_spec(), vs(r@), TOP_COMBINATIONS_COUNT as int),
{
    let entries = model.entries();
    select_top_k(&entries, TOP_COMBINATIONS_COUNT)
}

/// The parallel selector over a model snapshot: shards processed
/// independently and merged, with the same selection guarantee as the
/// sequential one.
pub fn find_top_combinations_parallel(model: &FrequencyModel) -> (r: Vec<TopKEntry>)
    requires
        model.wf(),
    ensures
        topk_sel(model.entries_spec(), vs(r@), TOP_COMBINATIONS_COUNT as int),
{
    let entries = model.entries();
    select_top_k_parallel(&entries, TOP_COMBINATIONS_COUNT)
}

} // verus!
