//! One entry point over all strategies, with explicit tunables, ordering
//! checks, and an optional data-parallel run over contiguous needle parts.
use std::sync::Arc;
use rayon::iter::{IntoParallelRefIterator, ParallelIterator};
use vstd::prelude::*;
use crate::algorithms::{linear_multiple_search, multiple_value_search, split_search_blocks, get_split_indices};
use crate::bsearch::is_sorted;
use crate::divide::divide_and_conquer_search;
use crate::model::{answers, sorted};
use crate::partition::{merge_results, partition_bounds};
use crate::laws::{lemma_joined_len, lemma_partitioned_equals_direct};

verus! {

/// The sequential strategies.
#[derive(Clone, Copy, Debug, PartialEq, Eq, Structural)]
pub enum Strategy {
    /// Each needle on its own; needles in any order.
    Baseline,
    /// One cursor over ascending needles.
    Cursor,
    /// Blocks of ascending needles, each bounded by its largest needle.
    Split,
    /// Divide and conquer over ascending needles.
    DivideAndConquer,
}

/// Tunables of a search.
#[derive(Clone, Copy, Debug, PartialEq, Eq, Structural)]
pub struct SearchConfig {
    /// Number of needle parts in a parallel run.
    pub worker_count: usize,
    /// Needles per block of the split strategy.
    pub block_size: usize,
    /// Needle span at or below which a divide-and-conquer task is resolved
    /// needle by needle.
    pub small_task_threshold: usize,
    /// Needle count below which a parallel run is done sequentially.
    pub parallel_threshold: usize,
}

/// Why a search was refused.
#[derive(Clone, Copy, Debug, PartialEq, Eq, Structural)]
pub enum SearchError {
    /// A parallel run was asked for with no workers.
    NoWorkers,
    /// The split strategy was asked for with empty blocks.
    EmptyBlocks,
    /// The haystack is not in ascending order.
    UnsortedHaystack,
    /// The strategy needs ascending needles and they are not.
    UnsortedNeedles,
}

/// The strategy's requirement on the order of the needles.
pub open spec fn needles_ok(strategy: Strategy, s: Seq<u64>) -> bool {
    strategy == Strategy::Baseline || sorted(s)
}

/// The configuration is usable for this strategy.
pub open spec fn config_ok(strategy: Strategy, config: SearchConfig) -> bool {
    strategy == Strategy::Split ==> config.block_size > 0
}

/// Runs one strategy sequentially, without checking the order of the inputs.
pub fn run_sequential(
    searched_numbers: &Vec<u64>,
    numbers: &Vec<u64>,
    strategy: Strategy,
    config: &SearchConfig,
) -> (found: Vec<Option<usize>>)
    requires
        config_ok(strategy, *config),
    ensures
        found.len() == searched_numbers.len(),
        sorted(numbers@) && needles_ok(strategy, searched_numbers@) ==> answers(
            numbers@,
            searched_numbers@,
            found@,
        ),
{
    match strategy {
        Strategy::Baseline => linear_multiple_search(searched_numbers, numbers),
        Strategy::Cursor => multiple_value_search(searched_numbers, numbers),
        Strategy::Split => {
            let blocks = get_split_indices(searched_numbers.len(), config.block_size);
            let found = split_search_blocks(searched_numbers, numbers, &blocks, 0, blocks.len());
            proof {
                assert(searched_numbers@.subrange(0, searched_numbers.len() as int)
                    =~= searched_numbers@);
            }
            found
        },
        Strategy::DivideAndConquer => divide_and_conquer_search(
            searched_numbers,
            numbers,
            config.small_task_threshold,
        ),
    }
}

/// Copy of the needles `needles[lo..hi)`.
fn copy_span(searched_numbers: &Vec<u64>, lo: usize, hi: usize) -> (r: Vec<u64>)
    requires
        lo <= hi <= searched_numbers.len(),
    ensures
        r@ == searched_numbers@.subrange(lo as int, hi as int),
{
    let mut r: Vec<u64> = Vec::with_capacity(hi - lo);
    let mut i: usize = lo;
    while i < hi
        invariant
            lo <= i <= hi <= searched_numbers.len(),
            r@ == searched_numbers@.subrange(lo as int, i as int),
        decreases hi - i,
    {
        r.push(searched_numbers[i]);
        i = i + 1;
        proof {
            assert(r@ =~= searched_numbers@.subrange(lo as int, i as int));
        }
    }
    r
}

/// Runs one strategy on the part `needles[lo..hi)`.
pub fn run_span(
    searched_numbers: &Vec<u64>,
    numbers: &Vec<u64>,
    lo: usize,
    hi: usize,
    strategy: Strategy,
    config: &SearchConfig,
) -> (found: Vec<Option<usize>>)
    requires
        lo <= hi <= searched_numbers.len(),
        config_ok(strategy, *config),
    ensures
        found.len() == hi - lo,
        sorted(numbers@) && needles_ok(strategy, searched_numbers@) ==> answers(
            numbers@,
            searched_numbers@.subrange(lo as int, hi as int),
            found@,
        ),
{
    let part = copy_span(searched_numbers, lo, hi);
    proof {
        if sorted(searched_numbers@) {
            assert(sorted(part@));
        }
    }
    run_sequential(&part, numbers, strategy, config)
}

/// Relies on rayon's `par_iter().map(..).collect()` into a `Vec`: one item
/// per part, in part order, each the result of `run_span` on that part.
#[verifier::external_body]
fn par_run_spans(
    searched_numbers: &Vec<u64>,
    numbers: &Vec<u64>,
    bounds: &Vec<(usize, usize)>,
    strategy: Strategy,
    config: &SearchConfig,
) -> (parts: Vec<Vec<Option<usize>>>)
    requires
        config_ok(strategy, *config),
        forall|p: int| 0 <= p < bounds.len() ==> #[trigger] bounds@[p].0 <= bounds@[p].1 <= searched_numbers.len(),
    ensures
        parts.len() == bounds.len(),
        forall|p: int|
            0 <= p < parts.len() ==> (#[trigger] parts@[p]).len() == bounds@[p].1 - bounds@[p].0
                && (sorted(numbers@) && needles_ok(strategy, searched_numbers@) ==> answers(
                numbers@,
                searched_numbers@.subrange(bounds@[p].0 as int, bounds@[p].1 as int),
                parts@[p]@,
            )),
{
    bounds.par_iter().map(|b| run_span(searched_numbers, numbers, b.0, b.1, strategy, config)).collect()
}

/// Runs one strategy on `worker_count` contiguous parts of the needles at
/// once and joins the parts' answers in order.
pub fn run_parallel(
    searched_numbers: &Vec<u64>,
    numbers: &Vec<u64>,
    strategy: Strategy,
    config: &SearchConfig,
) -> (found: Vec<Option<usize>>)
    requires
        config_ok(strategy, *config),
        config.worker_count > 0,
    ensures
        found.len() == searched_numbers.len(),
        sorted(numbers@) && needles_ok(strategy, searched_numbers@) ==> answers(
            numbers@,
            searched_numbers@,
            found@,
        ),
{
    let bounds = partition_bounds(searched_numbers.len(), config.worker_count);
    proof {
        assert forall|p: int| 0 <= p < bounds.len() implies #[trigger] bounds@[p].0 <= bounds@[p].1
            <= searched_numbers.len() by {
            crate::algorithms::lemma_chained_within(bounds@, 0, searched_numbers.len() as int, p);
        }
    }
    let parts = par_run_spans(searched_numbers, numbers, &bounds, strategy, config);
    let found = merge_results(&parts);
    let direct = run_sequential(searched_numbers, numbers, strategy, config);
    proof {
        lemma_joined_len(bounds@, parts@, searched_numbers.len() as int, parts.len() as int);
        assert(parts@.subrange(0, parts.len() as int) =~= parts@);
        if parts.len() == 0 {
            assert(searched_numbers.len() == 0);
        }
        if sorted(numbers@) && needles_ok(strategy, searched_numbers@) {
            lemma_partitioned_equals_direct(numbers@, searched_numbers@, bounds@, parts@, direct@);
        }
    }
    found
}

/// Checks the configuration and the order of the inputs, then runs the
/// strategy, in parallel when asked and the needles reach
/// `parallel_threshold`.
pub fn search(
    searched_numbers: &Vec<u64>,
    numbers: &Vec<u64>,
    strategy: Strategy,
    parallel: bool,
    config: &SearchConfig,
) -> (r: Result<Vec<Option<usize>>, SearchError>)
    ensures
        r == Err::<Vec<Option<usize>>, SearchError>(SearchError::NoWorkers) <==> parallel
            && config.worker_count == 0,
        r == Err::<Vec<Option<usize>>, SearchError>(SearchError::EmptyBlocks) <==> !(parallel
            && config.worker_count == 0) && !config_ok(strategy, *config),
        r == Err::<Vec<Option<usize>>, SearchError>(SearchError::UnsortedHaystack) <==> !(parallel
            && config.worker_count == 0) && config_ok(strategy, *config) && !sorted(numbers@),
        r == Err::<Vec<Option<usize>>, SearchError>(SearchError::UnsortedNeedles) <==> !(parallel
            && config.worker_count == 0) && config_ok(strategy, *config) && sorted(numbers@)
            && !needles_ok(strategy, searched_numbers@),
        r matches Ok(found) ==> answers(numbers@, searched_numbers@, found@),
{
    if parallel && config.worker_count == 0 {
        return Err(SearchError::NoWorkers);
    }
    if strategy == Strategy::Split && config.block_size == 0 {
        return Err(SearchError::EmptyBlocks);
    }
    if !is_sorted(numbers) {
        return Err(SearchError::UnsortedHaystack);
    }
    if strategy != Strategy::Baseline && !is_sorted(searched_numbers) {
        return Err(SearchError::UnsortedNeedles);
    }
    if parallel && searched_numbers.len() >= config.parallel_threshold {
        Ok(run_parallel(searched_numbers, numbers, strategy, config))
    } else {
        Ok(run_sequential(searched_numbers, numbers, strategy, config))
    }
}

/// Baseline search with every needle handed to rayon's pool as a part of
/// its own.
pub fn parallel_rayon_linear_multiple_search(
    searched_numbers: Arc<Vec<u64>>,
    numbers: Arc<Vec<u64>>,
) -> (found: Vec<Option<usize>>)
    ensures
        found.len() == searched_numbers@.len(),
        sorted(numbers@) ==> answers(numbers@, searched_numbers@, found@),
{
    let searched_numbers: &Vec<u64> = &*searched_numbers;
    let numbers: &Vec<u64> = &*numbers;
    if searched_numbers.len() == 0 {
        return Vec::new();
    }
    let config = SearchConfig {
        worker_count: searched_numbers.len(),
        block_size: 1,
        small_task_threshold: 0,
        parallel_threshold: 0,
    };
    run_parallel(searched_numbers, numbers, Strategy::Baseline, &config)
}

} // verus!
