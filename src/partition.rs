//! Pieces of the parallel partition wrapper: cutting the needles into
//! contiguous parts, resolving one part, and joining the parts' answers.
use vstd::prelude::*;
use crate::algorithms::{chained, lemma_chained_within, search_block};
use crate::bsearch::lookup;
use crate::model::{answers, lemma_answers_append, resolves, sorted};

verus! {

/// The answers of the parts, joined in part order.
pub open spec fn joined(parts: Seq<Vec<Option<usize>>>) -> Seq<Option<usize>>
    decreases parts.len(),
{
    if parts.len() == 0 {
        Seq::empty()
    } else {
        joined(parts.drop_last()) + parts.last()@
    }
}

/// Cuts `0..length` into `workers` contiguous half-open parts whose sizes
/// differ by at most one, larger parts first.
pub fn partition_bounds(length: usize, workers: usize) -> (r: Vec<(usize, usize)>)
    requires
        workers > 0,
    ensures
        r.len() == workers,
        chained(r@, 0, length as int),
        forall|p: int|
            0 <= p < r.len() ==> #[trigger] r@[p].1 - r@[p].0 == length / workers + (if p
                < length % workers {
                1int
            } else {
                0int
            }),
{
    let base = length / workers;
    let rem = length % workers;
    let mut r: Vec<(usize, usize)> = Vec::with_capacity(workers);
    let mut low: usize = 0;
    let mut i: usize = 0;
    proof {
        assert(length == workers * base + rem) by (nonlinear_arith)
            requires
                base == length / workers,
                rem == length % workers,
                workers > 0,
        ;
    }
    while i < workers
        invariant
            workers > 0,
            base == length / workers,
            rem == length % workers,
            rem < workers,
            length == workers * base + rem,
            i <= workers,
            r.len() == i,
            low == i * base + (if i < rem {
                i as int
            } else {
                rem as int
            }),
            chained(r@, 0, low as int),
            forall|p: int|
                0 <= p < r.len() ==> #[trigger] r@[p].1 - r@[p].0 == base + (if p < rem {
                    1int
                } else {
                    0int
                }),
        decreases workers - i,
    {
        proof {
            assert(i * base + base <= workers * base) by (nonlinear_arith)
                requires
                    i < workers,
            ;
            assert((i + 1) * base == i * base + base) by (nonlinear_arith);
        }
        let size: usize = if i < rem {
            base + 1
        } else {
            base
        };
        let high = low + size;
        let ghost prev = r@;
        r.push((low, high));
        proof {
            assert(r@ =~= prev.push((low, high)));
            assert forall|p: int| 0 <= p < r.len() implies #[trigger] r@[p].1 - r@[p].0 == base + (
            if p < rem {
                1int
            } else {
                0int
            }) by {
                if p < prev.len() {
                    assert(r@[p] == prev[p]);
                }
            }
        }
        low = high;
        i = i + 1;
    }
    r
}

/// Baseline search over the part `needles[lo..hi)`.
pub fn linear_span_search(searched_numbers: &Vec<u64>, numbers: &Vec<u64>, lo: usize, hi: usize) -> (found: Vec<
    Option<usize>,
>)
    requires
        lo <= hi <= searched_numbers.len(),
    ensures
        found.len() == hi - lo,
        sorted(numbers@) ==> answers(numbers@, searched_numbers@.subrange(lo as int, hi as int), found@),
{
    let ghost s = searched_numbers@.subrange(lo as int, hi as int);
    let mut found: Vec<Option<usize>> = Vec::with_capacity(hi - lo);
    let mut i: usize = lo;
    while i < hi
        invariant
            lo <= i <= hi <= searched_numbers.len(),
            s == searched_numbers@.subrange(lo as int, hi as int),
            found.len() == i - lo,
            sorted(numbers@) ==> forall|t: int|
                0 <= t < i - lo ==> #[trigger] resolves(numbers@, s[t], found@[t]),
        decreases hi - i,
    {
        let r = lookup(numbers, searched_numbers[i]);
        proof {
            assert(s[i - lo] == searched_numbers@[i as int]);
        }
        found.push(r);
        i = i + 1;
    }
    found
}

/// Split search over the part `needles[lo..hi)` of ascending needles, in
/// blocks of `split_index_skip` counted from `lo`.
pub fn split_span_search(
    searched_numbers: &Vec<u64>,
    numbers: &Vec<u64>,
    lo: usize,
    hi: usize,
    split_index_skip: usize,
) -> (found: Vec<Option<usize>>)
    requires
        lo <= hi <= searched_numbers.len(),
        split_index_skip > 0,
    ensures
        found.len() == hi - lo,
        sorted(numbers@) && sorted(searched_numbers@) ==> answers(
            numbers@,
            searched_numbers@.subrange(lo as int, hi as int),
            found@,
        ),
{
    let ghost h = numbers@;
    let ghost s = searched_numbers@;
    let ghost ok = sorted(h) && sorted(s);
    let mut found: Vec<Option<usize>> = Vec::new();
    let mut start: usize = lo;
    proof {
        assert(s.subrange(lo as int, lo as int) =~= Seq::<u64>::empty());
        assert(found@ =~= Seq::<Option<usize>>::empty());
    }
    while start < hi
        invariant
            h == numbers@,
            s == searched_numbers@,
            ok == (sorted(h) && sorted(s)),
            split_index_skip > 0,
            lo <= start <= hi <= s.len(),
            found.len() == start - lo,
            ok ==> answers(h, s.subrange(lo as int, start as int), found@),
        decreases hi - start,
    {
        let end = if hi - start > split_index_skip {
            start + split_index_skip
        } else {
            hi
        };
        let ghost before = found@;
        search_block(searched_numbers, numbers, start, end, &mut found);
        proof {
            if ok {
                assert(found@ =~= before + found@.subrange(before.len() as int, found@.len() as int));
                lemma_answers_append(
                    h,
                    s,
                    lo as int,
                    start as int,
                    end as int,
                    before,
                    found@.subrange(before.len() as int, found@.len() as int),
                );
            }
        }
        start = end;
    }
    found
}

/// Joins the answers of the parts in part order.
pub fn merge_results(parts: &Vec<Vec<Option<usize>>>) -> (found: Vec<Option<usize>>)
    ensures
        found@ == joined(parts@),
{
    let mut found: Vec<Option<usize>> = Vec::new();
    let mut p: usize = 0;
    while p < parts.len()
        invariant
            p <= parts.len(),
            found@ == joined(parts@.subrange(0, p as int)),
        decreases parts.len() - p,
    {
        let ghost before = found@;
        let part = &parts[p];
        let mut q: usize = 0;
        while q < part.len()
            invariant
                q <= part.len(),
                found@ == before + part@.subrange(0, q as int),
            decreases part.len() - q,
        {
            found.push(part[q]);
            q = q + 1;
            proof {
                assert(found@ =~= before + part@.subrange(0, q as int));
            }
        }
        proof {
            assert(part@.subrange(0, part.len() as int) =~= part@);
            assert(parts@.subrange(0, p + 1).drop_last() =~= parts@.subrange(0, p as int));
        }
        p = p + 1;
    }
    proof {
        assert(parts@.subrange(0, parts.len() as int) =~= parts@);
    }
    found
}

/// Start of the part that begins at block `a` of `block` needles, out of
/// `length` needles.
pub open spec fn block_offset(a: int, block: int, length: int) -> int {
    if a <= length / block {
        a * block
    } else {
        length
    }
}

fn block_offset_exec(a: usize, block: usize, length: usize) -> (r: usize)
    requires
        block > 0,
    ensures
        r == block_offset(a as int, block as int, length as int),
        r <= length,
{
    if a <= length / block {
        proof {
            assert(a * block <= (length / block) * block) by (nonlinear_arith)
                requires
                    a <= length / block,
                    block > 0,
            ;
            assert((length / block) * block <= length) by (nonlinear_arith)
                requires
                    block > 0,
            ;
        }
        a * block
    } else {
        length
    }
}

/// Cuts `0..length` into `workers` contiguous parts made of whole blocks of
/// `block` needles (counted from 0), the block counts differing by at most
/// one: every part but an empty tail one starts on a block boundary.
pub fn block_aligned_bounds(length: usize, block: usize, workers: usize) -> (r: Vec<(usize, usize)>)
    requires
        block > 0,
        workers > 0,
    ensures
        r.len() == workers,
        chained(r@, 0, length as int),
        forall|p: int| 0 <= p < r.len() ==> (#[trigger] r@[p].0 as int) % (block as int) == 0 || r@[p].0 == length,
{
    let whole = length / block;
    let n_blocks = if length % block == 0 {
        whole
    } else {
        proof {
            assert(whole < usize::MAX) by (nonlinear_arith)
                requires
                    whole == length / block,
                    length % block != 0,
                    block > 0,
                    length <= usize::MAX,
            ;
        }
        whole + 1
    };
    let runs = partition_bounds(n_blocks, workers);
    let mut r: Vec<(usize, usize)> = Vec::with_capacity(workers);
    let mut p: usize = 0;
    proof {
        if length % block == 0 {
            assert(n_blocks * block == length) by (nonlinear_arith)
                requires
                    n_blocks == length / block,
                    length % block == 0,
                    block > 0,
            ;
        }
        assert(block_offset(n_blocks as int, block as int, length as int) == length);
    }
    while p < workers
        invariant
            block > 0,
            runs.len() == workers,
            chained(runs@, 0, n_blocks as int),
            block_offset(n_blocks as int, block as int, length as int) == length,
            p <= workers,
            r.len() == p,
            forall|q: int|
                0 <= q < p ==> #[trigger] r@[q] == (
                block_offset(runs@[q].0 as int, block as int, length as int) as usize,
                block_offset(runs@[q].1 as int, block as int, length as int) as usize,
            ),
            forall|q: int|
                0 <= q < p ==> block_offset(runs@[q].0 as int, block as int, length as int) <= length
                    && block_offset(runs@[q].1 as int, block as int, length as int) <= length,
        decreases workers - p,
    {
        let (a, b) = runs[p];
        let lo = block_offset_exec(a, block, length);
        let hi = block_offset_exec(b, block, length);
        r.push((lo, hi));
        p = p + 1;
    }
    proof {
        assert forall|q: int| 0 <= q < r.len() implies #[trigger] r@[q].0 <= r@[q].1 by {
            lemma_chained_within(runs@, 0, n_blocks as int, q);
            let (a, b) = (runs@[q].0 as int, runs@[q].1 as int);
            if b <= length / block {
                assert(a * block <= b * block) by (nonlinear_arith)
                    requires
                        a <= b,
                        block > 0,
                ;
            }
        }
        assert forall|q: int| 0 <= q < r.len() - 1 implies #[trigger] r@[q].1 == r@[q + 1].0 by {
            assert(runs@[q].1 == runs@[q + 1].0);
        }
        assert forall|q: int| 0 <= q < r.len() implies (#[trigger] r@[q].0 as int) % (block as int) == 0
            || r@[q].0 == length by {
            let a = runs@[q].0 as int;
            if a <= length / block {
                assert((a * block) % (block as int) == 0) by (nonlinear_arith)
                    requires
                        block > 0,
                ;
            }
        }
    }
    r
}

} // verus!
