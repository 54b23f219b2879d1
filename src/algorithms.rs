//! Sequential batch-search strategies.
use vstd::prelude::*;
use crate::bsearch::{lookup, lower_bound};
use crate::model::{answers, bracketed, lemma_answers_append, resolves, sorted};

verus! {

/// Baseline: each needle is looked up on its own in the whole haystack.
/// Needles may come in any order.
pub fn linear_multiple_search(searched_numbers: &Vec<u64>, numbers: &Vec<u64>) -> (found: Vec<
    Option<usize>,
>)
    ensures
        found.len() == searched_numbers.len(),
        forall|i: int|
            0 <= i < found.len() ==> (#[trigger] found@[i] matches Some(k) ==> k < numbers.len()
                && numbers@[k as int] == searched_numbers@[i]),
        sorted(numbers@) ==> answers(numbers@, searched_numbers@, found@),
{
    let mut found: Vec<Option<usize>> = Vec::with_capacity(searched_numbers.len());
    let mut i: usize = 0;
    while i < searched_numbers.len()
        invariant
            i <= searched_numbers.len(),
            found.len() == i,
            forall|t: int|
                0 <= t < i ==> (#[trigger] found@[t] matches Some(k) ==> k < numbers.len()
                    && numbers@[k as int] == searched_numbers@[t]),
            sorted(numbers@) ==> forall|t: int|
                0 <= t < i ==> #[trigger] resolves(numbers@, searched_numbers@[t], found@[t]),
        decreases searched_numbers.len() - i,
    {
        let r = lookup(numbers, searched_numbers[i]);
        found.push(r);
        i = i + 1;
    }
    found
}

/// Elements before `lo` are below every needle from position `from` on.
pub open spec fn below_rest(h: Seq<u64>, s: Seq<u64>, lo: int, from: int, to: int) -> bool {
    forall|j: int, t: int| 0 <= j < lo && from <= t < to ==> #[trigger] h[j] < #[trigger] s[t]
}

/// Cursor search over ascending needles: each lookup starts where the
/// previous needle's insertion point lies, so the window only shrinks.
pub fn multiple_value_search(searched_numbers: &Vec<u64>, numbers: &Vec<u64>) -> (found: Vec<
    Option<usize>,
>)
    ensures
        found.len() == searched_numbers.len(),
        sorted(numbers@) && sorted(searched_numbers@) ==> answers(
            numbers@,
            searched_numbers@,
            found@,
        ),
{
    let ghost ok = sorted(numbers@) && sorted(searched_numbers@);
    let ghost h = numbers@;
    let ghost s = searched_numbers@;
    let n = numbers.len();
    let mut found: Vec<Option<usize>> = Vec::with_capacity(searched_numbers.len());
    let mut last_found: usize = 0;
    let mut i: usize = 0;
    while i < searched_numbers.len()
        invariant
            h == numbers@,
            s == searched_numbers@,
            ok == (sorted(h) && sorted(s)),
            n == h.len(),
            i <= s.len(),
            last_found <= n,
            found.len() == i,
            ok ==> below_rest(h, s, last_found as int, i as int, s.len() as int),
            ok ==> forall|t: int| 0 <= t < i ==> #[trigger] resolves(h, s[t], found@[t]),
        decreases s.len() - i,
    {
        let x = searched_numbers[i];
        proof {
            if ok {
                assert(forall|j: int| 0 <= j < last_found ==> h[j] < s[i as int]);
            }
        }
        let k = lower_bound(numbers, last_found, n, x);
        let r = if k < n && numbers[k] == x {
            Some(k)
        } else {
            None
        };
        proof {
            if ok {
                assert(bracketed(h, last_found as int, n as int, x));
                assert(resolves(h, x, r)) by {
                    if r is None && h.contains(x) {
                        let w = choose|w: int| last_found <= w < n && h[w] == x;
                        assert(h[w] >= h[k as int]);
                    }
                }
                assert forall|j: int, t: int|
                    0 <= j < k && i + 1 <= t < s.len() implies #[trigger] h[j] < #[trigger] s[t] by {
                    if j < last_found {
                    } else {
                        assert(s[i as int] <= s[t]);
                    }
                }
            }
        }
        found.push(r);
        last_found = k;
        i = i + 1;
    }
    found
}

/// Needles per block in the split search.
pub const SPLIT_INDEX_SKIP: usize = 100;

/// The half-open blocks `b` follow one another without gap from `from` to `to`.
pub open spec fn chained(b: Seq<(usize, usize)>, from: int, to: int) -> bool {
    &&& b.len() == 0 ==> from == to
    &&& b.len() > 0 ==> b[0].0 == from && b.last().1 == to
    &&& forall|p: int| 0 <= p < b.len() ==> #[trigger] b[p].0 <= b[p].1
    &&& forall|p: int| 0 <= p < b.len() - 1 ==> #[trigger] b[p].1 == b[p + 1].0
}

/// Each block of a chain lies between the chain's two ends.
pub proof fn lemma_chained_within(b: Seq<(usize, usize)>, from: int, to: int, q: int)
    requires
        chained(b, from, to),
        0 <= q < b.len(),
    ensures
        from <= b[q].0 <= b[q].1 <= to,
    decreases b.len() - q,
{
    if q + 1 < b.len() {
        lemma_chained_within(b, from, to, q + 1);
        assert(b[q].1 == b[q + 1].0);
    }
    lemma_chained_from(b, from, to, q);
}

proof fn lemma_chained_from(b: Seq<(usize, usize)>, from: int, to: int, q: int)
    requires
        chained(b, from, to),
        0 <= q < b.len(),
    ensures
        from <= b[q].0,
    decreases q,
{
    if q > 0 {
        lemma_chained_from(b, from, to, q - 1);
        assert(b[q - 1].1 == b[q].0);
    }
}

/// Where block `p` starts; `to` past the last block.
pub open spec fn block_start(b: Seq<(usize, usize)>, p: int, to: int) -> int {
    if p < b.len() {
        b[p].0 as int
    } else {
        to
    }
}

/// Cuts `0..length` into half-open blocks `(start, end)` of `split_index_skip`
/// needles each, the last one possibly shorter; no block is empty.
pub fn get_split_indices(length: usize, split_index_skip: usize) -> (r: Vec<(usize, usize)>)
    requires
        split_index_skip > 0,
    ensures
        chained(r@, 0, length as int),
        forall|p: int|
            0 <= p < r.len() ==> #[trigger] r@[p].0 < r@[p].1 && r@[p].1 - r@[p].0
                <= split_index_skip,
        forall|p: int| 0 <= p < r.len() - 1 ==> #[trigger] r@[p].1 - r@[p].0 == split_index_skip,
{
    let mut r: Vec<(usize, usize)> = Vec::new();
    let mut start: usize = 0;
    while start < length
        invariant
            split_index_skip > 0,
            start <= length,
            chained(r@, 0, start as int),
            forall|p: int|
                0 <= p < r.len() ==> #[trigger] r@[p].0 < r@[p].1 && r@[p].1 - r@[p].0
                    <= split_index_skip,
            forall|p: int| 0 <= p < r.len() - 1 ==> #[trigger] r@[p].1 - r@[p].0 == split_index_skip,
            r.len() > 0 ==> r@.last().1 - r@.last().0 == split_index_skip || start == length,
        decreases length - start,
    {
        let end = if length - start > split_index_skip {
            start + split_index_skip
        } else {
            length
        };
        let ghost prev = r@;
        r.push((start, end));
        proof {
            assert(r@ =~= prev.push((start, end)));
            assert(start < end);
            assert forall|p: int| 0 <= p < r.len() implies #[trigger] r@[p].0 < r@[p].1 && r@[p].1
                - r@[p].0 <= split_index_skip by {
                if p < prev.len() {
                    assert(r@[p] == prev[p]);
                }
            }
        }
        start = end;
    }
    r
}

/// Upper cut of a block: with `k` the lower bound of the block's largest
/// needle `last`, every smaller needle that occurs has an occurrence below
/// the cut.
proof fn lemma_block_cut(h: Seq<u64>, k: int, last: u64, hit: bool, y: u64)
    requires
        sorted(h),
        0 <= k <= h.len(),
        forall|i: int| 0 <= i < k ==> h[i] < last,
        forall|i: int| k <= i < h.len() ==> h[i] >= last,
        hit == (k < h.len() && h[k] == last),
        y <= last,
    ensures
        h.contains(y) ==> exists|i: int| 0 <= i < (if hit { k + 1 } else { k }) && h[i] == y,
{
    if h.contains(y) {
        let w = choose|w: int| 0 <= w < h.len() && h[w] == y;
        if !(w < (if hit { k + 1 } else { k })) {
            assert(h[w] >= h[k]);
        }
    }
}

/// Resolves the ascending block `needles[lo..hi)`: one lookup of its largest
/// needle bounds the window, then a cursor walks the block inside it. The
/// answers are appended to `found`.
pub(crate) fn search_block(
    searched_numbers: &Vec<u64>,
    numbers: &Vec<u64>,
    lo: usize,
    hi: usize,
    found: &mut Vec<Option<usize>>,
)
    requires
        lo < hi <= searched_numbers.len(),
    ensures
        final(found)@.len() == old(found)@.len() + (hi - lo),
        final(found)@.subrange(0, old(found)@.len() as int) == old(found)@,
        sorted(numbers@) && sorted(searched_numbers@) ==> answers(
            numbers@,
            searched_numbers@.subrange(lo as int, hi as int),
            final(found)@.subrange(old(found)@.len() as int, final(found)@.len() as int),
        ),
{
    let ghost h = numbers@;
    let ghost s = searched_numbers@;
    let ghost ok = sorted(h) && sorted(s);
    let ghost base = found@;
    let n = numbers.len();
    let last = searched_numbers[hi - 1];
    let k = lower_bound(numbers, 0, n, last);
    let high_found = if k < n && numbers[k] == last {
        k + 1
    } else {
        k
    };
    proof {
        if ok {
            assert forall|t: int| lo <= t < hi implies (h.contains(#[trigger] s[t]) ==> exists|i: int|
                0 <= i < high_found && h[i] == s[t]) by {
                assert(s[t] <= last);
                lemma_block_cut(h, k as int, last, k < n && h[k as int] == last, s[t]);
            }
        }
    }
    let mut low_found: usize = 0;
    let mut i: usize = lo;
    while i < hi
        invariant
            h == numbers@,
            s == searched_numbers@,
            ok == (sorted(h) && sorted(s)),
            n == h.len(),
            lo <= i <= hi <= s.len(),
            low_found <= high_found <= n,
            found@.len() == base.len() + (i - lo),
            found@.subrange(0, base.len() as int) == base,
            ok ==> below_rest(h, s, low_found as int, i as int, hi as int),
            ok ==> forall|t: int| lo <= t < hi ==> (h.contains(#[trigger] s[t]) ==> exists|j: int|
                0 <= j < high_found && h[j] == s[t]),
            ok ==> forall|t: int| lo <= t < i ==> #[trigger] resolves(h, s[t], found@[base.len() + t - lo]),
        decreases hi - i,
    {
        let x = searched_numbers[i];
        let k2 = lower_bound(numbers, low_found, high_found, x);
        let r = if k2 < high_found && numbers[k2] == x {
            Some(k2)
        } else {
            None
        };
        proof {
            if ok {
                assert(forall|j: int| 0 <= j < low_found ==> h[j] < s[i as int]);
                assert(bracketed(h, low_found as int, high_found as int, x)) by {
                    if h.contains(x) {
                        let w = choose|w: int| 0 <= w < high_found && h[w] == s[i as int];
                        if w < low_found {
                            assert(h[w] < s[i as int]);
                        }
                    }
                }
                assert(resolves(h, x, r)) by {
                    if r is None && h.contains(x) {
                        let w = choose|w: int| low_found <= w < high_found && h[w] == x;
                        assert(h[w] >= h[k2 as int]);
                    }
                }
                assert forall|j: int, t: int|
                    0 <= j < k2 && i + 1 <= t < hi implies #[trigger] h[j] < #[trigger] s[t] by {
                    if j < low_found {
                    } else {
                        assert(s[i as int] <= s[t]);
                    }
                }
            }
        }
        found.push(r);
        proof {
            assert(found@.subrange(0, base.len() as int) =~= base);
        }
        low_found = k2;
        i = i + 1;
    }
    proof {
        if ok {
            let sub = s.subrange(lo as int, hi as int);
            let out = found@.subrange(base.len() as int, found@.len() as int);
            assert forall|t: int| 0 <= t < sub.len() implies #[trigger] resolves(h, sub[t], out[t]) by {
                assert(sub[t] == s[lo + t]);
                assert(out[t] == found@[base.len() + (lo + t) - lo]);
                assert(resolves(h, s[lo + t], found@[base.len() + (lo + t) - lo]));
            }
        }
    }
}

/// Split search over the run of blocks `blocks[first..last)`, which cut the
/// ascending needles from `block_start(first)` to `block_start(last)`.
pub fn split_search_blocks(
    searched_numbers: &Vec<u64>,
    numbers: &Vec<u64>,
    blocks: &Vec<(usize, usize)>,
    first: usize,
    last: usize,
) -> (found: Vec<Option<usize>>)
    requires
        chained(blocks@, 0, searched_numbers.len() as int),
        first <= last <= blocks.len(),
    ensures
        found.len() == block_start(blocks@, last as int, searched_numbers.len() as int)
            - block_start(blocks@, first as int, searched_numbers.len() as int),
        sorted(numbers@) && sorted(searched_numbers@) ==> answers(
            numbers@,
            searched_numbers@.subrange(
                block_start(blocks@, first as int, searched_numbers.len() as int),
                block_start(blocks@, last as int, searched_numbers.len() as int),
            ),
            found@,
        ),
{
    let ghost h = numbers@;
    let ghost s = searched_numbers@;
    let ghost m = s.len() as int;
    let ghost ok = sorted(h) && sorted(s);
    let ghost b = blocks@;
    let ghost from = block_start(b, first as int, m);
    let mut found: Vec<Option<usize>> = Vec::new();
    let mut p: usize = first;
    proof {
        if first < b.len() {
            lemma_chained_within(b, 0, m, first as int);
        }
        assert(s.subrange(from, from) =~= Seq::<u64>::empty());
        assert(found@ =~= Seq::<Option<usize>>::empty());
    }
    while p < last
        invariant
            h == numbers@,
            s == searched_numbers@,
            b == blocks@,
            m == s.len(),
            ok == (sorted(h) && sorted(s)),
            chained(b, 0, m),
            first <= p <= last <= b.len(),
            from == block_start(b, first as int, m),
            from <= block_start(b, p as int, m) <= m,
            found.len() == block_start(b, p as int, m) - from,
            ok ==> answers(h, s.subrange(from, block_start(b, p as int, m)), found@),
        decreases last - p,
    {
        let (lo, hi) = blocks[p];
        proof {
            assert(b[p as int].0 <= b[p as int].1);
            if p + 1 < b.len() {
                assert(b[p as int].1 == b[p + 1].0);
            }
            assert(block_start(b, p + 1, m) == hi);
            lemma_chained_within(b, 0, m, p as int);
        }
        let ghost before = found@;
        if lo < hi {
            search_block(searched_numbers, numbers, lo, hi, &mut found);
            proof {
                if ok {
                    assert(found@ =~= before + found@.subrange(before.len() as int, found@.len() as int));
                    lemma_answers_append(h, s, from, lo as int, hi as int, before,
                        found@.subrange(before.len() as int, found@.len() as int));
                }
            }
        } else {
            proof {
                assert(s.subrange(from, hi as int) =~= s.subrange(from, lo as int));
            }
        }
        p = p + 1;
    }
    found
}

/// Split search over ascending needles with blocks of `SPLIT_INDEX_SKIP`.
pub fn split_search(searched_numbers: &Vec<u64>, numbers: &Vec<u64>) -> (found: Vec<Option<usize>>)
    ensures
        found.len() == searched_numbers.len(),
        sorted(numbers@) && sorted(searched_numbers@) ==> answers(
            numbers@,
            searched_numbers@,
            found@,
        ),
{
    let blocks = get_split_indices(searched_numbers.len(), SPLIT_INDEX_SKIP);
    let found = split_search_blocks(searched_numbers, numbers, &blocks, 0, blocks.len());
    proof {
        assert(searched_numbers@.subrange(0, searched_numbers.len() as int) =~= searched_numbers@);
    }
    found
}

} // verus!
