//! Divide-and-conquer batch search driven by an explicit stack of tasks.
use vstd::prelude::*;
use crate::algorithms::linear_multiple_search;
use crate::bsearch::{lookup_in, lower_bound};
use crate::model::{answers, bracketed, resolves, sorted};

verus! {

/// Resolve `needles[low_searched..high_searched)` against `haystack[low..high)`.
#[derive(Clone, Copy, Debug)]
pub struct SearchTask {
    pub low: usize,
    pub high: usize,
    pub low_searched: usize,
    pub high_searched: usize,
}

/// Below this many needles the task machinery does not pay off.
pub const COERCION_LENGTH: usize = 200;

/// A task over at most this many needles is resolved needle by needle.
pub const LEAF_SPAN: usize = 1000;

/// Number of needles still owned by the tasks of a stack.
pub open spec fn pending(st: Seq<SearchTask>) -> int
    decreases st.len(),
{
    if st.len() == 0 {
        0
    } else {
        pending(st.drop_last()) + (st.last().high_searched - st.last().low_searched)
    }
}

/// A task's bounds are in range, its needle span is non-empty, and (for
/// sorted inputs) its window brackets each of its needles.
pub open spec fn task_ok(h: Seq<u64>, s: Seq<u64>, ok: bool, t: SearchTask) -> bool {
    &&& t.low <= t.high <= h.len()
    &&& t.low_searched < t.high_searched <= s.len()
    &&& ok ==> forall|j: int|
        t.low_searched <= j < t.high_searched ==> #[trigger] bracketed(
            h,
            t.low as int,
            t.high as int,
            s[j],
        )
}

/// Needle position `j` is still owned by task `t`.
pub open spec fn covers(t: SearchTask, j: int) -> bool {
    t.low_searched <= j < t.high_searched
}

proof fn lemma_pending_nonneg(st: Seq<SearchTask>)
    requires
        forall|p: int| 0 <= p < st.len() ==> st[p].low_searched <= st[p].high_searched,
    ensures
        pending(st) >= 0,
    decreases st.len(),
{
    if st.len() > 0 {
        lemma_pending_nonneg(st.drop_last());
    }
}

proof fn lemma_pending_push(st: Seq<SearchTask>, t: SearchTask)
    ensures
        pending(st.push(t)) == pending(st) + (t.high_searched - t.low_searched),
{
    assert(st.push(t).drop_last() =~= st);
}

/// Splitting at needle `x` whose lower bound in the window is `k`: needles
/// not above `x` stay bracketed on the left part, needles not below `x` on
/// the right part.
proof fn lemma_split(h: Seq<u64>, lo: int, hi: int, k: int, x: u64, found: bool, y: u64)
    requires
        sorted(h),
        0 <= lo <= k <= hi <= h.len(),
        forall|i: int| lo <= i < k ==> h[i] < x,
        forall|i: int| k <= i < hi ==> h[i] >= x,
        found == (k < hi && h[k] == x),
        bracketed(h, lo, hi, y),
    ensures
        y <= x ==> bracketed(h, lo, if found { k + 1 } else { k }, y),
        x <= y ==> bracketed(h, k, hi, y),
{
    if h.contains(y) {
        let w = choose|w: int| lo <= w < hi && h[w] == y;
        if y <= x && !(w < (if found { k + 1 } else { k })) {
            assert(h[w] >= h[k]);
        }
    }
}

/// Divide and conquer over ascending needles, with tasks of at most
/// `leaf_span` needles resolved one needle at a time.
///
/// A task bisects its needle span at `mid`, finds the lower bound `k` of
/// `needles[mid]` in its window, and hands `haystack[low..k]` (including `k`
/// on a match) to the needles before `mid` and `haystack[k..high)` to those
/// after it; both sides keep index `k` when it matches, so equal needles on
/// either side still find it.
pub fn divide_and_conquer_search(
    searched_numbers: &Vec<u64>,
    numbers: &Vec<u64>,
    leaf_span: usize,
) -> (found: Vec<Option<usize>>)
    ensures
        found.len() == searched_numbers.len(),
        sorted(numbers@) && sorted(searched_numbers@) ==> answers(
            numbers@,
            searched_numbers@,
            found@,
        ),
{
    let ghost h = numbers@;
    let ghost s = searched_numbers@;
    let ghost ok = sorted(h) && sorted(s);
    let m = searched_numbers.len();
    let mut found: Vec<Option<usize>> = Vec::with_capacity(m);
    let mut i: usize = 0;
    while i < m
        invariant
            m == s.len(),
            i <= m,
            found.len() == i,
        decreases m - i,
    {
        found.push(None);
        i = i + 1;
    }
    if m == 0 {
        return found;
    }
    let mut stack: Vec<SearchTask> = Vec::new();
    stack.push(SearchTask { low: 0, high: numbers.len(), low_searched: 0, high_searched: m });
    proof {
        assert(stack@ =~= seq![].push(stack@[0]));
        lemma_pending_push(seq![], stack@[0]);
        assert forall|j: int| 0 <= j < m implies #[trigger] resolves(h, s[j], found@[j]) || exists|
            p: int,
        | 0 <= p < stack.len() && #[trigger] covers(stack@[p], j) by {
            assert(covers(stack@[0], j));
        }
    }
    while stack.len() > 0
        invariant
            h == numbers@,
            s == searched_numbers@,
            ok == (sorted(h) && sorted(s)),
            m == s.len(),
            found.len() == m,
            forall|p: int| 0 <= p < stack.len() ==> #[trigger] task_ok(h, s, ok, stack@[p]),
            ok ==> forall|j: int|
                0 <= j < m ==> #[trigger] resolves(h, s[j], found@[j]) || exists|p: int|
                    0 <= p < stack.len() && #[trigger] covers(stack@[p], j),
        decreases pending(stack@),
    {
        let ghost old_found = found@;
        let ghost old_stack = stack@;
        let c = stack.pop().unwrap();
        proof {
            assert(old_stack.drop_last() =~= stack@);
            assert(stack@.push(c) =~= old_stack);
            lemma_pending_push(stack@, c);
            assert forall|p: int| 0 <= p < old_stack.len() implies old_stack[p].low_searched
                <= old_stack[p].high_searched by {
                assert(task_ok(h, s, ok, old_stack[p]));
            }
            lemma_pending_nonneg(old_stack);
            assert(task_ok(h, s, ok, old_stack[old_stack.len() - 1]));
        }
        if c.high_searched - c.low_searched <= leaf_span {
            let mut index: usize = c.low_searched;
            while index < c.high_searched
                invariant
                    h == numbers@,
                    s == searched_numbers@,
                    ok == (sorted(h) && sorted(s)),
                    m == s.len(),
                    old_found.len() == m,
                    task_ok(h, s, ok, c),
                    c.low_searched <= index <= c.high_searched,
                    found.len() == m,
                    forall|j: int|
                        0 <= j < m && !(c.low_searched <= j < index) ==> found@[j] == old_found[j],
                    ok ==> forall|j: int|
                        c.low_searched <= j < index ==> #[trigger] resolves(h, s[j], found@[j]),
                decreases c.high_searched - index,
            {
                let r = lookup_in(numbers, c.low, c.high, searched_numbers[index]);
                proof {
                    if ok {
                        assert(bracketed(h, c.low as int, c.high as int, s[index as int]));
                    }
                }
                found.set(index, r);
                index = index + 1;
            }
            proof {
                if ok {
                    assert forall|j: int| 0 <= j < m implies #[trigger] resolves(h, s[j], found@[j])
                        || exists|p: int| 0 <= p < stack.len() && #[trigger] covers(stack@[p], j) by {
                        if !covers(c, j) && !resolves(h, s[j], found@[j]) {
                            assert(found@[j] == old_found[j]);
                            assert(!resolves(h, s[j], old_found[j]));
                            let p = choose|p: int|
                                0 <= p < old_stack.len() && #[trigger] covers(old_stack[p], j);
                            assert(p != old_stack.len() - 1);
                            assert(stack@[p] == old_stack[p]);
                        }
                    }
                }
            }
            proof {
                assert forall|p: int| 0 <= p < stack.len() implies stack@[p].low_searched
                    <= stack@[p].high_searched by {
                    assert(task_ok(h, s, ok, old_stack[p]));
                }
                lemma_pending_nonneg(stack@);
            }
            continue ;
        }
        let searched_index: usize = c.low_searched + (c.high_searched - c.low_searched) / 2;
        let x = searched_numbers[searched_index];
        let k = lower_bound(numbers, c.low, c.high, x);
        let hit = k < c.high && numbers[k] == x;
        let r = if hit {
            Some(k)
        } else {
            None
        };
        proof {
            if ok {
                assert(bracketed(h, c.low as int, c.high as int, x));
                assert(resolves(h, x, r)) by {
                    if r is None && h.contains(x) {
                        let w = choose|w: int| c.low <= w < c.high && h[w] == x;
                        assert(h[w] >= h[k as int]);
                    }
                }
            }
        }
        found.set(searched_index, r);
        let left_high = if hit {
            k + 1
        } else {
            k
        };
        let left = SearchTask {
            low: c.low,
            high: left_high,
            low_searched: c.low_searched,
            high_searched: searched_index,
        };
        let right = SearchTask {
            low: k,
            high: c.high,
            low_searched: searched_index + 1,
            high_searched: c.high_searched,
        };
        proof {
            if ok {
                assert forall|j: int| left.low_searched <= j < left.high_searched implies #[trigger] bracketed(
                    h,
                    left.low as int,
                    left.high as int,
                    s[j],
                ) by {
                    assert(bracketed(h, c.low as int, c.high as int, s[j]));
                    assert(s[j] <= x);
                    lemma_split(h, c.low as int, c.high as int, k as int, x, hit, s[j]);
                }
                assert forall|j: int| right.low_searched <= j < right.high_searched implies #[trigger] bracketed(
                    h,
                    right.low as int,
                    right.high as int,
                    s[j],
                ) by {
                    assert(bracketed(h, c.low as int, c.high as int, s[j]));
                    assert(x <= s[j]);
                    lemma_split(h, c.low as int, c.high as int, k as int, x, hit, s[j]);
                }
            }
        }
        let ghost mid_stack = stack@;
        if left.low_searched < left.high_searched {
            proof {
                lemma_pending_push(stack@, left);
            }
            stack.push(left);
        }
        let ghost left_stack = stack@;
        if right.low_searched < right.high_searched {
            proof {
                lemma_pending_push(stack@, right);
            }
            stack.push(right);
        }
        proof {
            assert(forall|p: int| 0 <= p < mid_stack.len() ==> stack@[p] == mid_stack[p]);
            assert forall|p: int| 0 <= p < stack.len() implies #[trigger] task_ok(h, s, ok, stack@[p]) by {
                if p < mid_stack.len() {
                    assert(stack@[p] == old_stack[p]);
                }
            }
            assert forall|p: int| 0 <= p < stack.len() implies stack@[p].low_searched
                <= stack@[p].high_searched by {
                assert(task_ok(h, s, ok, stack@[p]));
            }
            lemma_pending_nonneg(stack@);
            if ok {
                assert forall|j: int| 0 <= j < m implies #[trigger] resolves(h, s[j], found@[j])
                    || exists|p: int| 0 <= p < stack.len() && #[trigger] covers(stack@[p], j) by {
                    if j == searched_index {
                    } else if covers(c, j) && j < searched_index {
                        assert(stack@[mid_stack.len() as int] == left);
                        assert(covers(stack@[mid_stack.len() as int], j));
                    } else if covers(c, j) {
                        assert(stack@[stack.len() - 1] == right);
                        assert(covers(stack@[stack.len() - 1], j));
                    } else if !resolves(h, s[j], found@[j]) {
                        assert(found@[j] == old_found[j]);
                        let p = choose|p: int|
                            0 <= p < old_stack.len() && #[trigger] covers(old_stack[p], j);
                        assert(p != old_stack.len() - 1);
                        assert(stack@[p] == old_stack[p]);
                    }
                }
            }
        }
    }
    proof {
        if ok {
            assert forall|j: int| 0 <= j < m implies #[trigger] resolves(h, s[j], found@[j]) by {
                if !resolves(h, s[j], found@[j]) {
                    let p = choose|p: int| 0 <= p < stack.len() && #[trigger] covers(stack@[p], j);
                }
            }
        }
    }
    found
}

/// Divide and conquer with the default thresholds; short needle lists go
/// straight to the baseline.
pub fn binary_multiple_search(searched_numbers: &Vec<u64>, numbers: &Vec<u64>) -> (found: Vec<
    Option<usize>,
>)
    ensures
        found.len() == searched_numbers.len(),
        sorted(numbers@) && sorted(searched_numbers@) ==> answers(
            numbers@,
            searched_numbers@,
            found@,
        ),
{
    if searched_numbers.len() < COERCION_LENGTH {
        return linear_multiple_search(searched_numbers, numbers);
    }
    divide_and_conquer_search(searched_numbers, numbers, LEAF_SPAN)
}

} // verus!
