//! Properties that hold across the strategies, proved over the model.
use vstd::prelude::*;
use crate::algorithms::{chained, lemma_chained_within};
use crate::model::{answers, lemma_answers_append, lemma_answers_unique, resolves};
use crate::partition::joined;

verus! {

/// An answer is sound and complete: `Some(k)` points at an element equal to
/// the needle, and `None` means the needle occurs nowhere in the haystack.
pub proof fn lemma_answer_sound(h: Seq<u64>, s: Seq<u64>, r: Seq<Option<usize>>, i: int)
    requires
        answers(h, s, r),
        0 <= i < s.len(),
    ensures
        r[i] matches Some(k) ==> k < h.len() && h[k as int] == s[i],
        r[i] is None ==> forall|j: int| 0 <= j < h.len() ==> h[j] != s[i],
{
    assert(resolves(h, s[i], r[i]));
    if r[i] is None {
        assert forall|j: int| 0 <= j < h.len() implies h[j] != s[i] by {
            if h[j] == s[i] {
                assert(h.contains(s[i]));
            }
        }
    }
}

/// Any two strategies that meet the answer contract on the same input return
/// the same vector; in particular each one agrees with the baseline, and a
/// strategy called twice on one input returns the same vector twice.
pub proof fn lemma_strategies_agree(h: Seq<u64>, s: Seq<u64>, r1: Seq<Option<usize>>, r2: Seq<Option<usize>>)
    requires
        answers(h, s, r1),
        answers(h, s, r2),
    ensures
        r1 == r2,
{
    lemma_answers_unique(h, s, r1, r2);
}

/// Against an empty haystack every answer is `None`; for no needles the
/// answer is empty.
pub proof fn lemma_empty_inputs(h: Seq<u64>, s: Seq<u64>, r: Seq<Option<usize>>)
    requires
        answers(h, s, r),
    ensures
        h.len() == 0 ==> forall|i: int| 0 <= i < r.len() ==> r[i] is None,
        s.len() == 0 ==> r.len() == 0,
{
    if h.len() == 0 {
        assert forall|i: int| 0 <= i < r.len() implies r[i] is None by {
            assert(resolves(h, s[i], r[i]));
        }
    }
}

proof fn lemma_parts_prefix(
    h: Seq<u64>,
    s: Seq<u64>,
    bounds: Seq<(usize, usize)>,
    parts: Seq<Vec<Option<usize>>>,
    q: int,
)
    requires
        chained(bounds, 0, s.len() as int),
        parts.len() == bounds.len(),
        forall|p: int|
            0 <= p < parts.len() ==> answers(
                h,
                s.subrange(bounds[p].0 as int, bounds[p].1 as int),
                #[trigger] parts[p]@,
            ),
        0 <= q <= parts.len(),
    ensures
        answers(
            h,
            s.subrange(0, if q == 0 { 0 } else { bounds[q - 1].1 as int }),
            joined(parts.subrange(0, q)),
        ),
    decreases q,
{
    if q == 0 {
        assert(joined(parts.subrange(0, 0)) =~= Seq::<Option<usize>>::empty());
        assert(s.subrange(0, 0) =~= Seq::<u64>::empty());
    } else {
        lemma_parts_prefix(h, s, bounds, parts, q - 1);
        lemma_chained_within(bounds, 0, s.len() as int, q - 1);
        let start = if q == 1 {
            0
        } else {
            bounds[q - 2].1 as int
        };
        if q >= 2 {
            assert(bounds[q - 2].1 == bounds[q - 1].0);
        }
        assert(start == bounds[q - 1].0);
        assert(parts.subrange(0, q).drop_last() =~= parts.subrange(0, q - 1));
        assert(answers(h, s.subrange(bounds[q - 1].0 as int, bounds[q - 1].1 as int), parts[q - 1]@));
        lemma_answers_append(
            h,
            s,
            0,
            start,
            bounds[q - 1].1 as int,
            joined(parts.subrange(0, q - 1)),
            parts[q - 1]@,
        );
    }
}

/// Parts of the lengths of a chain of bounds join into a vector as long as
/// the chain.
pub proof fn lemma_joined_len(bounds: Seq<(usize, usize)>, parts: Seq<Vec<Option<usize>>>, m: int, q: int)
    requires
        chained(bounds, 0, m),
        parts.len() == bounds.len(),
        forall|p: int| 0 <= p < parts.len() ==> (#[trigger] parts[p]).len() == bounds[p].1 - bounds[p].0,
        0 <= q <= parts.len(),
    ensures
        joined(parts.subrange(0, q)).len() == if q == 0 { 0 } else { bounds[q - 1].1 as int },
    decreases q,
{
    if q > 0 {
        lemma_joined_len(bounds, parts, m, q - 1);
        assert(parts.subrange(0, q).drop_last() =~= parts.subrange(0, q - 1));
        assert(parts[q - 1].len() == bounds[q - 1].1 - bounds[q - 1].0);
        if q >= 2 {
            assert(bounds[q - 2].1 == bounds[q - 1].0);
        }
    }
}

/// Cut the needles into contiguous parts, answer each part on its own, and
/// join the answers in part order: the result is the answer for all the
/// needles, hence equal to any sequential strategy's direct answer.
pub proof fn lemma_partitioned_equals_direct(
    h: Seq<u64>,
    s: Seq<u64>,
    bounds: Seq<(usize, usize)>,
    parts: Seq<Vec<Option<usize>>>,
    direct: Seq<Option<usize>>,
)
    requires
        chained(bounds, 0, s.len() as int),
        parts.len() == bounds.len(),
        forall|p: int|
            0 <= p < parts.len() ==> answers(
                h,
                s.subrange(bounds[p].0 as int, bounds[p].1 as int),
                #[trigger] parts[p]@,
            ),
        answers(h, s, direct),
    ensures
        joined(parts) == direct,
{
    lemma_parts_prefix(h, s, bounds, parts, parts.len() as int);
    assert(parts.subrange(0, parts.len() as int) =~= parts);
    assert(s.subrange(0, s.len() as int) =~= s);
    lemma_answers_unique(h, s, joined(parts), direct);
}

} // verus!
