//! Mathematical model of a batch lookup: what a correct answer is.
use vstd::prelude::*;

verus! {

/// The sequence is non-decreasing.
pub open spec fn sorted(s: Seq<u64>) -> bool {
    forall|i: int, j: int| 0 <= i <= j < s.len() ==> s[i] <= s[j]
}

/// `r` is the answer for needle `x`: the first index of `x` in `h`, or `None`
/// when `x` does not occur in `h`.
pub open spec fn resolves(h: Seq<u64>, x: u64, r: Option<usize>) -> bool {
    match r {
        Some(k) => k < h.len() && h[k as int] == x && forall|j: int| 0 <= j < k ==> h[j] != x,
        None => !h.contains(x),
    }
}

/// `r` holds, position by position, the answer for each needle of `s`.
pub open spec fn answers(h: Seq<u64>, s: Seq<u64>, r: Seq<Option<usize>>) -> bool {
    &&& r.len() == s.len()
    &&& forall|i: int| 0 <= i < s.len() ==> #[trigger] resolves(h, s[i], r[i])
}

/// Every occurrence of `x` in `h` worth finding lies in `h[lo..hi)`: all
/// elements before `lo` are smaller than `x`, and if `x` occurs at all, it
/// occurs inside the window.
pub open spec fn bracketed(h: Seq<u64>, lo: int, hi: int, x: u64) -> bool {
    &&& forall|i: int| 0 <= i < lo ==> h[i] < x
    &&& h.contains(x) ==> exists|i: int| lo <= i < hi && h[i] == x
}

/// A needle has at most one answer.
pub proof fn lemma_resolves_unique(h: Seq<u64>, x: u64, r1: Option<usize>, r2: Option<usize>)
    requires
        resolves(h, x, r1),
        resolves(h, x, r2),
    ensures
        r1 == r2,
{
    match r1 {
        Some(k1) => {
            assert(h.contains(x)) by {
                assert(h[k1 as int] == x);
            }
            match r2 {
                Some(k2) => {
                    if k1 < k2 {
                        assert(h[k1 as int] != x);
                    } else if k2 < k1 {
                        assert(h[k2 as int] != x);
                    }
                },
                None => {},
            }
        },
        None => {
            match r2 {
                Some(k2) => {
                    assert(h[k2 as int] == x);
                },
                None => {},
            }
        },
    }
}

/// A batch of needles has at most one answer.
pub proof fn lemma_answers_unique(h: Seq<u64>, s: Seq<u64>, r1: Seq<Option<usize>>, r2: Seq<Option<usize>>)
    requires
        answers(h, s, r1),
        answers(h, s, r2),
    ensures
        r1 == r2,
{
    assert forall|i: int| 0 <= i < r1.len() implies r1[i] == r2[i] by {
        assert(resolves(h, s[i], r1[i]));
        assert(resolves(h, s[i], r2[i]));
        lemma_resolves_unique(h, s[i], r1[i], r2[i]);
    }
    assert(r1 =~= r2);
}

/// Answers for two adjacent runs of needles join into the answer for the
/// whole run.
pub proof fn lemma_answers_append(
    h: Seq<u64>,
    s: Seq<u64>,
    a: int,
    b: int,
    c: int,
    r1: Seq<Option<usize>>,
    r2: Seq<Option<usize>>,
)
    requires
        0 <= a <= b <= c <= s.len(),
        answers(h, s.subrange(a, b), r1),
        answers(h, s.subrange(b, c), r2),
    ensures
        answers(h, s.subrange(a, c), r1 + r2),
{
    let whole = s.subrange(a, c);
    let r = r1 + r2;
    assert forall|i: int| 0 <= i < whole.len() implies #[trigger] resolves(h, whole[i], r[i]) by {
        if i < b - a {
            assert(whole[i] == s.subrange(a, b)[i]);
            assert(resolves(h, s.subrange(a, b)[i], r1[i]));
        } else {
            assert(whole[i] == s.subrange(b, c)[i - (b - a)]);
            assert(resolves(h, s.subrange(b, c)[i - (b - a)], r2[i - (b - a)]));
        }
    }
}

} // verus!
