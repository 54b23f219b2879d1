//! Binary search over a window of a sorted haystack.
use vstd::prelude::*;
use crate::model::{bracketed, resolves, sorted};

verus! {

/// Index of the first element of `h[lo..hi)` that is not smaller than `x`,
/// or `hi` when there is none (the insertion point of `x` in the window).
pub fn lower_bound(h: &Vec<u64>, lo: usize, hi: usize, x: u64) -> (k: usize)
    requires
        lo <= hi <= h.len(),
    ensures
        lo <= k <= hi,
        sorted(h@) ==> forall|i: int| lo <= i < k ==> h@[i] < x,
        sorted(h@) ==> forall|i: int| k <= i < hi ==> h@[i] >= x,
{
    let mut a: usize = lo;
    let mut b: usize = hi;
    while a < b
        invariant
            lo <= a <= b <= hi <= h.len(),
            sorted(h@) ==> forall|i: int| lo <= i < a ==> h@[i] < x,
            sorted(h@) ==> forall|i: int| b <= i < hi ==> h@[i] >= x,
        decreases b - a,
    {
        let m = a + (b - a) / 2;
        if h[m] < x {
            a = m + 1;
        } else {
            b = m;
        }
    }
    a
}

/// Looks `x` up in the window `h[lo..hi)`. When the window brackets `x`,
/// the result is the answer for `x` over the whole haystack.
pub fn lookup_in(h: &Vec<u64>, lo: usize, hi: usize, x: u64) -> (r: Option<usize>)
    requires
        lo <= hi <= h.len(),
    ensures
        r matches Some(k) ==> lo <= k < hi && h@[k as int] == x,
        sorted(h@) && bracketed(h@, lo as int, hi as int, x) ==> resolves(h@, x, r),
{
    let k = lower_bound(h, lo, hi, x);
    if k < hi && h[k] == x {
        Some(k)
    } else {
        proof {
            if sorted(h@) && bracketed(h@, lo as int, hi as int, x) && h@.contains(x) {
                let i = choose|i: int| lo <= i < hi && h@[i] == x;
                assert(h@[i] >= h@[k as int]);
            }
        }
        None
    }
}

/// Looks `x` up in the whole haystack: the first index holding `x`, if any.
pub fn lookup(h: &Vec<u64>, x: u64) -> (r: Option<usize>)
    ensures
        r matches Some(k) ==> k < h.len() && h@[k as int] == x,
        sorted(h@) ==> resolves(h@, x, r),
{
    lookup_in(h, 0, h.len(), x)
}

/// Whether the sequence is non-decreasing.
pub fn is_sorted(v: &Vec<u64>) -> (r: bool)
    ensures
        r == sorted(v@),
{
    let mut i: usize = 1;
    if v.len() == 0 {
        return true;
    }
    while i < v.len()
        invariant
            1 <= i <= v.len(),
            forall|a: int, b: int| 0 <= a <= b < i ==> v@[a] <= v@[b],
        decreases v.len() - i,
    {
        if v[i - 1] > v[i] {
            return false;
        }
        i = i + 1;
    }
    true
}

} // verus!
