//! Comparison of two answer vectors, for checking one strategy against another.
use vstd::prelude::*;

verus! {

/// Where two answer vectors first differ.
#[derive(Clone, Copy, Debug, PartialEq, Eq, Structural)]
pub enum Mismatch {
    /// The vectors have different lengths.
    Length,
    /// Same length; the first differing position.
    At(usize),
}

fn same_answer(a: Option<usize>, b: Option<usize>) -> (r: bool)
    ensures
        r == (a == b),
{
    match (a, b) {
        (Some(x), Some(y)) => x == y,
        (None, None) => true,
        _ => false,
    }
}

/// `None` when the vectors are equal, else where they first differ.
pub fn compare_results(a: &Vec<Option<usize>>, b: &Vec<Option<usize>>) -> (r: Option<Mismatch>)
    ensures
        r is None <==> a@ == b@,
        r == Some(Mismatch::Length) <==> a.len() != b.len(),
        r matches Some(Mismatch::At(i)) ==> a.len() == b.len() && i < a.len() && a@[i as int]
            != b@[i as int] && forall|j: int| 0 <= j < i ==> a@[j] == b@[j],
{
    if a.len() != b.len() {
        return Some(Mismatch::Length);
    }
    let mut i: usize = 0;
    while i < a.len()
        invariant
            a.len() == b.len(),
            i <= a.len(),
            forall|j: int| 0 <= j < i ==> a@[j] == b@[j],
        decreases a.len() - i,
    {
        if !same_answer(a[i], b[i]) {
            return Some(Mismatch::At(i));
        }
        i = i + 1;
    }
    proof {
        assert(a@ =~= b@);
    }
    None
}

} // verus!
