//! Helpers on sequences of task ids shared by the wait queues.
use vstd::prelude::*;

verus! {

/// Index of the first occurrence of `x` in `s`, if any.
pub open spec fn first_index(s: Seq<usize>, x: usize) -> Option<int> {
    if exists|i: int| 0 <= i < s.len() && s[i] == x && forall|j: int| 0 <= j < i ==> s[j] != x {
        Some(choose|i: int| 0 <= i < s.len() && s[i] == x && forall|j: int| 0 <= j < i ==> s[j] != x)
    } else {
        None
    }
}

/// `s` with the first occurrence of `x` taken out (unchanged if `x` is absent).
pub open spec fn remove_first(s: Seq<usize>, x: usize) -> Seq<usize> {
    match first_index(s, x) {
        Some(i) => s.remove(i),
        None => s,
    }
}

/// The first occurrence is unique: any index holding `x` with no earlier `x`
/// is the one `first_index` names.
pub proof fn lemma_first_index_is(s: Seq<usize>, x: usize, i: int)
    requires
        0 <= i < s.len(),
        s[i] == x,
        forall|j: int| 0 <= j < i ==> s[j] != x,
    ensures
        first_index(s, x) == Some(i),
{
    let k = choose|k: int| 0 <= k < s.len() && s[k] == x && forall|j: int| 0 <= j < k ==> s[j] != x;
    assert(0 <= k < s.len() && s[k] == x && forall|j: int| 0 <= j < k ==> s[j] != x);
    if k < i {
        assert(s[k] != x);
    } else if i < k {
        assert(s[i] != x);
    }
}

/// Absence of `x` means there is no first occurrence.
pub proof fn lemma_first_index_none(s: Seq<usize>, x: usize)
    requires
        forall|j: int| 0 <= j < s.len() ==> s[j] != x,
    ensures
        first_index(s, x) is None,
{
}

/// Removes the first occurrence of `x` from `v`, if there is one.
pub fn remove_first_occurrence(v: &mut Vec<usize>, x: usize)
    ensures
        final(v)@ == remove_first(old(v)@, x),
{
    let n = v.len();
    let mut i: usize = 0;
    while i < n
        invariant
            n == v.len(),
            v@ == old(v)@,
            i <= n,
            forall|j: int| 0 <= j < i ==> v@[j] != x,
        decreases n - i,
    {
        if v[i] == x {
            proof {
                lemma_first_index_is(v@, x, i as int);
            }
            v.remove(i);
            return;
        }
        i = i + 1;
    }
    proof {
        lemma_first_index_none(v@, x);
    }
}

/// A copy of the task ids in `v`, in the same order.
pub fn copy_ids(v: &Vec<usize>) -> (r: Vec<usize>)
    ensures
        r@ == v@,
{
    let mut r: Vec<usize> = Vec::new();
    let mut i: usize = 0;
    while i < v.len()
        invariant
            i <= v.len(),
            r@ == v@.subrange(0, i as int),
        decreases v.len() - i,
    {
        r.push(v[i]);
        i = i + 1;
    }
    assert(r@ =~= v@);
    r
}

} // verus!
