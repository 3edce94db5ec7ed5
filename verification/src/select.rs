//! Picking the winner among scored candidates.
//!
//! Scores reach this library as order keys: unsigned integers that are ordered
//! as the scores they stand for. Among equal keys the candidate met first wins.

use vstd::prelude::*;

verus! {

/// `i` is the first position at which `keys` is smallest.
pub open spec fn is_first_minimum(keys: Seq<u64>, i: int) -> bool {
    &&& 0 <= i < keys.len()
    &&& forall|j: int| 0 <= j < keys.len() ==> keys[i] <= #[trigger] keys[j]
    &&& forall|j: int| 0 <= j < i ==> keys[i] < #[trigger] keys[j]
}

/// `i` is the first position at which `keys` is largest.
pub open spec fn is_first_maximum(keys: Seq<u64>, i: int) -> bool {
    &&& 0 <= i < keys.len()
    &&& forall|j: int| 0 <= j < keys.len() ==> keys[i] >= #[trigger] keys[j]
    &&& forall|j: int| 0 <= j < i ==> keys[i] > #[trigger] keys[j]
}

/// Some key lies strictly below `bound`.
pub open spec fn some_below(keys: Seq<u64>, bound: u64) -> bool {
    exists|j: int| 0 <= j < keys.len() && #[trigger] keys[j] < bound
}

/// Some key lies strictly above `bound`.
pub open spec fn some_above(keys: Seq<u64>, bound: u64) -> bool {
    exists|j: int| 0 <= j < keys.len() && #[trigger] keys[j] > bound
}

/// A sequence of keys has at most one first minimum and at most one first maximum.
pub proof fn lemma_first_extremum_unique(keys: Seq<u64>, i: int, j: int)
    ensures
        is_first_minimum(keys, i) && is_first_minimum(keys, j) ==> i == j,
        is_first_maximum(keys, i) && is_first_maximum(keys, j) ==> i == j,
{
    if is_first_minimum(keys, i) && is_first_minimum(keys, j) {
        if i < j {
            assert(keys[j] < keys[i]);
            assert(keys[i] <= keys[j]);
        } else if j < i {
            assert(keys[i] < keys[j]);
            assert(keys[j] <= keys[i]);
        }
    }
    if is_first_maximum(keys, i) && is_first_maximum(keys, j) {
        if i < j {
            assert(keys[j] > keys[i]);
            assert(keys[i] >= keys[j]);
        } else if j < i {
            assert(keys[i] > keys[j]);
            assert(keys[j] >= keys[i]);
        }
    }
}

/// The first position of the smallest key, provided that key lies strictly
/// below `below`; `None` where no key does.
pub fn first_minimum(keys: &[u64], below: u64) -> (best: Option<usize>)
    ensures
        best.is_some() <==> some_below(keys@, below),
        best.is_some() ==> is_first_minimum(keys@, best.unwrap() as int)
            && keys@[best.unwrap() as int] < below,
{
    let n: usize = keys.len();
    let mut best: Option<usize> = None;
    let mut least: u64 = below;
    let mut k: usize = 0;
    while k < n
        invariant
            k <= n,
            n == keys@.len(),
            least <= below,
            best.is_none() ==> least == below,
            best.is_none() ==> forall|j: int| 0 <= j < k ==> #[trigger] keys@[j] >= below,
            best.is_some() ==> {
                &&& best.unwrap() < k
                &&& least == keys@[best.unwrap() as int]
                &&& least < below
                &&& forall|j: int| 0 <= j < k ==> least <= #[trigger] keys@[j]
                &&& forall|j: int| 0 <= j < best.unwrap() ==> least < #[trigger] keys@[j]
            },
        decreases n - k,
    {
        let key: u64 = keys[k];
        if key < least {
            least = key;
            best = Some(k);
        }
        k = k + 1;
    }
    best
}

/// The first position of the largest key, provided that key lies strictly
/// above `above`; `None` where no key does.
pub fn first_maximum(keys: &[u64], above: u64) -> (best: Option<usize>)
    ensures
        best.is_some() <==> some_above(keys@, above),
        best.is_some() ==> is_first_maximum(keys@, best.unwrap() as int)
            && keys@[best.unwrap() as int] > above,
{
    let n: usize = keys.len();
    let mut best: Option<usize> = None;
    let mut most: u64 = above;
    let mut k: usize = 0;
    while k < n
        invariant
            k <= n,
            n == keys@.len(),
            most >= above,
            best.is_none() ==> most == above,
            best.is_none() ==> forall|j: int| 0 <= j < k ==> #[trigger] keys@[j] <= above,
            best.is_some() ==> {
                &&& best.unwrap() < k
                &&& most == keys@[best.unwrap() as int]
                &&& most > above
                &&& forall|j: int| 0 <= j < k ==> most >= #[trigger] keys@[j]
                &&& forall|j: int| 0 <= j < best.unwrap() ==> most > #[trigger] keys@[j]
            },
        decreases n - k,
    {
        let key: u64 = keys[k];
        if key > most {
            most = key;
            best = Some(k);
        }
        k = k + 1;
    }
    best
}

} // verus!
