//! Draws from a seedable random number generator.
//!
//! A generator made from a seed gives the same draws on every run, which is
//! what makes the randomised solvers repeatable.

use rand::rngs::StdRng;
use rand::seq::SliceRandom;
use rand::Rng;
use vstd::prelude::*;

verus! {

/// The standard generator of the `rand` crate. Its state is opaque here.
#[verifier::external_type_specification]
#[verifier::external_body]
pub struct ExStdRng(rand::rngs::StdRng);

/// `Rng::gen_range` on the half-open range `0..bound`. The range must not be
/// empty; the draw lies in it.
#[verifier::external_body]
fn gen_below(rng: &mut StdRng, bound: usize) -> (r: usize)
    requires
        bound > 0,
    ensures
        r < bound,
{
    rng.gen_range(0..bound)
}

/// `SliceRandom::shuffle` on the slice of a vector. It only swaps entries, so
/// the vector holds afterwards what it held before, each as often.
#[verifier::external_body]
fn shuffle_entries(order: &mut Vec<usize>, rng: &mut StdRng)
    ensures
        final(order)@.to_multiset() == old(order)@.to_multiset(),
{
    order.shuffle(rng);
}

/// The numbers from 0 up to `n`, in order.
pub open spec fn ascending(n: nat) -> Seq<usize> {
    Seq::new(n, |i: int| i as usize)
}

/// `order` lists each of the numbers below its length exactly once.
pub open spec fn is_permutation(order: Seq<usize>) -> bool {
    &&& order.len() <= usize::MAX
    &&& forall|i: int| 0 <= i < order.len() ==> #[trigger] order[i] < order.len()
    &&& order.no_duplicates()
    &&& forall|j: usize| j < order.len() ==> #[trigger] order.contains(j)
}

/// A coordinate below `bound` drawn at random, or `None` where there is none to draw.
pub fn pick_coordinate(rng: &mut StdRng, bound: usize) -> (r: Option<usize>)
    ensures
        r.is_some() <==> bound > 0,
        r.is_some() ==> r.unwrap() < bound,
{
    if bound == 0 {
        None
    } else {
        Some(gen_below(rng, bound))
    }
}

/// The order in which `n` items are visited: ascending, or, where `randomize`
/// is set, a permutation drawn at random.
pub fn visit_order(n: usize, randomize: bool, rng: &mut StdRng) -> (order: Vec<usize>)
    ensures
        order@.len() == n,
        is_permutation(order@),
        !randomize ==> order@ == ascending(n as nat),
{
    let mut order: Vec<usize> = Vec::new();
    let mut k: usize = 0;
    while k < n
        invariant
            k <= n,
            order@ == ascending(k as nat),
        decreases n - k,
    {
        order.push(k);
        k = k + 1;
        assert(order@ =~= ascending(k as nat));
    }
    if randomize {
        let ghost before = order@;
        shuffle_entries(&mut order, rng);
        proof {
            lemma_ascending_is_permutation(n as nat);
            lemma_shuffled_permutation(before, order@);
        }
    } else {
        proof {
            lemma_ascending_is_permutation(n as nat);
        }
    }
    order
}

/// The ascending order is a permutation.
pub proof fn lemma_ascending_is_permutation(n: nat)
    requires
        n <= usize::MAX,
    ensures
        is_permutation(ascending(n)),
{
    assert forall|j: usize| j < n implies #[trigger] ascending(n).contains(j) by {
        assert(ascending(n)[j as int] == j);
    }
}

/// A sequence that holds what a permutation holds, each as often, is a permutation.
pub proof fn lemma_shuffled_permutation(before: Seq<usize>, after: Seq<usize>)
    requires
        is_permutation(before),
        after.to_multiset() == before.to_multiset(),
    ensures
        after.len() == before.len(),
        is_permutation(after),
{
    before.to_multiset_ensures();
    after.to_multiset_ensures();
    assert(after.len() == before.len());
    assert forall|i: int| 0 <= i < after.len() implies #[trigger] after[i] < after.len() by {
        assert(after.to_multiset().count(after[i]) > 0);
        assert(before.to_multiset().count(after[i]) > 0);
        assert(before.contains(after[i]));
    }
    before.lemma_multiset_has_no_duplicates();
    after.lemma_multiset_has_no_duplicates_conv();
    assert forall|j: usize| j < after.len() implies #[trigger] after.contains(j) by {
        assert(before.contains(j));
        assert(before.to_multiset().count(j) > 0);
    }
}

} // verus!
