//! Counting the valid foldings of a strip of `n` segments.
use crate::folding::{is_foldable_stack, is_permutation, MapFolding};
use itertools::Itertools;
use itertools::Permutations;
use num::bigint::BigUint;
use std::ops::Range;
use vstd::prelude::*;

verus! {

#[verifier::external_type_specification]
#[verifier::external_body]
pub struct ExBigUint(BigUint);

#[verifier::external_type_specification]
#[verifier::external_body]
#[verifier::reject_recursive_types(I)]
pub struct ExPermutations<I: Iterator>(Permutations<I>);

/// The non-negative integer that a `BigUint` stands for.
pub uninterp spec fn biguint_value(b: BigUint) -> nat;

/// The orderings that a permutation iterator has still to hand out, in order.
pub uninterp spec fn orderings_left(p: Permutations<Range<u64>>) -> Seq<Seq<u64>>;

/// `n!`, the number of orderings of `n` distinct items.
pub open spec fn factorial(n: nat) -> nat
    decreases n,
{
    if n == 0 {
        1
    } else {
        n * factorial((n - 1) as nat)
    }
}

/// The stack orderings of `n` segments that are valid foldings.
pub open spec fn foldable_orderings(n: nat) -> Set<Seq<u64>> {
    Set::new(|p: Seq<u64>| p.len() == n && is_permutation(p) && is_foldable_stack(p))
}

/// The number of valid foldings of a strip of `n` segments; by convention 0
/// for the empty strip.
pub open spec fn foldings_count(n: nat) -> nat {
    if n == 0 {
        0
    } else {
        foldable_orderings(n).len()
    }
}

/// Relies on `BigUint::ZERO`: the value 0.
#[verifier::external_body]
fn big_zero() -> (r: BigUint)
    ensures
        biguint_value(r) == 0,
{
    BigUint::ZERO
}

/// Relies on `AddAssign<u32> for BigUint`: adds 1, with no upper bound.
#[verifier::external_body]
fn big_increment(b: &mut BigUint)
    ensures
        biguint_value(*final(b)) == biguint_value(*old(b)) + 1,
{
    *b += 1u32;
}

/// Relies on `Itertools::permutations` over the ids `1..=n`, taken `n` at a
/// time: it hands out every ordering of the `n` distinct ids exactly once,
/// `n!` of them in all.
#[verifier::external_body]
fn stack_orderings(n: usize) -> (r: Permutations<Range<u64>>)
    requires
        n < u64::MAX,
    ensures
        orderings_left(r).len() == factorial(n as nat),
        orderings_left(r).no_duplicates(),
        forall|i: int|
            0 <= i < orderings_left(r).len() ==> (#[trigger] orderings_left(r)[i]).len() == n
                && is_permutation(orderings_left(r)[i]),
        forall|p: Seq<u64>|
            p.len() == n && is_permutation(p) ==> #[trigger] orderings_left(r).contains(p),
{
    (1..n as u64 + 1).permutations(n)
}

/// Relies on `Iterator::next` of `Permutations`: it hands out the next
/// ordering, or `None` once all are out.
#[verifier::external_body]
fn next_ordering(p: &mut Permutations<Range<u64>>) -> (r: Option<Vec<u64>>)
    ensures
        orderings_left(*old(p)).len() == 0 ==> r is None && orderings_left(*final(p)) == orderings_left(*old(p)),
        orderings_left(*old(p)).len() > 0 ==> r is Some && r->Some_0@ == orderings_left(*old(p))[0]
            && orderings_left(*final(p)) == orderings_left(*old(p)).drop_first(),
{
    p.next()
}

proof fn lemma_push_contains(s: Seq<Seq<u64>>, x: Seq<u64>, q: Seq<u64>)
    ensures
        s.push(x).contains(q) <==> s.contains(q) || q == x,
{
    if s.contains(q) {
        let i = choose|i: int| 0 <= i < s.len() && s[i] == q;
        assert(s.push(x)[i] == q);
    }
    if q == x {
        assert(s.push(x)[s.len() as int] == q);
    }
    if s.push(x).contains(q) {
        let i = choose|i: int| 0 <= i < s.len() + 1 && s.push(x)[i] == q;
        if i < s.len() {
            assert(s[i] == q);
        }
    }
}

/// The counting strategies.
#[derive(Debug, Clone, Copy, PartialEq, Eq, Structural)]
pub enum CountingMethod1d {
    /// Checks every permutation of the segments.
    BruteForce,
    /// The algorithm of Sawada and Li; not available yet.
    SawadaLi,
}

/// Counts the foldings of a strip of `n` segments by checking every
/// permutation of the segments in stack notation; 0 for `n == 0`.
///
/// Mostly of use as a reference: it takes time factorial in `n`.
pub fn brute_force(n: usize) -> (r: BigUint)
    requires
        n < u64::MAX,
    ensures
        biguint_value(r) == foldings_count(n as nat),
{
    if n == 0 {
        return big_zero();
    }
    let mut perms = stack_orderings(n);
    let ghost all = orderings_left(perms);
    let ghost mut seen: Seq<Seq<u64>> = Seq::empty();
    let ghost mut counted: Seq<Seq<u64>> = Seq::empty();
    let mut counter = big_zero();
    loop
        invariant
            all.no_duplicates(),
            all == seen + orderings_left(perms),
            forall|i: int|
                0 <= i < all.len() ==> (#[trigger] all[i]).len() == n && is_permutation(all[i]),
            forall|p: Seq<u64>| p.len() == n && is_permutation(p) ==> #[trigger] all.contains(p),
            counted.no_duplicates(),
            biguint_value(counter) == counted.len(),
            forall|p: Seq<u64>|
                #[trigger] counted.contains(p) <==> seen.contains(p) && is_foldable_stack(p),
        ensures
            orderings_left(perms).len() == 0,
        decreases orderings_left(perms).len(),
    {
        match next_ordering(&mut perms) {
            None => {
                break ;
            },
            Some(p) => {
                proof {
                    assert(all[seen.len() as int] == p@);
                    assert(!seen.contains(p@)) by {
                        if seen.contains(p@) {
                            let i = choose|i: int| 0 <= i < seen.len() && seen[i] == p@;
                            assert(all[i] == p@);
                        }
                    }
                    assert(seen.push(p@) + orderings_left(perms) =~= all);
                }
                let f = MapFolding::from_stack(p.as_slice());
                assert(f is Ok) by {
                    assert(is_permutation(p@));
                }
                let ghost before = counted;
                if let Ok(f) = f {
                    if f.is_foldable() {
                        big_increment(&mut counter);
                        proof {
                            counted = counted.push(p@);
                            assert forall|i: int, j: int|
                                0 <= i < j < counted.len() implies counted[i] != counted[j] by {
                                if j == before.len() {
                                    assert(before.contains(before[i]));
                                }
                            }
                        }
                    }
                }
                proof {
                    assert(counted == if is_foldable_stack(p@) {
                        before.push(p@)
                    } else {
                        before
                    });
                    let old_seen = seen;
                    seen = seen.push(p@);
                    assert forall|q: Seq<u64>|
                        #[trigger] counted.contains(q) <==> seen.contains(q) && is_foldable_stack(
                            q,
                        ) by {
                        lemma_push_contains(old_seen, p@, q);
                        lemma_push_contains(before, p@, q);
                    }
                }
            },
        }
    }
    proof {
        assert(seen =~= all);
        assert(foldable_orderings(n as nat) =~= counted.to_set());
        counted.unique_seq_to_set();
    }
    counter
}

/// The method of Sawada and Li, which is not implemented yet: it reports no
/// count (`None`). Whatever count it reports must equal that of
/// [`brute_force`].
pub fn sawada_li(n: usize) -> (r: Option<BigUint>)
    ensures
        r matches Some(c) ==> biguint_value(c) == foldings_count(n as nat),
{
    None
}

/// Counts the foldings of a strip of `n` segments with the chosen method, or
/// `None` where that method is not available.
pub fn count_foldings(n: usize, method: CountingMethod1d) -> (r: Option<BigUint>)
    requires
        n < u64::MAX,
    ensures
        method == CountingMethod1d::BruteForce ==> r is Some,
        r matches Some(c) ==> biguint_value(c) == foldings_count(n as nat),
{
    match method {
        CountingMethod1d::BruteForce => Some(brute_force(n)),
        CountingMethod1d::SawadaLi => sawada_li(n),
    }
}

} // verus!
