//! Local collision avoidance for output and staging names.
//!
//! When a desired name is already taken, a marker byte is appended and the
//! check is retried; every retry yields a name no earlier retry produced, so
//! the first free name found never overwrites an existing entry.

use vstd::prelude::*;
use vstd::slice::slice_to_vec;

verus! {

/// The byte appended to a taken name to derive the next candidate.
pub const NAME_MARKER: u8 = 95;

/// The `k`-th candidate for a desired name: the name itself, then the name
/// with one marker byte appended per retry.
pub open spec fn candidate_name(name: Seq<u8>, k: nat) -> Seq<u8>
    decreases k,
{
    if k == 0 {
        name
    } else {
        candidate_name(name, (k - 1) as nat).push(NAME_MARKER)
    }
}

/// Each retry lengthens the name by exactly one byte.
pub proof fn lemma_candidate_len(name: Seq<u8>, k: nat)
    ensures
        candidate_name(name, k).len() == name.len() + k,
    decreases k,
{
    if k > 0 {
        lemma_candidate_len(name, (k - 1) as nat);
    }
}

/// No two retries propose the same name, so probing stops at the first free
/// one without ever revisiting a candidate.
pub proof fn lemma_candidates_distinct(name: Seq<u8>, k1: nat, k2: nat)
    requires
        k1 != k2,
    ensures
        candidate_name(name, k1) != candidate_name(name, k2),
{
    lemma_candidate_len(name, k1);
    lemma_candidate_len(name, k2);
}

/// The candidate tried after `name`: `name` with one marker byte appended.
pub fn next_candidate(name: &Vec<u8>) -> (r: Vec<u8>)
    ensures
        r@ == name@.push(NAME_MARKER),
{
    let mut r = slice_to_vec(name.as_slice());
    r.push(NAME_MARKER);
    r
}

} // verus!
