//! Partitioning a sequence into consecutive size-bounded runs.
//!
//! The chunker (bytes into chunks of at most `MAX_CHUNK_SIZE` bytes) and the
//! bundler (chunks into bundles of at most `MAX_BUNDLE_SIZE` chunks) are both
//! instances of the same operation, specified by [`groups_of`].

use vstd::prelude::*;
use vstd::arithmetic::div_mod::{
    lemma_fundamental_div_mod, lemma_fundamental_div_mod_converse, lemma_mod_bound,
};
use vstd::arithmetic::mul::lemma_mul_is_distributive_add_other_way;
use vstd::seq_lib::lemma_flatten_concat;

verus! {

/// The partition of `s` into consecutive runs of `k` elements each, the last
/// run possibly shorter. An empty `s` yields no runs; every run is non-empty.
pub open spec fn groups_of<T>(s: Seq<T>, k: nat) -> Seq<Seq<T>>
    recommends
        k > 0,
    decreases s.len(),
{
    if k == 0 || s.len() == 0 {
        Seq::empty()
    } else if s.len() <= k {
        seq![s]
    } else {
        seq![s.take(k as int)] + groups_of(s.skip(k as int), k)
    }
}

/// The number of runs is the length of `s` divided by `k`, rounded up.
pub proof fn lemma_groups_of_count<T>(s: Seq<T>, k: nat)
    requires
        k > 0,
    ensures
        groups_of(s, k).len() == (s.len() + k - 1) as int / k as int,
    decreases s.len(),
{
    if s.len() == 0 {
        lemma_fundamental_div_mod_converse((k - 1) as int, k as int, 0, (k - 1) as int);
    } else if s.len() <= k {
        lemma_fundamental_div_mod_converse(
            (s.len() + k - 1) as int,
            k as int,
            1,
            (s.len() - 1) as int,
        );
    } else {
        lemma_groups_of_count(s.skip(k as int), k);
        let a = (s.len() - 1) as int;
        lemma_fundamental_div_mod(a, k as int);
        lemma_mod_bound(a, k as int);
        lemma_mul_is_distributive_add_other_way(k as int, a / k as int, 1);
        lemma_fundamental_div_mod_converse(
            a + k,
            k as int,
            a / k as int + 1,
            a % k as int,
        );
    }
}

/// Concatenating the runs in order gives back exactly `s`: the partition
/// loses nothing, adds nothing, and keeps the order of the elements.
pub proof fn lemma_groups_of_flatten<T>(s: Seq<T>, k: nat)
    requires
        k > 0,
    ensures
        groups_of(s, k).flatten() == s,
    decreases s.len(),
{
    if s.len() == 0 {
        assert(groups_of(s, k).flatten() =~= s);
    } else if s.len() <= k {
        seq![s].lemma_flatten_one_element();
    } else {
        lemma_groups_of_flatten(s.skip(k as int), k);
        lemma_flatten_concat(seq![s.take(k as int)], groups_of(s.skip(k as int), k));
        seq![s.take(k as int)].lemma_flatten_one_element();
        assert(s.take(k as int) + s.skip(k as int) =~= s);
    }
}

/// Every run is non-empty and holds at most `k` elements, and every run but
/// the last holds exactly `k`.
pub proof fn lemma_groups_of_parts<T>(s: Seq<T>, k: nat)
    requires
        k > 0,
    ensures
        forall|i: int|
            0 <= i < groups_of(s, k).len() ==> 1 <= (#[trigger] groups_of(s, k)[i]).len() <= k,
        forall|i: int|
            0 <= i < groups_of(s, k).len() - 1 ==> (#[trigger] groups_of(s, k)[i]).len() == k,
    decreases s.len(),
{
    if s.len() == 0 {
    } else if s.len() <= k {
    } else {
        lemma_groups_of_parts(s.skip(k as int), k);
        assert forall|i: int|
            0 <= i < groups_of(s, k).len() implies 1 <= (#[trigger] groups_of(s, k)[i]).len()
            <= k by {
            if 1 <= i < groups_of(s, k).len() {
                assert(groups_of(s, k)[i] == groups_of(s.skip(k as int), k)[i - 1]);
            }
        }
        assert forall|i: int|
            0 <= i < groups_of(s, k).len() - 1 implies (#[trigger] groups_of(s, k)[i]).len()
            == k by {
            if 1 <= i < groups_of(s, k).len() - 1 {
                assert(groups_of(s, k)[i] == groups_of(s.skip(k as int), k)[i - 1]);
            }
        }
    }
}

/// A non-empty sequence yields at least one run.
pub proof fn lemma_groups_of_nonempty<T>(s: Seq<T>, k: nat)
    requires
        k > 0,
        s.len() > 0,
    ensures
        groups_of(s, k).len() > 0,
{
}

/// Run `i` covers exactly the elements from `i * k` up to `(i + 1) * k`,
/// capped at the end of `s`.
pub proof fn lemma_groups_of_index<T>(s: Seq<T>, k: nat, i: int)
    requires
        k > 0,
        0 <= i < groups_of(s, k).len(),
    ensures
        groups_of(s, k)[i] == s.subrange(
            i * k,
            if (i + 1) * k <= s.len() {
                (i + 1) * k
            } else {
                s.len() as int
            },
        ),
    decreases s.len(),
{
    lemma_mul_is_distributive_add_other_way(k as int, i - 1, 1);
    lemma_mul_is_distributive_add_other_way(k as int, i, 1);
    if s.len() <= k {
        assert(s.subrange(0, s.len() as int) =~= s);
    } else if i == 0 {
    } else {
        lemma_groups_of_index(s.skip(k as int), k, i - 1);
        assert(groups_of(s, k)[i] == groups_of(s.skip(k as int), k)[i - 1]);
        let lo = (i - 1) * k;
        let hi = if i * k <= s.len() - k {
            i * k
        } else {
            s.len() - k
        };
        lemma_groups_of_count(s, k);
        let q = groups_of(s, k).len() as int;
        lemma_fundamental_div_mod((s.len() + k - 1) as int, k as int);
        lemma_mod_bound((s.len() + k - 1) as int, k as int);
        vstd::arithmetic::mul::lemma_mul_is_commutative(k as int, q);
        vstd::arithmetic::mul::lemma_mul_is_distributive_sub_other_way(k as int, q, 1);
        vstd::arithmetic::mul::lemma_mul_inequality(i, q - 1, k as int);
        vstd::arithmetic::mul::lemma_mul_nonnegative(i - 1, k as int);
        vstd::arithmetic::mul::lemma_mul_inequality(i - 1, i, k as int);
        assert(i * k <= s.len());
        assert(0 <= lo <= hi <= s.len() - k);
        assert(s.skip(k as int).subrange(lo, hi) =~= s.subrange(lo + k, hi + k));
    }
}

/// The byte sequences held by a sequence of byte vectors.
pub open spec fn views_of(vs: Seq<Vec<u8>>) -> Seq<Seq<u8>> {
    vs.map_values(|v: Vec<u8>| v@)
}

/// The chunk sequences held by a sequence of bundles.
pub open spec fn bundle_views_of(bs: Seq<Vec<Vec<u8>>>) -> Seq<Seq<Seq<u8>>> {
    bs.map_values(|b: Vec<Vec<u8>>| views_of(b@))
}

/// Splits `data[start..]` into chunks of at most `k` bytes each.
fn split_from(data: &Vec<u8>, k: usize, start: usize) -> (r: Vec<Vec<u8>>)
    requires
        k > 0,
        start <= data.len(),
    ensures
        views_of(r@) == groups_of(data@.skip(start as int), k as nat),
    decreases data.len() - start,
{
    if start == data.len() {
        let r: Vec<Vec<u8>> = Vec::new();
        proof {
            assert(data@.skip(start as int) =~= Seq::<u8>::empty());
            assert(views_of(r@) =~= groups_of(data@.skip(start as int), k as nat));
        }
        r
    } else {
        let rem = data.len() - start;
        let end = if rem <= k {
            data.len()
        } else {
            start + k
        };
        let mut chunk: Vec<u8> = Vec::new();
        let mut j: usize = start;
        while j < end
            invariant
                start <= j <= end <= data.len(),
                chunk@ == data@.subrange(start as int, j as int),
            decreases end - j,
        {
            chunk.push(data[j]);
            proof {
                assert(chunk@ =~= data@.subrange(start as int, j + 1));
            }
            j += 1;
        }
        let mut rest = split_from(data, k, end);
        let mut r: Vec<Vec<u8>> = Vec::new();
        r.push(chunk);
        r.append(&mut rest);
        proof {
            let tail = data@.skip(start as int);
            if rem <= k {
                assert(chunk@ =~= tail);
                assert(groups_of(data@.skip(end as int), k as nat) =~= Seq::<Seq<u8>>::empty());
                assert(views_of(r@) =~= groups_of(tail, k as nat));
            } else {
                assert(chunk@ =~= tail.take(k as int));
                assert(data@.skip(end as int) =~= tail.skip(k as int));
                assert(views_of(r@) =~= groups_of(tail, k as nat));
            }
        }
        r
    }
}

/// Splits `data` into consecutive chunks of at most `k` bytes each, in byte
/// order; an empty input yields no chunks.
pub fn split_chunks(data: &Vec<u8>, k: usize) -> (r: Vec<Vec<u8>>)
    requires
        k > 0,
    ensures
        views_of(r@) == groups_of(data@, k as nat),
{
    let r = split_from(data, k, 0);
    proof {
        assert(data@.skip(0) =~= data@);
    }
    r
}

/// Groups `chunks` into consecutive bundles of at most `k` chunks each, in
/// chunk order; no chunks yield no bundles.
pub fn group_bundles(chunks: Vec<Vec<u8>>, k: usize) -> (r: Vec<Vec<Vec<u8>>>)
    requires
        k > 0,
    ensures
        bundle_views_of(r@) == groups_of(views_of(chunks@), k as nat),
    decreases chunks@.len(),
{
    if chunks.len() == 0 {
        let r: Vec<Vec<Vec<u8>>> = Vec::new();
        proof {
            assert(bundle_views_of(r@) =~= groups_of(views_of(chunks@), k as nat));
        }
        r
    } else if chunks.len() <= k {
        let ghost cv = views_of(chunks@);
        let mut r: Vec<Vec<Vec<u8>>> = Vec::new();
        r.push(chunks);
        proof {
            assert(bundle_views_of(r@) =~= groups_of(cv, k as nat));
        }
        r
    } else {
        let ghost cv = views_of(chunks@);
        let mut head = chunks;
        let tail = head.split_off(k);
        let mut rest = group_bundles(tail, k);
        let mut r: Vec<Vec<Vec<u8>>> = Vec::new();
        r.push(head);
        r.append(&mut rest);
        proof {
            assert(views_of(r@[0]@) =~= cv.take(k as int));
            assert(views_of(tail@) =~= cv.skip(k as int));
            assert(bundle_views_of(r@) =~= groups_of(cv, k as nat));
        }
        r
    }
}

} // verus!
