//! Assigning each visited node a fingerprint that no earlier node of the same
//! traversal holds.
use std::collections::HashSet;
use vstd::prelude::*;

verus! {

broadcast use vstd::std_specs::hash::group_hash_axioms;

/// The number of distinct `u64` values.
pub open spec fn u64_count() -> nat {
    0x1_0000_0000_0000_0000nat
}

/// The `k`-th value probed from `raw`: `raw + k`, wrapping past `u64::MAX`.
pub open spec fn probe_at(raw: u64, k: nat) -> u64 {
    ((raw as nat + k) % u64_count()) as u64
}

/// How many steps it takes to probe from `raw` to `x`.
pub open spec fn offset(raw: u64, x: u64) -> nat {
    if x >= raw {
        (x - raw) as nat
    } else {
        (x + u64_count() - raw) as nat
    }
}

/// `h` is the first value probed from `raw` that is not in `seen`.
pub open spec fn is_first_free(seen: Set<u64>, raw: u64, h: u64) -> bool {
    exists|k: nat|
        h == #[trigger] probe_at(raw, k) && !seen.contains(h) && forall|j: nat|
            j < k ==> seen.contains(#[trigger] probe_at(raw, j))
}

/// The fingerprint that a node with raw hash `raw` receives when `seen` are
/// already taken.
pub open spec fn fresh_fingerprint(seen: Set<u64>, raw: u64) -> u64 {
    choose|h: u64| is_first_free(seen, raw, h)
}

proof fn lemma_probe_at(raw: u64, k: nat)
    requires
        k < u64_count(),
    ensures
        probe_at(raw, k) as nat == if raw + k < u64_count() {
            raw + k
        } else {
            raw + k - u64_count()
        },
        offset(raw, probe_at(raw, k)) == k,
{
}

/// At most one value is the first free one.
pub proof fn lemma_first_free_unique(seen: Set<u64>, raw: u64, h1: u64, h2: u64)
    requires
        is_first_free(seen, raw, h1),
        is_first_free(seen, raw, h2),
    ensures
        h1 == h2,
{
    let k1 = choose|k: nat|
        h1 == #[trigger] probe_at(raw, k) && !seen.contains(h1) && forall|j: nat|
            j < k ==> seen.contains(#[trigger] probe_at(raw, j));
    let k2 = choose|k: nat|
        h2 == #[trigger] probe_at(raw, k) && !seen.contains(h2) && forall|j: nat|
            j < k ==> seen.contains(#[trigger] probe_at(raw, j));
    if k1 < k2 {
        assert(seen.contains(probe_at(raw, k1)));
    } else if k2 < k1 {
        assert(seen.contains(probe_at(raw, k2)));
    }
}

proof fn lemma_probe_from(seen: Set<u64>, raw: u64, k: nat, probed: Set<u64>)
    requires
        seen.finite(),
        seen.len() < u64_count(),
        probed.finite(),
        probed.len() == k,
        probed.subset_of(seen),
        forall|x: u64| probed.contains(x) <==> offset(raw, x) < k,
        forall|j: nat| j < k ==> seen.contains(#[trigger] probe_at(raw, j)),
    ensures
        exists|h: u64| is_first_free(seen, raw, h),
    decreases seen.len() - k,
{
    vstd::set_lib::lemma_len_subset(probed, seen);
    let h = probe_at(raw, k);
    if seen.contains(h) {
        lemma_probe_at(raw, k);
        let p2 = probed.insert(h);
        vstd::set_lib::lemma_len_subset(p2, seen);
        assert forall|x: u64| p2.contains(x) <==> offset(raw, x) < k + 1 by {
            if offset(raw, x) == k {
                assert(x == h);
            }
        }
        lemma_probe_from(seen, raw, k + 1, p2);
    } else {
        assert(is_first_free(seen, raw, h));
    }
}

/// Where `seen` leaves some value free, the first free one is what a node
/// receives.
pub proof fn lemma_fresh_fingerprint(seen: Set<u64>, raw: u64)
    requires
        seen.finite(),
        seen.len() < u64_count(),
    ensures
        is_first_free(seen, raw, fresh_fingerprint(seen, raw)),
        !seen.contains(fresh_fingerprint(seen, raw)),
{
    lemma_probe_from(seen, raw, 0, Set::empty());
}

/// Picks the fingerprint of a node whose raw hash is `raw`: the first of
/// `raw`, `raw + 1`, ... (wrapping past `u64::MAX`) that `seen` does not hold,
/// and records it in `seen`.
pub fn assign_fingerprint(raw: u64, seen: &mut HashSet<u64>) -> (r: u64)
    requires
        old(seen)@.finite(),
    ensures
        r == fresh_fingerprint(old(seen)@, raw),
        is_first_free(old(seen)@, raw, r),
        !old(seen)@.contains(r),
        final(seen)@ == old(seen)@.insert(r),
{
    let size: usize = seen.len();
    assert(seen@.len() <= u64::MAX);
    let mut h: u64 = raw;
    let ghost mut k: nat = 0;
    let ghost mut probed: Set<u64> = Set::empty();
    assert(probe_at(raw, 0) == raw);
    while seen.contains(&h)
        invariant
            seen@.finite(),
            seen@.len() <= u64::MAX,
            probed.finite(),
            probed.len() == k,
            probed.subset_of(seen@),
            k < u64_count(),
            forall|x: u64| probed.contains(x) <==> offset(raw, x) < k,
            h == probe_at(raw, k),
            forall|j: nat| j < k ==> seen@.contains(#[trigger] probe_at(raw, j)),
        decreases seen@.len() - k,
    {
        proof {
            lemma_probe_at(raw, k);
            assert(!probed.contains(h));
            probed = probed.insert(h);
            vstd::set_lib::lemma_len_subset(probed, seen@);
            k = k + 1;
            lemma_probe_at(raw, k);
        }
        h = h.wrapping_add(1);
    }
    proof {
        assert(is_first_free(seen@, raw, h));
        let r = fresh_fingerprint(seen@, raw);
        lemma_first_free_unique(seen@, raw, h, r);
    }
    seen.insert(h);
    h
}

} // verus!
