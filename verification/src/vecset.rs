//! Small verified helpers treating a duplicate-free `Vec<u64>` as a set.

use vstd::prelude::*;

verus! {

/// Whether the vector holds `x`.
pub fn vec_contains(v: &Vec<u64>, x: u64) -> (r: bool)
    ensures
        r == v@.contains(x),
{
    let mut k: usize = 0;
    while k < v.len()
        invariant
            0 <= k <= v@.len(),
            forall|t: int| 0 <= t < k ==> v@[t] != x,
        decreases v@.len() - k,
    {
        if v[k] == x {
            return true;
        }
        k += 1;
    }
    false
}

/// Whether the vector is duplicate-free.
pub fn vec_no_dup(v: &Vec<u64>) -> (r: bool)
    ensures
        r == v@.no_duplicates(),
{
    let mut k: usize = 0;
    while k < v.len()
        invariant
            0 <= k <= v@.len(),
            forall|i: int, j: int| 0 <= i < j < k ==> v@[i] != v@[j],
        decreases v@.len() - k,
    {
        let mut t: usize = 0;
        while t < k
            invariant
                0 <= t <= k < v@.len(),
                forall|i: int| 0 <= i < t ==> v@[i] != v@[k as int],
            decreases k - t,
        {
            if v[t] == v[k] {
                proof {
                    assert(v@[t as int] == v@[k as int] && t != k);
                }
                return false;
            }
            t += 1;
        }
        k += 1;
    }
    true
}

/// Adds `x` unless it is already there; the vector stays duplicate-free.
pub fn set_insert(v: &mut Vec<u64>, x: u64)
    requires
        old(v)@.no_duplicates(),
    ensures
        final(v)@.no_duplicates(),
        final(v)@.to_set() =~= old(v)@.to_set().insert(x),
        final(v)@.len() <= old(v)@.len() + 1,
        old(v)@.contains(x) ==> final(v)@ == old(v)@,
        !old(v)@.contains(x) ==> final(v)@ == old(v)@.push(x),
{
    if !vec_contains(v, x) {
        v.push(x);
        proof {
            assert(v@ == old(v)@.push(x));
            assert(v@[v@.len() - 1] == x);
            assert forall|y: u64| #[trigger] v@.contains(y) implies (old(v)@.contains(y) || y
                == x) by {
                let i = choose|i: int| 0 <= i < v@.len() && v@[i] == y;
                if i < v@.len() - 1 {
                    assert(old(v)@[i] == y);
                }
            }
            assert forall|y: u64| old(v)@.contains(y) implies v@.contains(y) by {
                let i = choose|i: int| 0 <= i < old(v)@.len() && old(v)@[i] == y;
                assert(v@[i] == y);
            }
            assert(v@.contains(x));
            assert(v@.to_set() =~= old(v)@.to_set().insert(x));
        }
    } else {
        proof {
            assert(v@.to_set() =~= old(v)@.to_set().insert(x));
        }
    }
}

/// Removes `x` if it is there; the vector stays duplicate-free.
pub fn set_remove(v: &mut Vec<u64>, x: u64)
    requires
        old(v)@.no_duplicates(),
    ensures
        final(v)@.no_duplicates(),
        final(v)@.to_set() =~= old(v)@.to_set().remove(x),
        final(v)@.len() <= old(v)@.len(),
{
    let mut k: usize = 0;
    while k < v.len()
        invariant
            0 <= k <= v@.len(),
            v@ == old(v)@,
            old(v)@.no_duplicates(),
            forall|t: int| 0 <= t < k ==> v@[t] != x,
        decreases v@.len() - k,
    {
        if v[k] == x {
            v.remove(k);
            proof {
                old(v)@.remove_ensures(k as int);
                assert(old(v)@[k as int] == x);
                assert forall|y: u64| v@.to_set().contains(y) implies old(v)@.to_set().remove(
                    x,
                ).contains(y) by {
                    let i = choose|i: int| 0 <= i < v@.len() && v@[i] == y;
                    if i < k {
                        assert(old(v)@[i] == y);
                        assert(y != x);
                    } else {
                        assert(old(v)@[i + 1] == y);
                        assert(old(v)@[i + 1] != old(v)@[k as int]);
                        assert(y != x);
                    }
                }
                assert forall|y: u64|
                    old(v)@.to_set().remove(x).contains(y) implies v@.to_set().contains(y) by {
                    let i = choose|i: int| 0 <= i < old(v)@.len() && old(v)@[i] == y;
                    if i < k {
                        assert(v@[i] == y);
                        assert(v@.contains(y));
                    } else {
                        assert(i != k);
                        assert(v@[i - 1] == y);
                        assert(v@.contains(y));
                    }
                }
                assert forall|i: int, j: int|
                    0 <= i < j < v@.len() implies v@[i] != v@[j] by {
                    if j < k {
                    } else if i < k {
                        assert(v@[j] == old(v)@[j + 1]);
                    } else {
                        assert(v@[i] == old(v)@[i + 1]);
                        assert(v@[j] == old(v)@[j + 1]);
                    }
                }
                assert(v@.no_duplicates());
            }
            return;
        }
        k += 1;
    }
    assert(!v@.contains(x));
    assert(v@.to_set() =~= old(v)@.to_set().remove(x));
}

/// Whether two vectors hold the same numbers in the same order.
pub fn vec_u64_eq(a: &Vec<u64>, b: &Vec<u64>) -> (r: bool)
    ensures
        r == (a@ == b@),
{
    if a.len() != b.len() {
        return false;
    }
    let mut k: usize = 0;
    while k < a.len()
        invariant
            a@.len() == b@.len(),
            0 <= k <= a@.len(),
            forall|t: int| 0 <= t < k ==> a@[t] == b@[t],
        decreases a@.len() - k,
    {
        if a[k] != b[k] {
            return false;
        }
        k += 1;
    }
    proof {
        assert(a@ =~= b@);
    }
    true
}

/// A duplicate-free vector of members of a finite set is no longer
/// than the set.
pub proof fn lemma_no_dup_len_le(v: Seq<u64>, s: Set<u64>)
    requires
        v.no_duplicates(),
        s.finite(),
        forall|t: int| 0 <= t < v.len() ==> s.contains(#[trigger] v[t]),
    ensures
        v.len() <= s.len(),
{
    v.unique_seq_to_set();
    assert forall|x: u64| v.to_set().contains(x) implies s.contains(x) by {
        let t = choose|t: int| 0 <= t < v.len() && v[t] == x;
    }
    vstd::set_lib::lemma_len_subset(v.to_set(), s);
}

} // verus!
