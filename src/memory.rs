//! Merging values found in memory with those read from the store.
use vstd::prelude::*;

verus! {

/// The number of empty slots before position `i`.
pub open spec fn gaps_before<T>(slots: Seq<Option<T>>, i: int) -> nat
    decreases i,
{
    if i <= 0 {
        0
    } else {
        gaps_before(slots, i - 1) + if slots[i - 1] is None { 1nat } else { 0nat }
    }
}

/// What position `i` holds once the empty slots are filled from `fetched` in order.
pub open spec fn filled<T>(slots: Seq<Option<T>>, fetched: Seq<T>, i: int) -> T {
    match slots[i] {
        Some(x) => x,
        None => fetched[gaps_before(slots, i) as int],
    }
}

/// Fills the empty slots, in order, with the values read from the store for them.
/// `None` when the number of values read differs from the number of empty slots.
pub fn fill_missing<T>(slots: Vec<Option<T>>, fetched: Vec<T>) -> (r: Option<Vec<T>>)
    ensures
        r is Some <==> fetched@.len() == gaps_before(slots@, slots@.len() as int),
        r matches Some(v) ==> v@.len() == slots@.len() && forall|i: int| 0 <= i < slots@.len() ==> v@[i]
            == #[trigger] filled(slots@, fetched@, i),
{
    let ghost s0 = slots@;
    let ghost f0 = fetched@;
    let n = slots.len();
    let flen = fetched.len();
    let mut rest = slots;
    let mut pool = fetched;
    let mut out: Vec<T> = Vec::new();
    let mut i: usize = 0;
    let mut used: usize = 0;
    while i < n
        invariant
            n == s0.len(),
            i <= n,
            rest@ == s0.subrange(i as int, n as int),
            used == gaps_before(s0, i as int),
            used <= f0.len() ==> pool@ == f0.subrange(used as int, f0.len() as int),
            used <= f0.len(),
            f0.len() == flen,
            s0 == slots@,
            f0 == fetched@,
            out@.len() == i,
            forall|k: int| 0 <= k < i ==> out@[k] == #[trigger] filled(s0, f0, k),
        decreases n - i,
    {
        let slot = rest.remove(0);
        assert(slot == s0[i as int]);
        match slot {
            Some(x) => {
                out.push(x);
            },
            None => {
                if pool.len() == 0 {
                    proof {
                        assert(gaps_before(s0, i as int + 1) == used + 1);
                        assert(f0.len() == used);
                        lemma_gaps_monotone(s0, i as int + 1, n as int);
                        assert(gaps_before(s0, n as int) > f0.len());
                    }
                    return None;
                }
                assert(used < f0.len());
                let y = pool.remove(0);
                assert(y == f0[used as int]);
                out.push(y);
                used = used + 1;
                proof {
                    assert(pool@ =~= f0.subrange(used as int, f0.len() as int));
                }
            },
        }
        proof {
            assert(rest@ =~= s0.subrange(i as int + 1, n as int));
            assert(gaps_before(s0, i as int + 1) == used);
        }
        i = i + 1;
    }
    if pool.len() != 0 {
        return None;
    }
    Some(out)
}

proof fn lemma_gaps_monotone<T>(s: Seq<Option<T>>, i: int, j: int)
    requires
        0 <= i <= j,
    ensures
        gaps_before(s, i) <= gaps_before(s, j),
    decreases j - i,
{
    if i < j {
        lemma_gaps_monotone(s, i, j - 1);
    }
}

} // verus!
