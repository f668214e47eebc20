//! Neighbor selection: keeping the closest entries of a candidate list.
use vstd::prelude::*;
use crate::order::{Entry, precedes, sorted, distinct_ids, has_id, insert_sorted};

verus! {

/// The number of entries that selection keeps out of `n` candidates, with bound `m`.
pub open spec fn kept_count(n: nat, m: nat, keep_pruned: bool) -> nat {
    let bound = if keep_pruned { m } else if m < 1 { m } else { 1 };
    if n < bound { n } else { bound }
}

/// `r` is the `kept_count` closest entries of `c`, in ascending order.
pub open spec fn is_selection(c: Seq<Entry>, r: Seq<Entry>, m: nat, keep_pruned: bool) -> bool {
    &&& r.len() == kept_count(c.len(), m, keep_pruned)
    &&& sorted(r)
    &&& distinct_ids(r)
    &&& forall|p: Entry| #[trigger] r.contains(p) ==> c.contains(p)
    &&& forall|p: Entry, q: Entry|
        #[trigger] c.contains(p) && !r.contains(p) && #[trigger] r.contains(q) ==> precedes(q, p)
}

proof fn lemma_insert_keeps_distinct(s: Seq<Entry>, i: int, x: Entry)
    requires
        distinct_ids(s),
        !has_id(s, x.0),
        0 <= i <= s.len(),
    ensures
        distinct_ids(s.insert(i, x)),
        forall|p: Entry| s.insert(i, x).contains(p) <==> (s.contains(p) || p == x),
{
    s.insert_ensures(i, x);
    let t = s.insert(i, x);
    assert forall|a: int, b: int| 0 <= a < t.len() && 0 <= b < t.len() && a != b implies (#[trigger] t[a]).0 != (#[trigger] t[b]).0 by {
        let sa = if a < i { a } else { a - 1 };
        let sb = if b < i { b } else { b - 1 };
        if a == i {
            assert(t[b] == s[sb]);
        } else if b == i {
            assert(t[a] == s[sa]);
        } else {
            assert(t[a] == s[sa]);
            assert(t[b] == s[sb]);
        }
    }
    assert forall|p: Entry| t.contains(p) <==> (s.contains(p) || p == x) by {
        if t.contains(p) {
            let k = choose|k: int| 0 <= k < t.len() && t[k] == p;
            if k < i {
                assert(s[k] == p);
            } else if k > i {
                assert(s[k - 1] == p);
            }
        }
        if s.contains(p) {
            let k = choose|k: int| 0 <= k < s.len() && s[k] == p;
            if k < i {
                assert(t[k] == p);
            } else {
                assert(t[k + 1] == p);
            }
        }
        if p == x {
            assert(t[i] == p);
        }
    }
}

/// Sorts candidates by distance, ties by index.
pub fn sort_entries(c: &Vec<Entry>) -> (s: Vec<Entry>)
    requires
        distinct_ids(c@),
    ensures
        s@.len() == c@.len(),
        sorted(s@),
        distinct_ids(s@),
        forall|p: Entry| s@.contains(p) <==> c@.contains(p),
{
    let mut s: Vec<Entry> = Vec::new();
    let mut i: usize = 0;
    while i < c.len()
        invariant
            i <= c@.len(),
            distinct_ids(c@),
            s@.len() == i,
            sorted(s@),
            distinct_ids(s@),
            forall|p: Entry| s@.contains(p) <==> c@.subrange(0, i as int).contains(p),
        decreases c@.len() - i,
    {
        let x = c[i];
        proof {
            if has_id(s@, x.0) {
                let k = choose|k: int| 0 <= k < s@.len() && (#[trigger] s@[k]).0 == x.0;
                assert(s@.contains(s@[k]));
                assert(c@.subrange(0, i as int).contains(s@[k]));
                let lo = c@.subrange(0, i as int);
                let j = choose|j: int| 0 <= j < lo.len() && #[trigger] lo[j] == s@[k];
                assert(c@[j] == s@[k]);
            }
        }
        let ghost pre = s@;
        insert_sorted(&mut s, x);
        proof {
            let ii = choose|ii: int| 0 <= ii <= pre.len() && s@ == pre.insert(ii, x);
            lemma_insert_keeps_distinct(pre, ii, x);
            let lo = c@.subrange(0, i as int);
            let hi = c@.subrange(0, i as int + 1);
            assert(hi[i as int] == x);
            assert(forall|p: Entry| pre.contains(p) <==> lo.contains(p));
            assert forall|p: Entry| s@.contains(p) <==> hi.contains(p) by {
                if hi.contains(p) {
                    let j = choose|j: int| 0 <= j < hi.len() && #[trigger] hi[j] == p;
                    if j < i {
                        assert(lo[j] == p);
                        assert(lo.contains(p));
                    }
                }
                if lo.contains(p) {
                    let j = choose|j: int| 0 <= j < lo.len() && #[trigger] lo[j] == p;
                    assert(hi[j] == p);
                    assert(pre.contains(p));
                }
                if p == x {
                    assert(hi[i as int] == p);
                }
            }
        }
        i = i + 1;
    }
    proof {
        assert(c@.subrange(0, c@.len() as int) =~= c@);
    }
    s
}

/// Keeps the closest candidates: all of the `m` closest when `keep_pruned`, else only
/// the closest one (none when `m` is zero).
pub fn select_neighbors(c: &Vec<Entry>, m: usize, keep_pruned: bool) -> (r: Vec<Entry>)
    requires
        distinct_ids(c@),
    ensures
        is_selection(c@, r@, m as nat, keep_pruned),
{
    let mut s = sort_entries(c);
    let bound: usize = if keep_pruned { m } else if m < 1 { m } else { 1 };
    let take: usize = if s.len() < bound { s.len() } else { bound };
    let ghost full = s@;
    s.truncate(take);
    proof {
        assert(s@ =~= full.subrange(0, take as int));
        assert forall|p: Entry| #[trigger] s@.contains(p) implies c@.contains(p) by {
            let k = choose|k: int| 0 <= k < s@.len() && s@[k] == p;
            assert(full[k] == p);
        }
        assert forall|p: Entry, q: Entry|
            #[trigger] c@.contains(p) && !s@.contains(p) && #[trigger] s@.contains(q) implies precedes(q, p) by {
            assert(full.contains(p));
            let b = choose|b: int| 0 <= b < full.len() && full[b] == p;
            let a = choose|a: int| 0 <= a < s@.len() && s@[a] == q;
            if b < take {
                assert(s@[b] == p);
            }
            assert(full[a] == q);
        }
    }
    s
}

} // verus!
