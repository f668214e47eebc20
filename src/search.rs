//! The decisions of a best-first search over one layer of the graph.
//!
//! Loading nodes and points and computing distances happen outside: the caller asks
//! which point to expand, loads its node, asks which of its neighbors are new, computes
//! their distances to the query, and offers them back.
use vstd::prelude::*;
use crate::order::{Entry, key_of, precedes, sorted, distinct_ids, insert_in_order, insert_sorted, order_key};
use crate::neighbors::sort_entries;

verus! {

/// The state of a layer search.
pub struct LayerSearch {
    /// How many best entries to keep.
    pub ef: usize,
    /// Every index seen so far.
    pub visited: Vec<u32>,
    /// Entries still to expand, nearest first.
    pub candidates: Vec<Entry>,
    /// The best entries found so far, nearest first.
    pub found: Vec<Entry>,
    /// The distance of the worst found entry when the current expansion started.
    pub limit: u32,
}

/// The search state as values.
pub ghost struct SearchView {
    pub ef: nat,
    pub visited: Seq<u32>,
    pub candidates: Seq<Entry>,
    pub found: Seq<Entry>,
    pub limit: u32,
}

impl View for LayerSearch {
    type V = SearchView;

    open spec fn view(&self) -> SearchView {
        SearchView {
            ef: self.ef as nat,
            visited: self.visited@,
            candidates: self.candidates@,
            found: self.found@,
            limit: self.limit,
        }
    }
}

/// The ids of a list of entries.
pub open spec fn ids_of(s: Seq<Entry>) -> Seq<u32> {
    s.map_values(|e: Entry| e.0)
}

/// Offering neighbor `id` at distance `d`: it is seen; it is kept when closer than the
/// limit or while fewer than `ef` entries are found, and then the worst found entry is
/// dropped when there are more than `ef`.
pub open spec fn offer_step(v: SearchView, id: u32, d: u32) -> SearchView {
    let seen = SearchView { visited: v.visited.push(id), ..v };
    if key_of(d) < key_of(v.limit) || v.found.len() < v.ef {
        let grown = insert_in_order(v.found, (id, d));
        SearchView {
            candidates: insert_in_order(v.candidates, (id, d)),
            found: if grown.len() > v.ef { grown.drop_last() } else { grown },
            ..seen
        }
    } else {
        seen
    }
}

/// Offering each neighbor in turn.
pub open spec fn offer_all(v: SearchView, ids: Seq<u32>, ds: Seq<u32>) -> SearchView
    decreases ids.len(),
{
    if ids.len() == 0 || ds.len() == 0 {
        v
    } else {
        offer_step(offer_all(v, ids.drop_last(), ds.drop_last()), ids.last(), ds.last())
    }
}

impl LayerSearch {
    /// Candidate and found lists are in order.
    pub open spec fn wf(&self) -> bool {
        &&& sorted(self.candidates@)
        &&& sorted(self.found@)
    }

    /// Starts from the entry points `ep`: all seen, all candidates, all found.
    pub fn new(ep: &Vec<Entry>, ef: usize) -> (r: LayerSearch)
        requires
            distinct_ids(ep@),
        ensures
            r.wf(),
            r@.ef == ef,
            r@.visited == ids_of(r@.found),
            forall|p: Entry| r@.found.contains(p) <==> ep@.contains(p),
            r@.found.len() == ep@.len(),
            r@.candidates == r@.found,
    {
        let found = sort_entries(ep);
        let mut candidates: Vec<Entry> = Vec::new();
        let mut visited: Vec<u32> = Vec::new();
        let mut i: usize = 0;
        while i < found.len()
            invariant
                i <= found@.len(),
                visited@ == ids_of(found@.subrange(0, i as int)),
                candidates@ == found@.subrange(0, i as int),
            decreases found@.len() - i,
        {
            visited.push(found[i].0);
            candidates.push(found[i]);
            proof {
                assert(visited@ =~= ids_of(found@.subrange(0, i as int + 1)));
                assert(candidates@ =~= found@.subrange(0, i as int + 1));
            }
            i = i + 1;
        }
        proof {
            assert(found@.subrange(0, i as int) =~= found@);
        }
        LayerSearch { ef, visited, candidates, found, limit: 0 }
    }

    /// Takes the nearest candidate. When nothing is found, or it is farther than the worst found entry, the
    /// search is over: the candidates are dropped and `None` comes back. Otherwise the
    /// worst found distance becomes the limit and the candidate's index comes back.
    pub fn next_to_expand(&mut self) -> (r: Option<u32>)
        requires
            old(self).wf(),
        ensures
            final(self).wf(),
            final(self)@.found == old(self)@.found,
            final(self)@.visited == old(self)@.visited,
            final(self)@.ef == old(self)@.ef,
            old(self)@.candidates.len() == 0 ==> r is None && final(self)@ == old(self)@,
            old(self)@.candidates.len() > 0 && old(self)@.found.len() == 0 ==> r is None
                && final(self)@.candidates.len() == 0 && final(self)@.limit == old(self)@.limit,
            old(self)@.candidates.len() > 0 && old(self)@.found.len() > 0 ==> {
                let c = old(self)@.candidates[0];
                let worst = old(self)@.found.last();
                if key_of(c.1) > key_of(worst.1) {
                    r is None && final(self)@.candidates.len() == 0 && final(self)@.limit == old(self)@.limit
                } else {
                    &&& r == Some(c.0)
                    &&& final(self)@.candidates == old(self)@.candidates.subrange(1, old(self)@.candidates.len() as int)
                    &&& final(self)@.limit == worst.1
                }
            },
    {
        if self.candidates.len() == 0 {
            return None;
        }
        if self.found.len() == 0 {
            self.candidates.clear();
            return None;
        }
        let c = self.candidates.remove(0);
        let worst = self.found[self.found.len() - 1];
        if order_key(c.1) > order_key(worst.1) {
            self.candidates.clear();
            return None;
        }
        self.limit = worst.1;
        Some(c.0)
    }

    /// Whether index `id` has been seen.
    pub fn seen(&self, id: u32) -> (r: bool)
        ensures
            r == self.visited@.contains(id),
    {
        let mut i: usize = 0;
        while i < self.visited.len()
            invariant
                i <= self.visited@.len(),
                forall|k: int| 0 <= k < i ==> self.visited@[k] != id,
            decreases self.visited@.len() - i,
        {
            if self.visited[i] == id {
                return true;
            }
            i = i + 1;
        }
        false
    }

    /// The entries of an expanded node whose index is unseen, by stored distance (a
    /// NaN last), ties by index.
    pub fn fresh_neighbors(&self, neighbors: &Vec<Entry>) -> (r: Vec<Entry>)
        requires
            distinct_ids(neighbors@),
        ensures
            sorted(r@),
            distinct_ids(r@),
            forall|p: Entry| r@.contains(p) <==> (neighbors@.contains(p) && !self.visited@.contains(p.0)),
    {
        let s = sort_entries(neighbors);
        let mut out: Vec<Entry> = Vec::new();
        let mut i: usize = 0;
        while i < s.len()
            invariant
                i <= s@.len(),
                sorted(s@),
                distinct_ids(s@),
                forall|p: Entry| s@.contains(p) <==> neighbors@.contains(p),
                forall|k: int| 0 <= k < out@.len() ==> exists|m: int| 0 <= m < i && s@[m] == #[trigger] out@[k],
                sorted(out@),
                distinct_ids(out@),
                forall|k: int| 0 <= k < out@.len() ==> !self.visited@.contains((#[trigger] out@[k]).0),
                forall|m: int| 0 <= m < i && !self.visited@.contains((#[trigger] s@[m]).0) ==> out@.contains(s@[m]),
                forall|k: int, m: int| 0 <= k < out@.len() && i <= m < s@.len() ==> precedes(
                    #[trigger] out@[k], #[trigger] s@[m]) && out@[k].0 != s@[m].0,
            decreases s@.len() - i,
        {
            let e = s[i];
            if !self.seen(e.0) {
                let ghost before = out@;
                out.push(e);
                proof {
                    assert forall|k: int| 0 <= k < out@.len() implies exists|m: int| 0 <= m < i + 1 && s@[m]
                        == #[trigger] out@[k] by {
                        if k < before.len() {
                            assert(out@[k] == before[k]);
                        } else {
                            assert(s@[i as int] == out@[k]);
                        }
                    }
                    assert forall|m: int| 0 <= m < i + 1 && !self.visited@.contains((#[trigger] s@[m]).0) implies
                        out@.contains(s@[m]) by {
                        if m < i {
                            let k = choose|k: int| 0 <= k < before.len() && before[k] == s@[m];
                            assert(out@[k] == s@[m]);
                        } else {
                            assert(out@[before.len() as int] == s@[m]);
                        }
                    }
                    assert forall|a: int, b: int| 0 <= a < out@.len() && 0 <= b < out@.len() && a != b implies
                        (#[trigger] out@[a]).0 != (#[trigger] out@[b]).0 by {
                        if a < before.len() && b < before.len() {
                            assert(out@[a] == before[a]);
                            assert(out@[b] == before[b]);
                        } else if a < before.len() {
                            assert(out@[a] == before[a]);
                        } else {
                            assert(out@[b] == before[b]);
                        }
                    }
                    assert forall|a: int, b: int| 0 <= a < b < out@.len() implies precedes(
                        #[trigger] out@[a], #[trigger] out@[b]) by {
                        if b < before.len() {
                            assert(out@[a] == before[a]);
                            assert(out@[b] == before[b]);
                        } else {
                            assert(out@[a] == before[a]);
                        }
                    }
                    assert forall|k: int, m: int| 0 <= k < out@.len() && i + 1 <= m < s@.len() implies precedes(
                        #[trigger] out@[k], #[trigger] s@[m]) && out@[k].0 != s@[m].0 by {
                        if k < before.len() {
                            assert(out@[k] == before[k]);
                        } else {
                            assert(out@[k] == s@[i as int]);
                        }
                    }
                }
            }
            i = i + 1;
        }
        proof {
            assert forall|p: Entry| out@.contains(p) <==> (neighbors@.contains(p) && !self.visited@.contains(p.0)) by {
                if out@.contains(p) {
                    let k = choose|k: int| 0 <= k < out@.len() && out@[k] == p;
                    let m = choose|m: int| 0 <= m < i && s@[m] == #[trigger] out@[k];
                    assert(s@.contains(s@[m]));
                }
                if neighbors@.contains(p) && !self.visited@.contains(p.0) {
                    assert(s@.contains(p));
                    let m = choose|m: int| 0 <= m < s@.len() && s@[m] == p;
                    assert(out@.contains(s@[m]));
                }
            }
        }
        out
    }

    /// Offers the unseen neighbors `ids` with their distances `ds` to the query.
    pub fn offer(&mut self, ids: &Vec<u32>, ds: &Vec<u32>)
        requires
            old(self).wf(),
            ids@.len() == ds@.len(),
        ensures
            final(self).wf(),
            final(self)@ == offer_all(old(self)@, ids@, ds@),
    {
        let mut i: usize = 0;
        while i < ids.len()
            invariant
                i <= ids@.len(),
                ids@.len() == ds@.len(),
                self.wf(),
                self@ == offer_all(old(self)@, ids@.subrange(0, i as int), ds@.subrange(0, i as int)),
            decreases ids@.len() - i,
        {
            let id = ids[i];
            let d = ds[i];
            let ghost before = self@;
            self.visited.push(id);
            if order_key(d) < order_key(self.limit) || self.found.len() < self.ef {
                insert_sorted(&mut self.candidates, (id, d));
                insert_sorted(&mut self.found, (id, d));
                if self.found.len() > self.ef {
                    self.found.pop();
                    proof {
                        assert forall|a: int, b: int| 0 <= a < b < self.found@.len() implies precedes(
                            #[trigger] self.found@[a], #[trigger] self.found@[b]) by {
                        }
                    }
                }
            }
            proof {
                let si = ids@.subrange(0, i as int + 1);
                let sd = ds@.subrange(0, i as int + 1);
                assert(si.drop_last() =~= ids@.subrange(0, i as int));
                assert(sd.drop_last() =~= ds@.subrange(0, i as int));
                assert(self@ == offer_step(before, id, d));
            }
            i = i + 1;
        }
        proof {
            assert(ids@.subrange(0, i as int) =~= ids@);
            assert(ds@.subrange(0, i as int) =~= ds@);
        }
    }

    /// The outcome of the search: the found entries, nearest first, or only the
    /// nearest one when `ef` is one.
    pub fn result(self) -> (r: Vec<Entry>)
        ensures
            self.ef == 1 && self@.found.len() > 0 ==> r@ == seq![self@.found[0]],
            !(self.ef == 1 && self@.found.len() > 0) ==> r@ == self@.found,
    {
        let mut found = self.found;
        if self.ef == 1 && found.len() > 0 {
            found.truncate(1);
            assert(found@ =~= seq![self@.found[0]]);
        }
        found
    }
}

} // verus!
