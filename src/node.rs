//! The stored records: points and layer nodes, and edits of a node's neighbor list.
use vstd::prelude::*;
use crate::order::{Entry, distinct_ids};

verus! {

/// The adjacency record of one point at one layer. `neighbors` maps each neighbor's
/// index to the bits of its distance to `idx`; no index occurs twice.
#[derive(Debug, Clone, PartialEq)]
pub struct LayerNode {
    pub level: u32,
    pub idx: u32,
    pub visible: bool,
    pub neighbors: Vec<Entry>,
}

/// A stored vector: its index and the bits of its single-precision components.
#[derive(Debug, Clone, PartialEq)]
pub struct Point {
    pub idx: u32,
    pub v: Vec<u32>,
}

/// A quantized vector: its index and its integer components.
#[derive(Debug, Clone, PartialEq)]
pub struct PointQuant {
    pub idx: u32,
    pub v: Vec<u32>,
}

impl LayerNode {
    /// The neighbor list names each index at most once.
    pub open spec fn wf(&self) -> bool {
        distinct_ids(self.neighbors@)
    }

    /// A visible node with no neighbors (indices are taken modulo 2^32).
    pub fn new(level: usize, idx: usize) -> (r: LayerNode)
        ensures
            r.level == level as u32,
            r.idx == idx as u32,
            r.visible,
            r.neighbors@.len() == 0,
            r.wf(),
    {
        LayerNode { level: level as u32, idx: idx as u32, visible: true, neighbors: Vec::new() }
    }

    /// Sets the distance of neighbor `e.0` to `e.1`, adding it if absent.
    pub fn put_neighbor(&mut self, e: Entry)
        requires
            old(self).wf(),
        ensures
            final(self).wf(),
            final(self).neighbors@ == with_entry(old(self).neighbors@, e),
            final(self).level == old(self).level,
            final(self).idx == old(self).idx,
            final(self).visible == old(self).visible,
    {
        let mut kept: Vec<Entry> = Vec::new();
        let mut i: usize = 0;
        while i < self.neighbors.len()
            invariant
                i <= self.neighbors@.len(),
                self.neighbors@ == old(self).neighbors@,
                distinct_ids(self.neighbors@),
                kept@ == without_id(self.neighbors@.subrange(0, i as int), e.0),
                distinct_ids(kept@),
                forall|k: int| 0 <= k < kept@.len() ==> (#[trigger] kept@[k]).0 != e.0
                    && self.neighbors@.subrange(0, i as int).contains(kept@[k]),
            decreases self.neighbors@.len() - i,
        {
            let p = self.neighbors[i];
            let ghost s = self.neighbors@;
            proof {
                assert(s.subrange(0, i as int + 1).drop_last() =~= s.subrange(0, i as int));
                assert(s.subrange(0, i as int + 1).last() == p);
                assert forall|k: int| 0 <= k < kept@.len() implies (#[trigger] kept@[k]).0 != p.0 by {
                    let lo = s.subrange(0, i as int);
                    let j = choose|j: int| 0 <= j < lo.len() && #[trigger] lo[j] == kept@[k];
                    assert(s[j] == kept@[k]);
                }
                assert forall|k: int| 0 <= k < kept@.len() implies s.subrange(0, i as int + 1).contains(
                    #[trigger] kept@[k]) by {
                    let lo = s.subrange(0, i as int);
                    let j = choose|j: int| 0 <= j < lo.len() && #[trigger] lo[j] == kept@[k];
                    assert(s.subrange(0, i as int + 1)[j] == kept@[k]);
                }
            }
            if p.0 != e.0 {
                kept.push(p);
                proof {
                    assert(s.subrange(0, i as int + 1)[i as int] == p);
                }
            }
            i = i + 1;
        }
        proof {
            assert(self.neighbors@.subrange(0, i as int) =~= self.neighbors@);
        }
        kept.push(e);
        self.neighbors = kept;
    }
}

impl Point {
    /// A point with the given index (modulo 2^32) and component bits.
    pub fn new(v: Vec<u32>, idx: usize) -> (r: Point)
        ensures
            r.idx == idx as u32,
            r.v@ == v@,
    {
        Point { idx: idx as u32, v }
    }
}

impl PointQuant {
    /// A quantized point with the given index (modulo 2^32) and components.
    pub fn new(v: Vec<u32>, idx: usize) -> (r: PointQuant)
        ensures
            r.idx == idx as u32,
            r.v@ == v@,
    {
        PointQuant { idx: idx as u32, v }
    }
}

/// The entries of `s` whose index is not `id`, in order.
pub open spec fn without_id(s: Seq<Entry>, id: u32) -> Seq<Entry>
    decreases s.len(),
{
    if s.len() == 0 {
        s
    } else {
        let rest = without_id(s.drop_last(), id);
        if s.last().0 == id {
            rest
        } else {
            rest.push(s.last())
        }
    }
}

/// The list `s` with neighbor `e.0` set to distance `e.1`.
pub open spec fn with_entry(s: Seq<Entry>, e: Entry) -> Seq<Entry> {
    without_id(s, e.0).push(e)
}

/// The list `s` after setting each entry of `add`, in order.
pub open spec fn with_entries(s: Seq<Entry>, add: Seq<Entry>) -> Seq<Entry>
    decreases add.len(),
{
    if add.len() == 0 {
        s
    } else {
        with_entry(with_entries(s, add.drop_last()), add.last())
    }
}

/// After setting entry `e`, the list holds `e` and the old entries of other indices.
pub proof fn lemma_with_entry_contains(s: Seq<Entry>, e: Entry, p: Entry)
    ensures
        with_entry(s, e).contains(p) <==> (p == e || (s.contains(p) && p.0 != e.0)),
    decreases s.len(),
{
    lemma_without_id_contains(s, e.0, p);
    let w = without_id(s, e.0);
    if w.push(e).contains(p) {
        let k = choose|k: int| 0 <= k < w.push(e).len() && w.push(e)[k] == p;
        if k < w.len() {
            assert(w[k] == p);
        }
    }
    if w.contains(p) {
        let k = choose|k: int| 0 <= k < w.len() && w[k] == p;
        assert(w.push(e)[k] == p);
    }
    if p == e {
        assert(w.push(e)[w.len() as int] == p);
    }
}

proof fn lemma_without_id_contains(s: Seq<Entry>, id: u32, p: Entry)
    ensures
        without_id(s, id).contains(p) <==> (s.contains(p) && p.0 != id),
    decreases s.len(),
{
    if s.len() > 0 {
        let d = s.drop_last();
        lemma_without_id_contains(d, id, p);
        let rest = without_id(d, id);
        if rest.push(s.last()).contains(p) && s.last().0 != id {
            let k = choose|k: int| 0 <= k < rest.push(s.last()).len() && rest.push(s.last())[k] == p;
            if k < rest.len() {
                assert(rest[k] == p);
            }
        }
        if rest.contains(p) {
            let k = choose|k: int| 0 <= k < rest.len() && rest[k] == p;
            assert(rest.push(s.last())[k] == p);
        }
        if d.contains(p) {
            let k = choose|k: int| 0 <= k < d.len() && d[k] == p;
            assert(s[k] == p);
        }
        if s.contains(p) {
            let k = choose|k: int| 0 <= k < s.len() && s[k] == p;
            if k < d.len() {
                assert(d[k] == p);
            } else {
                assert(p == s.last());
                assert(rest.push(s.last())[rest.len() as int] == p);
            }
        }
    } else {
        assert(!s.contains(p));
    }
}

} // verus!
