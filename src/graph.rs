//! Linking a newly inserted point into one layer of the graph.
use vstd::prelude::*;
use crate::order::Entry;
use crate::neighbors::{is_selection, select_neighbors};
use crate::order::distinct_ids;
use crate::node::{LayerNode, with_entry, with_entries};

verus! {

/// `new` is what the list `merged` becomes under the degree bound: itself when it fits,
/// else its `bound` closest entries.
pub open spec fn pruned(merged: Seq<Entry>, new: Seq<Entry>, bound: nat) -> bool {
    if merged.len() > bound {
        is_selection(merged, new, bound, true)
    } else {
        new == merged
    }
}

/// The neighbor list `new` is the list `old` with the entries of `add` set, then pruned.
pub open spec fn relinked(old: Seq<Entry>, add: Seq<Entry>, new: Seq<Entry>, bound: nat) -> bool {
    pruned(with_entries(old, add), new, bound)
}

/// Cuts the node's neighbor list down to its `bound` closest entries when it is longer.
pub fn prune(node: &mut LayerNode, bound: usize)
    requires
        old(node).wf(),
    ensures
        final(node).wf(),
        pruned(old(node).neighbors@, final(node).neighbors@, bound as nat),
        final(node).neighbors@.len() <= bound,
        final(node).level == old(node).level,
        final(node).idx == old(node).idx,
        final(node).visible == old(node).visible,
{
    if node.neighbors.len() > bound {
        let r = select_neighbors(&node.neighbors, bound, true);
        node.neighbors = r;
    }
}

/// Links point `idx` at one layer. `nodes` holds the nodes of the selected neighbors, in
/// the order of `selected`, followed by the node of `idx` itself. Each neighbor node gets
/// `idx` at its selected distance; the new node gets every selected neighbor; each list
/// is then pruned to `bound` entries.
pub fn link_layer(nodes: Vec<LayerNode>, idx: u32, selected: &Vec<Entry>, bound: usize) -> (r: Vec<LayerNode>)
    requires
        nodes@.len() == selected@.len() + 1,
        forall|i: int| 0 <= i < nodes@.len() ==> (#[trigger] nodes@[i]).wf(),
    ensures
        r@.len() == nodes@.len(),
        forall|i: int| 0 <= i < r@.len() ==> {
            &&& (#[trigger] r@[i]).wf()
            &&& r@[i].neighbors@.len() <= bound
            &&& r@[i].level == nodes@[i].level
            &&& r@[i].idx == nodes@[i].idx
            &&& r@[i].visible == nodes@[i].visible
        },
        forall|i: int| 0 <= i < selected@.len() ==> relinked(
            nodes@[i].neighbors@,
            seq![(idx, (#[trigger] selected@[i]).1)],
            r@[i].neighbors@,
            bound as nat,
        ),
        relinked(
            nodes@[selected@.len() as int].neighbors@,
            selected@,
            r@[selected@.len() as int].neighbors@,
            bound as nat,
        ),
{
    let ghost orig = nodes@;
    let mut rest = nodes;
    let mut out: Vec<LayerNode> = Vec::new();
    let k = selected.len();
    let mut i: usize = 0;
    while i < k
        invariant
            k == selected@.len(),
            orig.len() == k + 1,
            i <= k,
            rest@ == orig.subrange(i as int, orig.len() as int),
            out@.len() == i,
            forall|j: int| 0 <= j < orig.len() ==> (#[trigger] orig[j]).wf(),
            forall|j: int| 0 <= j < i ==> {
                &&& (#[trigger] out@[j]).wf()
                &&& out@[j].neighbors@.len() <= bound
                &&& out@[j].level == orig[j].level
                &&& out@[j].idx == orig[j].idx
                &&& out@[j].visible == orig[j].visible
                &&& relinked(orig[j].neighbors@, seq![(idx, selected@[j].1)], out@[j].neighbors@, bound as nat)
            },
        decreases k - i,
    {
        let mut node = rest.remove(0);
        assert(node == orig[i as int]);
        let e = (idx, selected[i].1);
        node.put_neighbor(e);
        proof {
            assert(seq![e].drop_last() =~= Seq::<Entry>::empty());
            assert(with_entries(orig[i as int].neighbors@, Seq::<Entry>::empty()) == orig[i as int].neighbors@);
            assert(with_entries(orig[i as int].neighbors@, seq![e]) == with_entry(orig[i as int].neighbors@, e));
        }
        prune(&mut node, bound);
        out.push(node);
        proof {
            assert(rest@ =~= orig.subrange(i as int + 1, orig.len() as int));
        }
        i = i + 1;
    }
    let mut last = rest.remove(0);
    assert(last == orig[k as int]);
    let mut j: usize = 0;
    while j < k
        invariant
            k == selected@.len(),
            orig.len() == k + 1,
            j <= k,
            last.wf(),
            last.level == orig[k as int].level,
            last.idx == orig[k as int].idx,
            last.visible == orig[k as int].visible,
            last.neighbors@ == with_entries(orig[k as int].neighbors@, selected@.subrange(0, j as int)),
        decreases k - j,
    {
        let ghost before = selected@.subrange(0, j as int);
        last.put_neighbor(selected[j]);
        proof {
            let after = selected@.subrange(0, j as int + 1);
            assert(after.drop_last() =~= before);
        }
        j = j + 1;
    }
    proof {
        assert(selected@.subrange(0, k as int) =~= selected@);
    }
    prune(&mut last, bound);
    out.push(last);
    out
}

/// A stored graph: the neighbor list of each (layer, point) that has a node.
pub type Graph = Map<(nat, nat), Seq<Entry>>;

/// The degree bound of a layer: `m` above the ground layer, `2m` on it.
pub open spec fn layer_bound(layer: nat, m: nat) -> nat {
    if layer > 0 {
        m
    } else {
        2 * m
    }
}

/// Every node has a node of the same point on the layer below, and no node has more
/// neighbors than its layer allows.
pub open spec fn graph_ok(g: Graph, m: nat) -> bool {
    forall|k: (nat, nat)|
        #[trigger] g.contains_key(k) ==> (k.0 > 0 ==> g.contains_key((sub1(k.0), k.1))) && g[k].len()
            <= layer_bound(k.0, m)
}

/// `n - 1` on naturals.
pub open spec fn sub1(n: nat) -> nat {
    (n - 1) as nat
}

/// The graph after storing each node list of `writes`, in order.
pub open spec fn apply_writes(g: Graph, writes: Seq<((nat, nat), Seq<Entry>)>) -> Graph
    decreases writes.len(),
{
    if writes.len() == 0 {
        g
    } else {
        apply_writes(g, writes.drop_last()).insert(writes.last().0, writes.last().1)
    }
}

proof fn lemma_apply_writes(g: Graph, writes: Seq<((nat, nat), Seq<Entry>)>, m: nat)
    requires
        forall|k: (nat, nat)| #[trigger] g.contains_key(k) ==> g[k].len() <= layer_bound(k.0, m),
        forall|i: int| 0 <= i < writes.len() ==> (#[trigger] writes[i]).1.len() <= layer_bound(writes[i].0.0, m),
    ensures
        forall|k: (nat, nat)| #[trigger] apply_writes(g, writes).contains_key(k) <==> (g.contains_key(k) || exists|i: int|
            0 <= i < writes.len() && (#[trigger] writes[i]).0 == k),
        forall|k: (nat, nat)| #[trigger] apply_writes(g, writes).contains_key(k) ==> apply_writes(g, writes)[k].len()
            <= layer_bound(k.0, m),
    decreases writes.len(),
{
    if writes.len() > 0 {
        let d = writes.drop_last();
        assert forall|i: int| 0 <= i < d.len() implies (#[trigger] d[i]).1.len() <= layer_bound(d[i].0.0, m) by {
            assert(d[i] == writes[i]);
        }
        lemma_apply_writes(g, d, m);
        let last = writes.len() - 1;
        assert(writes[last] == writes.last());
        let prev = apply_writes(g, d);
        assert(apply_writes(g, writes) == prev.insert(writes.last().0, writes.last().1));
        assert forall|k: (nat, nat)| #[trigger] apply_writes(g, writes).contains_key(k) implies apply_writes(g, writes)[
            k].len() <= layer_bound(k.0, m) by {
            if k != writes.last().0 {
                assert(prev.contains_key(k));
            }
        }
        assert forall|k: (nat, nat)| #[trigger] apply_writes(g, writes).contains_key(k) <==> (g.contains_key(k)
            || exists|i: int| 0 <= i < writes.len() && (#[trigger] writes[i]).0 == k) by {
            if k == writes.last().0 {
                assert(writes[last].0 == k);
            }
            if exists|i: int| 0 <= i < writes.len() && (#[trigger] writes[i]).0 == k {
                let i = choose|i: int| 0 <= i < writes.len() && (#[trigger] writes[i]).0 == k;
                if i < last {
                    assert(d[i] == writes[i]);
                }
            }
            if exists|i: int| 0 <= i < d.len() && (#[trigger] d[i]).0 == k {
                let i = choose|i: int| 0 <= i < d.len() && (#[trigger] d[i]).0 == k;
                assert(d[i] == writes[i]);
            }
        }
    }
}

/// Inserting point `idx` at level `level` keeps the graph sound when every written
/// list respects its layer's bound, every write goes to an existing node or to a node
/// of `idx` at or below `level`, and `idx` ends up with a node on every layer up to
/// `level`: then every node still has one below it, and no degree exceeds its bound.
pub proof fn lemma_insert_keeps_graph_ok(
    g: Graph,
    writes: Seq<((nat, nat), Seq<Entry>)>,
    idx: nat,
    level: nat,
    m: nat,
)
    requires
        graph_ok(g, m),
        forall|i: int| 0 <= i < writes.len() ==> (#[trigger] writes[i]).1.len() <= layer_bound(writes[i].0.0, m),
        forall|i: int| 0 <= i < writes.len() ==> g.contains_key((#[trigger] writes[i]).0) || (writes[i].0.1 == idx
            && writes[i].0.0 <= level),
        forall|l: nat| l <= level ==> g.contains_key((l, idx)) || exists|i: int| 0 <= i < writes.len() && (#[trigger] writes[i]).0
            == (l, idx),
    ensures
        graph_ok(apply_writes(g, writes), m),
{
    lemma_apply_writes(g, writes, m);
    let r = apply_writes(g, writes);
    assert forall|k: (nat, nat)| #[trigger] r.contains_key(k) implies (k.0 > 0 ==> r.contains_key((sub1(k.0), k.1)))
        && r[k].len() <= layer_bound(k.0, m) by {
        if k.0 > 0 {
            let below = (sub1(k.0), k.1);
            if g.contains_key(k) {
                assert(g.contains_key(below));
                assert(r.contains_key(below));
            } else {
                let i = choose|i: int| 0 <= i < writes.len() && (#[trigger] writes[i]).0 == k;
                assert(k.1 == idx && k.0 <= level);
                let l = sub1(k.0);
                assert(l <= level);
                assert(g.contains_key((l, idx)) || exists|j: int| 0 <= j < writes.len() && (#[trigger] writes[j]).0 == (l, idx));
                assert(r.contains_key(below));
            }
        }
    }
}

/// The degree bound of `layer`: `m` above the ground layer, `2m` on it.
pub fn layer_degree(layer: usize, m: usize) -> (r: usize)
    requires
        2 * m <= usize::MAX,
    ensures
        r == layer_bound(layer as nat, m as nat),
{
    if layer > 0 {
        m
    } else {
        2 * m
    }
}

/// What linking point `idx` at `layer` needs: the neighbors selected from the search
/// result `w` under the layer's bound, and the indices whose nodes are read for the
/// update, the selected ones in order followed by `idx`.
pub fn select_for_link(w: &Vec<Entry>, layer: usize, m: usize, idx: u32) -> (r: (Vec<Entry>, Vec<u32>))
    requires
        distinct_ids(w@),
        2 * m <= usize::MAX,
    ensures
        is_selection(w@, r.0@, layer_bound(layer as nat, m as nat), true),
        r.1@.len() == r.0@.len() + 1,
        forall|i: int| 0 <= i < r.0@.len() ==> r.1@[i] == (#[trigger] r.0@[i]).0,
        r.1@[r.0@.len() as int] == idx,
{
    let bound = layer_degree(layer, m);
    let selected = select_neighbors(w, bound, true);
    let mut load: Vec<u32> = Vec::new();
    let mut i: usize = 0;
    while i < selected.len()
        invariant
            i <= selected@.len(),
            load@.len() == i,
            forall|k: int| 0 <= k < i ==> load@[k] == (#[trigger] selected@[k]).0,
        decreases selected@.len() - i,
    {
        load.push(selected[i].0);
        i = i + 1;
    }
    load.push(idx);
    (selected, load)
}

} // verus!
