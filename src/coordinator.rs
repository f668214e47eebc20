//! The build coordinator's decisions: batch planning, which layers an insertion
//! touches, and the shared top of the graph.
use vstd::prelude::*;
use crate::order::{Entry, sorted};

verus! {

/// The largest number of vectors in one insert batch.
pub const BATCH_MAX: usize = 2500;

/// Below this many points the graph is built one insertion at a time.
pub const SINGLE_THREADED_HNSW_BUILD_THRESHOLD: usize = 256;

/// How the points of one batch are numbered and scheduled.
pub struct BatchPlan {
    /// The index of the first new point.
    pub first: usize,
    /// The number of points after the batch.
    pub new_datasize: usize,
    /// How many of the new points, from the first, are inserted one at a time before the
    /// rest are handed to the worker pool.
    pub serial: usize,
}

/// Numbers a batch of `n` points after the `datasize` already stored: they take the
/// indices `datasize .. datasize + n`; while the graph is smaller than the threshold,
/// points are inserted one at a time until it reaches the threshold.
pub fn plan_batch(datasize: usize, n: usize) -> (r: BatchPlan)
    requires
        datasize + n <= usize::MAX,
    ensures
        r.first == datasize,
        r.new_datasize == datasize + n,
        r.serial == if datasize >= SINGLE_THREADED_HNSW_BUILD_THRESHOLD {
            0
        } else if n < SINGLE_THREADED_HNSW_BUILD_THRESHOLD - datasize {
            n
        } else {
            (SINGLE_THREADED_HNSW_BUILD_THRESHOLD - datasize) as usize
        },
{
    let serial = if datasize >= SINGLE_THREADED_HNSW_BUILD_THRESHOLD {
        0
    } else if n < SINGLE_THREADED_HNSW_BUILD_THRESHOLD - datasize {
        n
    } else {
        SINGLE_THREADED_HNSW_BUILD_THRESHOLD - datasize
    };
    BatchPlan { first: datasize, new_datasize: datasize + n, serial }
}

/// The layers one insertion visits, given the graph's layer count when it starts,
/// whether the graph has an entry point, and the new point's level.
pub struct LayerPlan {
    /// Greedy descent runs from this layer down to `level + 1` (none when below).
    pub descend_from: usize,
    /// The point is searched for and linked from this layer down to 0; `None` when the
    /// graph is empty.
    pub link_from: Option<usize>,
    /// Fresh empty nodes are published on layers `fresh_from ..= level`.
    pub fresh_from: usize,
    /// The new point's level.
    pub level: usize,
}

impl LayerPlan {
    /// The layers on which the new point gets a node.
    pub open spec fn published(&self) -> Set<int> {
        Set::new(|l: int| {
            ||| (self.link_from matches Some(t) && 0 <= l <= t)
            ||| self.fresh_from <= l <= self.level
        })
    }
}

/// Plans the layers of one insertion: with `num_layers` layers the top is
/// `num_layers - 1` (0 when there is none).
pub fn plan_layers(num_layers: usize, has_entry: bool, level: usize) -> (r: LayerPlan)
    ensures
        r.level == level,
        r.fresh_from == num_layers,
        r.descend_from == if num_layers == 0 { 0 } else { num_layers - 1 },
        has_entry ==> r.link_from == Some(if r.descend_from < level { r.descend_from } else { level }),
        !has_entry ==> r.link_from is None,
{
    let top: usize = if num_layers == 0 { 0 } else { num_layers - 1 };
    let link_from = if has_entry {
        Some(if top < level { top } else { level })
    } else {
        None
    };
    LayerPlan { descend_from: top, link_from, fresh_from: num_layers, level }
}

/// A point of a graph whose entry point and layer count agree gets a node on every
/// layer from 0 up to its level, and on no other.
pub proof fn lemma_layers_below_exist(num_layers: usize, has_entry: bool, level: usize, plan: LayerPlan)
    requires
        has_entry <==> num_layers > 0,
        plan.level == level,
        plan.fresh_from == num_layers,
        plan.descend_from == if num_layers == 0 { 0 } else { num_layers - 1 },
        has_entry ==> plan.link_from == Some(if plan.descend_from < level { plan.descend_from } else { level }),
        !has_entry ==> plan.link_from is None,
    ensures
        plan.published() == Set::new(|l: int| 0 <= l <= level),
        forall|l: int| 0 < l && #[trigger] plan.published().contains(l) ==> plan.published().contains(l - 1),
{
    assert(plan.published() =~= Set::new(|l: int| 0 <= l <= level));
}

/// The top of the graph: its layer count and entry point (`-1` when empty).
#[derive(Debug, Clone, Copy, PartialEq, Eq)]
pub struct Top {
    pub num_layers: usize,
    pub ep: i64,
}

/// Records point `idx` of level `level`: when it reaches above the current top, the
/// layer count becomes `level + 1` and the point becomes the entry point; otherwise
/// nothing changes.
pub fn raise_top(top: Top, idx: u32, level: usize) -> (r: Top)
    requires
        level < usize::MAX,
    ensures
        r == raised(top, idx, level),
{
    if level + 1 > top.num_layers {
        Top { num_layers: level + 1, ep: idx as i64 }
    } else {
        top
    }
}

/// The top after recording point `idx` of level `level`.
pub open spec fn raised(top: Top, idx: u32, level: usize) -> Top {
    if level + 1 > top.num_layers {
        Top { num_layers: (level + 1) as usize, ep: idx as i64 }
    } else {
        top
    }
}

/// The top after recording the points `first + i` of levels `levels[i]`, in order.
pub open spec fn raised_all(top: Top, first: u32, levels: Seq<usize>) -> Top
    decreases levels.len(),
{
    if levels.len() == 0 {
        top
    } else {
        raised(raised_all(top, first, levels.drop_last()), (first + levels.len() - 1) as u32, levels.last())
    }
}

/// After a batch, the top is unchanged, or its entry point is one of the batch's points
/// and the layer count is that point's level plus one, above the old count.
pub proof fn lemma_batch_top(top: Top, first: u32, levels: Seq<usize>)
    requires
        first + levels.len() <= u32::MAX + 1,
        forall|i: int| 0 <= i < levels.len() ==> #[trigger] levels[i] < usize::MAX,
    ensures
        raised_all(top, first, levels) == top || exists|i: int|
            0 <= i < levels.len() && raised_all(top, first, levels).ep == first + i
            && raised_all(top, first, levels).num_layers == #[trigger] levels[i] + 1
            && levels[i] + 1 > top.num_layers,
        raised_all(top, first, levels).num_layers >= top.num_layers,
    decreases levels.len(),
{
    if levels.len() > 0 {
        let d = levels.drop_last();
        lemma_batch_top(top, first, d);
        let mid = raised_all(top, first, d);
        let last = levels.len() - 1;
        if levels.last() + 1 > mid.num_layers {
            assert(levels[last] == levels.last());
        } else if mid != top {
            let i = choose|i: int| 0 <= i < d.len() && mid.ep == first + i && mid.num_layers == #[trigger] d[i] + 1
                && d[i] + 1 > top.num_layers;
            assert(levels[i] == d[i]);
        }
    }
}

/// The first insertion into an empty graph searches nothing, publishes the point on
/// layers 0 through its level, and makes it the entry point of a graph of at least one
/// layer.
pub proof fn lemma_first_insert(idx: u32, level: usize, plan: LayerPlan)
    requires
        level < usize::MAX,
        plan.level == level,
        plan.fresh_from == 0,
        plan.link_from is None,
    ensures
        plan.published() == Set::new(|l: int| 0 <= l <= level),
        raised(Top { num_layers: 0, ep: -1i64 }, idx, level) == (Top { num_layers: (level + 1) as usize, ep: idx as i64 }),
        raised(Top { num_layers: 0, ep: -1i64 }, idx, level).num_layers >= 1,
{
    assert(plan.published() =~= Set::new(|l: int| 0 <= l <= level));
}

/// The `k` nearest of the found entries (all of them when there are fewer), nearest first.
pub fn top_k(found: &Vec<Entry>, k: usize) -> (r: Vec<Entry>)
    requires
        sorted(found@),
    ensures
        r@ == found@.take(if k < found@.len() { k as int } else { found@.len() as int }),
        sorted(r@),
        k >= found@.len() ==> r@ == found@,
{
    let n = if k < found.len() { k } else { found.len() };
    let mut r: Vec<Entry> = Vec::new();
    let mut i: usize = 0;
    while i < n
        invariant
            n <= found@.len(),
            i <= n,
            r@ == found@.take(i as int),
        decreases n - i,
    {
        r.push(found[i]);
        proof {
            assert(r@ =~= found@.take(i as int + 1));
        }
        i = i + 1;
    }
    proof {
        assert(found@.take(found@.len() as int) =~= found@);
    }
    r
}

} // verus!
