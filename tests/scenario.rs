use std::collections::HashMap;

use dria_hnsw::coordinator::{plan_layers, raise_top, top_k, Top};
use dria_hnsw::graph::link_layer;
use dria_hnsw::neighbors::select_neighbors;
use dria_hnsw::node::LayerNode;
use dria_hnsw::search::LayerSearch;

fn cosine(x: &[f32], y: &[f32]) -> f32 {
    let dot: f32 = x.iter().zip(y).map(|(a, b)| a * b).sum();
    let nx: f32 = x.iter().map(|a| a * a).sum::<f32>().sqrt();
    let ny: f32 = y.iter().map(|a| a * a).sum::<f32>().sqrt();
    if nx == 0.0 || ny == 0.0 {
        return 1.0;
    }
    1.0 - dot / (nx * ny)
}

struct Memory {
    m: usize,
    points: Vec<Vec<f32>>,
    nodes: HashMap<(u32, u32), LayerNode>,
    top: Top,
}

impl Memory {
    fn new(m: usize) -> Memory {
        Memory { m, points: Vec::new(), nodes: HashMap::new(), top: Top { num_layers: 0, ep: -1 } }
    }

    fn dist(&self, q: &[f32], i: u32) -> u32 {
        cosine(q, &self.points[i as usize]).to_bits()
    }

    fn search(&self, q: &[f32], ep: &Vec<(u32, u32)>, ef: usize, layer: u32) -> Vec<(u32, u32)> {
        let mut s = LayerSearch::new(ep, ef);
        while let Some(c) = s.next_to_expand() {
            let node = self.nodes.get(&(layer, c)).cloned().unwrap_or_else(|| LayerNode::new(layer as usize, c as usize));
            let fresh = s.fresh_neighbors(&node.neighbors);
            let ids: Vec<u32> = fresh.iter().map(|e| e.0).collect();
            let ds: Vec<u32> = ids.iter().map(|&i| self.dist(q, i)).collect();
            s.offer(&ids, &ds);
        }
        s.result()
    }

    fn insert(&mut self, v: Vec<f32>, level: usize) {
        let idx = self.points.len() as u32;
        self.points.push(v.clone());
        let plan = plan_layers(self.top.num_layers, self.top.ep >= 0, level);
        if let Some(link_from) = plan.link_from {
            let ep_idx = self.top.ep as u32;
            let mut ep = vec![(ep_idx, self.dist(&v, ep_idx))];
            for layer in ((level + 1)..=plan.descend_from).rev() {
                let w = self.search(&v, &ep, 1, layer as u32);
                if !w.is_empty() {
                    ep = w;
                }
            }
            for layer in (0..=link_from).rev() {
                let w = self.search(&v, &ep, 128, layer as u32);
                let bound = if layer > 0 { self.m } else { 2 * self.m };
                let selected = select_neighbors(&w, bound, true);
                let mut group: Vec<LayerNode> = selected
                    .iter()
                    .map(|e| self.nodes.get(&(layer as u32, e.0)).cloned().unwrap())
                    .collect();
                group.push(LayerNode::new(layer, idx as usize));
                for n in link_layer(group, idx, &selected, bound) {
                    self.nodes.insert((n.level, n.idx), n);
                }
                ep = w;
            }
        }
        for layer in plan.fresh_from..=level {
            self.nodes.insert((layer as u32, idx), LayerNode::new(layer, idx as usize));
        }
        self.top = raise_top(self.top, idx, level);
    }

    fn knn(&self, q: &[f32], k: usize, ef: usize) -> Vec<(u32, f32)> {
        let ep_idx = self.top.ep as u32;
        let mut ep = vec![(ep_idx, self.dist(q, ep_idx))];
        for layer in (1..self.top.num_layers).rev() {
            ep = self.search(q, &ep, 1, layer as u32);
        }
        let found = self.search(q, &ep, ef, 0);
        top_k(&found, k).iter().map(|e| (e.0, 1.0 - f32::from_bits(e.1))).collect()
    }
}

#[test]
fn empty_index_insert_then_query() {
    let mut index = Memory::new(16);
    index.insert(vec![1.0, 0.0, 0.0], 0);
    assert_eq!(index.top, Top { num_layers: 1, ep: 0 });
    index.insert(vec![0.0, 1.0, 0.0], 0);
    let r = index.knn(&[1.0, 0.0, 0.0], 2, 50);
    assert_eq!(r.len(), 2);
    assert_eq!(r[0].0, 0);
    assert!((r[0].1 - 1.0).abs() < 1e-6);
    assert_eq!(r[1].0, 1);
    assert!(r[1].1.abs() < 1e-6);
}

#[test]
fn query_larger_than_index_returns_everything_sorted() {
    let mut index = Memory::new(4);
    index.insert(vec![1.0, 0.0], 1);
    index.insert(vec![0.0, 1.0], 0);
    index.insert(vec![1.0, 1.0], 2);
    let r = index.knn(&[1.0, 0.1], 20, 50);
    assert_eq!(r.len(), 3);
    let ids: Vec<u32> = r.iter().map(|x| x.0).collect();
    assert_eq!(ids, vec![0, 2, 1]);
}

#[test]
fn nan_neighbor_sorts_last() {
    let mut index = Memory::new(4);
    index.insert(vec![1.0, 0.0], 0);
    index.insert(vec![f32::NAN, 0.0], 0);
    index.insert(vec![0.0, 1.0], 0);
    let mut malformed = LayerNode::new(0, 0);
    malformed.neighbors = vec![(1, f32::NAN.to_bits()), (2, 0.5f32.to_bits())];
    index.nodes.insert((0, 0), malformed);
    let r = index.knn(&[1.0, 0.0], 3, 50);
    assert_eq!(r[0].0, 0);
    assert!(r[..r.len() - 1].iter().all(|x| !x.1.is_nan()));
    if let Some(pos) = r.iter().position(|x| x.0 == 1) {
        assert_eq!(pos, r.len() - 1);
    }
}

#[test]
fn zero_vectors_have_distance_one() {
    let d = cosine(&[0.0, 0.0], &[0.0, 0.0]);
    assert_eq!(d, 1.0);
    let mut index = Memory::new(4);
    index.insert(vec![0.0, 0.0], 0);
    index.insert(vec![1.0, 0.0], 0);
    let r = index.knn(&[0.0, 0.0], 2, 50);
    assert!(r.iter().all(|x| !x.1.is_nan()));
}

#[test]
fn degree_stays_bounded_while_building() {
    let mut index = Memory::new(2);
    for i in 0..40u32 {
        let a = i as f32 * 0.37;
        index.insert(vec![a.cos(), a.sin(), 0.1 * i as f32], (i % 3 == 0) as usize);
    }
    for ((layer, idx), node) in index.nodes.iter() {
        let bound = if *layer > 0 { 2 } else { 4 };
        assert!(node.neighbors.len() <= bound);
        if *layer > 0 {
            assert!(index.nodes.contains_key(&(layer - 1, *idx)));
        }
    }
}
