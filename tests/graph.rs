use dria_hnsw::graph::{layer_degree, link_layer, prune, select_for_link};
use dria_hnsw::neighbors::select_neighbors;
use dria_hnsw::node::LayerNode;
use dria_hnsw::order::{entry_precedes, insert_sorted, order_key};
use dria_hnsw::search::LayerSearch;

fn d(x: f32) -> u32 {
    x.to_bits()
}

#[test]
fn order_key_follows_float_order() {
    let xs = [-3.0f32, -0.5, -0.0, 0.0, 0.25, 1.0, 2.0, f32::INFINITY];
    for w in xs.windows(2) {
        assert!(order_key(d(w[0])) < order_key(d(w[1])));
    }
    assert_eq!(order_key(d(f32::NAN)), u32::MAX);
    assert!(order_key(d(f32::INFINITY)) < order_key(d(f32::NAN)));
}

#[test]
fn ties_break_by_index() {
    assert!(entry_precedes((1, d(0.5)), (2, d(0.5))));
    assert!(!entry_precedes((2, d(0.5)), (1, d(0.5))));
}

#[test]
fn insert_sorted_places_after_smaller() {
    let mut v = vec![(1, d(0.1)), (2, d(0.3))];
    insert_sorted(&mut v, (3, d(0.2)));
    assert_eq!(v, vec![(1, d(0.1)), (3, d(0.2)), (2, d(0.3))]);
}

#[test]
fn select_keeps_the_m_closest() {
    let c = vec![(10, d(0.9)), (11, d(0.1)), (12, d(0.5)), (13, d(0.3))];
    assert_eq!(select_neighbors(&c, 2, true), vec![(11, d(0.1)), (13, d(0.3))]);
    assert_eq!(select_neighbors(&c, 2, false), vec![(11, d(0.1))]);
    assert_eq!(select_neighbors(&c, 10, true).len(), 4);
    assert_eq!(select_neighbors(&c, 0, true), vec![]);
}

#[test]
fn nan_distance_is_selected_last() {
    let c = vec![(1, d(f32::NAN)), (2, d(0.7)), (3, d(0.2))];
    assert_eq!(select_neighbors(&c, 3, true), vec![(3, d(0.2)), (2, d(0.7)), (1, d(f32::NAN))]);
    assert_eq!(select_neighbors(&c, 2, true), vec![(3, d(0.2)), (2, d(0.7))]);
}

#[test]
fn put_neighbor_replaces_the_distance() {
    let mut n = LayerNode::new(0, 1);
    n.put_neighbor((4, d(0.5)));
    n.put_neighbor((5, d(0.6)));
    n.put_neighbor((4, d(0.1)));
    assert_eq!(n.neighbors, vec![(5, d(0.6)), (4, d(0.1))]);
}

#[test]
fn prune_cuts_to_the_bound() {
    let mut n = LayerNode::new(1, 1);
    n.neighbors = vec![(2, d(0.4)), (3, d(0.1)), (4, d(0.3))];
    prune(&mut n, 2);
    assert_eq!(n.neighbors, vec![(3, d(0.1)), (4, d(0.3))]);
}

#[test]
fn link_layer_connects_both_ways_and_bounds_degree() {
    let mut a = LayerNode::new(1, 1);
    a.neighbors = vec![(7, d(0.05)), (8, d(0.06))];
    let b = LayerNode::new(1, 2);
    let new = LayerNode::new(1, 9);
    let selected = vec![(1, d(0.2)), (2, d(0.3))];
    let out = link_layer(vec![a, b, new], 9, &selected, 2);
    assert_eq!(out[0].neighbors, vec![(7, d(0.05)), (8, d(0.06))]);
    assert_eq!(out[1].neighbors, vec![(9, d(0.3))]);
    assert_eq!(out[2].neighbors, vec![(1, d(0.2)), (2, d(0.3))]);
    for n in out.iter() {
        assert!(n.neighbors.len() <= 2);
    }
}

#[test]
fn search_expands_nearest_first_and_keeps_ef() {
    let mut s = LayerSearch::new(&vec![(0, d(0.5))], 2);
    assert_eq!(s.next_to_expand(), Some(0));
    let fresh = s.fresh_neighbors(&vec![(0, d(0.0)), (1, d(0.2)), (2, d(0.1)), (3, d(0.3))]);
    assert_eq!(fresh, vec![(2, d(0.1)), (1, d(0.2)), (3, d(0.3))]);
    s.offer(&vec![2, 1, 3], &vec![d(0.4), d(0.1), d(0.9)]);
    assert_eq!(s.found, vec![(1, d(0.1)), (2, d(0.4))]);
    assert_eq!(s.next_to_expand(), Some(1));
    assert_eq!(s.next_to_expand(), Some(2));
    assert_eq!(s.next_to_expand(), None);
    assert_eq!(s.result(), vec![(1, d(0.1)), (2, d(0.4))]);
}

#[test]
fn search_stops_when_candidate_is_worse() {
    let mut s = LayerSearch::new(&vec![(0, d(0.5)), (1, d(0.9))], 1);
    s.found = vec![(0, d(0.5))];
    s.candidates = vec![(1, d(0.9))];
    assert_eq!(s.next_to_expand(), None);
    assert!(s.candidates.is_empty());
}

#[test]
fn ef_one_returns_only_the_nearest() {
    let s = LayerSearch::new(&vec![(3, d(0.7)), (4, d(0.2))], 1);
    assert_eq!(s.result(), vec![(4, d(0.2))]);
}

#[test]
fn nan_neighbor_is_expanded_last() {
    let s = LayerSearch::new(&vec![(0, d(0.0))], 4);
    let fresh = s.fresh_neighbors(&vec![(5, d(f32::NAN)), (6, d(0.8)), (7, d(0.1))]);
    assert_eq!(fresh, vec![(7, d(0.1)), (6, d(0.8)), (5, d(f32::NAN))]);
}

#[test]
fn linking_selects_under_the_layer_bound() {
    assert_eq!(layer_degree(0, 16), 32);
    assert_eq!(layer_degree(3, 16), 16);
    let w = vec![(4, d(0.4)), (5, d(0.1)), (6, d(0.2))];
    let (selected, load) = select_for_link(&w, 1, 2, 9);
    assert_eq!(selected, vec![(5, d(0.1)), (6, d(0.2))]);
    assert_eq!(load, vec![5, 6, 9]);
    let (selected, _) = select_for_link(&w, 0, 2, 9);
    assert_eq!(selected.len(), 3);
}
