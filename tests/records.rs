use dria_hnsw::codec::{base64_to_node, base64_to_point, node_to_base64, nodes_from_texts, point_to_base64, points_from_texts};
use dria_hnsw::errors::DeserializeError;
use dria_hnsw::node::{LayerNode, Point, PointQuant};
use dria_hnsw::record::{decode_node, decode_point, encode_node, encode_point};

fn bits(v: &[f32]) -> Vec<u32> {
    v.iter().map(|x| x.to_bits()).collect()
}

#[test]
fn test_point_to_base64() {
    let point = Point {
        idx: 1,
        v: bits(&[1.0, 2.0, 3.0]),
    };
    let enc = point_to_base64(&point);
    let dec = base64_to_point(&enc).unwrap();
    assert_eq!(point, dec);
}

#[test]
fn test_node_to_base64() {
    let node = LayerNode {
        level: 1,
        idx: 1,
        visible: true,
        neighbors: Vec::new(),
    };
    let enc = node_to_base64(&node);
    let dec = base64_to_node(&enc).unwrap();
    assert_eq!(node, dec);
}

#[test]
fn test_node_to_base64_from_string() {
    let node = LayerNode {
        level: 1,
        idx: 1,
        visible: true,
        neighbors: Vec::new(),
    };
    let enc = "CAEQARgB".to_string();
    let dec = base64_to_node(&enc).unwrap();
    assert_eq!(node, dec);
}

#[test]
fn node_text_is_exact() {
    let node = LayerNode::new(1, 1);
    assert_eq!(node_to_base64(&node), "CAEQARgB");
}

#[test]
fn node_bytes_match_the_field_layout() {
    let node = LayerNode {
        level: 0,
        idx: 300,
        visible: false,
        neighbors: vec![(5, 0.5f32.to_bits()), (0, 0)],
    };
    let b = encode_node(&node);
    let half = 0.5f32.to_bits().to_le_bytes();
    let expected = vec![
        0x10, 0xac, 0x02, // idx 300
        0x22, 0x07, 0x08, 0x05, 0x15, half[0], half[1], half[2], half[3], // entry 5
        0x22, 0x00, // entry 0 at distance 0
    ];
    assert_eq!(b, expected);
    assert_eq!(decode_node(&b).unwrap(), node);
}

#[test]
fn point_bytes_match_the_field_layout() {
    let point = Point::new(bits(&[1.0]), 2);
    let b = encode_point(&point);
    let one = 1.0f32.to_bits().to_le_bytes();
    assert_eq!(b, vec![0x08, 0x02, 0x12, 0x04, one[0], one[1], one[2], one[3]]);
    assert_eq!(decode_point(&b).unwrap(), point);
}

#[test]
fn round_trip_keeps_nan_and_negative_zero_bits() {
    let node = LayerNode {
        level: 3,
        idx: 7,
        visible: true,
        neighbors: vec![(1, f32::NAN.to_bits()), (2, (-0.0f32).to_bits()), (9, 0.25f32.to_bits())],
    };
    let text = node_to_base64(&node);
    assert_eq!(base64_to_node(&text).unwrap(), node);
}

#[test]
fn empty_point_round_trips() {
    let point = Point::new(Vec::new(), 0);
    assert_eq!(encode_point(&point), Vec::<u8>::new());
    assert_eq!(base64_to_point(&point_to_base64(&point)).unwrap(), point);
}

#[test]
fn trailing_bytes_are_refused() {
    let mut b = encode_node(&LayerNode::new(1, 1));
    b.push(0x00);
    assert_eq!(decode_node(&b), Err(DeserializeError::InvalidForm));
}

#[test]
fn truncated_point_is_refused() {
    let mut b = encode_point(&Point::new(bits(&[1.0, 2.0]), 4));
    b.pop();
    assert_eq!(decode_point(&b), Err(DeserializeError::InvalidForm));
}

#[test]
fn bad_base64_is_refused() {
    assert_eq!(base64_to_node("CAEQARgB!"), Err(DeserializeError::InvalidForm));
    assert_eq!(base64_to_point("C"), Err(DeserializeError::InvalidForm));
}

#[test]
fn duplicate_neighbor_is_refused() {
    let b = vec![0x22, 0x02, 0x08, 0x05, 0x22, 0x02, 0x08, 0x05];
    assert_eq!(decode_node(&b), Err(DeserializeError::InvalidForm));
}

#[test]
fn explicit_zero_field_is_refused() {
    assert_eq!(decode_node(&vec![0x08, 0x00]), Err(DeserializeError::InvalidForm));
}

#[test]
fn quantized_point_keeps_its_values() {
    let p = PointQuant::new(vec![3, 4], 9);
    assert_eq!(p.idx, 9);
    assert_eq!(p.v, vec![3, 4]);
}

#[test]
fn stored_texts_read_in_order() {
    let a = LayerNode::new(0, 1);
    let b = LayerNode::new(0, 2);
    let texts = vec![Some(node_to_base64(&a)), Some(node_to_base64(&b))];
    assert_eq!(nodes_from_texts(&texts), Ok(vec![a.clone(), b]));
    assert_eq!(nodes_from_texts(&vec![Some(node_to_base64(&a)), None]), Err(DeserializeError::MissingKey));
    assert_eq!(
        nodes_from_texts(&vec![Some("%%".to_string()), None]),
        Err(DeserializeError::InvalidForm)
    );
    let p = Point::new(bits(&[0.5]), 3);
    assert_eq!(points_from_texts(&vec![Some(point_to_base64(&p))]), Ok(vec![p]));
    assert_eq!(points_from_texts(&vec![None]), Err(DeserializeError::MissingKey));
}
