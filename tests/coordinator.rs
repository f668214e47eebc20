use dria_hnsw::config::Config;
use dria_hnsw::coordinator::{plan_batch, plan_layers, raise_top, top_k, Top};
use dria_hnsw::errors::{DeserializeError, MiddlewareError, ValidationError};
use dria_hnsw::keys::{decimal_bytes, metadata_key, node_key, parse_counter, point_key, scalar_key};
use dria_hnsw::memory::fill_missing;
use dria_hnsw::models::{ef_helper, validate_batch, validate_level, validate_query, validate_top_n};
use dria_hnsw::text::{text_extract, tokenizer, Doc};

#[test]
fn batch_takes_the_next_indices() {
    let p = plan_batch(10, 5);
    assert_eq!((p.first, p.new_datasize, p.serial), (10, 15, 5));
    let p = plan_batch(250, 100);
    assert_eq!((p.first, p.new_datasize, p.serial), (250, 350, 6));
    let p = plan_batch(300, 100);
    assert_eq!(p.serial, 0);
}

#[test]
fn oversized_batch_is_a_validation_error() {
    let dims = vec![3usize; 2501];
    assert_eq!(
        validate_batch(&dims),
        Err(ValidationError("Batch size should be smaller than 2500.".to_string()))
    );
    assert!(validate_batch(&vec![3usize; 2500]).is_ok());
    assert!(validate_batch(&vec![3, 0]).is_err());
    assert!(validate_batch(&vec![3, 4]).is_err());
}

#[test]
fn query_limits() {
    assert!(validate_top_n(20).is_ok());
    assert!(validate_top_n(21).is_err());
    assert!(validate_level(None).is_ok());
    assert!(validate_level(Some(4)).is_ok());
    assert!(validate_level(Some(0)).is_err());
    assert!(validate_level(Some(5)).is_err());
    assert_eq!(
        validate_query(21, Some(9)),
        Err(ValidationError("Top N cannot be more than 20.".to_string()))
    );
    assert_eq!(ef_helper(None), 50);
    assert_eq!(ef_helper(Some(4)), 140);
}

#[test]
fn first_insert_into_empty_graph() {
    let plan = plan_layers(0, false, 2);
    assert_eq!(plan.link_from, None);
    assert_eq!((plan.fresh_from, plan.level), (0, 2));
    let top = raise_top(Top { num_layers: 0, ep: -1 }, 0, 2);
    assert_eq!(top, Top { num_layers: 3, ep: 0 });
}

#[test]
fn later_insert_links_below_the_top() {
    let plan = plan_layers(3, true, 5);
    assert_eq!(plan.link_from, Some(2));
    assert_eq!(plan.fresh_from, 3);
    let plan = plan_layers(3, true, 0);
    assert_eq!((plan.descend_from, plan.link_from), (2, Some(0)));
}

#[test]
fn top_moves_only_when_raised() {
    let t = Top { num_layers: 3, ep: 7 };
    assert_eq!(raise_top(t, 9, 1), t);
    assert_eq!(raise_top(t, 9, 2), t);
    assert_eq!(raise_top(t, 9, 3), Top { num_layers: 4, ep: 9 });
}

#[test]
fn top_k_returns_all_when_k_is_large() {
    let found = vec![(1, 0.1f32.to_bits()), (2, 0.2f32.to_bits())];
    assert_eq!(top_k(&found, 5), found);
    assert_eq!(top_k(&found, 1), vec![(1, 0.1f32.to_bits())]);
}

#[test]
fn keys_follow_the_schema() {
    let tag = b"T".to_vec();
    assert_eq!(point_key(&tag, 42), b"T.value.42".to_vec());
    assert_eq!(node_key(&tag, 3, 17), b"T.value.3:17".to_vec());
    assert_eq!(metadata_key(&tag, 0), b"T.value.m:0".to_vec());
    assert_eq!(scalar_key(&tag, &b"datasize".to_vec()), b"T.value.datasize".to_vec());
    assert_eq!(decimal_bytes(1200), b"1200".to_vec());
}

#[test]
fn counters_parse_like_unsigned_integers() {
    assert_eq!(parse_counter(&b"1200".to_vec()), Ok(1200));
    assert_eq!(parse_counter(&b"+7".to_vec()), Ok(7));
    assert_eq!(parse_counter(&b"18446744073709551615".to_vec()), Ok(u64::MAX));
    assert_eq!(parse_counter(&b"18446744073709551616".to_vec()), Err(DeserializeError::InvalidForm));
    assert_eq!(parse_counter(&b"".to_vec()), Err(DeserializeError::InvalidForm));
    assert_eq!(parse_counter(&b"+".to_vec()), Err(DeserializeError::InvalidForm));
    assert_eq!(parse_counter(&b"1a".to_vec()), Err(DeserializeError::InvalidForm));
}

#[test]
fn missing_values_are_filled_in_order() {
    let slots = vec![Some(1), None, Some(3), None];
    assert_eq!(fill_missing(slots, vec![20, 40]), Some(vec![1, 20, 3, 40]));
    assert_eq!(fill_missing(vec![None, Some(2)], vec![]), None);
    assert_eq!(fill_missing(vec![Some(2)], vec![5]), None);
}

#[test]
fn config_defaults() {
    let c = Config::new();
    assert_eq!(c.rocksdb_path, "/tmp/rocksdb");
    assert_eq!(c.port, "8080");
    assert_eq!(c.contract_id, "default");
    let c = Config::with_values(Some("/data".to_string()), None, Some("T".to_string()));
    assert_eq!((c.rocksdb_path.as_str(), c.port.as_str(), c.contract_id.as_str()), ("/data", "8080", "T"));
}

#[test]
fn error_codes_and_messages() {
    assert_eq!(MiddlewareError::InternalError.status_code(), 500);
    assert_eq!(MiddlewareError::APIKeyError.status_code(), 401);
    assert_eq!(MiddlewareError::Timeout.status_code(), 504);
    assert_eq!(MiddlewareError::Timeout.message(), "timeout");
    assert_eq!(DeserializeError::MissingKey.message(), "Key is missing in the response");
}

#[test]
fn tokenizer_splits_on_single_spaces() {
    assert_eq!(tokenizer("a bc  d"), vec!["a", "bc", "", "d"]);
    assert_eq!(tokenizer(""), vec![""]);
    let doc = Doc { id: 0, text: "x y".to_string() };
    assert_eq!(text_extract(&doc), vec!["x y"]);
}
