use dowsing_core::ranking::{cluster_id, truncate_to_limit};

#[test]
fn ids_in_rank_order() {
    assert_eq!(cluster_id(1), "C1");
    assert_eq!(cluster_id(2), "C2");
    assert_eq!(cluster_id(105), "C105");
}

#[test]
fn limits_cap_the_report() {
    let mut v = vec![1, 2, 3, 4];
    truncate_to_limit(&mut v, Some(2));
    assert_eq!(v, vec![1, 2]);
    let mut v = vec![1, 2, 3];
    truncate_to_limit(&mut v, Some(10));
    assert_eq!(v, vec![1, 2, 3]);
    let mut v = vec![1, 2, 3];
    truncate_to_limit(&mut v, None);
    assert_eq!(v, vec![1, 2, 3]);
    let mut v = vec![1, 2, 3];
    truncate_to_limit(&mut v, Some(0));
    assert!(v.is_empty());
}

use dowsing_core::graph::weight_order_key_from_bits;
use dowsing_core::ranking::{rank_order, RankKey};

/// The order key of a refactoring value.
fn value_key(value: f64) -> u64 {
    weight_order_key_from_bits(value.to_bits())
}

fn key(id: &str, sim: f64, tokens: usize, size: usize) -> RankKey {
    let size_factor = (size as f64).log2().max(0.1);
    RankKey { value_key: value_key(tokens as f64 * sim * 0.9 * size_factor), id: id.to_string() }
}

#[test]
fn test_rank_orders_by_value() {
    let keys = vec![
        key("X", 0.99, 100, 2),   // high sim, small
        key("Y", 0.87, 5000, 10), // lower sim, large volume
    ];
    let order = rank_order(&keys);
    // The large-volume cluster should rank first
    assert_eq!(order, vec![1, 0]);
    assert_eq!(cluster_id(1), "C1");
}

#[test]
fn test_ids_reassigned_after_ranking() {
    let keys = vec![key("Z5", 0.80, 100, 2), key("Z1", 0.95, 2000, 5)];
    let order = rank_order(&keys);
    let ids: Vec<String> = (0..order.len()).map(|i| cluster_id(i + 1)).collect();
    assert_eq!(order, vec![1, 0]);
    assert_eq!(ids[0], "C1");
    assert_eq!(ids[1], "C2");
}

#[test]
fn equal_values_rank_by_id_then_keep_their_order() {
    let keys = vec![
        RankKey { value_key: 7, id: "C3".to_string() },
        RankKey { value_key: 9, id: "C9".to_string() },
        RankKey { value_key: 7, id: "C10".to_string() },
        RankKey { value_key: 7, id: "C3".to_string() },
        RankKey { value_key: 7, id: "C".to_string() },
    ];
    // "C" < "C10" < "C3" in text order; the two "C3" keep their order
    assert_eq!(rank_order(&keys), vec![1, 4, 2, 0, 3]);
    assert!(rank_order(&vec![]).is_empty());
}
