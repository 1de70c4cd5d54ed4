use crossword::dense_map::DenseMap;
use crossword::metrics::Metrics;

#[test]
fn new_map_has_no_keys() {
    let map: DenseMap<u8> = DenseMap::new();
    assert_eq!(map.len(), 0);
    assert_eq!(map.iter().count(), 0);
}

#[test]
fn map_with_max_key() {
    let map: DenseMap<u32> = DenseMap::new_with_max_key(4, || 7);
    assert_eq!(map.len(), 5);
    assert_eq!(map.max_key(), 4);
    assert!(map.iter().all(|v| *v == 7));
    assert_eq!(*map.get(0), 7);
    assert_eq!(*map.get(4), 7);
}

#[test]
fn map_with_max_key_zero_has_one_key() {
    let map: DenseMap<u32> = DenseMap::new_with_max_key(0, || 1);
    assert_eq!(map.len(), 1);
    assert_eq!(map.max_key(), 0);
}

#[test]
fn set_max_key_grows_and_keeps_values() {
    let mut map: DenseMap<u32> = DenseMap::new_with_max_key(1, || 1);
    map.set(1, 9);
    map.set_max_key(3, || 2);
    assert_eq!(map.len(), 4);
    let values: Vec<u32> = map.iter().copied().collect();
    assert_eq!(values, vec![1, 9, 2, 2]);
}

#[test]
fn set_max_key_never_shrinks() {
    let mut map: DenseMap<u32> = DenseMap::new_with_max_key(5, || 3);
    map.set_max_key(2, || 0);
    assert_eq!(map.len(), 6);
    map.set_max_key(5, || 0);
    assert_eq!(map.len(), 6);
    assert!(map.iter().all(|v| *v == 3));
}

#[test]
fn set_max_key_on_empty_map() {
    let mut map: DenseMap<String> = DenseMap::new();
    map.set_max_key(0, String::new);
    assert_eq!(map.len(), 1);
    assert_eq!(map.max_key(), 0);
}

#[test]
fn get_mut_changes_one_value() {
    let mut map: DenseMap<u32> = DenseMap::new_with_max_key(2, || 0);
    *map.get_mut(1) += 5;
    let values: Vec<u32> = map.iter().copied().collect();
    assert_eq!(values, vec![0, 5, 0]);
}

#[test]
fn metrics_start_at_zero() {
    let metrics = Metrics::new(3);
    assert_eq!(metrics.iterations, 0);
    assert_eq!(metrics.fields_skipped, 0);
    assert_eq!(metrics.words_selected, 0);
    assert_eq!(metrics.words_skipped.len(), 4);
    assert!(metrics.words_skipped.iter().all(|v| *v == 0));
}
