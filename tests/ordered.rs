use interval_sets::ord_wrap::Ordered;
use interval_sets::ordered::OrderedIndex;
use std::collections::BTreeMap;

fn index_of(keys: &[i64]) -> OrderedIndex<()> {
    let mut index = OrderedIndex::new();
    for &k in keys {
        index.insert(k, ());
    }
    index
}

#[test]
fn test_left_of() {
    let set = index_of(&[1, 2, 7, 8, 9, 10, 14, 15, 16]);
    assert_eq!(set.predecessor(13).map(|(k, _)| k), Some(10));
}

#[test]
fn test_borrow() {
    let mut index = OrderedIndex::new();
    index.insert(3, String::from("three"));
    let value: &String = index.get(3).unwrap();
    assert_eq!(value.as_str(), "three");
}

#[test]
fn test_remove_by_ref_with_string_key() {
    let mut map: BTreeMap<String, &str> =
        ["aa", "ab", "ac"].into_iter().map(|x| (x.to_string(), "val")).collect();
    let key = map.first_key_value().unwrap().0.clone();
    let val = map.remove(&key);
    assert_eq!(val, Some("val"));
    assert_eq!(map.len(), 2);
}

#[test]
fn test() {
    let a = Ordered::from(1.7);
    let b = Ordered::from(1.7);
    assert_eq!(a, b);
}

#[test]
fn ordered_rejects_nan() {
    assert!(Ordered::new(f64::NAN).is_none());
    assert_eq!(Ordered::new(2.5).map(|o| o.unbox()), Some(2.5));
    let mut o = Ordered::new(1.0).unwrap();
    assert!(!o.set(f64::NAN));
    assert_eq!(o.unbox(), 1.0);
    assert!(o.set(4.0));
    assert_eq!(o.unbox(), 4.0);
}

#[test]
fn index_keeps_keys_in_order() {
    let mut index = OrderedIndex::new();
    for k in [5, -3, 12, 0, 7] {
        index.insert(k, k * 10);
    }
    index.insert(7, 71);
    let keys: Vec<i64> = (0..index.len()).map(|i| index.entry(i).0).collect();
    assert_eq!(keys, vec![-3, 0, 5, 7, 12]);
    assert_eq!(index.get(7), Some(&71));
    assert_eq!(index.get(6), None);
    assert_eq!(index.predecessor(-4).map(|(k, _)| k), None);
    assert_eq!(index.predecessor(6).map(|(k, v)| (k, *v)), Some((5, 50)));
    assert_eq!(index.remove(0), Some(0));
    assert_eq!(index.remove(0), None);
    index.remove_range(-3, 7);
    let keys: Vec<i64> = (0..index.len()).map(|i| index.entry(i).0).collect();
    assert_eq!(keys, vec![12]);
}
