use magictile::nethash::{distinct, NetKey, NetMap, NetSet};

/// A key matching stored keys within 2, hashed by its tens (like rounded coordinates).
#[derive(Clone, Copy, Debug, PartialEq)]
struct Near(i64);

impl NetKey for Near {
    fn hash_code(&self) -> i32 {
        self.net_hash()
    }

    fn key_matches(&self, other: &Self) -> bool {
        self.net_eq(other)
    }

    fn net_hash(&self) -> i32 {
        (self.0 / 10) as i32
    }

    fn net_eq(&self, other: &Self) -> bool {
        (self.0 - other.0).abs() <= 2
    }
}

#[test]
fn near_keys_keep_insertion_order_and_first_key() {
    let mut m = NetMap::new();
    m.insert(Near(33), 'a');
    m.insert(Near(11), 'b');
    m.insert(Near(34), 'c');
    let entries: Vec<_> = m.iter().iter().map(|(k, v)| (k.0, *v)).collect();
    assert_eq!(entries, vec![(33, 'c'), (11, 'b')]);
}

#[test]
fn keys_within_tolerance_but_in_other_buckets_are_distinct() {
    let mut s = NetSet::new();
    assert!(s.insert(Near(19)));
    // 21 is within 2 of 19, but hashes to another bucket.
    assert!(s.insert(Near(21)));
    assert!(!s.insert(Near(20)));
    assert_eq!(s.len(), 2);
}

#[test]
fn lookup_finds_the_newest_match() {
    let mut m = NetMap::new();
    m.insert(Near(10), 0);
    m.insert(Near(13), 1);
    // 12 is within 2 of both; the newest wins.
    assert_eq!(m.index_of(&Near(12)), Some(1));
    assert_eq!(m.index_of(&Near(10)), Some(0));
    assert_eq!(m.index_of(&Near(50)), None);
}

#[test]
fn distinct_keeps_first_near_key() {
    let v = distinct(vec![Near(1), Near(5), Near(2), Near(5)]);
    assert_eq!(v, vec![Near(1), Near(5)]);
}

#[test]
fn integer_keys_hash_like_dotnet() {
    assert_eq!(5i64.net_hash(), 5);
    assert_eq!((1i64 << 32).net_hash(), 1);
    assert_eq!((-1i64).net_hash(), 0);
    assert!(7i64.net_eq(&7));
    assert!(!7i64.net_eq(&8));
}

#[test]
fn try_add_leaves_existing_entries() {
    let mut m: NetMap<i64, &str> = NetMap::new();
    assert!(m.try_add(4, "four"));
    assert!(!m.try_add(4, "vier"));
    assert_eq!(m.get(&4), Some(&"four"));
    assert_eq!(m.len(), 1);
    assert!(!m.is_empty());
    m.clear();
    assert!(m.is_empty());
    assert!(!m.contains_key(&4));
}

#[test]
fn get_mut_and_get_or_insert_with() {
    let mut m: NetMap<i64, Vec<i32>> = NetMap::new();
    m.get_or_insert_with(3, Vec::new).push(1);
    m.get_or_insert_with(3, Vec::new).push(2);
    m.get_or_insert_with(9, || vec![7]);
    if let Some(v) = m.get_mut(&9) {
        v.push(8);
    }
    assert!(m.get_mut(&5).is_none());
    assert_eq!(m.get(&3), Some(&vec![1, 2]));
    assert_eq!(m.get(&9), Some(&vec![7, 8]));
    assert_eq!(m.get_index(1).map(|(k, _)| *k), Some(9));
    assert!(m.get_index(2).is_none());
    let keys: Vec<i64> = m.keys().into_iter().copied().collect();
    assert_eq!(keys, vec![3, 9]);
    let lens: Vec<usize> = m.values().into_iter().map(|v| v.len()).collect();
    assert_eq!(lens, vec![2, 2]);
    assert_eq!(m.into_entries(), vec![(3, vec![1, 2]), (9, vec![7, 8])]);
}

#[test]
fn sets_from_vectors() {
    let s = NetSet::from_vec(vec![5i64, 3, 5, 1]);
    assert!(s.contains(&3));
    assert!(!s.contains(&4));
    let items: Vec<i64> = s.iter().into_iter().copied().collect();
    assert_eq!(items, vec![5, 3, 1]);
    assert_eq!(s.into_vec(), vec![5, 3, 1]);
    let mut e: NetSet<i64> = NetSet::default();
    assert!(e.is_empty());
    e.insert(2);
    e.clear();
    assert_eq!(e.len(), 0);
}

#[test]
fn values_change_in_place_by_index() {
    let mut m: NetMap<i64, i32> = NetMap::new();
    m.insert(10, 1);
    m.insert(20, 2);
    *m.value_at_mut(1) += 5;
    assert_eq!(m.get(&20), Some(&7));
    assert_eq!(m.get(&10), Some(&1));
    assert_eq!(m.len(), 2);
}
