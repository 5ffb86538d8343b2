use bump_allocator::collec::{bucket_of, HashMap};

fn collect_sorted(m: &HashMap<u64, u64>) -> Vec<(u64, u64)> {
    let mut out = Vec::new();
    let mut it = m.iter();
    while let Some((k, v)) = it.next() {
        out.push((*k, *v));
    }
    out.sort();
    out
}

#[test]
fn new_map_has_eight_empty_buckets() {
    let m: HashMap<u64, u64> = HashMap::new();
    assert_eq!(m.len(), 0);
    assert_eq!(m.bucket_count(), 8);
    assert_eq!(m.get(&1), None);
    assert!(m.iter().next().is_none());
    for idx in 0..8 {
        assert_eq!(m.get_at(idx, &1), None);
    }
}

#[test]
fn bucket_of_is_the_remainder() {
    assert_eq!(bucket_of(0, 8), 0);
    assert_eq!(bucket_of(13, 8), 5);
    assert_eq!(bucket_of(16, 8), 0);
    assert_eq!(bucket_of(17, 1), 0);
    assert_eq!(bucket_of(1_000_003, 16), 1_000_003 % 16);
    assert_eq!(bucket_of(u64::MAX, 10), (u64::MAX as usize) % 10);
}

#[test]
fn insert_then_get() {
    let mut m: HashMap<u64, u64> = HashMap::new();
    assert_eq!(m.insert(1, 10), None);
    assert_eq!(m.insert(2, 20), None);
    assert_eq!(m.len(), 2);
    assert_eq!(m.get(&1), Some(&10));
    assert_eq!(m.get(&2), Some(&20));
    assert_eq!(m.get(&3), None);
}

#[test]
fn insert_replaces_and_returns_the_former_value() {
    let mut m: HashMap<u64, u64> = HashMap::new();
    assert_eq!(m.insert(7, 70), None);
    assert_eq!(m.insert(7, 71), Some(70));
    assert_eq!(m.insert(7, 72), Some(71));
    assert_eq!(m.len(), 1);
    assert_eq!(m.get(&7), Some(&72));
    assert_eq!(collect_sorted(&m), vec![(7, 72)]);
}

#[test]
fn remove_returns_the_value_once() {
    let mut m: HashMap<u64, u64> = HashMap::new();
    assert_eq!(m.insert(1, 10), None);
    assert_eq!(m.insert(2, 20), None);
    assert_eq!(m.remove(&1), Some(10));
    assert_eq!(m.remove(&1), None);
    assert_eq!(m.remove(&3), None);
    assert_eq!(m.len(), 1);
    assert_eq!(m.get(&1), None);
    assert_eq!(m.get(&2), Some(&20));
    assert_eq!(m.remove(&2), Some(20));
    assert_eq!(m.len(), 0);
    assert!(m.iter().next().is_none());
}

#[test]
fn buckets_double_when_entries_reach_their_number() {
    let mut m: HashMap<u64, u64> = HashMap::new();
    for k in 0..8 {
        assert_eq!(m.insert(k, k * 2), None);
        assert_eq!(m.bucket_count(), 8);
    }
    assert_eq!(m.insert(8, 16), None);
    assert_eq!(m.bucket_count(), 16);
    for k in 9..16 {
        assert_eq!(m.insert(k, k * 2), None);
    }
    assert_eq!(m.bucket_count(), 16);
    assert_eq!(m.insert(16, 32), None);
    assert_eq!(m.bucket_count(), 32);
    assert_eq!(m.len(), 17);
    for k in 0..17 {
        assert_eq!(m.get(&k), Some(&(k * 2)));
    }
}

#[test]
fn replacing_in_a_full_table_grows_it_too() {
    let mut m: HashMap<u64, u64> = HashMap::new();
    for k in 0..8 {
        m.insert(k, k);
    }
    assert_eq!(m.bucket_count(), 8);
    assert_eq!(m.insert(3, 33), Some(3));
    assert_eq!(m.bucket_count(), 16);
    assert_eq!(m.len(), 8);
}

#[test]
fn removing_does_not_shrink_the_table() {
    let mut m: HashMap<u64, u64> = HashMap::new();
    for k in 0..40 {
        m.insert(k, k);
    }
    let buckets = m.bucket_count();
    assert_eq!(buckets, 64);
    for k in 0..40 {
        assert_eq!(m.remove(&k), Some(k));
    }
    assert_eq!(m.len(), 0);
    assert_eq!(m.bucket_count(), buckets);
}

#[test]
fn thousand_entries_survive_growth() {
    let mut m: HashMap<u64, u64> = HashMap::new();
    for k in 0..1000u64 {
        assert_eq!(m.insert(k * 7919, k), None);
    }
    assert_eq!(m.len(), 1000);
    assert_eq!(m.bucket_count(), 1024);
    for k in 0..1000u64 {
        assert_eq!(m.get(&(k * 7919)), Some(&k));
    }
    assert_eq!(m.get(&1), None);
    let all = collect_sorted(&m);
    assert_eq!(all.len(), 1000);
    for (i, (k, v)) in all.iter().enumerate() {
        assert_eq!(*k, i as u64 * 7919);
        assert_eq!(*v, i as u64);
    }
    for k in (0..1000u64).step_by(2) {
        assert_eq!(m.remove(&(k * 7919)), Some(k));
    }
    assert_eq!(m.len(), 500);
    for k in 0..1000u64 {
        let expected = if k % 2 == 0 { None } else { Some(k) };
        assert_eq!(m.get(&(k * 7919)).copied(), expected);
    }
    assert_eq!(collect_sorted(&m).len(), 500);
}

#[test]
fn the_hasher_spreads_keys_over_the_buckets() {
    let mut m: HashMap<u64, u64> = HashMap::new();
    for k in 0..512u64 {
        m.insert(k, k);
    }
    let buckets = m.bucket_count();
    let mut used = 0;
    for idx in 0..buckets {
        let mut any = false;
        for k in 0..512u64 {
            if m.get_at(idx, &k).is_some() {
                any = true;
                break;
            }
        }
        if any {
            used += 1;
        }
    }
    assert!(used > buckets / 8);
}

#[test]
fn hashed_get_agrees_with_the_bucket_it_was_put_in() {
    let mut m: HashMap<u64, u64> = HashMap::new();
    for k in 0..100u64 {
        m.insert(k, k + 1);
    }
    for k in 0..100u64 {
        let mut holders = 0;
        for idx in 0..m.bucket_count() {
            if let Some(v) = m.get_at(idx, &k) {
                assert_eq!(*v, k + 1);
                holders += 1;
            }
        }
        assert_eq!(holders, 1);
    }
}

#[test]
fn string_keys() {
    let mut m: HashMap<String, usize> = HashMap::new();
    let words =
        ["alpha", "beta", "gamma", "delta", "epsilon", "zeta", "eta", "theta", "iota", "kappa"];
    for (i, w) in words.iter().enumerate() {
        assert_eq!(m.insert(w.to_string(), i), None);
    }
    assert_eq!(m.len(), 10);
    assert_eq!(m.bucket_count(), 16);
    for (i, w) in words.iter().enumerate() {
        assert_eq!(m.get(&w.to_string()), Some(&i));
    }
    assert_eq!(m.insert("beta".to_string(), 100), Some(1));
    assert_eq!(m.remove(&"gamma".to_string()), Some(2));
    assert_eq!(m.get(&"gamma".to_string()), None);
    assert_eq!(m.get(&"omega".to_string()), None);
    assert_eq!(m.len(), 9);
}

#[test]
fn insert_at_appends_to_the_chain() {
    let mut m: HashMap<u64, u64> = HashMap::new();
    assert_eq!(m.insert_at(3, 1, 10), None);
    assert_eq!(m.insert_at(3, 2, 20), None);
    assert_eq!(m.insert_at(3, 3, 30), None);
    assert_eq!(m.insert_at(5, 4, 40), None);
    assert_eq!(m.len(), 4);
    let mut seen = Vec::new();
    let mut it = m.iter();
    while let Some((k, v)) = it.next() {
        seen.push((*k, *v));
    }
    assert_eq!(seen, vec![(1, 10), (2, 20), (3, 30), (4, 40)]);
    assert_eq!(m.insert_at(3, 2, 21), Some(20));
    assert_eq!(m.len(), 4);
    let mut seen = Vec::new();
    let mut it = m.iter();
    while let Some((k, v)) = it.next() {
        seen.push((*k, *v));
    }
    assert_eq!(seen, vec![(1, 10), (2, 21), (3, 30), (4, 40)]);
}

#[test]
fn get_at_looks_in_one_bucket_only() {
    let mut m: HashMap<u64, u64> = HashMap::new();
    assert_eq!(m.insert_at(2, 9, 90), None);
    assert_eq!(m.get_at(2, &9), Some(&90));
    assert_eq!(m.get_at(1, &9), None);
    assert_eq!(m.get_at(2, &8), None);
    // The same key in another bucket is a second entry.
    assert_eq!(m.insert_at(6, 9, 91), None);
    assert_eq!(m.len(), 2);
    assert_eq!(m.get_at(6, &9), Some(&91));
    assert_eq!(m.get_at(2, &9), Some(&90));
}

#[test]
fn remove_at_unlinks_first_middle_and_last() {
    let mut m: HashMap<u64, u64> = HashMap::new();
    for k in 1..=5 {
        assert_eq!(m.insert_at(0, k, k * 10), None);
    }
    assert_eq!(m.remove_at(0, &3), Some(30));
    assert_eq!(m.remove_at(0, &1), Some(10));
    assert_eq!(m.remove_at(0, &5), Some(50));
    assert_eq!(m.remove_at(0, &5), None);
    assert_eq!(m.remove_at(1, &2), None);
    assert_eq!(m.len(), 2);
    let mut seen = Vec::new();
    let mut it = m.iter();
    while let Some((k, v)) = it.next() {
        seen.push((*k, *v));
    }
    assert_eq!(seen, vec![(2, 20), (4, 40)]);
    assert_eq!(m.remove_at(0, &2), Some(20));
    assert_eq!(m.remove_at(0, &4), Some(40));
    assert_eq!(m.len(), 0);
    assert!(m.iter().next().is_none());
}

#[test]
fn iterator_walks_bucket_by_bucket() {
    let mut m: HashMap<u64, u64> = HashMap::new();
    assert_eq!(m.insert_at(7, 1, 1), None);
    assert_eq!(m.insert_at(0, 2, 2), None);
    assert_eq!(m.insert_at(4, 3, 3), None);
    assert_eq!(m.insert_at(0, 4, 4), None);
    let mut it = m.iter();
    assert_eq!(it.next(), Some((&2, &2)));
    assert_eq!(it.next(), Some((&4, &4)));
    assert_eq!(it.next(), Some((&3, &3)));
    assert_eq!(it.next(), Some((&1, &1)));
    assert_eq!(it.next(), None);
    assert_eq!(it.next(), None);
}

#[test]
fn growth_keeps_entries_put_in_by_index() {
    let mut m: HashMap<u64, u64> = HashMap::new();
    for k in 0..8u64 {
        assert_eq!(m.insert_at(0, k, k), None);
    }
    assert_eq!(m.bucket_count(), 8);
    assert_eq!(m.insert(100, 100), None);
    assert_eq!(m.bucket_count(), 16);
    assert_eq!(m.len(), 9);
    let all = collect_sorted(&m);
    let mut expected: Vec<(u64, u64)> = (0..8).map(|k| (k, k)).collect();
    expected.push((100, 100));
    assert_eq!(all, expected);
    for k in 0..8u64 {
        assert_eq!(m.get(&k), Some(&k));
    }
}
