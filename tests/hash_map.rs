use rs_algorithm_practise::data_structure::hash_map::{BucketList, HashMap};
use rs_algorithm_practise::supplementary::hash::{hash, u64_le_bytes, HashKey, MHash};

#[test]
fn test_bucketlist() {
    let mut bl = BucketList::new();

    bl.push("port", 8080);
    assert_eq!(bl.get(&"port"), Some(&8080));

    *bl.get_mut(&"port").unwrap() += 1;
    assert_eq!(bl.get(&"port"), Some(&8081));
}

#[test]
fn test_hashmap() {
    let mut hm = HashMap::new();
    hm.insert("key", "value");
    assert_eq!(hm.get(&"key"), Some(&"value"));
}

#[test]
fn hashmap_absent_key_is_none() {
    let mut hm = HashMap::new();
    hm.insert("key", "value");
    assert_eq!(hm.get(&"key"), Some(&"value"));
    assert_eq!(hm.get(&"absent"), None);
}

#[test]
fn hashmap_empty() {
    let hm: HashMap<&str, i32> = HashMap::new();
    assert_eq!(hm.len(), 0);
    assert_eq!(hm.get(&"anything"), None);
    assert_eq!(hm.migration_progress(), 0);
}

#[test]
fn hashmap_update_does_not_duplicate() {
    let mut hm = HashMap::new();
    hm.insert("a", 1);
    assert_eq!(hm.len(), 1);
    hm.insert("a", 2);
    assert_eq!(hm.len(), 1);
    assert_eq!(hm.get(&"a"), Some(&2));
}

#[test]
fn hashmap_count_with_overwrites() {
    let mut hm = HashMap::new();
    let keys: [u64; 12] = [1, 2, 3, 1, 4, 2, 5, 6, 7, 7, 8, 1];
    for (i, k) in keys.iter().enumerate() {
        hm.insert(*k, i);
    }
    assert_eq!(hm.len(), 8);
    assert_eq!(hm.get(&1u64), Some(&11));
    assert_eq!(hm.get(&7u64), Some(&9));
    assert_eq!(hm.get(&9u64), None);
}

#[test]
fn hashmap_migration_completes() {
    let mut hm = HashMap::new();
    for k in 0u64..4 {
        hm.insert(k, k * 10);
        assert_eq!(hm.migration_progress(), 0);
    }
    // the fifth key overfills the only bucket and starts a migration
    hm.insert(4u64, 40);
    assert_eq!(hm.migration_progress(), 1);
    for k in 0u64..5 {
        assert_eq!(hm.get(&k), Some(&(k * 10)));
    }
    // the next fresh key finishes it: the old table had a single bucket
    hm.insert(5u64, 50);
    assert_eq!(hm.migration_progress(), 0);
    for k in 0u64..6 {
        assert_eq!(hm.get(&k), Some(&(k * 10)));
    }
    assert_eq!(hm.len(), 6);
}

#[test]
fn hashmap_round_trip_during_migration() {
    let mut hm = HashMap::new();
    for k in 0u64..5 {
        hm.insert(k, k);
    }
    assert!(hm.migration_progress() > 0);
    hm.insert(2u64, 200);
    assert_eq!(hm.get(&2u64), Some(&200));
    assert!(hm.migration_progress() > 0);
}

#[test]
fn hashmap_hundred_keys() {
    let mut hm = HashMap::new();
    for k in 0..100u64 {
        hm.insert(format!("key{}", k), k);
        for j in 0..=k {
            assert_eq!(hm.get(&format!("key{}", j)), Some(&j));
        }
    }
    assert_eq!(hm.len(), 100);
    for k in 0..100u64 {
        assert_eq!(hm.get(&format!("key{}", k)), Some(&k));
    }
}

#[test]
fn hashmap_get_mut() {
    let mut hm = HashMap::new();
    hm.insert(String::from("x"), 1);
    *hm.get_mut(&String::from("x")).unwrap() += 41;
    assert_eq!(hm.get(&String::from("x")), Some(&42));
    assert!(hm.get_mut(&String::from("y")).is_none());
}

#[test]
fn bucketlist_evict_and_grow() {
    let mut bl = BucketList::with_seed(7);
    bl.push(1u64, "one");
    bl.push(2u64, "two");
    assert_eq!(bl.bucket(1), None);
    let taken = bl.bucket(0).unwrap();
    assert_eq!(taken.len(), 2);
    assert_eq!(bl.get(&1u64), None);
    bl.set_buckets(4);
    bl.push(3u64, "three");
    assert_eq!(bl.get(&3u64), Some(&"three"));
    assert!(bl.bucket(3).is_some());
    assert!(bl.bucket(4).is_none());
}

#[test]
fn bucketlist_push_reports_bucket_length() {
    let mut bl = BucketList::with_seed(1);
    assert_eq!(bl.push(10u64, 0), 1);
    assert_eq!(bl.push(11u64, 0), 2);
    assert_eq!(bl.push(12u64, 0), 3);
}

#[test]
fn test_hash() {
    let m = hash(55, &"cat");
    let n = hash(55, &"cat");
    println!("m hash is 0x{:0X}", m);
    assert_eq!(m, n);
    assert_ne!(hash(23, &"cat"), m);
    assert_ne!(hash(55, &"cate"), m);
}

#[test]
fn hash_of_string_matches_str() {
    assert_eq!(hash(9, &String::from("dog")), hash(9, &"dog"));
}

#[test]
fn digest_exact_value() {
    // seed 0 folds in eight zero bytes, then the byte 1
    let mut h = MHash::new();
    h.write(&[0, 0, 0, 0, 0, 0, 0, 0, 1]);
    let mut n: u128 = 0;
    let mut prev: u8 = 0;
    for b in [0u8, 0, 0, 0, 0, 0, 0, 0, 1] {
        n = n
            .wrapping_add(11)
            .wrapping_mul(b as u128 + 13)
            .wrapping_add(((b ^ prev) as u128) % (u64::MAX as u128));
        prev = b;
    }
    assert_eq!(h.finish(), n as u64);
    assert_eq!(hash(0, &1u64), {
        let mut bytes = u64_le_bytes(0);
        bytes.extend(u64_le_bytes(1));
        let mut g = MHash::new();
        g.write(&bytes);
        g.finish()
    });
}

#[test]
fn key_bytes_of_u64_are_little_endian() {
    assert_eq!(u64_le_bytes(0x0102), vec![2, 1, 0, 0, 0, 0, 0, 0]);
    assert_eq!(258u64.key_bytes(), vec![2, 1, 0, 0, 0, 0, 0, 0]);
    assert_eq!("ab".key_bytes(), vec![97, 98]);
}

#[test]
fn hashmap_default_and_clone() {
    let mut hm: HashMap<i32, char> = HashMap::default();
    hm.insert(-3, 'a');
    hm.insert(7, 'b');
    let copy = hm.clone();
    hm.insert(-3, 'z');
    assert_eq!(copy.get(&-3), Some(&'a'));
    assert_eq!(hm.get(&-3), Some(&'z'));
    assert_eq!(copy.len(), 2);
}

#[test]
fn hashmap_other_key_types() {
    let mut hm = HashMap::new();
    for c in ['x', 'y', 'é', '字'] {
        hm.insert(c, c as u32);
    }
    assert_eq!(hm.get(&'é'), Some(&('é' as u32)));
    assert_eq!(hm.len(), 4);
    let mut small: HashMap<u8, i8> = HashMap::new();
    for b in 0u8..=255 {
        small.insert(b, b as i8);
    }
    assert_eq!(small.len(), 256);
    assert_eq!(small.get(&200u8), Some(&(200u8 as i8)));
    let mut neg: HashMap<i64, usize> = HashMap::new();
    neg.insert(-1, 1);
    neg.insert(1, 2);
    assert_eq!(neg.get(&-1), Some(&1));
    assert_eq!(neg.get(&1), Some(&2));
}

#[test]
fn hashmap_update_keeps_migration_state() {
    let mut hm = HashMap::new();
    for k in 0u64..5 {
        hm.insert(k, 0);
    }
    assert_eq!(hm.migration_progress(), 1);
    for k in 0u64..5 {
        hm.insert(k, 1);
        assert_eq!(hm.migration_progress(), 1);
    }
    assert_eq!(hm.len(), 5);
}

#[test]
fn bucketlist_push_repeated_key() {
    let mut bl = BucketList::with_seed(3);
    assert_eq!(bl.push("k", 1), 1);
    assert_eq!(bl.push("k", 2), 2);
    // lookups find the first entry of a key
    assert_eq!(bl.get(&"k"), Some(&1));
    let taken = bl.bucket(0).unwrap();
    assert_eq!(taken, vec![("k", 1), ("k", 2)]);
    assert_eq!(bl.get(&"k"), None);
}

#[test]
fn hashmap_new_key_placement() {
    let mut hm = HashMap::new();
    for k in 0u64..5 {
        hm.insert(k, k);
    }
    // migrating: the fresh key lands in the growth table and stays retrievable
    assert_eq!(hm.migration_progress(), 1);
    hm.insert(100u64, 7);
    assert_eq!(hm.migration_progress(), 0);
    assert_eq!(hm.get(&100u64), Some(&7));
    assert_eq!(hm.len(), 6);
}
