use ngram::multimap::ConcurrentMultiMap;
use quickcheck::quickcheck;
use std::collections::hash_map::DefaultHasher;
use std::collections::HashSet;
use std::hash::{Hash, Hasher};

#[derive(PartialEq, Eq, Hash)]
struct UnCloneable(i32);

fn new_is_empty(n: i32) {
    let map = ConcurrentMultiMap::<UnCloneable, usize>::new(10);
    assert_eq!(map.get(&UnCloneable(n)).len(), 0);
}

fn get_after_set_single(k: i32, v: usize) {
    let mut map = ConcurrentMultiMap::<UnCloneable, usize>::new(10);
    map.set(UnCloneable(k), v as usize);
    assert_eq!(map.get(&UnCloneable(k)), vec![v as usize]);
}

fn get_after_set_multi(k: i32, values: HashSet<usize>) {
    let mut map = ConcurrentMultiMap::<UnCloneable, usize>::new(10);
    for values in values.iter() {
        map.set(UnCloneable(k), *values as usize);
    }
    let result = map.get(&UnCloneable(k));
    println!("+==================+");
    println!("{:?}", k);
    println!("{:?}", values);
    println!("{:?}", result);
    assert_eq!(result.len(), values.len());
    for values in values.iter() {
        assert!(result.contains(&(*values as usize)));
    }
}

fn get_from_large_map(k: i32, v: usize, others: Vec<(i32, usize)>) {
    let mut map = ConcurrentMultiMap::<UnCloneable, usize>::new(1000);
    for (k, v) in others.iter() {
        map.set(UnCloneable(*k), *v as usize);
    }
    map.set(UnCloneable(k), v as usize);
    assert!(map.get(&UnCloneable(k)).contains(&(v as usize)));
}

fn no_duplicates(k: i32, v: usize) {
    let mut map = ConcurrentMultiMap::<UnCloneable, usize>::new(10);
    map.set(UnCloneable(k), v as usize);
    map.set(UnCloneable(k), v as usize);
    map.set(UnCloneable(k), v as usize);
    map.set(UnCloneable(k), v as usize);
    assert_eq!(map.get(&UnCloneable(k)), vec![v as usize]);
}

#[test]
fn test_new_is_empty_5() {
    quickcheck(new_is_empty as fn(i32));
}

#[test]
fn test_get_after_set_single_5() {
    quickcheck(get_after_set_single as fn(i32, usize));
}

#[test]
fn test_get_after_set_multi_5() {
    quickcheck(get_after_set_multi as fn(i32, HashSet<usize>));
}

#[test]
fn test_get_from_large_map_5() {
    quickcheck(get_from_large_map as fn(i32, usize, Vec<(i32, usize)>));
}

#[test]
fn test_no_duplicates_5() {
    quickcheck(no_duplicates as fn(i32, usize));
}

#[test]
fn values_come_back_in_insertion_order() {
    let mut map = ConcurrentMultiMap::<u64, usize>::new(4);
    map.set(7, 30);
    map.set(7, 10);
    map.set(7, 20);
    map.set(7, 10);
    assert_eq!(map.get(&7), vec![30, 10, 20]);
}

#[test]
fn other_keys_are_not_affected() {
    let mut map = ConcurrentMultiMap::<u64, usize>::new(1);
    map.set(1, 100);
    map.set(2, 200);
    map.set(1, 101);
    assert_eq!(map.get(&1), vec![100, 101]);
    assert_eq!(map.get(&2), vec![200]);
    assert_eq!(map.get(&3), Vec::<usize>::new());
}

#[test]
fn hashed_operations_use_the_bucket_of_the_hash() {
    let mut map = ConcurrentMultiMap::<u64, usize>::new(3);
    // hashes 1 and 4 fall in the same bucket, 2 in another
    map.set_hashed(1, 9, 1);
    map.set_hashed(4, 9, 2);
    assert_eq!(map.get_hashed(1, &9), vec![1, 2]);
    assert_eq!(map.get_hashed(7, &9), vec![1, 2]);
    assert_eq!(map.get_hashed(2, &9), Vec::<usize>::new());
    map.set_hashed(4, 9, 1);
    assert_eq!(map.get_hashed(4, &9), vec![1, 2]);
}

#[test]
fn single_bucket_map_holds_every_key() {
    let mut map = ConcurrentMultiMap::<String, String>::new(1);
    map.set("the".to_string(), "a".to_string());
    map.set("cat".to_string(), "b".to_string());
    map.set("the".to_string(), "c".to_string());
    assert_eq!(map.get(&"the".to_string()), vec!["a".to_string(), "c".to_string()]);
    assert_eq!(map.get(&"cat".to_string()), vec!["b".to_string()]);
}

#[test]
fn sequential_stress() {
    let mut map = ConcurrentMultiMap::<UnCloneable, usize>::new(128);
    for i in 0..2000usize {
        map.set(UnCloneable((i % 37) as i32), i % 101);
    }
    for k in 0..37i32 {
        let values = map.get(&UnCloneable(k));
        let distinct: HashSet<usize> = values.iter().cloned().collect();
        assert_eq!(distinct.len(), values.len());
        for v in values {
            assert!((0..2000usize).any(|i| (i % 37) as i32 == k && i % 101 == v));
        }
    }
}

#[test]
fn set_puts_the_pair_in_the_bucket_of_the_key_hash() {
    for key in [3u64, 77, 123456789] {
        let mut hasher = DefaultHasher::new();
        key.hash(&mut hasher);
        let hash = hasher.finish();
        let mut map = ConcurrentMultiMap::<u64, usize>::new(1000);
        map.set(key, 5);
        assert_eq!(map.get_hashed(hash, &key), vec![5]);
        assert_eq!(map.get_hashed(hash.wrapping_add(1), &key), Vec::<usize>::new());
    }
}

#[test]
fn bucket_count_is_reported() {
    let map = ConcurrentMultiMap::<u64, usize>::new(17);
    assert_eq!(map.bucket_count(), 17);
    let map = ConcurrentMultiMap::<u64, usize>::new(0);
    assert_eq!(map.bucket_count(), 0);
}

#[test]
fn bucket_count_changes_no_lookup() {
    let pairs: Vec<(u64, usize)> = (0..300u64).map(|i| (i % 13, (i * 7 % 11) as usize)).collect();
    let mut small = ConcurrentMultiMap::<u64, usize>::new(1);
    let mut large = ConcurrentMultiMap::<u64, usize>::new(97);
    for (k, v) in pairs.iter() {
        small.set(*k, *v);
        large.set(*k, *v);
    }
    for k in 0..15u64 {
        assert_eq!(small.get(&k), large.get(&k));
    }
}

#[test]
fn sets_of_different_keys_commute() {
    let mut a = ConcurrentMultiMap::<u64, usize>::new(2);
    let mut b = ConcurrentMultiMap::<u64, usize>::new(2);
    a.set(1, 10);
    a.set(2, 20);
    b.set(2, 20);
    b.set(1, 10);
    for k in 0..4u64 {
        assert_eq!(a.get(&k), b.get(&k));
    }
}

#[test]
fn setting_a_pair_twice_is_setting_it_once() {
    let mut a = ConcurrentMultiMap::<u64, usize>::new(3);
    let mut b = ConcurrentMultiMap::<u64, usize>::new(3);
    a.set(5, 1);
    b.set(5, 1);
    b.set(5, 1);
    assert_eq!(a.get(&5), b.get(&5));
    assert_eq!(a.get(&5), vec![1]);
}
