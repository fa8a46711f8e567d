use rand::Rng;

use xsl::collections::flag::Color;
use xsl::collections::flag::Flag;
use xsl::collections::flag::toggle_rela;
use xsl::collections::node::SearchResult;
use xsl::collections::FuzzyFinder;
use xsl::collections::RBTreeMap;

fn keys_of(map: &RBTreeMap<u64>) -> Vec<u64> {
    let mut it = map.iter();
    let mut keys = Vec::new();
    while let Some((k, _)) = it.next() {
        keys.push(k);
    }
    keys
}

#[test]
fn large_data() {
    let mut rng = rand::thread_rng();
    let mut data = Vec::new();
    for _ in 0..100000 {
        let key: u64 = rng.gen_range(0..1000000);
        data.push(key);
    }
    let mut tree = RBTreeMap::new();
    for k in data.iter() {
        tree.insert(k.clone(), 0u64);
    }
    for k in &data {
        tree.remove(*k);
    }
}

#[test]
fn rbtree() {
    for _ in 0..10 {
        let mut tree = RBTreeMap::new();
        let mut rng = rand::thread_rng();
        let mut data: Vec<u64> = Vec::new();
        while data.len() < 1 {
            let key: u64 = rng.gen_range(0..1000000);
            if !data.contains(&key) {
                data.push(key);
            }
        }
        for k in data.iter() {
            tree.insert(k.clone(), 0u64);
        }
        for k in &data {
            tree.remove(*k);
        }
        assert!(tree.is_empty());
    }
}

#[test]
fn fuzzy_finder() {
    let mut finder = FuzzyFinder::new();
    finder.insert("hello".to_string(), 1);
    assert_eq!(finder.search("hello".to_string()), vec![1]);
    assert_eq!(finder.search("world".to_string()), Vec::<i32>::new());
    finder.insert("ello".to_string(), 2);
    assert_eq!(finder.search_prefix("he".to_string()), vec![1]);
    assert_eq!(finder.search_prefix("e".to_string()), vec![2, 1]);
    assert_eq!(finder.search_prefix("w".to_string()), Vec::<i32>::new());
}

#[test]
fn fuzzy_finder_case_folding() {
    let mut finder = FuzzyFinder::new();
    finder.insert("Hello".to_string(), 7);
    assert_eq!(finder.search("hELLO".to_string()), vec![7]);
    let mut exact = FuzzyFinder::with_params(0, false);
    exact.insert("Hello".to_string(), 7);
    assert_eq!(exact.search("hello".to_string()), Vec::<i32>::new());
    assert_eq!(exact.search("Hello".to_string()), vec![7]);
}

#[test]
fn fuzzy_prefix_keeps_earlier_results() {
    let mut finder = FuzzyFinder::new();
    finder.insert("hello".to_string(), 1);
    assert_eq!(finder.search_prefix("he".to_string()), vec![1]);
    finder.insert("zzz".to_string(), 9);
    assert_eq!(finder.search_prefix("he".to_string()), vec![1]);
    assert_eq!(finder.search_prefix("zz".to_string()), vec![9]);
}

#[test]
fn fuzzy_prefix_counts_each_word_once() {
    let mut finder = FuzzyFinder::new();
    finder.insert("ab".to_string(), 1);
    finder.insert("abb".to_string(), 2);
    assert_eq!(finder.search_prefix("ab".to_string()), vec![1, 2]);
    assert_eq!(finder.search_prefix("a".to_string()), vec![1, 2]);
}

#[test]
fn ordered_scenario() {
    let mut map = RBTreeMap::new();
    for k in [10u64, 20, 30, 15, 25, 5] {
        map.insert(k, k);
    }
    assert_eq!(keys_of(&map), vec![5, 10, 15, 20, 25, 30]);
    assert_eq!(map.remove(20), Some(20));
    assert_eq!(keys_of(&map), vec![5, 10, 15, 25, 30]);
    assert!(map.check());
}

#[test]
fn insert_returns_previous_value() {
    let mut map = RBTreeMap::new();
    assert_eq!(map.insert(37, "a"), None);
    assert!(!map.is_empty());
    map.insert(37, "b");
    assert_eq!(map.insert(37, "c"), Some("b"));
    assert_eq!(map.get(37), Some(&"c"));
}

#[test]
fn entry_equivalence() {
    let mut map = RBTreeMap::new();
    map.or_insert(3, 30u64);
    assert_eq!(map.get(3), Some(&30));
    map.or_insert(3, 99);
    assert_eq!(map.get(3), Some(&30));
    assert_eq!(map.insert(3, 31), Some(30));
    assert_eq!(map.get(3), Some(&31));
}

#[test]
fn search_reports_presence() {
    let mut map = RBTreeMap::new();
    map.insert(1, 10u64);
    assert!(matches!(map.search(1), SearchResult::Found));
    assert!(matches!(map.search(2), SearchResult::NotFound));
    assert!(map.contains_key(1));
    assert!(!map.contains_key(2));
    assert_eq!(map.get_key_value(1), Some((1, &10)));
    assert_eq!(map.get_key_value(2), None);
}

#[test]
fn first_last_and_pop() {
    let mut map = RBTreeMap::new();
    assert_eq!(map.first_key_value(), None);
    assert_eq!(map.last_key_value(), None);
    map.insert(2, 20u64);
    map.insert(1, 10);
    map.insert(3, 30);
    assert_eq!(map.first_key_value(), Some((1, &10)));
    assert_eq!(map.last_key_value(), Some((3, &30)));
    assert_eq!(map.pop_first(), Some((1, 10)));
    assert_eq!(map.pop_last(), Some((3, 30)));
    assert_eq!(map.pop_first(), Some((2, 20)));
    assert_eq!(map.pop_first(), None);
    assert!(map.is_empty());
}

#[test]
fn size_matches_iteration() {
    let mut map = RBTreeMap::new();
    for k in [8u64, 3, 11, 1, 5, 9, 13] {
        map.insert(k, k * 2);
    }
    let mut it = map.iter();
    assert_eq!(it.len(), map.len());
    let mut count = 0;
    while let Some(_) = it.next() {
        count += 1;
    }
    assert_eq!(count, map.len());
    map.clear();
    assert_eq!(map.len(), 0);
    assert!(map.is_empty());
    assert!(map.check());
}

#[test]
fn round_trip_random_keys() {
    let mut rng = rand::thread_rng();
    let mut data: Vec<u64> = Vec::new();
    for _ in 0..2000 {
        data.push(rng.gen_range(0..100000));
    }
    let mut map = RBTreeMap::new();
    for k in &data {
        map.insert(*k, 0u64);
    }
    assert!(map.check());
    let keys = keys_of(&map);
    for w in keys.windows(2) {
        assert!(w[0] < w[1]);
    }
    for k in &data {
        map.remove(*k);
    }
    assert!(map.is_empty());
    assert!(map.check());
}

#[test]
fn clone_independence() {
    let mut map = RBTreeMap::new();
    for k in [4u64, 2, 6, 1, 3] {
        map.insert(k, k + 100);
    }
    let mut copy = map.clone();
    copy.insert(7, 107);
    copy.remove(2);
    assert_eq!(map.get(7), None);
    assert_eq!(map.get(2), Some(&102));
    assert_eq!(copy.get(7), Some(&107));
    assert_eq!(copy.get(2), None);
    assert!(map.check());
    assert!(copy.check());
}

#[test]
fn double_ended_iteration() {
    let mut map = RBTreeMap::new();
    for k in [1u64, 2, 3, 4] {
        map.insert(k, k);
    }
    let mut it = map.iter();
    assert_eq!(it.next(), Some((1, 1)));
    assert_eq!(it.next_back(), Some((4, 4)));
    assert_eq!(it.next(), Some((2, 2)));
    assert_eq!(it.next_back(), Some((3, 3)));
    assert_eq!(it.next(), None);
    let mut vs = map.values();
    assert_eq!(vs.len(), 4);
    assert_eq!(vs.next(), Some(1));
    assert_eq!(vs.next_back(), Some(4));
}

#[test]
fn bulk_build() {
    let pairs: Vec<(u64, u64)> = vec![(1, 10), (2, 20), (3, 30)];
    let map = RBTreeMap::bulk_build_from_sorted_iter(pairs);
    assert_eq!(map.len(), 3);
    assert_eq!(map.get(2), Some(&20));
    assert!(map.check());
}

#[test]
fn flag_bits() {
    let mut f = Flag { flag: 0 };
    assert!(f.is_red());
    assert!(!f.is_black());
    assert!(f.is_left());
    f.set_black();
    assert!(f.is_black());
    assert!(f.is_left());
    f.set_rela(0b01);
    assert!(f.is_right());
    assert!(f.is_black());
    f.set_root();
    assert!(f.is_root());
    assert!(f.is_black());
    f.clear_root();
    assert!(!f.is_root());
    f.set_red();
    assert_eq!(f.color().as_u8(), Color::RED.as_u8());
    f.set_color(Color::BLACK);
    assert_eq!(f.rela(), f.flag & 0b11);
    assert_eq!(toggle_rela(0), 1);
    assert_eq!(toggle_rela(1), 0);
    assert_eq!(toggle_rela(2), 2);
}
