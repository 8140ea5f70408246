use oxlive::fx::{hash_words, FxMap, FxSet};
use oxlive::model::Text;
use oxlive::numeric_encoder::StrHash;
use rustc_hash::FxHasher;
use siphasher::sip128::SipHasher24;
use std::hash::Hasher;

fn pair(first: u64, second: u64) -> u64 {
    let mut hasher = FxHasher::default();
    hasher.write_u64(first);
    hasher.write_u64(second);
    hasher.finish()
}

#[test]
fn words_are_hashed_one_after_the_other() {
    assert_eq!(hash_words(&vec![]), 0);
    assert_eq!(hash_words(&vec![3]), pair(0, 3));
    assert_eq!(hash_words(&vec![3, 5]), pair(pair(0, 3), 5));
    assert_ne!(hash_words(&vec![3, 5]), hash_words(&vec![5, 3]));
}

#[test]
fn the_hash_of_two_words_is_that_of_their_formula() {
    let add = |state: u64, word: u64| -> u64 {
        state.wrapping_add(word).wrapping_mul(0xf135_7aea_2e62_a9c5)
    };
    let half = |state: u32, word: u32| -> u32 {
        state.wrapping_add(word).wrapping_mul(0x93d7_65dd)
    };
    for (first, second) in [(0, 3), (1, u64::MAX), (0x1234_5678_9abc_def0, 7)] {
        let formula = if usize::BITS == 64 {
            add(add(0, first), second).rotate_left(26)
        } else {
            let state = half(half(0, first as u32), (first >> 32) as u32);
            let state = half(half(state, second as u32), (second >> 32) as u32);
            u64::from(state.rotate_left(15))
        };
        assert_eq!(pair(first, second), formula);
    }
}

#[test]
fn strings_are_hashed_without_a_key() {
    let text = "http://example.com/a-rather-long-name";
    let hash = StrHash::new(&Text::new(text.as_bytes().to_vec()));
    assert_eq!(hash.hash, u128::from(SipHasher24::new().hash(text.as_bytes())));
    assert_ne!(hash, StrHash::new(&Text::new(b"http://example.com/another".to_vec())));
}

#[test]
fn a_map_gives_back_what_was_put_in() {
    let mut map: FxMap<usize, &str> = FxMap::new();
    assert!(map.is_empty());
    map.insert(3, "three");
    map.insert(4, "four");
    map.insert(3, "drei");
    assert_eq!(map.get(&3), Some(&"drei"));
    assert_eq!(map.get(&4), Some(&"four"));
    assert_eq!(map.get(&5), None);
    assert!(map.contains_key(&4));
    let mut keys = map.keys();
    keys.sort();
    assert_eq!(keys, vec![3, 4]);
    assert_eq!(map.remove(&3), Some("drei"));
    assert_eq!(map.remove(&3), None);
    assert!(!map.contains_key(&3));
    map.clear();
    assert!(map.is_empty());
    assert!(map.keys().is_empty());
}

#[test]
fn a_set_holds_a_key_once() {
    let mut set: FxSet<usize> = FxSet::new();
    assert!(set.insert(1));
    assert!(!set.insert(1));
    assert!(set.insert(2));
    let copy = set.duplicate();
    assert!(set.remove(&1));
    assert!(!set.remove(&1));
    assert!(!set.contains(&1));
    assert!(copy.contains(&1));
    assert_eq!(set.items(), vec![2]);
    let mut items = copy.items();
    items.sort();
    assert_eq!(items, vec![1, 2]);
    set.clear();
    assert!(set.is_empty());
}

#[test]
fn a_map_tells_many_keys_apart() {
    let mut map: FxMap<usize, usize> = FxMap::new();
    for key in 0..1000 {
        map.insert(key, key * key);
    }
    for key in 0..1000 {
        assert_eq!(map.get(&key), Some(&(key * key)));
    }
    for key in 0..500 {
        assert_eq!(map.remove(&(2 * key)), Some(4 * key * key));
    }
    assert_eq!(map.keys().len(), 500);
    assert_eq!(map.get(&998), None);
    assert_eq!(map.get(&999), Some(&(999 * 999)));
}
