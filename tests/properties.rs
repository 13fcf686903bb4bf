use std::collections::BTreeMap;

use rand::rngs::StdRng;
use rand::{RngCore, SeedableRng};

use kelvin_map::{
    BinaryWalker, Child, DefaultMap, KelvinMap, Leaf, MapAnnotation, MapAnnotationDefault,
    MapError, MapKey, MaxKey, Step, Walker,
};

fn root_sizes<K: MapKey, V>(map: &DefaultMap<K, V>) -> Option<(u64, u64)> {
    match map {
        KelvinMap::Node(l, r) => Some((
            <MapAnnotationDefault<K> as MapAnnotation<K, V>>::cardinality(l.annotation()),
            <MapAnnotationDefault<K> as MapAnnotation<K, V>>::cardinality(r.annotation()),
        )),
        _ => None,
    }
}

fn root_is_balanced<K: MapKey, V>(map: &DefaultMap<K, V>) -> bool {
    match root_sizes(map) {
        Some((l, r)) => l <= r + 2 && r <= l + 2,
        None => true,
    }
}

#[test]
fn last_insert_wins_and_returns_previous() {
    let mut map: DefaultMap<u32, u32> = DefaultMap::new();
    assert_eq!(map.insert(7, 1), Ok(None));
    assert_eq!(map.insert(3, 30), Ok(None));
    assert_eq!(map.insert(7, 2), Ok(Some(1)));
    assert_eq!(map.insert(9, 90), Ok(None));
    assert_eq!(map.insert(7, 3), Ok(Some(2)));
    assert_eq!(map.get(&7).unwrap(), Some(&3));
    assert_eq!(map.get(&3).unwrap(), Some(&30));
    assert_eq!(map.len(), 3);
}

#[test]
fn round_trip_survives_other_inserts() {
    let mut map: DefaultMap<u64, u64> = DefaultMap::new();
    map.insert(50, 5).unwrap();
    assert_eq!(map.get(&50).unwrap(), Some(&5));
    for k in 0..100u64 {
        if k != 50 {
            map.insert(k, k * 10).unwrap();
            assert_eq!(map.get(&50).unwrap(), Some(&5));
        }
    }
    for k in 0..100u64 {
        let expected = if k == 50 { 5 } else { k * 10 };
        assert_eq!(map.get(&k).unwrap(), Some(&expected));
    }
}

#[test]
fn remove_absent_keeps_len_and_second_remove_finds_nothing() {
    let mut map: DefaultMap<i32, i32> = DefaultMap::new();
    for k in -5..5 {
        map.insert(k, k * k).unwrap();
    }
    assert_eq!(map.len(), 10);
    assert_eq!(map.remove(&100), Ok(None));
    assert_eq!(map.len(), 10);
    assert_eq!(map.remove(&-3), Ok(Some(9)));
    assert_eq!(map.remove(&-3), Ok(None));
    assert_eq!(map.len(), 9);
    assert_eq!(map.get(&-3).unwrap(), None);
}

#[test]
fn len_counts_distinct_live_keys() {
    let mut map: DefaultMap<u16, u16> = DefaultMap::new();
    let mut model: BTreeMap<u16, u16> = BTreeMap::new();
    let mut state: u32 = 12345;
    for step in 0..2000u32 {
        state = state.wrapping_mul(1103515245).wrapping_add(12345);
        let key = ((state >> 16) % 64) as u16;
        if (state >> 8) % 3 == 0 {
            assert_eq!(map.remove(&key).unwrap(), model.remove(&key));
        } else {
            let value = step as u16;
            assert_eq!(map.insert(key, value).unwrap(), model.insert(key, value));
        }
        assert_eq!(map.len(), model.len());
        assert_eq!(map.is_empty(), model.is_empty());
        assert!(root_is_balanced(&map));
    }
    for (k, v) in model.iter() {
        assert_eq!(map.get(k).unwrap(), Some(v));
    }
}

#[test]
fn root_stays_balanced_under_ascending_and_descending_runs() {
    let mut map: DefaultMap<u64, u64> = DefaultMap::new();
    for k in 0..300u64 {
        map.insert(k, k).unwrap();
        assert!(root_is_balanced(&map));
    }
    for k in (0..300u64).rev().step_by(2) {
        assert_eq!(map.remove(&k), Ok(Some(k)));
        assert!(root_is_balanced(&map));
    }
    for k in (1000..1300u64).rev() {
        map.insert(k, k).unwrap();
        assert!(root_is_balanced(&map));
    }
    assert_eq!(map.len(), 450);
}

#[test]
fn inner_nodes_are_not_rebalanced() {
    let mut map: DefaultMap<u8, u8> = DefaultMap::new();
    for k in 0..8u8 {
        map.insert(k, k).unwrap();
    }
    assert_eq!(root_sizes(&map), Some((3, 5)));
    let right = match &map {
        KelvinMap::Node(_, r) => r.value(),
        _ => panic!("the root is a node"),
    };
    assert_eq!(root_sizes(right), Some((1, 4)));
}

#[test]
fn map_mut_is_the_same_as_insert_of_the_new_value() {
    let mut a: DefaultMap<u8, u32> = DefaultMap::new();
    let mut b: DefaultMap<u8, u32> = DefaultMap::new();
    for k in 0..20u8 {
        a.insert(k, k as u32).unwrap();
        b.insert(k, k as u32).unwrap();
    }
    let out = a.map_mut(&7, |v: &mut u32| {
        *v = *v * 100 + 1;
        *v
    });
    assert_eq!(out, Ok(Some(701)));
    let old = *b.get(&7).unwrap().unwrap();
    assert_eq!(b.insert(7, old * 100 + 1), Ok(Some(7)));
    for k in 0..20u8 {
        assert_eq!(a.get(&k).unwrap(), b.get(&k).unwrap());
    }
    assert_eq!(a.len(), b.len());
    assert_eq!(a.map_mut(&200, |v: &mut u32| *v), Ok(None));
}

#[test]
fn get_mut_of_absent_key_is_none() {
    let mut map: DefaultMap<u8, u8> = DefaultMap::new();
    map.insert(1, 1).unwrap();
    assert!(map.get_mut(&2).unwrap().is_none());
    assert_eq!(map.get(&1).unwrap(), Some(&1));
}

#[test]
fn empty_map_edges() {
    let mut map: DefaultMap<u64, u64> = DefaultMap::default();
    assert!(map.is_empty());
    assert_eq!(map.len(), 0);
    assert_eq!(map.get(&0).unwrap(), None);
    assert_eq!(map.remove(&u64::MAX), Ok(None));
    assert!(map.is_empty());
}

#[test]
fn smallest_and_largest_keys_are_real_keys() {
    let mut map: DefaultMap<u64, u8> = DefaultMap::new();
    assert_eq!(map.insert(0, 1), Ok(None));
    assert_eq!(map.get(&0).unwrap(), Some(&1));
    assert_eq!(map.insert(u64::MAX, 2), Ok(None));
    assert_eq!(map.insert(0, 3), Ok(Some(1)));
    assert_eq!(map.get(&u64::MAX).unwrap(), Some(&2));
    assert_eq!(map.remove(&0), Ok(Some(3)));
    assert_eq!(map.get(&0).unwrap(), None);
    assert_eq!(map.len(), 1);
}

#[test]
fn annotation_facets() {
    let empty = <MapAnnotationDefault<u8> as MapAnnotation<u8, u8>>::identity();
    let a = <MapAnnotationDefault<u8> as MapAnnotation<u8, u8>>::from_leaf(&Leaf::new(4u8, 0u8));
    let b = <MapAnnotationDefault<u8> as MapAnnotation<u8, u8>>::from_leaf(&Leaf::new(0u8, 0u8));
    let ab = <MapAnnotationDefault<u8> as MapAnnotation<u8, u8>>::combine(&a, &b);
    let with_empty = <MapAnnotationDefault<u8> as MapAnnotation<u8, u8>>::combine(&empty, &b);
    let card = |x: &MapAnnotationDefault<u8>| <MapAnnotationDefault<u8> as MapAnnotation<u8, u8>>::cardinality(x);
    let max = |x: &MapAnnotationDefault<u8>| match <MapAnnotationDefault<u8> as MapAnnotation<u8, u8>>::max_key(x) {
        MaxKey::NegativeInfinity => None,
        MaxKey::Maximum(k) => Some(*k),
    };
    assert_eq!(card(&empty), 0);
    assert_eq!(max(&empty), None);
    assert_eq!(card(&a), 1);
    assert_eq!(max(&a), Some(4));
    assert_eq!(card(&ab), 2);
    assert_eq!(max(&ab), Some(4));
    assert_eq!(card(&with_empty), 1);
    assert_eq!(max(&with_empty), Some(0));
    assert!(!MaxKey::<u8>::NegativeInfinity.is_at_least(&0));
    assert!(MaxKey::Maximum(0u8).is_at_least(&0));
    assert!(!MaxKey::Maximum(3u8).is_at_least(&4));
}

#[test]
fn leaf_accessors() {
    let mut leaf = Leaf::new(5u8, 10u32);
    assert_eq!(*leaf._key(), 5);
    assert_eq!(*leaf.value(), 10);
    *leaf.value_mut() += 1;
    assert_eq!(*leaf.value(), 11);
    assert_eq!(leaf.into_parts(), (5, 11));
}

#[test]
fn binary_walker_reaches_the_leaf_of_its_key() {
    let mut map: DefaultMap<u8, u8> = DefaultMap::new();
    for k in 0..10u8 {
        map.insert(k * 2, k).unwrap();
    }
    match map.walk(&BinaryWalker(&8)) {
        Ok(Some(leaf)) => {
            assert_eq!(*leaf._key(), 8);
            assert_eq!(*leaf.value(), 4);
        },
        _ => panic!("key 8 is in the map"),
    }
    assert!(matches!(map.walk(&BinaryWalker(&9)), Ok(None)));
    assert!(matches!(map.walk(&BinaryWalker(&200)), Ok(None)));
}

struct EnterFirst;

impl Walker<u8, u8, MapAnnotationDefault<u8>> for EnterFirst {
    fn step_spec(
        &self,
        first: Child<u8, u8, MapAnnotationDefault<u8>>,
        _second: Child<u8, u8, MapAnnotationDefault<u8>>,
    ) -> Step {
        match first {
            Child::Leaf(_) | Child::Node(_) => Step::Into(0),
            _ => Step::Abort,
        }
    }

    fn walk(
        &self,
        first: Child<u8, u8, MapAnnotationDefault<u8>>,
        second: Child<u8, u8, MapAnnotationDefault<u8>>,
    ) -> Step {
        self.step_spec(first, second)
    }
}

#[test]
fn walker_entering_a_leaf_reports_a_corrupted_tree() {
    let mut map: DefaultMap<u8, u8> = DefaultMap::new();
    map.insert(1, 1).unwrap();
    map.insert(2, 2).unwrap();
    assert!(matches!(map.walk(&EnterFirst), Err(MapError::CorruptedTree)));
    assert!(matches!(map.walk_mut(&EnterFirst), Err(MapError::CorruptedTree)));
    assert!(matches!(map.child(5), Child::EndOfNode));
}

#[test]
fn random_pairs_remove_every_other_in_reverse() {
    let mut rng = StdRng::seed_from_u64(2321u64);
    let mut map: DefaultMap<u64, u32> = DefaultMap::new();
    let mut data: Vec<(u64, u32)> = vec![];
    for _ in 0..255 {
        let pair = (rng.next_u64(), rng.next_u32());
        assert_eq!(map.insert(pair.0, pair.1), Ok(None));
        data.push(pair);
    }
    assert!(root_is_balanced(&map));
    for i in (0..data.len()).rev().step_by(2) {
        assert_eq!(map.remove(&data[i].0), Ok(Some(data[i].1)));
        assert!(root_is_balanced(&map));
    }
    for (i, (k, v)) in data.iter().enumerate() {
        if (data.len() - 1 - i) % 2 == 0 {
            assert_eq!(map.get(k).unwrap(), None);
        } else {
            assert_eq!(map.get(k).unwrap(), Some(v));
        }
    }
    assert_eq!(map.len(), 127);
}

#[test]
fn hand_built_trees_are_tested_for_well_formedness() {
    let mut map: DefaultMap<u8, u8> = DefaultMap::new();
    assert!(map.is_well_formed());
    for k in 0..40u8 {
        map.insert(k, k).unwrap();
        assert!(map.is_well_formed());
    }

    let misrouted: DefaultMap<u8, u8> = KelvinMap::Node(
        kelvin_map::NodeRef::new(KelvinMap::Leaf(Leaf::new(5, 0))),
        kelvin_map::NodeRef::new(KelvinMap::Leaf(Leaf::new(1, 0))),
    );
    assert!(!misrouted.is_well_formed());

    let routed: DefaultMap<u8, u8> = KelvinMap::Node(
        kelvin_map::NodeRef::new(KelvinMap::Leaf(Leaf::new(1, 0))),
        kelvin_map::NodeRef::new(KelvinMap::Leaf(Leaf::new(5, 0))),
    );
    assert!(routed.is_well_formed());
    assert_eq!(routed.get(&5).unwrap(), Some(&0));

    let hollow: DefaultMap<u8, u8> = KelvinMap::Node(
        kelvin_map::NodeRef::new(KelvinMap::Empty),
        kelvin_map::NodeRef::new(KelvinMap::Leaf(Leaf::new(5, 0))),
    );
    assert!(!hollow.is_well_formed());
}
