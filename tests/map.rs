use kelvin_map::{DefaultMap, KelvinMap, MapAnnotation, MapAnnotationDefault, MapKey};
use rand::rngs::StdRng;
use rand::{RngCore, SeedableRng};

/// Simple key-value pair wrapper
#[derive(Debug, Default, Clone, Copy, PartialEq, Eq)]
struct KeyValue {
    pub key: u64,
    pub value: u32,
}

impl KeyValue {
    fn random<R: RngCore>(rng: &mut R) -> Self {
        Self {
            key: rng.next_u64(),
            value: rng.next_u32(),
        }
    }

    fn generate_map(len: usize) -> (Vec<KeyValue>, DefaultMap<u64, u32>) {
        // This seed will not generate duplicates
        let mut rng = StdRng::seed_from_u64(2321u64);
        let mut map = DefaultMap::default();

        let mut data = vec![];

        for _ in 0..len {
            data.push(KeyValue::random(&mut rng));
        }

        data.iter().for_each(|d| {
            assert!(map
                .insert(d.key, d.value)
                .expect("Failed to insert a KV")
                .is_none());
            assert_eq!(
                d.value,
                *map.get(&d.key)
                    .expect("Failed to fetch an inserted KV")
                    .expect("The inserted KV was not found")
            );
        });

        (data, map)
    }
}

fn root_sizes<K: MapKey, V>(map: &DefaultMap<K, V>) -> (i32, i32) {
    let (l, r) = match map {
        KelvinMap::Node(l, r) => (l, r),
        _ => panic!("Not possible to assert balance for a leaf or empty tree"),
    };

    let c_l = <MapAnnotationDefault<K> as MapAnnotation<K, V>>::cardinality(l.annotation());
    let c_r = <MapAnnotationDefault<K> as MapAnnotation<K, V>>::cardinality(r.annotation());

    (c_l as i32, c_r as i32)
}

fn assert_balanced<K: MapKey, V>(map: &DefaultMap<K, V>) {
    let (c_l, c_r) = root_sizes(map);

    // Assert they have equivalent cardinality for worst case scenario
    assert!((c_l - c_r).abs() <= 2);
}

#[test]
fn map_insert_get_mut() {
    let n = 16;

    let mut map: DefaultMap<u64, u64> = DefaultMap::default();

    for i in 0..n {
        map.insert(i, i).expect("Failed to insert new KV");
    }

    for i in 0..n {
        *map.get_mut(&i)
            .expect("Failed to fetch previously inserted KV")
            .expect("Previously inserted KV not found") += 1;
    }

    assert_balanced(&map);

    for i in 0..n {
        assert_eq!(
            *map.get(&i)
                .expect("Failed to fetch previously inserted KV")
                .expect("Previously inserted KV not found"),
            i + 1
        )
    }
}

#[test]
fn map_remove_null() {
    // This seed will not generate duplicates
    let mut rng = StdRng::seed_from_u64(2321u64);
    let mut map: DefaultMap<u64, u32> = DefaultMap::default();

    let kv = KeyValue::random(&mut rng);
    let result = map
        .remove(&kv.key)
        .expect("Failed to remove unexisting key");
    assert!(result.is_none());
}

#[test]
fn map_remove_single() {
    let (data, mut map) = KeyValue::generate_map(1);

    let v = map.remove(&data[0].key)
        .expect("Failed to remove a previously inserted KV")
        .expect("The removal of a previously inserted KV is expected to be returned");
    assert_eq!(data[0].value, v);

    assert!(map
        .remove(&data[0].key)
        .expect("Failed to remove a non-existing KV")
        .is_none());
    assert!(map.is_empty());
}

#[test]
fn map_remove_multiple() {
    let l: usize = u8::MAX as usize;
    let (data, mut map) = KeyValue::generate_map(l);

    assert_balanced(&map);

    let mut k = (l - 2) as usize;
    while k > 0 {
        let v = map.remove(&data[k].key)
            .expect("Failed to remove a previously inserted KV")
            .expect("The removal of a previously inserted KV is expected to be returned");

        assert_eq!(data[k].value, v);
        assert!(map
            .remove(&data[k].key)
            .expect("Failed to remove an unexisting KV")
            .is_none());

        k /= 2;
    }
}

#[test]
fn map_balance() {
    let mut map: DefaultMap<u8, u8> = DefaultMap::default();

    // Ordered inserting is a worst case scenario for a BST
    for v in 0..130 {
        map.insert(v, v.wrapping_mul(3))
            .expect("Failed to insert a KV");
    }

    assert_balanced(&map);
}

#[test]
fn map_balance_rev() {
    let mut map: DefaultMap<u8, u8> = DefaultMap::default();

    // Reverse order inserting is a worst case scenario for a BST
    for v in 0..130 {
        map.insert(130 - v, v.wrapping_mul(3))
            .expect("Failed to insert a KV");
    }

    assert_balanced(&map);
}

#[test]
fn tests_insert_get_mut() {
    let n = 16;

    let mut map: DefaultMap<u64, u64> = DefaultMap::default();

    for i in 0..n {
        map.insert(i, i).unwrap();
    }

    for i in 0..n {
        *map.get_mut(&i).unwrap().unwrap() += 1;
    }

    assert_balanced(&map);

    for i in 0..n {
        assert_eq!(*map.get(&i).unwrap().unwrap(), i + 1)
    }
}

#[test]
fn tests_remove_null() {
    // This seed will not generate duplicates
    let mut rng = StdRng::seed_from_u64(2321u64);
    let mut map: DefaultMap<u64, u32> = DefaultMap::default();

    let kv = KeyValue::random(&mut rng);
    assert_eq!(Ok(None), map.remove(&kv.key));
}

#[test]
fn tests_remove_single() {
    let (data, mut map) = KeyValue::generate_map(1);

    let v = map.remove(&data[0].key).unwrap().unwrap();
    assert_eq!(data[0].value, v);

    assert!(map.remove(&data[0].key).unwrap().is_none());
    assert!(map.is_empty());
}

#[test]
fn tests_remove_multiple() {
    let l: usize = u8::MAX as usize;
    let (data, mut map) = KeyValue::generate_map(l);

    assert_balanced(&map);

    let mut k = (l - 2) as usize;
    while k > 0 {
        let v = map.remove(&data[k].key).unwrap().unwrap();

        assert_eq!(data[k].value, v);
        assert!(map.remove(&data[k].key).unwrap().is_none());

        k /= 2;
    }
}

#[test]
fn tests_balance() {
    let mut map: DefaultMap<u8, u8> = DefaultMap::default();

    // Ordered inserting is a worst case scenario for a BST
    for v in 0..130 {
        map.insert(v, v.wrapping_mul(3)).unwrap();
    }

    assert_balanced(&map);
}

#[test]
fn tests_balance_rev() {
    let mut map: DefaultMap<u8, u8> = DefaultMap::default();

    // Reverse order inserting is a worst case scenario for a BST
    for v in 0..130 {
        map.insert(130 - v, v.wrapping_mul(3)).unwrap();
    }

    assert_balanced(&map);
}
