use cosmwasm_std::testing::MockStorage;
use cosmwasm_std::Storage;
use storage_extra::error::StorageError;
use storage_extra::map::{MapCow, StorageCow};
use storage_extra::range::{prefix_upper_bound, range_with_prefix, scan, Bound, Order};

#[test]
fn new_owned() {
    let a = b"g";
    let mut storage = MockStorage::new();
    let addr_owned: MapCow = MapCow::new_owned(String::from("g"));

    addr_owned.save(&mut storage, a, b"1");
    assert_eq!(addr_owned.load(&storage, a).unwrap(), b"1".to_vec());
}

#[test]
fn new_ref() {
    let a = b"g";
    let mut storage = MockStorage::new();
    let addr_ref: MapCow = MapCow::new_ref("g");

    addr_ref.save(&mut storage, a, b"1");
    assert_eq!(addr_ref.load(&storage, a).unwrap(), b"1".to_vec());
}

#[test]
fn owned_and_borrowed_namespaces_are_one_map() {
    let mut storage = MockStorage::new();
    let owned: MapCow = StorageCow::new_owned(String::from("ns"));
    let borrowed: MapCow = StorageCow::new_ref("ns");
    owned.save(&mut storage, b"k", b"v");
    assert_eq!(borrowed.may_load(&storage, b"k"), Some(b"v".to_vec()));
    assert_eq!(owned.key(b"k"), b"\x00\x02nsk".to_vec());
    assert_eq!(owned.prefix(), b"\x00\x02ns".to_vec());
    assert_eq!(storage.get(b"\x00\x02nsk"), Some(b"v".to_vec()));
}

#[test]
fn load_remove_and_has() {
    let mut storage = MockStorage::new();
    let map = MapCow::new_ref("m");
    assert_eq!(map.load(&storage, b"k"), Err(StorageError::NotFound));
    assert_eq!(map.may_load(&storage, b"k"), None);
    assert!(!map.has(&storage, b"k"));
    map.save(&mut storage, b"k", b"one");
    map.save(&mut storage, b"k", b"two");
    assert!(map.has(&storage, b"k"));
    assert_eq!(map.load(&storage, b"k"), Ok(b"two".to_vec()));
    map.remove(&mut storage, b"k");
    map.remove(&mut storage, b"k");
    assert_eq!(map.load(&storage, b"k"), Err(StorageError::NotFound));
}

#[test]
fn reads_leave_the_store_as_it_is() {
    let mut storage = MockStorage::new();
    let map = MapCow::new_ref("m");
    map.save(&mut storage, b"a", b"1");
    map.save(&mut storage, b"b", b"2");
    let before: Vec<_> = storage.range(None, None, cosmwasm_std::Order::Ascending).collect();
    assert_eq!(map.load(&storage, b"a"), map.load(&storage, b"a"));
    assert_eq!(map.may_load(&storage, b"zz"), None);
    let first = map.range(&storage, None, None, Order::Ascending, 10);
    let second = map.range(&storage, None, None, Order::Ascending, 10);
    assert_eq!(first, second);
    let after: Vec<_> = storage.range(None, None, cosmwasm_std::Order::Ascending).collect();
    assert_eq!(before, after);
}

#[test]
fn update_saves_what_the_action_returns() {
    let mut storage = MockStorage::new();
    let map = MapCow::new_ref("m");
    let r: Result<Vec<u8>, StorageError> = map.update(&mut storage, b"k", |old| {
        assert_eq!(old, None);
        Ok(b"first".to_vec())
    });
    assert_eq!(r, Ok(b"first".to_vec()));
    let r: Result<Vec<u8>, StorageError> = map.update(&mut storage, b"k", |old| {
        let mut v = old.unwrap();
        v.push(b'!');
        Ok(v)
    });
    assert_eq!(r, Ok(b"first!".to_vec()));
    let r: Result<Vec<u8>, StorageError> =
        map.update(&mut storage, b"k", |_| Err(StorageError::Conflict));
    assert_eq!(r, Err(StorageError::Conflict));
    assert_eq!(map.load(&storage, b"k"), Ok(b"first!".to_vec()));
}

fn filled() -> (MockStorage, MapCow) {
    let mut storage = MockStorage::new();
    let map = MapCow::new_ref("m");
    let other = MapCow::new_ref("n");
    let shorter = MapCow::new_ref("");
    for k in [&b"b"[..], b"bb", b"h", b"j", b""].iter() {
        map.save(&mut storage, k, k.iter().chain(b"!").cloned().collect::<Vec<u8>>().as_slice());
    }
    other.save(&mut storage, b"a", b"x");
    shorter.save(&mut storage, b"z", b"y");
    (storage, map)
}

fn keys(page: Vec<(Vec<u8>, Vec<u8>)>) -> Vec<Vec<u8>> {
    page.into_iter().map(|e| e.0).collect()
}

#[test]
fn range_pages_in_both_directions() {
    let (storage, map) = filled();
    let all = map.range(&storage, None, None, Order::Ascending, usize::MAX);
    assert_eq!(
        all,
        vec![
            (b"".to_vec(), b"!".to_vec()),
            (b"b".to_vec(), b"b!".to_vec()),
            (b"bb".to_vec(), b"bb!".to_vec()),
            (b"h".to_vec(), b"h!".to_vec()),
            (b"j".to_vec(), b"j!".to_vec()),
        ]
    );
    let down = map.range(&storage, None, None, Order::Descending, 3);
    assert_eq!(keys(down), vec![b"j".to_vec(), b"h".to_vec(), b"bb".to_vec()]);
    assert_eq!(map.range(&storage, None, None, Order::Ascending, 0), vec![]);
}

#[test]
fn range_bounds_are_inclusive_or_exclusive() {
    let (storage, map) = filled();
    let ex = |s: &[u8]| Some(Bound::Exclusive(s.to_vec()));
    let inc = |s: &[u8]| Some(Bound::Inclusive(s.to_vec()));
    let run = |min: Option<Bound>, max: Option<Bound>, order: Order| {
        keys(map.range(&storage, min, max, order, usize::MAX))
    };
    assert_eq!(run(ex(b"b"), None, Order::Ascending), vec![b"bb".to_vec(), b"h".to_vec(), b"j".to_vec()]);
    assert_eq!(run(inc(b"b"), ex(b"h"), Order::Ascending), vec![b"b".to_vec(), b"bb".to_vec()]);
    assert_eq!(run(inc(b"b"), inc(b"h"), Order::Descending), vec![b"h".to_vec(), b"bb".to_vec(), b"b".to_vec()]);
    assert_eq!(run(None, ex(b"b"), Order::Descending), vec![b"".to_vec()]);
    assert_eq!(run(ex(b"c"), ex(b"g"), Order::Ascending), Vec::<Vec<u8>>::new());
    assert_eq!(run(ex(b"j"), ex(b"b"), Order::Ascending), Vec::<Vec<u8>>::new());
    assert_eq!(run(inc(b""), inc(b""), Order::Ascending), vec![b"".to_vec()]);
}

#[test]
fn prefix_upper_bound_carries_over_ff() {
    assert_eq!(prefix_upper_bound(b"ab"), Some(b"ac".to_vec()));
    assert_eq!(prefix_upper_bound(b"a\xff\xff"), Some(b"b".to_vec()));
    assert_eq!(prefix_upper_bound(b"\xff\xff"), None);
    assert_eq!(prefix_upper_bound(b""), None);
}

#[test]
fn scans_under_a_prefix_of_ff_bytes() {
    let mut storage = MockStorage::new();
    storage.set(b"\xff\xff", b"a");
    storage.set(b"\xff\xffzz", b"b");
    storage.set(b"\xff\xfe", b"c");
    storage.set(b"\xff", b"d");
    let page = range_with_prefix(&storage, b"\xff\xff", None, None, Order::Ascending, 10);
    assert_eq!(page, vec![(b"".to_vec(), b"a".to_vec()), (b"zz".to_vec(), b"b".to_vec())]);
    let page = range_with_prefix(&storage, b"\xff\xff", None, None, Order::Descending, 1);
    assert_eq!(page, vec![(b"zz".to_vec(), b"b".to_vec())]);
}

#[test]
fn scan_gives_keys_from_start_to_end() {
    let mut storage = MockStorage::new();
    for k in [&b"a"[..], b"a\x00", b"ab", b"b", b"c"].iter() {
        storage.set(k, b"v");
    }
    let got = |start: &[u8], end: Option<&[u8]>, order: Order, limit: usize| {
        keys(scan(&storage, start.to_vec(), end.map(|e| e.to_vec()), order, limit))
    };
    assert_eq!(got(b"a", Some(b"b"), Order::Ascending, 9), vec![b"a".to_vec(), b"a\x00".to_vec(), b"ab".to_vec()]);
    assert_eq!(got(b"a\x00", None, Order::Descending, 2), vec![b"c".to_vec(), b"b".to_vec()]);
    assert_eq!(got(b"b", Some(b"a"), Order::Ascending, 9), Vec::<Vec<u8>>::new());
    assert_eq!(got(b"", None, Order::Ascending, 2), vec![b"a".to_vec(), b"a\x00".to_vec()]);
}

fn next(seed: &mut u64) -> u64 {
    *seed = seed.wrapping_mul(6364136223846793005).wrapping_add(1442695040888963407);
    *seed >> 33
}

fn some_bytes(seed: &mut u64) -> Vec<u8> {
    let alphabet = [0x00u8, 0x61, 0xFF];
    let len = next(seed) % 4;
    (0..len).map(|_| alphabet[(next(seed) % 3) as usize]).collect()
}

fn some_bound(seed: &mut u64) -> Option<Bound> {
    match next(seed) % 3 {
        0 => None,
        1 => Some(Bound::Inclusive(some_bytes(seed))),
        _ => Some(Bound::Exclusive(some_bytes(seed))),
    }
}

fn within(min: &Option<Bound>, max: &Option<Bound>, key: &[u8]) -> bool {
    let low = match min {
        None => true,
        Some(Bound::Inclusive(b)) => b.as_slice() <= key,
        Some(Bound::Exclusive(b)) => b.as_slice() < key,
    };
    let high = match max {
        None => true,
        Some(Bound::Inclusive(b)) => key <= b.as_slice(),
        Some(Bound::Exclusive(b)) => key < b.as_slice(),
    };
    low && high
}

#[test]
fn pages_are_the_filtered_sorted_truncated_keys() {
    let mut seed = 7u64;
    for round in 0..60 {
        let mut storage = MockStorage::new();
        let prefix = some_bytes(&mut seed);
        for _ in 0..(next(&mut seed) % 12) {
            let mut key = if next(&mut seed) % 4 == 0 { some_bytes(&mut seed) } else { prefix.clone() };
            key.extend_from_slice(&some_bytes(&mut seed));
            storage.set(&key, &[round as u8 + 1]);
        }
        for _ in 0..20 {
            let min = some_bound(&mut seed);
            let max = some_bound(&mut seed);
            let descending = next(&mut seed) % 2 == 0;
            let limit = (next(&mut seed) % 5) as usize;
            let mut want: Vec<(Vec<u8>, Vec<u8>)> = storage
                .range(None, None, cosmwasm_std::Order::Ascending)
                .filter(|(k, _)| k.starts_with(&prefix) && within(&min, &max, &k[prefix.len()..]))
                .map(|(k, v)| (k[prefix.len()..].to_vec(), v))
                .collect();
            if descending {
                want.reverse();
            }
            want.truncate(limit);
            let order = if descending { Order::Descending } else { Order::Ascending };
            let got = range_with_prefix(&storage, &prefix, min.clone(), max.clone(), order, limit);
            assert_eq!(got, want, "prefix {:?} min {:?} max {:?}", prefix, min, max);
        }
    }
}
