use cosmwasm_std::testing::MockStorage;
use cosmwasm_std::Storage;
use storage_extra::custom_dese_index::{
    complement, deserialize_multi_kv_custom_pk, stored_pk, Complement, CustomDeseMultiIndex,
};
use storage_extra::error::StorageError;
use storage_extra::index::{save, ByFn, Field, Index, IndexFn, PkTransform};
use storage_extra::indexed_map::IndexedMap;
use storage_extra::multi_index::{multi_index, MultiIndex};
use storage_extra::range::{Bound, Order};
use storage_extra::unique_index::UniqueIndex;

/// A record of the tests: an id, then a value, both big-endian.
fn record(id: u64, val: u128) -> Vec<u8> {
    let mut r = id.to_be_bytes().to_vec();
    r.extend_from_slice(&val.to_be_bytes());
    r
}

fn id_of(record: &[u8]) -> u64 {
    let mut id = [0u8; 8];
    id.copy_from_slice(&record[..8]);
    u64::from_be_bytes(id)
}

fn pk(id: u64) -> Vec<u8> {
    id.to_be_bytes().to_vec()
}

type TestIndexes = (CustomDeseMultiIndex<Field, Complement>, MultiIndex<Field>);

fn idm() -> IndexedMap<TestIndexes> {
    IndexedMap::new(
        "test",
        (
            CustomDeseMultiIndex::new(
                Field { offset: 8, len: 16 },
                Complement,
                "test",
                "test__val",
            ),
            multi_index(Field { offset: 8, len: 16 }, "test", "test__val_n"),
        ),
    )
}

#[test]
fn correctly_dese() {
    let mut storage = MockStorage::new();
    idm().save(&mut storage, &pk(0), &record(0, 100)).unwrap();

    let v = idm()
        .idx()
        .0
        .sub_prefix()
        .range(&storage, None, None, Order::Ascending, usize::MAX)
        .unwrap()
        .iter()
        .map(|e| id_of(&e.1))
        .collect::<Vec<_>>();

    assert_eq!(v, vec![0]);
}

#[test]
fn index_correctly_use_dese_fn() {
    let mut storage = MockStorage::new();
    idm().save(&mut storage, &pk(0), &record(0, 100)).unwrap();
    idm().save(&mut storage, &pk(1), &record(1, 100)).unwrap();
    idm().save(&mut storage, &pk(2), &record(2, 200)).unwrap();
    idm().save(&mut storage, &pk(3), &record(3, 100)).unwrap();

    let v = idm()
        .idx()
        .0
        .sub_prefix()
        .range(&storage, None, None, Order::Descending, usize::MAX)
        .unwrap()
        .iter()
        .map(|e| id_of(&e.1))
        .collect::<Vec<_>>();

    assert_eq!(v, vec![2, 0, 1, 3]);

    let vn = idm()
        .idx()
        .1
        .sub_prefix()
        .range(&storage, None, None, Order::Descending, usize::MAX)
        .unwrap()
        .iter()
        .map(|e| id_of(&e.1))
        .collect::<Vec<_>>();

    assert_eq!(vn, vec![2, 3, 1, 0]);
}

#[test]
fn complement_turns_numbers_around() {
    assert_eq!(complement(&5u64.to_be_bytes()), (u64::MAX - 5).to_be_bytes().to_vec());
    assert_eq!(complement(b""), Vec::<u8>::new());
    assert_eq!(Complement.decode(&Complement.encode(b"any key")), b"any key".to_vec());
    assert_eq!(Complement.encode(&[0, 255, 16]), vec![255, 0, 239]);
}

#[test]
fn field_is_cut_out_of_the_record() {
    let f = Field { offset: 8, len: 16 };
    assert_eq!(f.index(&record(7, 0x0102), b"pk"), 0x0102u128.to_be_bytes().to_vec());
    assert_eq!(f.index(b"too short", b"pk"), Vec::<u8>::new());
    assert_eq!(Field { offset: 1, len: 2 }.index(b"abcd", b""), b"bc".to_vec());
    assert_eq!(Field { offset: usize::MAX, len: 2 }.index(b"abcd", b""), Vec::<u8>::new());
}

#[test]
fn entry_layout_of_a_multi_index() {
    let mut storage = MockStorage::new();
    let index = multi_index(Field { offset: 0, len: 2 }, "pk", "idx");
    index.write(&mut storage, b"key", b"ab-rest");
    let mut value = vec![0u8; 8];
    value[7] = 3;
    assert_eq!(storage.get(b"\x00\x03idx\x00\x02abkey"), Some(value));
    assert_eq!(index.index_key(b"key", b"ab-rest"), b"\x00\x02abkey".to_vec());
    assert!(index.check(&storage, b"other", b"ab-rest"));
    index.remove(&mut storage, b"key", b"ab-other");
    assert_eq!(storage.range(None, None, cosmwasm_std::Order::Ascending).count(), 0);
}

#[test]
fn prefix_lists_one_index_key_only() {
    let mut storage = MockStorage::new();
    let map = IndexedMap::new("pk", multi_index(Field { offset: 0, len: 1 }, "pk", "idx"));
    map.save(&mut storage, b"k1", b"a1").unwrap();
    map.save(&mut storage, b"k2", b"b2").unwrap();
    map.save(&mut storage, b"k3", b"a3").unwrap();
    let index = map.idx();
    assert_eq!(
        index.prefix(b"a").keys(&storage, None, None, Order::Ascending, 10),
        vec![b"k1".to_vec(), b"k3".to_vec()]
    );
    assert_eq!(
        index.prefix(b"a").range(&storage, None, None, Order::Descending, 10),
        Ok(vec![(b"k3".to_vec(), b"a3".to_vec()), (b"k1".to_vec(), b"a1".to_vec())])
    );
    assert_eq!(
        index.prefix(b"a").range(
            &storage,
            Some(Bound::Exclusive(b"k1".to_vec())),
            None,
            Order::Ascending,
            10
        ),
        Ok(vec![(b"k3".to_vec(), b"a3".to_vec())])
    );
    assert_eq!(index.prefix(b"c").keys(&storage, None, None, Order::Ascending, 10).len(), 0);
    assert_eq!(index.sub_prefix().keys(&storage, None, None, Order::Ascending, 10).len(), 3);
}

#[test]
fn save_moves_the_index_entry_and_remove_drops_it() {
    let mut storage = MockStorage::new();
    let map = IndexedMap::new("pk", multi_index(Field { offset: 0, len: 1 }, "pk", "idx"));
    map.save(&mut storage, b"k", b"a-first").unwrap();
    map.save(&mut storage, b"k", b"b-second").unwrap();
    assert_eq!(map.load(&storage, b"k"), Ok(b"b-second".to_vec()));
    let index = map.idx();
    assert_eq!(index.prefix(b"a").keys(&storage, None, None, Order::Ascending, 10).len(), 0);
    assert_eq!(
        index.prefix(b"b").range(&storage, None, None, Order::Ascending, 10),
        Ok(vec![(b"k".to_vec(), b"b-second".to_vec())])
    );
    map.remove(&mut storage, b"k");
    assert_eq!(map.load(&storage, b"k"), Err(StorageError::NotFound));
    assert_eq!(map.may_load(&storage, b"k"), None);
    assert_eq!(storage.range(None, None, cosmwasm_std::Order::Ascending).count(), 0);
    map.remove(&mut storage, b"k");
}

#[test]
fn unique_index_refuses_a_second_record() {
    let mut storage = MockStorage::new();
    let map = IndexedMap::new(
        "t",
        (
            multi_index(Field { offset: 0, len: 1 }, "t", "t_2"),
            UniqueIndex::new(Field { offset: 1, len: 4 }, "t_addr"),
        ),
    );
    map.save(&mut storage, b"one", b"xaddrA").unwrap();
    let before: Vec<_> = storage.range(None, None, cosmwasm_std::Order::Ascending).collect();
    assert_eq!(map.save(&mut storage, b"two", b"yaddrB"), Err(StorageError::Conflict));
    let after: Vec<_> = storage.range(None, None, cosmwasm_std::Order::Ascending).collect();
    assert_eq!(before, after);
    assert_eq!(map.load(&storage, b"one"), Ok(b"xaddrA".to_vec()));
    assert_eq!(map.load(&storage, b"two"), Err(StorageError::NotFound));
    assert_eq!(map.idx().1.pk(&storage, b"addr"), Ok(Some(b"one".to_vec())));
    // the record itself may be saved again, and the key is free once it has moved on
    map.save(&mut storage, b"one", b"zaddrC").unwrap();
    map.save(&mut storage, b"one", b"zothrC").unwrap();
    assert_eq!(map.idx().1.pk(&storage, b"addr"), Ok(None));
    map.save(&mut storage, b"two", b"yaddrB").unwrap();
    assert_eq!(map.idx().1.pk(&storage, b"addr"), Ok(Some(b"two".to_vec())));
    assert_eq!(map.idx().1.pk(&storage, b"othr"), Ok(Some(b"one".to_vec())));
}

#[test]
fn works() {
    let mut storage = MockStorage::new();
    let idm = IndexedMap::new(
        "t",
        (
            multi_index(Field { offset: 8, len: 4 }, "t", "t_2"),
            UniqueIndex::new(Field { offset: 12, len: 1 }, "t_addr"),
        ),
    );
    let mut data = 0u64.to_be_bytes().to_vec();
    data.extend_from_slice(&100u32.to_be_bytes());
    data.extend_from_slice(b"1");
    idm.save(&mut storage, &pk(0), &data).unwrap();
    assert_eq!(idm.load(&storage, &pk(0)).unwrap(), data);
}

#[test]
fn unique_index_save_alone() {
    let mut storage = MockStorage::new();
    let index = UniqueIndex::new(Field { offset: 0, len: 1 }, "u");
    assert_eq!(save(&index, &mut storage, b"p1", b"a"), Ok(()));
    assert_eq!(save(&index, &mut storage, b"p1", b"a"), Ok(()));
    assert_eq!(save(&index, &mut storage, b"p2", b"a"), Err(StorageError::Conflict));
    assert_eq!(storage.get(b"\x00\x01ua"), Some(b"\x00\x00\x00\x00\x00\x00\x00\x02p1".to_vec()));
    storage.set(b"\x00\x01ub", b"bad");
    assert_eq!(index.pk(&storage, b"b"), Err(StorageError::DecodeError));
}

#[test]
fn update_on_an_indexed_map() {
    let mut storage = MockStorage::new();
    let map = IndexedMap::new("pk", UniqueIndex::new(Field { offset: 0, len: 1 }, "u"));
    assert_eq!(map.update(&mut storage, b"k1", |old| {
        assert_eq!(old, None);
        Ok(b"a1".to_vec())
    }), Ok(b"a1".to_vec()));
    assert_eq!(
        map.update(&mut storage, b"k2", |_| Ok(b"a2".to_vec())),
        Err(StorageError::Conflict)
    );
    assert_eq!(
        map.update(&mut storage, b"k1", |_| Err(StorageError::DuplicateReferral)),
        Err(StorageError::DuplicateReferral)
    );
    assert_eq!(map.update(&mut storage, b"k1", |old| {
        assert_eq!(old, Some(b"a1".to_vec()));
        Ok(b"b1".to_vec())
    }), Ok(b"b1".to_vec()));
    assert_eq!(map.load(&storage, b"k1"), Ok(b"b1".to_vec()));
    assert_eq!(map.load(&storage, b"k2"), Err(StorageError::NotFound));
    assert_eq!(
        map.range(&storage, None, None, Order::Ascending, 5),
        vec![(b"k1".to_vec(), b"b1".to_vec())]
    );
}

#[test]
fn entries_that_lead_nowhere() {
    let mut storage = MockStorage::new();
    let mut marker = vec![0u8; 8];
    marker[7] = 2;
    assert_eq!(stored_pk(b"\x00\x01apk", &marker), Some(b"pk".to_vec()));
    assert_eq!(stored_pk(b"p", &marker), None);
    assert_eq!(stored_pk(b"\x00\x01apk", b"2"), None);
    storage.set(b"\x00\x01nKP", b"record");
    let upper = |k: Vec<u8>| k.to_ascii_uppercase();
    assert_eq!(
        deserialize_multi_kv_custom_pk(&storage, b"n", (b"xkp".to_vec(), marker.clone()), upper),
        Ok((b"KP".to_vec(), b"record".to_vec()))
    );
    assert_eq!(
        deserialize_multi_kv_custom_pk(&storage, b"n", (b"xkq".to_vec(), marker.clone()), upper),
        Err(StorageError::NotFound)
    );
    assert_eq!(
        deserialize_multi_kv_custom_pk(&storage, b"n", (b"x".to_vec(), marker), upper),
        Err(StorageError::DecodeError)
    );
    let index = multi_index(Field { offset: 0, len: 1 }, "pk", "idx");
    index.write(&mut storage, b"gone", b"a");
    assert_eq!(
        index.prefix(b"a").range(&storage, None, None, Order::Ascending, 10),
        Err(StorageError::NotFound)
    );
}

#[test]
fn unique_index_pages_by_index_key() {
    let mut storage = MockStorage::new();
    let map = IndexedMap::new("pk", UniqueIndex::new(Field { offset: 0, len: 1 }, "u"));
    map.save(&mut storage, b"k3", b"c").unwrap();
    map.save(&mut storage, b"k1", b"a").unwrap();
    map.save(&mut storage, b"k2", b"b").unwrap();
    let index = map.idx();
    assert_eq!(
        index.range(&storage, None, None, Order::Ascending, 2),
        Ok(vec![(b"a".to_vec(), b"k1".to_vec()), (b"b".to_vec(), b"k2".to_vec())])
    );
    assert_eq!(
        index.range(&storage, None, Some(Bound::Exclusive(b"c".to_vec())), Order::Descending, 9),
        Ok(vec![(b"b".to_vec(), b"k2".to_vec()), (b"a".to_vec(), b"k1".to_vec())])
    );
    storage.set(b"\x00\x01ub", b"bad");
    assert_eq!(
        index.range(&storage, None, None, Order::Ascending, 9),
        Err(StorageError::DecodeError)
    );
    assert_eq!(
        index.range(&storage, None, None, Order::Ascending, 1),
        Ok(vec![(b"a".to_vec(), b"k1".to_vec())])
    );
    let bound = Bound::Inclusive(b"c".to_vec());
    assert_eq!(
        index.range(&storage, Some(bound.clone()), None, Order::Ascending, 9),
        Ok(vec![(b"c".to_vec(), b"k3".to_vec())])
    );
}

#[test]
fn index_key_from_a_closure() {
    let mut storage = MockStorage::new();
    let by_val = ByFn::new(|t: &[u8], _pk: &[u8]| t[8..].to_vec());
    assert_eq!(by_val.index(&record(3, 9), b""), 9u128.to_be_bytes().to_vec());
    assert_eq!(
        ByFn::new(|_: &[u8], _: &[u8]| vec![0u8; 0x10000]).index(b"", b""),
        Vec::<u8>::new()
    );
    let map = IndexedMap::new(
        "test",
        (
            CustomDeseMultiIndex::new(by_val, Complement, "test", "test__val"),
            multi_index(ByFn::new(|t: &[u8], _pk: &[u8]| t[8..].to_vec()), "test", "test__val_n"),
        ),
    );
    for (id, val) in [(0u64, 100u128), (1, 100), (2, 200), (3, 100)].iter() {
        map.save(&mut storage, &pk(*id), &record(*id, *val)).unwrap();
    }
    let ids = |page: Vec<(Vec<u8>, Vec<u8>)>| page.iter().map(|e| id_of(&e.1)).collect::<Vec<_>>();
    let all = usize::MAX;
    assert_eq!(
        ids(map.idx().0.sub_prefix().range(&storage, None, None, Order::Descending, all).unwrap()),
        vec![2, 0, 1, 3]
    );
    assert_eq!(
        ids(map.idx().1.sub_prefix().range(&storage, None, None, Order::Descending, all).unwrap()),
        vec![2, 3, 1, 0]
    );
    assert_eq!(
        ids(map
            .idx()
            .1
            .prefix(&100u128.to_be_bytes())
            .range(&storage, None, None, Order::Ascending, 2)
            .unwrap()),
        vec![0, 1]
    );
}
