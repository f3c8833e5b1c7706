use cosmwasm_std::testing::MockStorage;
use cosmwasm_std::Storage;
use storage_extra::error::StorageError;
use storage_extra::referral::{Addr, Refer};
use storage_extra::indexed_referral::IndexedReferral;
use storage_extra::single_sided_referral::SingleSidedReferral;

#[test]
fn test_single_sided_referral() {
    let mut storage = MockStorage::new();
    let referral: SingleSidedReferral = SingleSidedReferral::new("ref_pk");

    let a = Addr::unchecked("a");
    let bb = Addr::unchecked("bb");
    let b = Addr::unchecked("b");
    let c = Addr::unchecked("c");
    let d = Addr::unchecked("d");

    referral.set_ref(&mut storage, &b, &a).unwrap();
    referral.set_ref(&mut storage, &bb, &a).unwrap();
    referral.set_ref(&mut storage, &a, &a).unwrap_err();

    let chains = referral.ref_chains(&storage, &b, Some(5)).unwrap();

    assert_eq!(chains, vec![a.clone()]);

    referral.set_ref(&mut storage, &c, &b).unwrap();
    referral.set_ref(&mut storage, &d, &c).unwrap();

    let chains = referral.ref_chains(&storage, &d, Some(5)).unwrap();

    assert_eq!(chains, vec![c.clone(), b.clone(), a.clone()]);

    let e = Addr::unchecked("e");
    let f = Addr::unchecked("f");
    let g = Addr::unchecked("g");

    referral.set_ref(&mut storage, &e, &d).unwrap();
    referral.set_ref(&mut storage, &f, &e).unwrap();
    referral.set_ref(&mut storage, &g, &f).unwrap();

    let chains = referral.ref_chains(&storage, &g, Some(5)).unwrap();

    assert_eq!(chains, vec![f, e, d, c, b]);
    assert_eq!(chains.len(), 5);
}

#[test]
fn single_sided_rejects_self_and_duplicate() {
    let mut storage = MockStorage::new();
    let referral = SingleSidedReferral::new("ref_pk");
    let a = Addr::unchecked("a");
    let b = Addr::unchecked("b");
    let x = Addr::unchecked("x");
    assert_eq!(referral.set_ref(&mut storage, &a, &a), Err(StorageError::SelfReference));
    assert_eq!(referral.has_ref(&storage, &a), Ok(false));
    referral.set_ref(&mut storage, &b, &a).unwrap();
    assert_eq!(referral.set_ref(&mut storage, &b, &x), Err(StorageError::DuplicateReferral));
    assert_eq!(referral.ref_of(&storage, &b), Ok(Some(a.clone())));
    assert_eq!(referral.has_ref(&storage, &b), Ok(true));
    assert_eq!(referral.ref_of(&storage, &x), Ok(None));
}

#[test]
fn single_sided_all_ref_pages() {
    let mut storage = MockStorage::new();
    let referral = SingleSidedReferral::new("ref_pk");
    let a = Addr::unchecked("a");
    let names = ["b", "bb", "h", "j"];
    for n in names.iter() {
        referral.set_ref(&mut storage, &Addr::unchecked(n), &a).unwrap();
    }
    let edge = |n: &str| Refer { referrer: a.clone(), referred: Addr::unchecked(n) };
    assert_eq!(
        referral.all_ref(&storage, None, None, None).unwrap(),
        vec![edge("b"), edge("bb"), edge("h"), edge("j")]
    );
    assert_eq!(
        referral.all_ref(&storage, Some(Addr::unchecked("b")), Some(2), Some(true)).unwrap(),
        vec![edge("bb"), edge("h")]
    );
    assert_eq!(
        referral.all_ref(&storage, Some(Addr::unchecked("h")), None, Some(false)).unwrap(),
        vec![edge("bb"), edge("b")]
    );
    assert_eq!(referral.all_ref(&storage, None, Some(0), None).unwrap(), vec![]);
}

#[test]
fn test_indexed_referral() {
    let mut storage = MockStorage::new();
    let referral: IndexedReferral = IndexedReferral::new("ref_pk", "ref_idx");

    let a = Addr::unchecked("a");
    let bb = Addr::unchecked("bb");
    let b = Addr::unchecked("b");
    let c = Addr::unchecked("c");
    let d = Addr::unchecked("d");

    referral.set_ref(&mut storage, &b, &a).unwrap();
    referral.set_ref(&mut storage, &bb, &a).unwrap();
    referral.set_ref(&mut storage, &a, &a).unwrap_err();

    let chains = referral.ref_chains(&storage, &b, Some(5)).unwrap();

    assert_eq!(chains, vec![a.clone()]);

    referral.set_ref(&mut storage, &c, &b).unwrap();
    referral.set_ref(&mut storage, &d, &c).unwrap();

    let chains = referral.ref_chains(&storage, &d, Some(5)).unwrap();

    assert_eq!(chains, vec![c.clone(), b.clone(), a.clone()]);

    let e = Addr::unchecked("e");
    let f = Addr::unchecked("f");
    let g = Addr::unchecked("g");

    referral.set_ref(&mut storage, &e, &d).unwrap();
    referral.set_ref(&mut storage, &f, &e).unwrap();
    referral.set_ref(&mut storage, &g, &f).unwrap();

    let chains = referral.ref_chains(&storage, &g, Some(5)).unwrap();

    assert_eq!(chains, vec![f, e, d, c, b.clone()]);
    assert_eq!(chains.len(), 5);

    let h = Addr::unchecked("h");
    let j = Addr::unchecked("j");
    referral.set_ref(&mut storage, &h, &a).unwrap();
    referral.set_ref(&mut storage, &j, &a).unwrap();

    let all_ref_a = referral
        .all_referred_of(&storage, a.clone(), None, None, None)
        .unwrap();

    assert_eq!(all_ref_a, vec![b.clone(), bb.clone(), h.clone(), j.clone()]);

    let all_ref_a = referral
        .all_referred_of(&storage, a.clone(), Some(b.clone()), None, None)
        .unwrap();

    assert_eq!(all_ref_a, vec![bb.clone(), h.clone(), j.clone()]);

    let all_ref_a = referral
        .all_referred_of(&storage, a.clone(), None, None, Some(false))
        .unwrap();

    assert_eq!(all_ref_a, vec![j.clone(), h.clone(), bb.clone(), b.clone()]);

    let all_ref_a = referral
        .all_referred_of(&storage, a.clone(), Some(j.clone()), None, Some(false))
        .unwrap();

    assert_eq!(all_ref_a, vec![h.clone(), bb.clone(), b.clone()]);
}

#[test]
fn indexed_rejects_self_and_duplicate() {
    let mut storage = MockStorage::new();
    let referral = IndexedReferral::new("ref_pk", "ref_idx");
    let a = Addr::unchecked("a");
    let b = Addr::unchecked("b");
    let x = Addr::unchecked("x");
    assert_eq!(referral.set_ref(&mut storage, &a, &a), Err(StorageError::SelfReference));
    referral.set_ref(&mut storage, &b, &a).unwrap();
    assert_eq!(referral.set_ref(&mut storage, &b, &x), Err(StorageError::DuplicateReferral));
    assert_eq!(referral.ref_of(&storage, &b), Ok(Some(a.clone())));
    assert_eq!(referral.has_ref(&storage, &b), Ok(true));
    assert_eq!(referral.has_ref(&storage, &a), Ok(false));
    assert_eq!(referral.all_referred_of(&storage, x, None, None, None), Ok(vec![]));
}

#[test]
fn indexed_all_ref_and_limits() {
    let mut storage = MockStorage::new();
    let referral = IndexedReferral::new("ref_pk", "ref_idx");
    let a = Addr::unchecked("a");
    let b = Addr::unchecked("b");
    for n in ["b", "bb", "h", "j"].iter() {
        referral.set_ref(&mut storage, &Addr::unchecked(n), &a).unwrap();
    }
    referral.set_ref(&mut storage, &Addr::unchecked("c"), &b).unwrap();
    let edge = |r: &Addr, n: &str| Refer { referrer: r.clone(), referred: Addr::unchecked(n) };
    assert_eq!(
        referral.all_ref(&storage, None, None, None).unwrap(),
        vec![edge(&a, "b"), edge(&a, "bb"), edge(&b, "c"), edge(&a, "h"), edge(&a, "j")]
    );
    assert_eq!(
        referral.all_ref(&storage, Some(Addr::unchecked("c")), Some(1), Some(false)).unwrap(),
        vec![edge(&a, "bb")]
    );
    assert_eq!(
        referral.all_referred_of(&storage, a.clone(), None, Some(2), None).unwrap(),
        vec![Addr::unchecked("b"), Addr::unchecked("bb")]
    );
    assert_eq!(
        referral.all_referred_of(&storage, b.clone(), None, None, None).unwrap(),
        vec![Addr::unchecked("c")]
    );
}

#[test]
fn default_depth_is_three() {
    let mut storage = MockStorage::new();
    let single = SingleSidedReferral::new("ref_pk");
    let indexed = IndexedReferral::new("i_pk", "i_idx");
    let names = ["a", "b", "c", "d", "e", "f"];
    for w in names.windows(2) {
        single.set_ref(&mut storage, &Addr::unchecked(w[1]), &Addr::unchecked(w[0])).unwrap();
        indexed.set_ref(&mut storage, &Addr::unchecked(w[1]), &Addr::unchecked(w[0])).unwrap();
    }
    let want = vec![Addr::unchecked("e"), Addr::unchecked("d"), Addr::unchecked("c")];
    assert_eq!(single.ref_chains(&storage, &Addr::unchecked("f"), None).unwrap(), want);
    assert_eq!(indexed.ref_chains(&storage, &Addr::unchecked("f"), None).unwrap(), want);
    assert_eq!(single.ref_chains(&storage, &Addr::unchecked("f"), Some(0)).unwrap(), vec![]);
    assert_eq!(indexed.ref_chains(&storage, &Addr::unchecked("a"), Some(9)).unwrap(), vec![]);
}

#[test]
fn longer_cycle_is_walked_to_the_depth() {
    let mut storage = MockStorage::new();
    let single = SingleSidedReferral::new("ref_pk");
    let a = Addr::unchecked("a");
    let b = Addr::unchecked("b");
    let c = Addr::unchecked("c");
    single.set_ref(&mut storage, &a, &b).unwrap();
    single.set_ref(&mut storage, &b, &c).unwrap();
    single.set_ref(&mut storage, &c, &a).unwrap();
    assert_eq!(
        single.ref_chains(&storage, &a, Some(4)).unwrap(),
        vec![b.clone(), c.clone(), a.clone(), b.clone()]
    );
}

#[test]
fn corrupt_edge_is_a_decode_error() {
    let mut storage = MockStorage::new();
    let single = SingleSidedReferral::new("ref_pk");
    let indexed = IndexedReferral::new("i_pk", "i_idx");
    // key of "b" under each namespace, with a value that is no framed address or record
    storage.set(b"\x00\x06ref_pkb", b"zz");
    storage.set(b"\x00\x04i_pkb", b"\x00\x09a");
    let b = Addr::unchecked("b");
    assert_eq!(single.ref_of(&storage, &b), Err(StorageError::DecodeError));
    assert_eq!(single.has_ref(&storage, &b), Err(StorageError::DecodeError));
    assert_eq!(single.ref_chains(&storage, &b, None), Err(StorageError::DecodeError));
    assert_eq!(single.all_ref(&storage, None, None, None), Err(StorageError::DecodeError));
    assert_eq!(indexed.ref_of(&storage, &b), Err(StorageError::DecodeError));
    assert_eq!(indexed.all_ref(&storage, None, None, None), Err(StorageError::DecodeError));
}
