//! A map kept in the store under one namespace.

use crate::error::StorageError;
use crate::keys::{extend, push_segment, MAX_SEGMENT_LEN};
use crate::range::{range_with_prefix, Bound, Entry, Order};
use crate::store::{store_get, store_remove, store_set, ExMemoryStorage};
use cosmwasm_std::MemoryStorage;
use vstd::prelude::*;

verus! {

/// A storage item that is made from its namespace, owned or borrowed.
pub trait StorageCow: Sized {
    /// The namespace, as the bytes that go into every key.
    spec fn spec_namespace(&self) -> Seq<u8>;

    /// The item under a namespace that it owns.
    fn new_owned(namespace: String) -> (r: Self)
        requires
            vstd::utf8::encode_utf8(namespace@).len() <= MAX_SEGMENT_LEN,
        ensures
            r.spec_namespace() == vstd::utf8::encode_utf8(namespace@),
    ;

    /// The item under a namespace that the caller keeps.
    fn new_ref(namespace: &str) -> (r: Self)
        requires
            vstd::utf8::encode_utf8(namespace@).len() <= MAX_SEGMENT_LEN,
        ensures
            r.spec_namespace() == vstd::utf8::encode_utf8(namespace@),
    ;
}

/// A map from byte-string keys to byte-string values, all under one namespace.
#[derive(Debug)]
pub struct MapCow {
    namespace: Vec<u8>,
}

impl MapCow {
    /// The namespace, as the bytes that go into every key.
    pub closed spec fn namespace(&self) -> Seq<u8> {
        self.namespace@
    }

    /// The namespace fits the two-byte length prefix.
    pub open spec fn wf(&self) -> bool {
        self.namespace().len() <= MAX_SEGMENT_LEN
    }

    /// What every key of this map starts with.
    pub open spec fn spec_prefix(&self) -> Seq<u8> {
        crate::keys::spec_encode_segment(self.namespace())
    }

    /// The key in the store of the entry for `k`.
    pub open spec fn spec_key(&self, k: Seq<u8>) -> Seq<u8> {
        self.spec_prefix() + k
    }

    /// What the map holds for `k` in a store with the entries `m`.
    pub open spec fn spec_get(&self, m: Map<Seq<u8>, Seq<u8>>, k: Seq<u8>) -> Option<Seq<u8>> {
        if m.contains_key(self.spec_key(k)) {
            Some(m[self.spec_key(k)])
        } else {
            None
        }
    }

    /// The map under `namespace`, given as an owned string.
    pub fn new_owned(namespace: String) -> (r: Self)
        requires
            vstd::utf8::encode_utf8(namespace@).len() <= MAX_SEGMENT_LEN,
        ensures
            r.namespace() == vstd::utf8::encode_utf8(namespace@),
            r.wf(),
    {
        MapCow { namespace: vstd::slice::slice_to_vec(namespace.as_str().as_bytes()) }
    }

    /// The map under `namespace`, given as a borrowed string.
    pub fn new_ref(namespace: &str) -> (r: Self)
        requires
            vstd::utf8::encode_utf8(namespace@).len() <= MAX_SEGMENT_LEN,
        ensures
            r.namespace() == vstd::utf8::encode_utf8(namespace@),
            r.wf(),
    {
        MapCow { namespace: vstd::slice::slice_to_vec(namespace.as_bytes()) }
    }

    /// The bytes that every key of this map starts with.
    pub fn prefix(&self) -> (r: Vec<u8>)
        requires
            self.wf(),
        ensures
            r@ == self.spec_prefix(),
    {
        let mut out: Vec<u8> = Vec::new();
        push_segment(&mut out, self.namespace.as_slice());
        out
    }

    /// The key in the store of the entry for `k`.
    pub fn key(&self, k: &[u8]) -> (r: Vec<u8>)
        requires
            self.wf(),
        ensures
            r@ == self.spec_key(k@),
    {
        let mut out = self.prefix();
        extend(&mut out, k);
        out
    }

    /// Keeps `value` under `k`, in place of what was there.
    pub fn save(&self, store: &mut MemoryStorage, k: &[u8], value: &[u8])
        requires
            self.wf(),
            value@.len() > 0,
        ensures
            crate::store::contents(*final(store)) == crate::store::contents(*old(store)).insert(
                self.spec_key(k@),
                value@,
            ),
    {
        let key = self.key(k);
        store_set(store, key.as_slice(), value);
    }

    /// Drops what is kept under `k`, if anything.
    pub fn remove(&self, store: &mut MemoryStorage, k: &[u8])
        requires
            self.wf(),
        ensures
            crate::store::contents(*final(store)) == crate::store::contents(*old(store)).remove(
                self.spec_key(k@),
            ),
    {
        let key = self.key(k);
        store_remove(store, key.as_slice());
    }

    /// The value under `k`, if there is one.
    pub fn may_load(&self, store: &MemoryStorage, k: &[u8]) -> (r: Option<Vec<u8>>)
        requires
            self.wf(),
        ensures
            crate::range::key_view(r) == self.spec_get(crate::store::contents(*store), k@),
    {
        let key = self.key(k);
        store_get(store, key.as_slice())
    }

    /// The value under `k`; `NotFound` when there is none.
    pub fn load(&self, store: &MemoryStorage, k: &[u8]) -> (r: Result<Vec<u8>, StorageError>)
        requires
            self.wf(),
        ensures
            match r {
                Ok(value) => self.spec_get(crate::store::contents(*store), k@) == Some(value@),
                Err(e) => e == StorageError::NotFound && self.spec_get(
                    crate::store::contents(*store),
                    k@,
                ) is None,
            },
    {
        match self.may_load(store, k) {
            Some(value) => Ok(value),
            None => Err(StorageError::NotFound),
        }
    }

    /// Whether anything is kept under `k`.
    pub fn has(&self, store: &MemoryStorage, k: &[u8]) -> (r: bool)
        requires
            self.wf(),
        ensures
            r == crate::store::contents(*store).contains_key(self.spec_key(k@)),
    {
        self.may_load(store, k).is_some()
    }

    /// Loads what is under `k`, hands it to `action`, and keeps what `action` returns.
    /// When `action` fails, so does the update, and the store is left as it was.
    pub fn update<A, E>(&self, store: &mut MemoryStorage, k: &[u8], action: A) -> (r: Result<
        Vec<u8>,
        E,
    >) where A: FnOnce(Option<Vec<u8>>) -> Result<Vec<u8>, E>
        requires
            self.wf(),
            forall|input: Option<Vec<u8>>| call_requires(action, (input,)),
            forall|input: Option<Vec<u8>>, value: Vec<u8>| #[trigger]
                call_ensures(action, (input,), Ok(value)) ==> value@.len() > 0,
        ensures
            exists|input: Option<Vec<u8>>|
                {
                    &&& crate::range::key_view(input) == self.spec_get(
                        crate::store::contents(*old(store)),
                        k@,
                    )
                    &&& #[trigger] call_ensures(action, (input,), r)
                },
            match r {
                Ok(value) => crate::store::contents(*final(store)) == crate::store::contents(
                    *old(store),
                ).insert(self.spec_key(k@), value@),
                Err(_) => crate::store::contents(*final(store)) == crate::store::contents(
                    *old(store),
                ),
            },
    {
        let input = self.may_load(store, k);
        let ghost given = input;
        let r = action(input);
        proof {
            assert(call_ensures(action, (given,), r));
        }
        match r {
            Ok(value) => {
                self.save(store, k, value.as_slice());
                Ok(value)
            },
            Err(e) => Err(e),
        }
    }

    /// One page of the map: the entries whose keys lie within `min` and `max`, in the
    /// given order, `limit` at most, each key as it was given to `save`.
    pub fn range(
        &self,
        store: &MemoryStorage,
        min: Option<Bound>,
        max: Option<Bound>,
        order: Order,
        limit: usize,
    ) -> (page: Vec<Entry>)
        requires
            self.wf(),
        ensures
            crate::range::is_page(
                crate::store::contents(*store),
                self.spec_prefix(),
                crate::range::bounds_view(min),
                crate::range::bounds_view(max),
                crate::range::is_descending(order),
                limit as nat,
                crate::range::entries_view(page@),
            ),
    {
        let prefix = self.prefix();
        range_with_prefix(store, prefix.as_slice(), min, max, order, limit)
    }
}

impl StorageCow for MapCow {
    open spec fn spec_namespace(&self) -> Seq<u8> {
        self.namespace()
    }

    fn new_owned(namespace: String) -> (r: Self) {
        MapCow::new_owned(namespace)
    }

    fn new_ref(namespace: &str) -> (r: Self) {
        MapCow::new_ref(namespace)
    }
}

} // verus!
