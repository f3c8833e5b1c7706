//! A map whose records are also found through secondary indexes.

use crate::error::StorageError;
use crate::custom_dese_index::CustomDeseMultiIndex;
use crate::index::{in_keyspace, Index, IndexFn, PkTransform};
use crate::keys::MAX_SEGMENT_LEN;
use crate::map::MapCow;
use crate::range::{Bound, Entry, Order};
use crate::store::ExMemoryStorage;
use cosmwasm_std::MemoryStorage;
use vstd::prelude::*;

verus! {

/// Records under primary keys in one namespace, and the indexes that are kept with them.
pub struct IndexedMap<I> {
    primary: MapCow,
    idx: I,
}

impl<I: Index> IndexedMap<I> {
    /// The map that holds the records.
    pub closed spec fn primary(&self) -> MapCow {
        self.primary
    }

    /// The indexes that are kept with the records.
    pub closed spec fn indexes(&self) -> I {
        self.idx
    }

    /// The namespaces fit, and no index shares the namespace of the records.
    pub open spec fn wf(&self) -> bool {
        &&& self.primary().wf()
        &&& self.indexes().wf()
        &&& !self.indexes().namespaces().contains(self.primary().namespace())
    }

    /// The key in the store of the record under `pk`.
    pub open spec fn spec_key(&self, pk: Seq<u8>) -> Seq<u8> {
        self.primary().spec_key(pk)
    }

    /// The record that `m` holds under `pk`.
    pub open spec fn spec_get(&self, m: Map<Seq<u8>, Seq<u8>>, pk: Seq<u8>) -> Option<Seq<u8>> {
        self.primary().spec_get(m, pk)
    }

    /// `m` without the index entries of the record under `pk`.
    pub open spec fn spec_unindexed(&self, m: Map<Seq<u8>, Seq<u8>>, pk: Seq<u8>) -> Map<
        Seq<u8>,
        Seq<u8>,
    > {
        match self.spec_get(m, pk) {
            Some(old) => m.remove_keys(self.indexes().entries(pk, old).dom()),
            None => m,
        }
    }

    /// `m` after `data` was saved under `pk`: the index entries of the record that was
    /// there are gone, the record is `data`, and the index entries of `data` are there.
    pub open spec fn spec_save(&self, m: Map<Seq<u8>, Seq<u8>>, pk: Seq<u8>, data: Seq<u8>) -> Map<
        Seq<u8>,
        Seq<u8>,
    > {
        self.spec_unindexed(m, pk).insert(self.spec_key(pk), data).union_prefer_right(
            self.indexes().entries(pk, data),
        )
    }

    /// `m` after the record under `pk` was removed, with its index entries.
    pub open spec fn spec_remove(&self, m: Map<Seq<u8>, Seq<u8>>, pk: Seq<u8>) -> Map<
        Seq<u8>,
        Seq<u8>,
    > {
        self.spec_unindexed(m, pk).remove(self.spec_key(pk))
    }

    /// Every index entry of the record `data` under `pk` is in `m`.
    pub open spec fn indexed(&self, m: Map<Seq<u8>, Seq<u8>>, pk: Seq<u8>, data: Seq<u8>) -> bool {
        forall|key: Seq<u8>|
            #![trigger self.indexes().entries(pk, data).contains_key(key)]
            self.indexes().entries(pk, data).contains_key(key) ==> m.contains_key(key) && m[key]
                == self.indexes().entries(pk, data)[key]
    }

    /// `key` is an index entry of the record that `m` holds under `pk`.
    pub open spec fn owns(&self, m: Map<Seq<u8>, Seq<u8>>, pk: Seq<u8>, key: Seq<u8>) -> bool {
        &&& m.contains_key(self.spec_key(pk))
        &&& self.indexes().entries(pk, m[self.spec_key(pk)]).contains_key(key)
    }

    /// The records and the index entries in `m` agree: every record has all its index
    /// entries, and every entry under an index namespace is the entry of a record.
    pub open spec fn consistent(&self, m: Map<Seq<u8>, Seq<u8>>) -> bool {
        &&& forall|pk: Seq<u8>|
            #![trigger m.contains_key(self.spec_key(pk))]
            m.contains_key(self.spec_key(pk)) ==> self.indexed(m, pk, m[self.spec_key(pk)])
        &&& forall|key: Seq<u8>|
            #![trigger in_keyspace(self.indexes().namespaces(), key)]
            m.contains_key(key) && in_keyspace(self.indexes().namespaces(), key) ==> exists|
                pk: Seq<u8>,
            | #[trigger] self.owns(m, pk, key)
    }

    /// The collection that keeps its records under `namespace` and the indexes `idx` with
    /// them. The indexes use other namespaces than the records.
    pub fn new(namespace: &str, idx: I) -> (r: Self)
        requires
            vstd::utf8::encode_utf8(namespace@).len() <= MAX_SEGMENT_LEN,
            idx.wf(),
            !idx.namespaces().contains(vstd::utf8::encode_utf8(namespace@)),
        ensures
            r.wf(),
            r.indexes() == idx,
            r.primary().namespace() == vstd::utf8::encode_utf8(namespace@),
    {
        IndexedMap { primary: MapCow::new_ref(namespace), idx }
    }

    /// The indexes that are kept with the records.
    pub fn idx(&self) -> (r: &I)
        ensures
            *r == self.indexes(),
    {
        &self.idx
    }

    /// The record under `pk`, if there is one.
    pub fn may_load(&self, store: &MemoryStorage, pk: &[u8]) -> (r: Option<Vec<u8>>)
        requires
            self.wf(),
        ensures
            crate::range::key_view(r) == self.spec_get(crate::store::contents(*store), pk@),
    {
        self.primary.may_load(store, pk)
    }

    /// The record under `pk`; `NotFound` when there is none.
    pub fn load(&self, store: &MemoryStorage, pk: &[u8]) -> (r: Result<Vec<u8>, StorageError>)
        requires
            self.wf(),
        ensures
            match r {
                Ok(data) => self.spec_get(crate::store::contents(*store), pk@) == Some(data@),
                Err(e) => e == StorageError::NotFound && self.spec_get(
                    crate::store::contents(*store),
                    pk@,
                ) is None,
            },
    {
        self.primary.load(store, pk)
    }

    /// Keeps `data` under `pk` and brings every index up to date. Where an index refuses
    /// the record, nothing is written and the result is `Conflict`.
    pub fn save(&self, store: &mut MemoryStorage, pk: &[u8], data: &[u8]) -> (r: Result<
        (),
        StorageError,
    >)
        requires
            self.wf(),
            data@.len() > 0,
        ensures
            match r {
                Ok(_) => {
                    &&& !self.indexes().conflicts(crate::store::contents(*old(store)), pk@, data@)
                    &&& crate::store::contents(*final(store)) == self.spec_save(
                        crate::store::contents(*old(store)),
                        pk@,
                        data@,
                    )
                },
                Err(e) => {
                    &&& e == StorageError::Conflict
                    &&& self.indexes().conflicts(crate::store::contents(*old(store)), pk@, data@)
                    &&& crate::store::contents(*final(store)) == crate::store::contents(
                        *old(store),
                    )
                },
            },
            self.consistent(crate::store::contents(*old(store))) ==> self.consistent(
                crate::store::contents(*final(store)),
            ),
    {
        let ghost m = crate::store::contents(*store);
        if !self.idx.check(store, pk, data) {
            return Err(StorageError::Conflict);
        }
        match self.primary.may_load(store, pk) {
            Some(old) => {
                self.idx.remove(store, pk, old.as_slice());
            },
            None => {},
        }
        self.primary.save(store, pk, data);
        self.idx.write(store, pk, data);
        proof {
            if self.consistent(m) {
                self.lemma_save_consistent(m, pk@, data@);
            }
        }
        Ok(())
    }

    /// Drops the record under `pk`, if there is one, and its index entries.
    pub fn remove(&self, store: &mut MemoryStorage, pk: &[u8])
        requires
            self.wf(),
        ensures
            crate::store::contents(*final(store)) == self.spec_remove(
                crate::store::contents(*old(store)),
                pk@,
            ),
            self.consistent(crate::store::contents(*old(store))) ==> self.consistent(
                crate::store::contents(*final(store)),
            ),
    {
        let ghost m = crate::store::contents(*store);
        match self.primary.may_load(store, pk) {
            Some(old) => {
                self.idx.remove(store, pk, old.as_slice());
                self.primary.remove(store, pk);
            },
            None => {
                assert(m =~= m.remove(self.spec_key(pk@)));
            },
        }
        proof {
            if self.consistent(m) {
                self.lemma_remove_consistent(m, pk@);
            }
        }
    }

    /// Loads the record under `pk`, hands it to `action`, and saves what `action` returns.
    /// When `action` fails, or an index refuses the new record, nothing is written.
    pub fn update<A>(&self, store: &mut MemoryStorage, pk: &[u8], action: A) -> (r: Result<
        Vec<u8>,
        StorageError,
    >) where A: FnOnce(Option<Vec<u8>>) -> Result<Vec<u8>, StorageError>
        requires
            self.wf(),
            forall|input: Option<Vec<u8>>| call_requires(action, (input,)),
            forall|input: Option<Vec<u8>>, data: Vec<u8>| #[trigger]
                call_ensures(action, (input,), Ok(data)) ==> data@.len() > 0,
        ensures
            exists|input: Option<Vec<u8>>, made: Result<Vec<u8>, StorageError>|
                {
                    &&& crate::range::key_view(input) == self.spec_get(
                        crate::store::contents(*old(store)),
                        pk@,
                    )
                    &&& #[trigger] call_ensures(action, (input,), made)
                    &&& match made {
                        Err(e) => r == Err::<Vec<u8>, StorageError>(e) && crate::store::contents(
                            *final(store),
                        ) == crate::store::contents(*old(store)),
                        Ok(data) => if self.indexes().conflicts(
                            crate::store::contents(*old(store)),
                            pk@,
                            data@,
                        ) {
                            &&& r == Err::<Vec<u8>, StorageError>(StorageError::Conflict)
                            &&& crate::store::contents(*final(store)) == crate::store::contents(
                                *old(store),
                            )
                        } else {
                            &&& r == Ok::<Vec<u8>, StorageError>(data)
                            &&& crate::store::contents(*final(store)) == self.spec_save(
                                crate::store::contents(*old(store)),
                                pk@,
                                data@,
                            )
                        },
                    }
                },
            self.consistent(crate::store::contents(*old(store))) ==> self.consistent(
                crate::store::contents(*final(store)),
            ),
    {
        let input = self.primary.may_load(store, pk);
        let ghost given = input;
        let made = action(input);
        proof {
            assert(call_ensures(action, (given,), made));
        }
        match made {
            Err(e) => Err(e),
            Ok(data) => match self.save(store, pk, data.as_slice()) {
                Ok(_) => Ok(data),
                Err(e) => Err(e),
            },
        }
    }

    /// One page of the records: those whose primary keys lie within `min` and `max`, in
    /// the given order, `limit` at most.
    pub fn range(
        &self,
        store: &MemoryStorage,
        min: Option<Bound>,
        max: Option<Bound>,
        order: Order,
        limit: usize,
    ) -> (page: Vec<Entry>)
        requires
            self.wf(),
        ensures
            crate::range::is_page(
                crate::store::contents(*store),
                self.primary().spec_prefix(),
                crate::range::bounds_view(min),
                crate::range::bounds_view(max),
                crate::range::is_descending(order),
                limit as nat,
                crate::range::entries_view(page@),
            ),
    {
        self.primary.range(store, min, max, order, limit)
    }

    /// The key of a record is the key of no other record.
    pub proof fn lemma_key_injective(&self, pk: Seq<u8>, pk2: Seq<u8>)
        requires
            self.spec_key(pk) == self.spec_key(pk2),
        ensures
            pk == pk2,
    {
        let p = self.primary().spec_prefix();
        assert(pk =~= (p + pk).skip(p.len() as int));
        assert(pk2 =~= (p + pk2).skip(p.len() as int));
    }

    /// The key of a record lies in the keyspace of no index.
    pub proof fn lemma_record_key_apart(&self, pk: Seq<u8>)
        requires
            self.wf(),
        ensures
            !in_keyspace(self.indexes().namespaces(), self.spec_key(pk)),
    {
        let key = self.spec_key(pk);
        if in_keyspace(self.indexes().namespaces(), key) {
            let ns = choose|ns: Seq<u8>|
                #![trigger self.indexes().namespaces().contains(ns)]
                self.indexes().namespaces().contains(ns) && crate::lex::has_prefix(
                    key,
                    crate::keys::spec_encode_segment(ns),
                );
            self.indexes().lemma_namespaces(ns);
            let p = self.primary().spec_prefix();
            assert(key.subrange(0, p.len() as int) =~= p);
            crate::index::lemma_one_keyspace(ns, self.primary().namespace(), key);
        }
    }

    /// No index entry is the key of a record.
    pub proof fn lemma_entry_apart(&self, pk: Seq<u8>, data: Seq<u8>, key: Seq<u8>, pk2: Seq<u8>)
        requires
            self.wf(),
            self.indexes().entries(pk, data).contains_key(key),
        ensures
            key != self.spec_key(pk2),
            in_keyspace(self.indexes().namespaces(), key),
    {
        self.indexes().lemma_entries(pk, data, key);
        self.lemma_record_key_apart(pk2);
    }

    /// Saving a record that no index refuses keeps the records and the indexes in agreement.
    pub proof fn lemma_save_consistent(&self, m: Map<Seq<u8>, Seq<u8>>, pk: Seq<u8>, data: Seq<u8>)
        requires
            self.wf(),
            self.consistent(m),
            !self.indexes().conflicts(m, pk, data),
        ensures
            self.consistent(self.spec_save(m, pk, data)),
    {
        let after = self.spec_save(m, pk, data);
        let kp = self.spec_key(pk);
        let fresh = self.indexes().entries(pk, data);
        // a key that is no entry of the new record, nor the key of the record, is in
        // `after` as it was in `m`, unless it was an entry of the old record
        assert forall|key: Seq<u8>|
            !fresh.contains_key(key) && key != kp && after.contains_key(
                key,
            ) implies m.contains_key(key) && after[key] == m[key] by {}
        // the records other than `pk` are as they were
        assert forall|pk2: Seq<u8>| pk2 != pk implies (after.contains_key(self.spec_key(pk2))
            == m.contains_key(self.spec_key(pk2)) && (m.contains_key(self.spec_key(pk2))
            ==> after[self.spec_key(pk2)] == m[self.spec_key(pk2)])) by {
            let k2 = self.spec_key(pk2);
            if k2 == kp {
                self.lemma_key_injective(pk, pk2);
            }
            self.lemma_record_key_apart(pk2);
            if fresh.contains_key(k2) {
                self.indexes().lemma_entries(pk, data, k2);
            }
            if m.contains_key(kp) && self.indexes().entries(pk, m[kp]).contains_key(k2) {
                self.indexes().lemma_entries(pk, m[kp], k2);
            }
        }
        assert(after.contains_key(kp) && after[kp] == data) by {
            self.lemma_record_key_apart(pk);
            if fresh.contains_key(kp) {
                self.indexes().lemma_entries(pk, data, kp);
            }
        }
        assert forall|pk2: Seq<u8>|
            #![trigger after.contains_key(self.spec_key(pk2))]
            after.contains_key(self.spec_key(pk2)) implies self.indexed(
            after,
            pk2,
            after[self.spec_key(pk2)],
        ) by {
            if pk2 == pk {
            } else {
                let rec = m[self.spec_key(pk2)];
                let theirs = self.indexes().entries(pk2, rec);
                assert(self.indexed(m, pk2, rec));
                assert forall|key: Seq<u8>|
                    #![trigger theirs.contains_key(key)]
                    theirs.contains_key(key) implies after.contains_key(key) && after[key]
                    == theirs[key] by {
                    self.lemma_entry_apart(pk2, rec, key, pk);
                    if fresh.contains_key(key) {
                        self.indexes().lemma_conflict(m, pk, data, pk2, rec, key);
                    }
                    if m.contains_key(kp) {
                        let old = m[kp];
                        assert(self.indexed(m, pk, old));
                        if self.indexes().entries(pk, old).contains_key(key) {
                            self.indexes().lemma_owner(pk, old, pk2, rec, key);
                        }
                    }
                }
            }
        }
        assert forall|key: Seq<u8>|
            #![trigger in_keyspace(self.indexes().namespaces(), key)]
            after.contains_key(key) && in_keyspace(self.indexes().namespaces(), key) implies exists|
            pk2: Seq<u8>,
        | #[trigger] self.owns(after, pk2, key) by {
            if fresh.contains_key(key) {
                assert(self.owns(after, pk, key));
            } else {
                self.lemma_record_key_apart(pk);
                assert(m.contains_key(key));
                let pk2 = choose|pk2: Seq<u8>| #[trigger] self.owns(m, pk2, key);
                if pk2 == pk {
                    assert(self.indexes().entries(pk, m[kp]).contains_key(key));
                    assert(false);
                }
                assert(self.owns(after, pk2, key));
            }
        }
    }

    /// Removing a record keeps the records and the indexes in agreement.
    pub proof fn lemma_remove_consistent(&self, m: Map<Seq<u8>, Seq<u8>>, pk: Seq<u8>)
        requires
            self.wf(),
            self.consistent(m),
        ensures
            self.consistent(self.spec_remove(m, pk)),
    {
        let after = self.spec_remove(m, pk);
        let kp = self.spec_key(pk);
        if m.contains_key(kp) {
            let old = m[kp];
            let stale = self.indexes().entries(pk, old);
            assert(self.indexed(m, pk, old));
            assert forall|pk2: Seq<u8>| pk2 != pk implies (after.contains_key(self.spec_key(pk2))
                == m.contains_key(self.spec_key(pk2)) && (m.contains_key(self.spec_key(pk2))
                ==> after[self.spec_key(pk2)] == m[self.spec_key(pk2)])) by {
                let k2 = self.spec_key(pk2);
                if k2 == kp {
                    self.lemma_key_injective(pk, pk2);
                }
                self.lemma_record_key_apart(pk2);
                if stale.contains_key(k2) {
                    self.indexes().lemma_entries(pk, old, k2);
                }
            }
            assert forall|pk2: Seq<u8>|
                #![trigger after.contains_key(self.spec_key(pk2))]
                after.contains_key(self.spec_key(pk2)) implies self.indexed(
                after,
                pk2,
                after[self.spec_key(pk2)],
            ) by {
                let rec = m[self.spec_key(pk2)];
                let theirs = self.indexes().entries(pk2, rec);
                assert(pk2 != pk);
                assert(self.indexed(m, pk2, rec));
                assert forall|key: Seq<u8>|
                    #![trigger theirs.contains_key(key)]
                    theirs.contains_key(key) implies after.contains_key(key) && after[key]
                    == theirs[key] by {
                    self.lemma_entry_apart(pk2, rec, key, pk);
                    if stale.contains_key(key) {
                        self.indexes().lemma_owner(pk, old, pk2, rec, key);
                    }
                }
            }
            assert forall|key: Seq<u8>|
                #![trigger in_keyspace(self.indexes().namespaces(), key)]
                after.contains_key(key) && in_keyspace(self.indexes().namespaces(), key) implies exists|
                pk2: Seq<u8>,
            | #[trigger] self.owns(after, pk2, key) by {
                assert(m.contains_key(key));
                let pk2 = choose|pk2: Seq<u8>| #[trigger] self.owns(m, pk2, key);
                if pk2 == pk {
                    assert(stale.contains_key(key));
                    assert(false);
                }
                assert(self.owns(after, pk2, key));
            }
        } else {
            assert(after =~= m);
        }
    }

    /// After a save the record is there and every index holds its entries.
    pub proof fn lemma_saved_is_indexed(
        &self,
        m: Map<Seq<u8>, Seq<u8>>,
        pk: Seq<u8>,
        data: Seq<u8>,
    )
        requires
            self.wf(),
        ensures
            self.spec_get(self.spec_save(m, pk, data), pk) == Some(data),
            self.indexed(self.spec_save(m, pk, data), pk, data),
    {
        let fresh = self.indexes().entries(pk, data);
        self.lemma_record_key_apart(pk);
        if fresh.contains_key(self.spec_key(pk)) {
            self.indexes().lemma_entries(pk, data, self.spec_key(pk));
        }
    }

    /// A save leaves the records under other primary keys as they were.
    pub proof fn lemma_save_keeps_others(
        &self,
        m: Map<Seq<u8>, Seq<u8>>,
        pk: Seq<u8>,
        data: Seq<u8>,
        other: Seq<u8>,
    )
        requires
            self.wf(),
            other != pk,
        ensures
            self.spec_get(self.spec_save(m, pk, data), other) == self.spec_get(m, other),
    {
        let k2 = self.spec_key(other);
        let kp = self.spec_key(pk);
        if k2 == kp {
            self.lemma_key_injective(pk, other);
        }
        self.lemma_record_key_apart(other);
        if self.indexes().entries(pk, data).contains_key(k2) {
            self.indexes().lemma_entries(pk, data, k2);
        }
        if m.contains_key(kp) && self.indexes().entries(pk, m[kp]).contains_key(k2) {
            self.indexes().lemma_entries(pk, m[kp], k2);
        }
    }

    /// After a removal the record is gone, and no index holds an entry that a record
    /// under that primary key would have: no scan of an index leads to it any more.
    pub proof fn lemma_removed_is_gone(
        &self,
        m: Map<Seq<u8>, Seq<u8>>,
        pk: Seq<u8>,
        data: Seq<u8>,
        key: Seq<u8>,
    )
        requires
            self.wf(),
            self.consistent(m),
            self.indexes().entries(pk, data).contains_key(key),
        ensures
            self.spec_get(self.spec_remove(m, pk), pk) is None,
            !(self.spec_remove(m, pk).contains_key(key) && self.spec_remove(m, pk)[key]
                == self.indexes().entries(pk, data)[key]),
    {
        let after = self.spec_remove(m, pk);
        self.lemma_remove_consistent(m, pk);
        self.lemma_record_key_apart(pk);
        if m.contains_key(self.spec_key(pk)) && self.indexes().entries(
            pk,
            m[self.spec_key(pk)],
        ).contains_key(self.spec_key(pk)) {
            self.indexes().lemma_entries(pk, m[self.spec_key(pk)], self.spec_key(pk));
        }
        if after.contains_key(key) && after[key] == self.indexes().entries(pk, data)[key] {
            self.indexes().lemma_entries(pk, data, key);
            let owner = choose|owner: Seq<u8>| #[trigger] self.owns(after, owner, key);
            let rec = after[self.spec_key(owner)];
            assert(self.indexed(after, owner, rec));
            self.indexes().lemma_owner(pk, data, owner, rec, key);
        }
    }

    /// Where a saved record holds an index entry that a record under another primary key
    /// would need, saving that other record is a conflict, and the first record is still
    /// what it was: a unique index never leads from one index key to two records.
    pub proof fn lemma_second_save_conflicts(
        &self,
        m: Map<Seq<u8>, Seq<u8>>,
        pk: Seq<u8>,
        data: Seq<u8>,
        pk2: Seq<u8>,
        data2: Seq<u8>,
        key: Seq<u8>,
    )
        requires
            self.wf(),
            pk != pk2,
            self.indexes().entries(pk, data).contains_key(key),
            self.indexes().entries(pk2, data2).contains_key(key),
        ensures
            self.indexes().conflicts(self.spec_save(m, pk, data), pk2, data2),
            self.spec_get(self.spec_save(m, pk, data), pk) == Some(data),
    {
        let after = self.spec_save(m, pk, data);
        self.lemma_saved_is_indexed(m, pk, data);
        self.indexes().lemma_conflict(after, pk2, data2, pk, data, key);
    }
}
impl<D: IndexFn, T: PkTransform> IndexedMap<CustomDeseMultiIndex<D, T>> {
    /// After a save, the saved record is on every page of its index key that has no
    /// bounds and is not full, and its entry leads back to it.
    pub proof fn lemma_saved_is_listed(
        &self,
        m: Map<Seq<u8>, Seq<u8>>,
        pk: Seq<u8>,
        data: Seq<u8>,
        descending: bool,
        limit: nat,
        page: Seq<(Seq<u8>, Seq<u8>)>,
    )
        requires
            self.wf(),
            self.indexes().pk_namespace() == self.primary().namespace(),
            self.indexes().transform().spec_encode(pk).len() <= u64::MAX,
            crate::range::is_page(
                self.spec_save(m, pk, data),
                self.indexes().spec_prefix(self.indexes().index_fn().spec_index(data, pk)),
                None,
                None,
                descending,
                limit,
                page,
            ),
        ensures
            crate::custom_dese_index::spec_rehydrate(
                self.spec_save(m, pk, data),
                self.indexes().pk_namespace(),
                self.indexes().transform(),
                (self.indexes().transform().spec_encode(pk), self.indexes().spec_entry_value(pk)),
            ) == Ok::<(Seq<u8>, Seq<u8>), StorageError>((pk, data)),
            page.len() == limit || exists|i: int|
                0 <= i < page.len() && #[trigger] page[i] == (
                    self.indexes().transform().spec_encode(pk),
                    self.indexes().spec_entry_value(pk),
                ),
    {
        let after = self.spec_save(m, pk, data);
        let index = self.indexes();
        self.lemma_saved_is_indexed(m, pk, data);
        assert(index.entries(pk, data).contains_key(index.spec_entry_key(pk, data)));
        index.lemma_entry_listed(after, pk, data, descending, limit, page);
    }
}

} // verus!
