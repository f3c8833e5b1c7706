//! An index in which every index key leads to one record at most.

use crate::error::StorageError;
use crate::frame::{frame, unframe};
use crate::index::{Index, IndexFn};
use crate::keys::{bytes_equal, extend, push_segment, MAX_SEGMENT_LEN};
use crate::range::{range_with_prefix, Bound, Entry, Order};
use crate::store::{store_get, store_remove, store_set, ExMemoryStorage};
use cosmwasm_std::MemoryStorage;
use vstd::prelude::*;

verus! {

/// Each index key maps to the primary key of the one record that has it, kept behind its
/// length.
pub struct UniqueIndex<D> {
    idx_fn: D,
    idx_namespace: Vec<u8>,
}

impl<D: IndexFn> UniqueIndex<D> {
    /// The namespace of the entries.
    pub closed spec fn idx_namespace(&self) -> Seq<u8> {
        self.idx_namespace@
    }

    /// The function that derives the index key of a record.
    pub closed spec fn index_fn(&self) -> D {
        self.idx_fn
    }

    /// The key of the entry for the index key `index_key`.
    pub open spec fn spec_key(&self, index_key: Seq<u8>) -> Seq<u8> {
        crate::keys::spec_encode_segment(self.idx_namespace()) + index_key
    }

    /// The key of the entry for the record `data` under `pk`.
    pub open spec fn spec_entry_key(&self, pk: Seq<u8>, data: Seq<u8>) -> Seq<u8> {
        self.spec_key(self.index_fn().spec_index(data, pk))
    }

    /// The primary key that the entries `m` give for `index_key`: none without an entry,
    /// `DecodeError` when the entry holds no framed key.
    pub open spec fn spec_pk(&self, m: Map<Seq<u8>, Seq<u8>>, index_key: Seq<u8>) -> Result<
        Option<Seq<u8>>,
        StorageError,
    > {
        if !m.contains_key(self.spec_key(index_key)) {
            Ok(None)
        } else {
            match crate::frame::spec_unframe(m[self.spec_key(index_key)]) {
                Some(pk) => Ok(Some(pk)),
                None => Err(StorageError::DecodeError),
            }
        }
    }

    /// The unique index that keeps, under `idx_namespace`, the index keys that `idx_fn`
    /// derives.
    pub fn new(idx_fn: D, idx_namespace: &str) -> (r: Self)
        requires
            vstd::utf8::encode_utf8(idx_namespace@).len() <= MAX_SEGMENT_LEN,
        ensures
            r.wf(),
            r.index_fn() == idx_fn,
            r.idx_namespace() == vstd::utf8::encode_utf8(idx_namespace@),
    {
        UniqueIndex { idx_fn, idx_namespace: vstd::slice::slice_to_vec(idx_namespace.as_bytes()) }
    }

    fn key(&self, index_key: &[u8]) -> (r: Vec<u8>)
        requires
            self.wf(),
        ensures
            r@ == self.spec_key(index_key@),
    {
        let mut r: Vec<u8> = Vec::new();
        push_segment(&mut r, self.idx_namespace.as_slice());
        extend(&mut r, index_key);
        r
    }

    /// The primary key of the record that has `index_key`, if there is one.
    pub fn pk(&self, store: &MemoryStorage, index_key: &[u8]) -> (r: Result<
        Option<Vec<u8>>,
        StorageError,
    >)
        requires
            self.wf(),
        ensures
            match r {
                Ok(pk) => self.spec_pk(crate::store::contents(*store), index_key@) == Ok::<
                    Option<Seq<u8>>,
                    StorageError,
                >(crate::range::key_view(pk)),
                Err(e) => self.spec_pk(crate::store::contents(*store), index_key@) == Err::<
                    Option<Seq<u8>>,
                    StorageError,
                >(e),
            },
    {
        let key = self.key(index_key);
        match store_get(store, key.as_slice()) {
            None => Ok(None),
            Some(value) => match unframe(value.as_slice()) {
                Some(pk) => Ok(Some(pk)),
                None => Err(StorageError::DecodeError),
            },
        }
    }

    /// The index keys and primary keys that the entries of a page stand for: `DecodeError`
    /// when an entry holds no framed key.
    pub open spec fn spec_pks(page: Seq<(Seq<u8>, Seq<u8>)>) -> Result<
        Seq<(Seq<u8>, Seq<u8>)>,
        StorageError,
    >
        decreases page.len(),
    {
        if page.len() == 0 {
            Ok(Seq::<(Seq<u8>, Seq<u8>)>::empty())
        } else {
            match Self::spec_pks(page.drop_last()) {
                Err(e) => Err(e),
                Ok(found) => match crate::frame::spec_unframe(page.last().1) {
                    Some(pk) => Ok(found.push((page.last().0, pk))),
                    None => Err(StorageError::DecodeError),
                },
            }
        }
    }

    /// Once a front part of a page fails to decode, the whole page does.
    proof fn lemma_pks_fail(page: Seq<(Seq<u8>, Seq<u8>)>, n: int)
        requires
            0 <= n <= page.len(),
            Self::spec_pks(page.subrange(0, n)) is Err,
        ensures
            Self::spec_pks(page) == Self::spec_pks(page.subrange(0, n)),
        decreases page.len() - n,
    {
        if n == page.len() {
            assert(page.subrange(0, n) =~= page);
        } else {
            let longer = page.subrange(0, n + 1);
            assert(longer.drop_last() =~= page.subrange(0, n));
            Self::lemma_pks_fail(page, n + 1);
        }
    }

    /// One page of the index: the index keys within `min` and `max`, in the given order,
    /// `limit` at most, each with the primary key it leads to.
    pub fn range(
        &self,
        store: &MemoryStorage,
        min: Option<Bound>,
        max: Option<Bound>,
        order: Order,
        limit: usize,
    ) -> (r: Result<Vec<Entry>, StorageError>)
        requires
            self.wf(),
        ensures
            exists|page: Seq<(Seq<u8>, Seq<u8>)>|
                {
                    &&& #[trigger] crate::range::is_page(
                        crate::store::contents(*store),
                        crate::keys::spec_encode_segment(self.idx_namespace()),
                        crate::range::bounds_view(min),
                        crate::range::bounds_view(max),
                        crate::range::is_descending(order),
                        limit as nat,
                        page,
                    )
                    &&& match r {
                        Ok(found) => Self::spec_pks(page) == Ok::<
                            Seq<(Seq<u8>, Seq<u8>)>,
                            StorageError,
                        >(crate::range::entries_view(found@)),
                        Err(e) => Self::spec_pks(page) == Err::<
                            Seq<(Seq<u8>, Seq<u8>)>,
                            StorageError,
                        >(e),
                    }
                },
    {
        let prefix = self.key(&[]);
        assert(prefix@ =~= crate::keys::spec_encode_segment(self.idx_namespace()));
        let page = range_with_prefix(store, prefix.as_slice(), min, max, order, limit);
        let ghost entries = crate::range::entries_view(page@);
        let mut found: Vec<Entry> = Vec::new();
        let mut i: usize = 0;
        proof {
            assert(entries.subrange(0, 0) =~= Seq::<(Seq<u8>, Seq<u8>)>::empty());
            assert(crate::range::entries_view(found@) =~= Seq::<(Seq<u8>, Seq<u8>)>::empty());
        }
        while i < page.len()
            invariant
                i <= page.len(),
                entries == crate::range::entries_view(page@),
                crate::range::is_page(
                    crate::store::contents(*store),
                    crate::keys::spec_encode_segment(self.idx_namespace()),
                    crate::range::bounds_view(min),
                    crate::range::bounds_view(max),
                    crate::range::is_descending(order),
                    limit as nat,
                    entries,
                ),
                Self::spec_pks(entries.subrange(0, i as int)) == Ok::<
                    Seq<(Seq<u8>, Seq<u8>)>,
                    StorageError,
                >(crate::range::entries_view(found@)),
            decreases page.len() - i,
        {
            let ghost before = entries.subrange(0, i as int);
            let ghost next = entries.subrange(0, i + 1);
            proof {
                assert(next.drop_last() =~= before);
                assert(next.last() == entries[i as int]);
                assert(entries[i as int].0 == page@[i as int].0@);
                assert(entries[i as int].1 == page@[i as int].1@);
            }
            match unframe(page[i].1.as_slice()) {
                None => {
                    proof {
                        assert(Self::spec_pks(next) == Err::<
                            Seq<(Seq<u8>, Seq<u8>)>,
                            StorageError,
                        >(StorageError::DecodeError));
                        Self::lemma_pks_fail(entries, i + 1);
                    }
                    return Err(StorageError::DecodeError);
                },
                Some(pk) => {
                    let index_key = vstd::slice::slice_to_vec(page[i].0.as_slice());
                    let ghost pair = (index_key@, pk@);
                    let ghost so_far = crate::range::entries_view(found@);
                    found.push((index_key, pk));
                    assert(crate::range::entries_view(found@) =~= so_far.push(pair));
                    assert(Self::spec_pks(next) == Ok::<Seq<(Seq<u8>, Seq<u8>)>, StorageError>(
                        so_far.push(pair),
                    ));
                },
            }
            i += 1;
        }
        assert(entries.subrange(0, i as int) =~= entries);
        Ok(found)
    }

    /// Where the store holds the entry of a record, the index key of the record leads to
    /// its primary key.
    pub proof fn lemma_entry_found(&self, m: Map<Seq<u8>, Seq<u8>>, pk: Seq<u8>, data: Seq<u8>)
        requires
            pk.len() <= u64::MAX,
            m.contains_key(self.spec_entry_key(pk, data)),
            m[self.spec_entry_key(pk, data)] == crate::frame::spec_frame(pk),
        ensures
            self.spec_pk(m, self.index_fn().spec_index(data, pk)) == Ok::<
                Option<Seq<u8>>,
                StorageError,
            >(Some(pk)),
    {
        crate::frame::lemma_unframe_frame(pk);
    }

    /// Two framed keys are equal only if the keys are.
    proof fn lemma_frame_injective(a: Seq<u8>, b: Seq<u8>)
        requires
            crate::frame::spec_frame(a) == crate::frame::spec_frame(b),
        ensures
            a == b,
    {
        crate::frame::lemma_encode_len_len(a.len());
        crate::frame::lemma_encode_len_len(b.len());
        assert(a =~= crate::frame::spec_frame(a).skip(8));
        assert(b =~= crate::frame::spec_frame(b).skip(8));
    }
}

impl<D: IndexFn> Index for UniqueIndex<D> {
    open spec fn wf(&self) -> bool {
        self.idx_namespace().len() <= MAX_SEGMENT_LEN
    }

    open spec fn namespaces(&self) -> Set<Seq<u8>> {
        set![self.idx_namespace()]
    }

    open spec fn entries(&self, pk: Seq<u8>, data: Seq<u8>) -> Map<Seq<u8>, Seq<u8>> {
        map![self.spec_entry_key(pk, data) => crate::frame::spec_frame(pk)]
    }

    /// The index key of the record already leads to another primary key.
    open spec fn conflicts(&self, m: Map<Seq<u8>, Seq<u8>>, pk: Seq<u8>, data: Seq<u8>) -> bool {
        &&& m.contains_key(self.spec_entry_key(pk, data))
        &&& m[self.spec_entry_key(pk, data)] != crate::frame::spec_frame(pk)
    }

    proof fn lemma_namespaces(&self, ns: Seq<u8>) {
    }

    proof fn lemma_entries(&self, pk: Seq<u8>, data: Seq<u8>, key: Seq<u8>) {
        if self.entries(pk, data).contains_key(key) {
            crate::frame::lemma_encode_len_len(pk.len());
            let p = crate::keys::spec_encode_segment(self.idx_namespace());
            assert(key.subrange(0, p.len() as int) =~= p);
            assert(self.namespaces().contains(self.idx_namespace()));
        }
    }

    proof fn lemma_owner(
        &self,
        pk: Seq<u8>,
        data: Seq<u8>,
        pk2: Seq<u8>,
        data2: Seq<u8>,
        key: Seq<u8>,
    ) {
        if self.entries(pk, data).contains_key(key) && self.entries(pk2, data2).contains_key(
            key,
        ) && self.entries(pk, data)[key] == self.entries(pk2, data2)[key] {
            Self::lemma_frame_injective(pk, pk2);
        }
    }

    proof fn lemma_conflict(
        &self,
        m: Map<Seq<u8>, Seq<u8>>,
        pk: Seq<u8>,
        data: Seq<u8>,
        pk2: Seq<u8>,
        data2: Seq<u8>,
        key: Seq<u8>,
    ) {
        if pk != pk2 && self.entries(pk, data).contains_key(key) && self.entries(
            pk2,
            data2,
        ).contains_key(key) && m.contains_key(key) && m[key] == self.entries(pk2, data2)[key] {
            if crate::frame::spec_frame(pk) == crate::frame::spec_frame(pk2) {
                Self::lemma_frame_injective(pk, pk2);
            }
        }
    }

    proof fn lemma_conflicts_local(
        &self,
        m1: Map<Seq<u8>, Seq<u8>>,
        m2: Map<Seq<u8>, Seq<u8>>,
        pk: Seq<u8>,
        data: Seq<u8>,
    ) {
        let key = self.spec_entry_key(pk, data);
        self.lemma_entries(pk, data, key);
        assert(crate::index::in_keyspace(self.namespaces(), key));
    }

    fn check(&self, store: &MemoryStorage, pk: &[u8], data: &[u8]) -> (ok: bool) {
        let index_key = self.idx_fn.index(data, pk);
        let key = self.key(index_key.as_slice());
        match store_get(store, key.as_slice()) {
            None => true,
            Some(value) => {
                let mine = frame(pk);
                bytes_equal(value.as_slice(), mine.as_slice())
            },
        }
    }

    fn write(&self, store: &mut MemoryStorage, pk: &[u8], data: &[u8]) {
        let index_key = self.idx_fn.index(data, pk);
        let key = self.key(index_key.as_slice());
        let value = frame(pk);
        let ghost before = crate::store::contents(*store);
        store_set(store, key.as_slice(), value.as_slice());
        assert(crate::store::contents(*store) =~= before.union_prefer_right(
            self.entries(pk@, data@),
        ));
    }

    fn remove(&self, store: &mut MemoryStorage, pk: &[u8], old_data: &[u8]) {
        let index_key = self.idx_fn.index(old_data, pk);
        let key = self.key(index_key.as_slice());
        let ghost before = crate::store::contents(*store);
        store_remove(store, key.as_slice());
        assert(crate::store::contents(*store) =~= before.remove_keys(
            self.entries(pk@, old_data@).dom(),
        ));
    }
}

} // verus!
