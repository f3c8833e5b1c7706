//! A multi-valued index whose entries end in the primary key, written through a transform.

use crate::error::StorageError;
use crate::frame::{decode_len, encode_len};
use crate::index::{Index, IndexFn, PkTransform};
use crate::keys::{extend, push_segment, MAX_SEGMENT_LEN};
use crate::range::{range_with_prefix, Bound, Entry, Order};
use crate::store::{store_get, store_remove, store_set, ExMemoryStorage};
use cosmwasm_std::MemoryStorage;
use vstd::prelude::*;

verus! {

/// The primary key as it is.
pub struct Plain;

impl PkTransform for Plain {
    open spec fn spec_encode(&self, pk: Seq<u8>) -> Seq<u8> {
        pk
    }

    open spec fn spec_decode(&self, stored: Seq<u8>) -> Seq<u8> {
        stored
    }

    proof fn lemma_inverse(&self, pk: Seq<u8>) {
    }

    fn encode(&self, pk: &[u8]) -> (r: Vec<u8>) {
        vstd::slice::slice_to_vec(pk)
    }

    fn decode(&self, stored: &[u8]) -> (r: Vec<u8>) {
        vstd::slice::slice_to_vec(stored)
    }
}

/// Every byte of the primary key replaced by its complement, which turns the order of keys
/// of one length around: for a big-endian number `n` it writes the greatest number less `n`.
pub struct Complement;

/// Every byte replaced by its complement.
pub open spec fn spec_complement(bytes: Seq<u8>) -> Seq<u8> {
    Seq::new(bytes.len(), |i: int| (255 - bytes[i]) as u8)
}

/// Every byte replaced by its complement.
pub fn complement(bytes: &[u8]) -> (r: Vec<u8>)
    ensures
        r@ == spec_complement(bytes@),
{
    let mut r: Vec<u8> = Vec::new();
    let mut i: usize = 0;
    while i < bytes.len()
        invariant
            i <= bytes.len(),
            r@ == spec_complement(bytes@.subrange(0, i as int)),
        decreases bytes.len() - i,
    {
        r.push(255 - bytes[i]);
        i += 1;
        assert(r@ =~= spec_complement(bytes@.subrange(0, i as int)));
    }
    assert(bytes@.subrange(0, i as int) =~= bytes@);
    r
}

impl PkTransform for Complement {
    open spec fn spec_encode(&self, pk: Seq<u8>) -> Seq<u8> {
        spec_complement(pk)
    }

    open spec fn spec_decode(&self, stored: Seq<u8>) -> Seq<u8> {
        spec_complement(stored)
    }

    proof fn lemma_inverse(&self, pk: Seq<u8>) {
        assert(spec_complement(spec_complement(pk)) =~= pk);
    }

    fn encode(&self, pk: &[u8]) -> (r: Vec<u8>) {
        complement(pk)
    }

    fn decode(&self, stored: &[u8]) -> (r: Vec<u8>) {
        complement(stored)
    }
}

/// The bytes at the end of an index key that stand for the primary key, as the length
/// marker kept with the key gives them; `None` when the marker is no length, or one that
/// the key is too short for.
pub open spec fn spec_stored_pk(key: Seq<u8>, marker: Seq<u8>) -> Option<Seq<u8>> {
    match crate::frame::spec_decode_len(marker) {
        Some(n) => if n <= key.len() {
            Some(key.skip(key.len() - n))
        } else {
            None
        },
        None => None,
    }
}

/// The bytes at the end of an index key that stand for the primary key.
pub fn stored_pk(key: &[u8], marker: &[u8]) -> (r: Option<Vec<u8>>)
    ensures
        crate::range::key_view(r) == spec_stored_pk(key@, marker@),
{
    match decode_len(marker) {
        Some(n) => {
            if n <= key.len() as u64 {
                let offset: usize = key.len() - n as usize;
                Some(vstd::slice::slice_to_vec(vstd::slice::slice_subrange(key, offset, key.len())))
            } else {
                None
            }
        },
        None => None,
    }
}

/// Turns one entry of a multi-valued index into the primary key and the record it points
/// to: the end of the index key, as long as the marker says, goes through `pk_fn`, and
/// the record is read from the primary keyspace under what comes out.
pub fn deserialize_multi_kv_custom_pk<F>(
    store: &MemoryStorage,
    pk_namespace: &[u8],
    kv: Entry,
    pk_fn: F,
) -> (r: Result<Entry, StorageError>) where F: Fn(Vec<u8>) -> Vec<u8>
    requires
        pk_namespace@.len() <= MAX_SEGMENT_LEN,
        forall|stored: Vec<u8>| call_requires(pk_fn, (stored,)),
    ensures
        match r {
            Ok((pk, data)) => {
                &&& exists|stored: Vec<u8>|
                    {
                        &&& spec_stored_pk(kv.0@, kv.1@) == Some(stored@)
                        &&& #[trigger] call_ensures(pk_fn, (stored,), pk)
                    }
                &&& crate::store::contents(*store).contains_key(
                    crate::keys::spec_encode_segment(pk_namespace@) + pk@,
                )
                &&& crate::store::contents(*store)[crate::keys::spec_encode_segment(
                    pk_namespace@,
                ) + pk@] == data@
            },
            Err(e) => if spec_stored_pk(kv.0@, kv.1@) is None {
                e == StorageError::DecodeError
            } else {
                &&& e == StorageError::NotFound
                &&& exists|stored: Vec<u8>, pk: Vec<u8>|
                    {
                        &&& spec_stored_pk(kv.0@, kv.1@) == Some(stored@)
                        &&& #[trigger] call_ensures(pk_fn, (stored,), pk)
                        &&& !crate::store::contents(*store).contains_key(
                            crate::keys::spec_encode_segment(pk_namespace@) + pk@,
                        )
                    }
            },
        },
{
    let (key, marker) = kv;
    match stored_pk(key.as_slice(), marker.as_slice()) {
        None => Err(StorageError::DecodeError),
        Some(stored) => {
            let ghost given = stored;
            let pk = pk_fn(stored);
            let mut full_key: Vec<u8> = Vec::new();
            push_segment(&mut full_key, pk_namespace);
            extend(&mut full_key, pk.as_slice());
            assert(full_key@ =~= crate::keys::spec_encode_segment(pk_namespace@) + pk@);
            match store_get(store, full_key.as_slice()) {
                Some(data) => {
                    assert(call_ensures(pk_fn, (given,), pk));
                    Ok((pk, data))
                },
                None => {
                    assert(call_ensures(pk_fn, (given,), pk));
                    Err(StorageError::NotFound)
                },
            }
        },
    }
}

/// The primary key and the record that one entry of a multi-valued index stands for, in a
/// store that holds `m`: the end of the index key, as long as the marker says, read back
/// through the transform, and the record kept under it in the primary keyspace.
pub open spec fn spec_rehydrate<T: PkTransform>(
    m: Map<Seq<u8>, Seq<u8>>,
    pk_namespace: Seq<u8>,
    transform: T,
    entry: (Seq<u8>, Seq<u8>),
) -> Result<(Seq<u8>, Seq<u8>), StorageError> {
    match spec_stored_pk(entry.0, entry.1) {
        None => Err(StorageError::DecodeError),
        Some(stored) => {
            let pk = transform.spec_decode(stored);
            let key = crate::keys::spec_encode_segment(pk_namespace) + pk;
            if m.contains_key(key) {
                Ok((pk, m[key]))
            } else {
                Err(StorageError::NotFound)
            }
        },
    }
}

/// The records that the entries of a page stand for, or the first error met.
pub open spec fn spec_rehydrate_all<T: PkTransform>(
    m: Map<Seq<u8>, Seq<u8>>,
    pk_namespace: Seq<u8>,
    transform: T,
    page: Seq<(Seq<u8>, Seq<u8>)>,
) -> Result<Seq<(Seq<u8>, Seq<u8>)>, StorageError>
    decreases page.len(),
{
    if page.len() == 0 {
        Ok(Seq::<(Seq<u8>, Seq<u8>)>::empty())
    } else {
        match spec_rehydrate_all(m, pk_namespace, transform, page.drop_last()) {
            Err(e) => Err(e),
            Ok(items) => match spec_rehydrate(m, pk_namespace, transform, page.last()) {
                Ok(item) => Ok(items.push(item)),
                Err(e) => Err(e),
            },
        }
    }
}

/// Once a front part of a page fails, the whole page fails in the same way.
pub proof fn lemma_rehydrate_fail<T: PkTransform>(
    m: Map<Seq<u8>, Seq<u8>>,
    pk_namespace: Seq<u8>,
    transform: T,
    page: Seq<(Seq<u8>, Seq<u8>)>,
    n: int,
)
    requires
        0 <= n <= page.len(),
        spec_rehydrate_all(m, pk_namespace, transform, page.subrange(0, n)) is Err,
    ensures
        spec_rehydrate_all(m, pk_namespace, transform, page) == spec_rehydrate_all(
            m,
            pk_namespace,
            transform,
            page.subrange(0, n),
        ),
    decreases page.len() - n,
{
    if n == page.len() {
        assert(page.subrange(0, n) =~= page);
    } else {
        let longer = page.subrange(0, n + 1);
        assert(longer.drop_last() =~= page.subrange(0, n));
        lemma_rehydrate_fail(m, pk_namespace, transform, page, n + 1);
    }
}

/// The entries of an index whose keys start with one prefix.
pub struct Prefix<'a, T> {
    storage_prefix: Vec<u8>,
    pk_namespace: Vec<u8>,
    transform: &'a T,
}

impl<'a, T: PkTransform> Prefix<'a, T> {
    /// What the keys of the entries start with.
    pub closed spec fn storage_prefix(&self) -> Seq<u8> {
        self.storage_prefix@
    }

    /// The namespace of the records.
    pub closed spec fn pk_namespace(&self) -> Seq<u8> {
        self.pk_namespace@
    }

    /// How the primary keys are read back.
    pub closed spec fn transform(&self) -> T {
        *self.transform
    }

    /// The namespace of the records fits the two-byte length prefix.
    pub open spec fn wf(&self) -> bool {
        self.pk_namespace().len() <= MAX_SEGMENT_LEN
    }

    /// One page of the entries, each as the rest of its key after the prefix.
    pub fn keys(
        &self,
        store: &MemoryStorage,
        min: Option<Bound>,
        max: Option<Bound>,
        order: Order,
        limit: usize,
    ) -> (r: Vec<Vec<u8>>)
        ensures
            exists|page: Seq<(Seq<u8>, Seq<u8>)>|
                {
                    &&& #[trigger] crate::range::is_page(
                        crate::store::contents(*store),
                        self.storage_prefix(),
                        crate::range::bounds_view(min),
                        crate::range::bounds_view(max),
                        crate::range::is_descending(order),
                        limit as nat,
                        page,
                    )
                    &&& crate::keys::vecs_view(r@) == crate::range::page_keys(page)
                },
    {
        let page = range_with_prefix(store, self.storage_prefix.as_slice(), min, max, order, limit);
        let ghost entries = crate::range::entries_view(page@);
        let mut keys: Vec<Vec<u8>> = Vec::new();
        let mut i: usize = 0;
        while i < page.len()
            invariant
                i <= page.len(),
                keys@.len() == i,
                entries == crate::range::entries_view(page@),
                crate::range::is_page(
                    crate::store::contents(*store),
                    self.storage_prefix(),
                    crate::range::bounds_view(min),
                    crate::range::bounds_view(max),
                    crate::range::is_descending(order),
                    limit as nat,
                    entries,
                ),
                forall|j: int| 0 <= j < i ==> (#[trigger] keys@[j])@ == page@[j].0@,
            decreases page.len() - i,
        {
            keys.push(vstd::slice::slice_to_vec(page[i].0.as_slice()));
            i += 1;
        }
        proof {
            assert(crate::keys::vecs_view(keys@) =~= crate::range::page_keys(entries));
        }
        keys
    }

    /// One page of the entries, each as the primary key and the record it points to.
    /// Fails with what the first entry fails with that does not lead to a record.
    pub fn range(
        &self,
        store: &MemoryStorage,
        min: Option<Bound>,
        max: Option<Bound>,
        order: Order,
        limit: usize,
    ) -> (r: Result<Vec<Entry>, StorageError>)
        requires
            self.wf(),
        ensures
            exists|page: Seq<(Seq<u8>, Seq<u8>)>|
                {
                    &&& #[trigger] crate::range::is_page(
                        crate::store::contents(*store),
                        self.storage_prefix(),
                        crate::range::bounds_view(min),
                        crate::range::bounds_view(max),
                        crate::range::is_descending(order),
                        limit as nat,
                        page,
                    )
                    &&& match r {
                        Ok(items) => spec_rehydrate_all(
                            crate::store::contents(*store),
                            self.pk_namespace(),
                            self.transform(),
                            page,
                        ) == Ok::<Seq<(Seq<u8>, Seq<u8>)>, StorageError>(
                            crate::range::entries_view(items@),
                        ),
                        Err(e) => spec_rehydrate_all(
                            crate::store::contents(*store),
                            self.pk_namespace(),
                            self.transform(),
                            page,
                        ) == Err::<Seq<(Seq<u8>, Seq<u8>)>, StorageError>(e),
                    }
                },
    {
        let ghost m = crate::store::contents(*store);
        let page = range_with_prefix(store, self.storage_prefix.as_slice(), min, max, order, limit);
        let ghost entries = crate::range::entries_view(page@);
        let mut items: Vec<Entry> = Vec::new();
        let mut i: usize = 0;
        proof {
            assert(entries.subrange(0, 0) =~= Seq::<(Seq<u8>, Seq<u8>)>::empty());
            assert(crate::range::entries_view(items@) =~= Seq::<(Seq<u8>, Seq<u8>)>::empty());
        }
        while i < page.len()
            invariant
                self.wf(),
                i <= page.len(),
                m == crate::store::contents(*store),
                entries == crate::range::entries_view(page@),
                crate::range::is_page(
                    m,
                    self.storage_prefix(),
                    crate::range::bounds_view(min),
                    crate::range::bounds_view(max),
                    crate::range::is_descending(order),
                    limit as nat,
                    entries,
                ),
                spec_rehydrate_all(
                    m,
                    self.pk_namespace(),
                    self.transform(),
                    entries.subrange(0, i as int),
                ) == Ok::<Seq<(Seq<u8>, Seq<u8>)>, StorageError>(
                    crate::range::entries_view(items@),
                ),
            decreases page.len() - i,
        {
            let ghost before = entries.subrange(0, i as int);
            let ghost next = entries.subrange(0, i + 1);
            let ghost so_far = crate::range::entries_view(items@);
            proof {
                assert(next.drop_last() =~= before);
                assert(next.last() == entries[i as int]);
                assert(entries[i as int].0 == page@[i as int].0@);
                assert(entries[i as int].1 == page@[i as int].1@);
            }
            let kv: Entry = (
                vstd::slice::slice_to_vec(page[i].0.as_slice()),
                vstd::slice::slice_to_vec(page[i].1.as_slice()),
            );
            let transform: &T = self.transform;
            let pk_fn = |stored: Vec<u8>| -> (pk: Vec<u8>)
                ensures
                    pk@ == transform.spec_decode(stored@),
                { transform.decode(stored.as_slice()) };
            match deserialize_multi_kv_custom_pk(store, self.pk_namespace.as_slice(), kv, pk_fn) {
                Ok(item) => {
                    let ghost found = (item.0@, item.1@);
                    assert(spec_rehydrate(m, self.pk_namespace(), self.transform(), next.last())
                        == Ok::<(Seq<u8>, Seq<u8>), StorageError>(found));
                    items.push(item);
                    assert(crate::range::entries_view(items@) =~= so_far.push(found));
                },
                Err(e) => {
                    proof {
                        assert(spec_rehydrate(
                            m,
                            self.pk_namespace(),
                            self.transform(),
                            next.last(),
                        ) == Err::<(Seq<u8>, Seq<u8>), StorageError>(e));
                        lemma_rehydrate_fail(
                            m,
                            self.pk_namespace(),
                            self.transform(),
                            entries,
                            i + 1,
                        );
                    }
                    return Err(e);
                },
            }
            i += 1;
        }
        assert(entries.subrange(0, i as int) =~= entries);
        Ok(items)
    }
}

/// A multi-valued index: several records may share an index key, and each entry ends in
/// the primary key of its record, written through a transform.
pub struct CustomDeseMultiIndex<D, T> {
    idx_fn: D,
    transform: T,
    idx_namespace: Vec<u8>,
    pk_namespace: Vec<u8>,
}

impl<D: IndexFn, T: PkTransform> CustomDeseMultiIndex<D, T> {
    /// The namespace of the entries.
    pub closed spec fn idx_namespace(&self) -> Seq<u8> {
        self.idx_namespace@
    }

    /// The namespace of the records.
    pub closed spec fn pk_namespace(&self) -> Seq<u8> {
        self.pk_namespace@
    }

    /// The function that derives the index key of a record.
    pub closed spec fn index_fn(&self) -> D {
        self.idx_fn
    }

    /// How the primary keys are written and read back.
    pub closed spec fn transform(&self) -> T {
        self.transform
    }

    /// What the keys of all entries start with.
    pub open spec fn spec_sub_prefix(&self) -> Seq<u8> {
        crate::keys::spec_encode_segment(self.idx_namespace())
    }

    /// What the keys of the entries for one index key start with.
    pub open spec fn spec_prefix(&self, index_key: Seq<u8>) -> Seq<u8> {
        self.spec_sub_prefix() + crate::keys::spec_encode_segment(index_key)
    }

    /// The index key of a record, then its primary key as the transform writes it.
    pub open spec fn spec_index_key(&self, pk: Seq<u8>, data: Seq<u8>) -> Seq<u8> {
        crate::keys::spec_encode_segment(self.index_fn().spec_index(data, pk))
            + self.transform().spec_encode(pk)
    }

    /// The key of the entry for the record `data` under `pk`.
    pub open spec fn spec_entry_key(&self, pk: Seq<u8>, data: Seq<u8>) -> Seq<u8> {
        self.spec_sub_prefix() + self.spec_index_key(pk, data)
    }

    /// The value of the entry for `pk`: how many bytes at the end of the key stand for it.
    pub open spec fn spec_entry_value(&self, pk: Seq<u8>) -> Seq<u8> {
        crate::frame::spec_encode_len(self.transform().spec_encode(pk).len())
    }

    /// The index that keeps, under `idx_namespace`, the index keys that `idx_fn` derives
    /// from the records of `pk_namespace`, each followed by the primary key as `transform`
    /// writes it.
    pub fn new(idx_fn: D, transform: T, pk_namespace: &str, idx_namespace: &str) -> (r: Self)
        requires
            vstd::utf8::encode_utf8(pk_namespace@).len() <= MAX_SEGMENT_LEN,
            vstd::utf8::encode_utf8(idx_namespace@).len() <= MAX_SEGMENT_LEN,
        ensures
            r.wf(),
            r.index_fn() == idx_fn,
            r.transform() == transform,
            r.pk_namespace() == vstd::utf8::encode_utf8(pk_namespace@),
            r.idx_namespace() == vstd::utf8::encode_utf8(idx_namespace@),
    {
        CustomDeseMultiIndex {
            idx_fn,
            transform,
            idx_namespace: vstd::slice::slice_to_vec(idx_namespace.as_bytes()),
            pk_namespace: vstd::slice::slice_to_vec(pk_namespace.as_bytes()),
        }
    }

    /// The index key of a record, then its primary key as the transform writes it.
    pub fn index_key(&self, pk: &[u8], data: &[u8]) -> (r: Vec<u8>)
        ensures
            r@ == self.spec_index_key(pk@, data@),
    {
        let index = self.idx_fn.index(data, pk);
        proof {
            self.idx_fn.lemma_index_fits(data@, pk@);
        }
        let stored = self.transform.encode(pk);
        let mut r: Vec<u8> = Vec::new();
        push_segment(&mut r, index.as_slice());
        extend(&mut r, stored.as_slice());
        r
    }

    fn sub_prefix_bytes(&self) -> (r: Vec<u8>)
        requires
            self.wf(),
        ensures
            r@ == self.spec_sub_prefix(),
    {
        let mut r: Vec<u8> = Vec::new();
        push_segment(&mut r, self.idx_namespace.as_slice());
        r
    }

    fn entry_key(&self, pk: &[u8], data: &[u8]) -> (r: Vec<u8>)
        requires
            self.wf(),
        ensures
            r@ == self.spec_entry_key(pk@, data@),
    {
        let mut r = self.sub_prefix_bytes();
        let joined = self.index_key(pk, data);
        extend(&mut r, joined.as_slice());
        r
    }

    /// The entries for one index key.
    pub fn prefix(&self, p: &[u8]) -> (r: Prefix<'_, T>)
        requires
            self.wf(),
            p@.len() <= MAX_SEGMENT_LEN,
        ensures
            r.wf(),
            r.storage_prefix() == self.spec_prefix(p@),
            r.pk_namespace() == self.pk_namespace(),
            r.transform() == self.transform(),
    {
        let mut storage_prefix = self.sub_prefix_bytes();
        push_segment(&mut storage_prefix, p);
        assert(storage_prefix@ =~= self.spec_prefix(p@));
        Prefix {
            storage_prefix,
            pk_namespace: vstd::slice::slice_to_vec(self.pk_namespace.as_slice()),
            transform: &self.transform,
        }
    }

    /// All entries of the index.
    pub fn sub_prefix(&self) -> (r: Prefix<'_, T>)
        requires
            self.wf(),
        ensures
            r.wf(),
            r.storage_prefix() == self.spec_sub_prefix(),
            r.pk_namespace() == self.pk_namespace(),
            r.transform() == self.transform(),
    {
        Prefix {
            storage_prefix: self.sub_prefix_bytes(),
            pk_namespace: vstd::slice::slice_to_vec(self.pk_namespace.as_slice()),
            transform: &self.transform,
        }
    }

    /// Where the store holds a record and its entry, the entry stands under the index key
    /// of the record, leads back to the record, and is on every page of that index key
    /// that has no bounds and is not full.
    pub proof fn lemma_entry_listed(
        &self,
        m: Map<Seq<u8>, Seq<u8>>,
        pk: Seq<u8>,
        data: Seq<u8>,
        descending: bool,
        limit: nat,
        page: Seq<(Seq<u8>, Seq<u8>)>,
    )
        requires
            self.wf(),
            self.transform().spec_encode(pk).len() <= u64::MAX,
            m.contains_key(self.spec_entry_key(pk, data)),
            m[self.spec_entry_key(pk, data)] == self.spec_entry_value(pk),
            m.contains_key(crate::keys::spec_encode_segment(self.pk_namespace()) + pk),
            m[crate::keys::spec_encode_segment(self.pk_namespace()) + pk] == data,
            crate::range::is_page(
                m,
                self.spec_prefix(self.index_fn().spec_index(data, pk)),
                None,
                None,
                descending,
                limit,
                page,
            ),
        ensures
            spec_rehydrate(
                m,
                self.pk_namespace(),
                self.transform(),
                (self.transform().spec_encode(pk), self.spec_entry_value(pk)),
            ) == Ok::<(Seq<u8>, Seq<u8>), StorageError>((pk, data)),
            page.len() == limit || exists|i: int|
                0 <= i < page.len() && #[trigger] page[i] == (
                    self.transform().spec_encode(pk),
                    self.spec_entry_value(pk),
                ),
    {
        let stored = self.transform().spec_encode(pk);
        let prefix = self.spec_prefix(self.index_fn().spec_index(data, pk));
        crate::frame::lemma_decode_encode_len(stored.len());
        assert(stored.skip(0) =~= stored);
        self.transform().lemma_inverse(pk);
        assert(prefix + stored =~= self.spec_entry_key(pk, data));
        assert(crate::range::qualifies(m, prefix, None, None, stored));
        assert(m.contains_key(prefix + stored));
        if page.len() != limit {
            let i = choose|i: int| 0 <= i < page.len() && (#[trigger] page[i]).0 == stored;
            assert(m[prefix + page[i].0] == page[i].1);
            assert(page[i] == (stored, self.spec_entry_value(pk)));
        }
    }

    /// Two records have the same entry key only under the same primary key.
    pub proof fn lemma_entry_key_injective(
        &self,
        pk: Seq<u8>,
        data: Seq<u8>,
        pk2: Seq<u8>,
        data2: Seq<u8>,
    )
        requires
            self.spec_entry_key(pk, data) == self.spec_entry_key(pk2, data2),
        ensures
            pk == pk2,
            self.index_fn().spec_index(data, pk) == self.index_fn().spec_index(data2, pk2),
    {
        let p = self.spec_sub_prefix();
        let a = self.spec_index_key(pk, data);
        let b = self.spec_index_key(pk2, data2);
        assert(a =~= (p + a).skip(p.len() as int));
        assert(b =~= (p + b).skip(p.len() as int));
        self.index_fn().lemma_index_fits(data, pk);
        self.index_fn().lemma_index_fits(data2, pk2);
        crate::keys::lemma_segment_prefix_free(
            self.index_fn().spec_index(data, pk),
            self.transform().spec_encode(pk),
            self.index_fn().spec_index(data2, pk2),
            self.transform().spec_encode(pk2),
        );
        self.transform().lemma_inverse(pk);
        self.transform().lemma_inverse(pk2);
    }
}

impl<D: IndexFn, T: PkTransform> Index for CustomDeseMultiIndex<D, T> {
    open spec fn wf(&self) -> bool {
        &&& self.idx_namespace().len() <= MAX_SEGMENT_LEN
        &&& self.pk_namespace().len() <= MAX_SEGMENT_LEN
    }

    open spec fn namespaces(&self) -> Set<Seq<u8>> {
        set![self.idx_namespace()]
    }

    open spec fn entries(&self, pk: Seq<u8>, data: Seq<u8>) -> Map<Seq<u8>, Seq<u8>> {
        map![self.spec_entry_key(pk, data) => self.spec_entry_value(pk)]
    }

    open spec fn conflicts(&self, m: Map<Seq<u8>, Seq<u8>>, pk: Seq<u8>, data: Seq<u8>) -> bool {
        false
    }

    proof fn lemma_namespaces(&self, ns: Seq<u8>) {
    }

    proof fn lemma_entries(&self, pk: Seq<u8>, data: Seq<u8>, key: Seq<u8>) {
        if self.entries(pk, data).contains_key(key) {
            crate::frame::lemma_encode_len_len(self.transform().spec_encode(pk).len());
            let p = self.spec_sub_prefix();
            assert(key.subrange(0, p.len() as int) =~= p);
            assert(self.namespaces().contains(self.idx_namespace()));
        }
    }

    proof fn lemma_owner(
        &self,
        pk: Seq<u8>,
        data: Seq<u8>,
        pk2: Seq<u8>,
        data2: Seq<u8>,
        key: Seq<u8>,
    ) {
        if self.entries(pk, data).contains_key(key) && self.entries(pk2, data2).contains_key(
            key,
        ) && self.entries(pk, data)[key] == self.entries(pk2, data2)[key] {
            self.lemma_entry_key_injective(pk, data, pk2, data2);
        }
    }

    proof fn lemma_conflict(
        &self,
        m: Map<Seq<u8>, Seq<u8>>,
        pk: Seq<u8>,
        data: Seq<u8>,
        pk2: Seq<u8>,
        data2: Seq<u8>,
        key: Seq<u8>,
    ) {
        if pk != pk2 && self.entries(pk, data).contains_key(key) && self.entries(
            pk2,
            data2,
        ).contains_key(key) && m.contains_key(key) && m[key] == self.entries(pk2, data2)[key] {
            self.lemma_entry_key_injective(pk, data, pk2, data2);
        }
    }

    proof fn lemma_conflicts_local(
        &self,
        m1: Map<Seq<u8>, Seq<u8>>,
        m2: Map<Seq<u8>, Seq<u8>>,
        pk: Seq<u8>,
        data: Seq<u8>,
    ) {
    }

    fn check(&self, store: &MemoryStorage, pk: &[u8], data: &[u8]) -> (ok: bool) {
        true
    }

    fn write(&self, store: &mut MemoryStorage, pk: &[u8], data: &[u8]) {
        let key = self.entry_key(pk, data);
        let stored = self.transform.encode(pk);
        let value = encode_len(stored.len());
        proof {
            crate::frame::lemma_encode_len_len(stored@.len());
        }
        let ghost before = crate::store::contents(*store);
        store_set(store, key.as_slice(), value.as_slice());
        assert(crate::store::contents(*store) =~= before.union_prefer_right(
            self.entries(pk@, data@),
        ));
    }

    fn remove(&self, store: &mut MemoryStorage, pk: &[u8], old_data: &[u8]) {
        let key = self.entry_key(pk, old_data);
        let ghost before = crate::store::contents(*store);
        store_remove(store, key.as_slice());
        assert(crate::store::contents(*store) =~= before.remove_keys(
            self.entries(pk@, old_data@).dom(),
        ));
    }
}

} // verus!
