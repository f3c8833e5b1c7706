//! What a secondary index is to the collection that keeps it, and lists of indexes.

use crate::store::ExMemoryStorage;
use cosmwasm_std::MemoryStorage;
use vstd::prelude::*;

verus! {

/// The function that derives the index key of a record.
pub trait IndexFn {
    /// The index key of the record `data` kept under `pk`.
    spec fn spec_index(&self, data: Seq<u8>, pk: Seq<u8>) -> Seq<u8>;

    /// An index key is one key segment, so it fits the two-byte length prefix.
    proof fn lemma_index_fits(&self, data: Seq<u8>, pk: Seq<u8>)
        ensures
            self.spec_index(data, pk).len() <= crate::keys::MAX_SEGMENT_LEN,
    ;

    /// The index key of the record `data` kept under `pk`.
    fn index(&self, data: &[u8], pk: &[u8]) -> (k: Vec<u8>)
        ensures
            k@ == self.spec_index(data@, pk@),
    ;
}

/// The index key that is one field of the record: `len` bytes from `offset` on. A record
/// that is too short for the field has the empty index key.
pub struct Field {
    pub offset: usize,
    pub len: u16,
}

impl IndexFn for Field {
    open spec fn spec_index(&self, data: Seq<u8>, pk: Seq<u8>) -> Seq<u8> {
        if self.offset + self.len <= data.len() {
            data.subrange(self.offset as int, self.offset + self.len)
        } else {
            Seq::<u8>::empty()
        }
    }

    proof fn lemma_index_fits(&self, data: Seq<u8>, pk: Seq<u8>) {
    }

    fn index(&self, data: &[u8], pk: &[u8]) -> (k: Vec<u8>) {
        let len: usize = self.len as usize;
        if self.offset <= data.len() && len <= data.len() - self.offset {
            vstd::slice::slice_to_vec(
                vstd::slice::slice_subrange(data, self.offset, self.offset + len),
            )
        } else {
            Vec::new()
        }
    }
}

/// The index key that a function computes from the record and its primary key. The
/// function takes every input and gives equal keys for equal inputs; a key too long for
/// one key segment counts as the empty key.
pub struct ByFn<F: Fn(&[u8], &[u8]) -> Vec<u8>> {
    f: F,
}

impl<F: Fn(&[u8], &[u8]) -> Vec<u8>> ByFn<F> {
    /// The function.
    pub closed spec fn func(&self) -> F {
        self.f
    }

    /// `f` can be called on every input.
    pub open spec fn total(f: F) -> bool {
        forall|data: &[u8], pk: &[u8]| call_requires(f, (data, pk))
    }

    /// `f` gives equal keys for equal inputs.
    pub open spec fn functional(f: F) -> bool {
        forall|d1: &[u8], p1: &[u8], r1: Vec<u8>, d2: &[u8], p2: &[u8], r2: Vec<u8>|
            #![trigger call_ensures(f, (d1, p1), r1), call_ensures(f, (d2, p2), r2)]
            d1@ == d2@ && p1@ == p2@ && call_ensures(f, (d1, p1), r1) && call_ensures(
                f,
                (d2, p2),
                r2,
            ) ==> r1@ == r2@
    }

    /// `f` gives `key` for the record `data` under `pk`.
    pub open spec fn gives(f: F, data: Seq<u8>, pk: Seq<u8>, key: Seq<u8>) -> bool {
        exists|d: &[u8], p: &[u8], r: Vec<u8>|
            #![trigger call_ensures(f, (d, p), r)]
            d@ == data && p@ == pk && r@ == key && call_ensures(f, (d, p), r)
    }

    /// The function takes every input and gives equal keys for equal inputs.
    #[verifier::type_invariant]
    spec fn inv(&self) -> bool {
        Self::total(self.f) && Self::functional(self.f)
    }

    /// The index function that calls `f`.
    pub fn new(f: F) -> (r: Self)
        requires
            Self::total(f),
            Self::functional(f),
        ensures
            r.func() == f,
    {
        ByFn { f }
    }
}

impl<F: Fn(&[u8], &[u8]) -> Vec<u8>> IndexFn for ByFn<F> {
    open spec fn spec_index(&self, data: Seq<u8>, pk: Seq<u8>) -> Seq<u8> {
        let key = choose|key: Seq<u8>| Self::gives(self.func(), data, pk, key);
        if Self::gives(self.func(), data, pk, key) && key.len() <= crate::keys::MAX_SEGMENT_LEN {
            key
        } else {
            Seq::<u8>::empty()
        }
    }

    proof fn lemma_index_fits(&self, data: Seq<u8>, pk: Seq<u8>) {
    }

    fn index(&self, data: &[u8], pk: &[u8]) -> (k: Vec<u8>) {
        proof {
            use_type_invariant(self);
        }
        let r = (self.f)(data, pk);
        proof {
            assert(call_ensures(self.f, (data, pk), r));
            assert(Self::gives(self.func(), data@, pk@, r@));
            let key = choose|key: Seq<u8>| Self::gives(self.func(), data@, pk@, key);
            let (d, p, other) = choose|d: &[u8], p: &[u8], other: Vec<u8>|
                #![trigger call_ensures(self.f, (d, p), other)]
                d@ == data@ && p@ == pk@ && other@ == key && call_ensures(self.f, (d, p), other);
            assert(key == r@);
        }
        if r.len() > crate::keys::MAX_SEGMENT_LEN {
            Vec::new()
        } else {
            r
        }
    }
}

/// How a primary key is written at the end of an index key, and read back.
pub trait PkTransform {
    /// The bytes that stand for `pk` in an index key.
    spec fn spec_encode(&self, pk: Seq<u8>) -> Seq<u8>;

    /// The primary key that `stored` stands for.
    spec fn spec_decode(&self, stored: Seq<u8>) -> Seq<u8>;

    /// Reading back what was written gives the primary key.
    proof fn lemma_inverse(&self, pk: Seq<u8>)
        ensures
            self.spec_decode(self.spec_encode(pk)) == pk,
    ;

    /// The bytes that stand for `pk` in an index key.
    fn encode(&self, pk: &[u8]) -> (r: Vec<u8>)
        ensures
            r@ == self.spec_encode(pk@),
    ;

    /// The primary key that `stored` stands for.
    fn decode(&self, stored: &[u8]) -> (r: Vec<u8>)
        ensures
            r@ == self.spec_decode(stored@),
    ;
}

/// `key` lies in the keyspace of one of the namespaces.
pub open spec fn in_keyspace(namespaces: Set<Seq<u8>>, key: Seq<u8>) -> bool {
    exists|ns: Seq<u8>|
        #![trigger namespaces.contains(ns)]
        namespaces.contains(ns) && crate::lex::has_prefix(
            key,
            crate::keys::spec_encode_segment(ns),
        )
}

/// The two maps hold the same under the namespaces.
pub open spec fn same_in_keyspace(
    namespaces: Set<Seq<u8>>,
    m1: Map<Seq<u8>, Seq<u8>>,
    m2: Map<Seq<u8>, Seq<u8>>,
) -> bool {
    forall|key: Seq<u8>|
        #![trigger in_keyspace(namespaces, key)]
        in_keyspace(namespaces, key) ==> {
            &&& m1.contains_key(key) == m2.contains_key(key)
            &&& m1.contains_key(key) ==> m1[key] == m2[key]
        }
}

/// One secondary index, or several: what a collection asks of its indexes when a record
/// is saved or removed.
pub trait Index {
    spec fn wf(&self) -> bool;

    /// The namespaces under which the entries are kept.
    spec fn namespaces(&self) -> Set<Seq<u8>>;

    /// The store entries that are kept for the record `data` under `pk`.
    spec fn entries(&self, pk: Seq<u8>, data: Seq<u8>) -> Map<Seq<u8>, Seq<u8>>;

    /// Saving `data` under `pk` would break a uniqueness rule in a store that holds `m`.
    spec fn conflicts(&self, m: Map<Seq<u8>, Seq<u8>>, pk: Seq<u8>, data: Seq<u8>) -> bool;

    /// Every namespace fits the two-byte length prefix.
    proof fn lemma_namespaces(&self, ns: Seq<u8>)
        requires
            self.wf(),
        ensures
            self.namespaces().contains(ns) ==> ns.len() <= crate::keys::MAX_SEGMENT_LEN,
    ;

    /// Every entry lies in the keyspace of the index and has a value that the store takes.
    proof fn lemma_entries(&self, pk: Seq<u8>, data: Seq<u8>, key: Seq<u8>)
        requires
            self.wf(),
        ensures
            self.entries(pk, data).contains_key(key) ==> {
                &&& self.entries(pk, data)[key].len() > 0
                &&& in_keyspace(self.namespaces(), key)
            },
    ;

    /// An entry tells whose it is: no two primary keys give the same key with the same value.
    proof fn lemma_owner(
        &self,
        pk: Seq<u8>,
        data: Seq<u8>,
        pk2: Seq<u8>,
        data2: Seq<u8>,
        key: Seq<u8>,
    )
        requires
            self.wf(),
        ensures
            self.entries(pk, data).contains_key(key) && self.entries(pk2, data2).contains_key(key)
                && self.entries(pk, data)[key] == self.entries(pk2, data2)[key] ==> pk == pk2,
    ;

    /// Where the entry of another primary key stands in the way, there is a conflict.
    proof fn lemma_conflict(
        &self,
        m: Map<Seq<u8>, Seq<u8>>,
        pk: Seq<u8>,
        data: Seq<u8>,
        pk2: Seq<u8>,
        data2: Seq<u8>,
        key: Seq<u8>,
    )
        requires
            self.wf(),
        ensures
            pk != pk2 && self.entries(pk, data).contains_key(key) && self.entries(
                pk2,
                data2,
            ).contains_key(key) && m.contains_key(key) && m[key] == self.entries(pk2, data2)[key]
                ==> self.conflicts(m, pk, data),
    ;

    /// Whether there is a conflict depends on the keyspace of the index alone.
    proof fn lemma_conflicts_local(
        &self,
        m1: Map<Seq<u8>, Seq<u8>>,
        m2: Map<Seq<u8>, Seq<u8>>,
        pk: Seq<u8>,
        data: Seq<u8>,
    )
        requires
            self.wf(),
            same_in_keyspace(self.namespaces(), m1, m2),
        ensures
            self.conflicts(m1, pk, data) == self.conflicts(m2, pk, data),
    ;

    /// Whether `data` can be saved under `pk` without a conflict. Reads only.
    fn check(&self, store: &MemoryStorage, pk: &[u8], data: &[u8]) -> (ok: bool)
        requires
            self.wf(),
        ensures
            ok == !self.conflicts(crate::store::contents(*store), pk@, data@),
    ;

    /// Writes the entries for `data` under `pk`, over whatever is there.
    fn write(&self, store: &mut MemoryStorage, pk: &[u8], data: &[u8])
        requires
            self.wf(),
        ensures
            crate::store::contents(*final(store)) == crate::store::contents(
                *old(store),
            ).union_prefer_right(self.entries(pk@, data@)),
    ;

    /// Deletes the entries that were written for `old_data` under `pk`.
    fn remove(&self, store: &mut MemoryStorage, pk: &[u8], old_data: &[u8])
        requires
            self.wf(),
        ensures
            crate::store::contents(*final(store)) == crate::store::contents(
                *old(store),
            ).remove_keys(self.entries(pk@, old_data@).dom()),
    ;
}

/// Writes the entries for `data` under `pk`, unless that would be a conflict: then nothing
/// is written.
pub fn save<I: Index>(index: &I, store: &mut MemoryStorage, pk: &[u8], data: &[u8]) -> (r: Result<
    (),
    crate::error::StorageError,
>)
    requires
        index.wf(),
    ensures
        match r {
            Ok(_) => {
                &&& !index.conflicts(crate::store::contents(*old(store)), pk@, data@)
                &&& crate::store::contents(*final(store)) == crate::store::contents(
                    *old(store),
                ).union_prefer_right(index.entries(pk@, data@))
            },
            Err(e) => {
                &&& e == crate::error::StorageError::Conflict
                &&& index.conflicts(crate::store::contents(*old(store)), pk@, data@)
                &&& crate::store::contents(*final(store)) == crate::store::contents(*old(store))
            },
        },
{
    if index.check(store, pk, data) {
        index.write(store, pk, data);
        Ok(())
    } else {
        Err(crate::error::StorageError::Conflict)
    }
}

/// A key lies in the keyspace of one namespace only.
pub proof fn lemma_one_keyspace(ns1: Seq<u8>, ns2: Seq<u8>, key: Seq<u8>)
    requires
        ns1.len() <= crate::keys::MAX_SEGMENT_LEN,
        ns2.len() <= crate::keys::MAX_SEGMENT_LEN,
        crate::lex::has_prefix(key, crate::keys::spec_encode_segment(ns1)),
        crate::lex::has_prefix(key, crate::keys::spec_encode_segment(ns2)),
    ensures
        ns1 == ns2,
{
    let head = crate::keys::spec_encode_segment(ns1);
    let other = crate::keys::spec_encode_segment(ns2);
    assert(key =~= head + key.skip(head.len() as int));
    assert(key =~= other + key.skip(other.len() as int));
    crate::keys::lemma_segment_prefix_free(
        ns1,
        key.skip(head.len() as int),
        ns2,
        key.skip(other.len() as int),
    );
}

/// No index at all.
impl Index for () {
    open spec fn wf(&self) -> bool {
        true
    }

    open spec fn namespaces(&self) -> Set<Seq<u8>> {
        Set::empty()
    }

    open spec fn entries(&self, pk: Seq<u8>, data: Seq<u8>) -> Map<Seq<u8>, Seq<u8>> {
        Map::empty()
    }

    open spec fn conflicts(&self, m: Map<Seq<u8>, Seq<u8>>, pk: Seq<u8>, data: Seq<u8>) -> bool {
        false
    }

    proof fn lemma_namespaces(&self, ns: Seq<u8>) {
    }

    proof fn lemma_entries(&self, pk: Seq<u8>, data: Seq<u8>, key: Seq<u8>) {
    }

    proof fn lemma_owner(
        &self,
        pk: Seq<u8>,
        data: Seq<u8>,
        pk2: Seq<u8>,
        data2: Seq<u8>,
        key: Seq<u8>,
    ) {
    }

    proof fn lemma_conflict(
        &self,
        m: Map<Seq<u8>, Seq<u8>>,
        pk: Seq<u8>,
        data: Seq<u8>,
        pk2: Seq<u8>,
        data2: Seq<u8>,
        key: Seq<u8>,
    ) {
    }

    proof fn lemma_conflicts_local(
        &self,
        m1: Map<Seq<u8>, Seq<u8>>,
        m2: Map<Seq<u8>, Seq<u8>>,
        pk: Seq<u8>,
        data: Seq<u8>,
    ) {
    }

    fn check(&self, store: &MemoryStorage, pk: &[u8], data: &[u8]) -> (ok: bool) {
        true
    }

    fn write(&self, store: &mut MemoryStorage, pk: &[u8], data: &[u8]) {
        assert(crate::store::contents(*store) =~= crate::store::contents(
            *store,
        ).union_prefer_right(self.entries(pk@, data@)));
    }

    fn remove(&self, store: &mut MemoryStorage, pk: &[u8], old_data: &[u8]) {
        assert(crate::store::contents(*store) =~= crate::store::contents(*store).remove_keys(
            self.entries(pk@, old_data@).dom(),
        ));
    }
}

/// One index followed by more: the entries of both, under namespaces that they do not share.
impl<A: Index, B: Index> Index for (A, B) {
    open spec fn wf(&self) -> bool {
        &&& self.0.wf()
        &&& self.1.wf()
        &&& self.0.namespaces().disjoint(self.1.namespaces())
    }

    open spec fn namespaces(&self) -> Set<Seq<u8>> {
        self.0.namespaces().union(self.1.namespaces())
    }

    open spec fn entries(&self, pk: Seq<u8>, data: Seq<u8>) -> Map<Seq<u8>, Seq<u8>> {
        self.0.entries(pk, data).union_prefer_right(self.1.entries(pk, data))
    }

    open spec fn conflicts(&self, m: Map<Seq<u8>, Seq<u8>>, pk: Seq<u8>, data: Seq<u8>) -> bool {
        self.0.conflicts(m, pk, data) || self.1.conflicts(m, pk, data)
    }

    proof fn lemma_namespaces(&self, ns: Seq<u8>) {
        if self.namespaces().contains(ns) {
            if self.0.namespaces().contains(ns) {
                self.0.lemma_namespaces(ns);
            } else {
                self.1.lemma_namespaces(ns);
            }
        }
    }

    proof fn lemma_entries(&self, pk: Seq<u8>, data: Seq<u8>, key: Seq<u8>) {
        if self.entries(pk, data).contains_key(key) {
            if self.1.entries(pk, data).contains_key(key) {
                self.1.lemma_entries(pk, data, key);
                let ns = choose|ns: Seq<u8>|
                    #![trigger self.1.namespaces().contains(ns)]
                    self.1.namespaces().contains(ns) && crate::lex::has_prefix(
                        key,
                        crate::keys::spec_encode_segment(ns),
                    );
                assert(self.namespaces().contains(ns));
            } else {
                self.0.lemma_entries(pk, data, key);
                let ns = choose|ns: Seq<u8>|
                    #![trigger self.0.namespaces().contains(ns)]
                    self.0.namespaces().contains(ns) && crate::lex::has_prefix(
                        key,
                        crate::keys::spec_encode_segment(ns),
                    );
                assert(self.namespaces().contains(ns));
            }
        }
    }

    proof fn lemma_owner(
        &self,
        pk: Seq<u8>,
        data: Seq<u8>,
        pk2: Seq<u8>,
        data2: Seq<u8>,
        key: Seq<u8>,
    ) {
        if self.entries(pk, data).contains_key(key) && self.entries(pk2, data2).contains_key(
            key,
        ) && self.entries(pk, data)[key] == self.entries(pk2, data2)[key] {
            lemma_pair_side(self, pk, data, key);
            lemma_pair_side(self, pk2, data2, key);
            if self.1.entries(pk, data).contains_key(key) {
                self.1.lemma_owner(pk, data, pk2, data2, key);
            } else {
                self.0.lemma_owner(pk, data, pk2, data2, key);
            }
        }
    }

    proof fn lemma_conflict(
        &self,
        m: Map<Seq<u8>, Seq<u8>>,
        pk: Seq<u8>,
        data: Seq<u8>,
        pk2: Seq<u8>,
        data2: Seq<u8>,
        key: Seq<u8>,
    ) {
        if pk != pk2 && self.entries(pk, data).contains_key(key) && self.entries(
            pk2,
            data2,
        ).contains_key(key) && m.contains_key(key) && m[key] == self.entries(pk2, data2)[key] {
            lemma_pair_side(self, pk, data, key);
            lemma_pair_side(self, pk2, data2, key);
            if self.1.entries(pk, data).contains_key(key) {
                self.1.lemma_conflict(m, pk, data, pk2, data2, key);
            } else {
                self.0.lemma_conflict(m, pk, data, pk2, data2, key);
            }
        }
    }

    proof fn lemma_conflicts_local(
        &self,
        m1: Map<Seq<u8>, Seq<u8>>,
        m2: Map<Seq<u8>, Seq<u8>>,
        pk: Seq<u8>,
        data: Seq<u8>,
    ) {
        assert forall|key: Seq<u8>|
            #![trigger in_keyspace(self.0.namespaces(), key)]
            in_keyspace(self.0.namespaces(), key) implies {
            &&& m1.contains_key(key) == m2.contains_key(key)
            &&& m1.contains_key(key) ==> m1[key] == m2[key]
        } by {
            let ns = choose|ns: Seq<u8>|
                #![trigger self.0.namespaces().contains(ns)]
                self.0.namespaces().contains(ns) && crate::lex::has_prefix(
                    key,
                    crate::keys::spec_encode_segment(ns),
                );
            assert(self.namespaces().contains(ns));
            assert(in_keyspace(self.namespaces(), key));
        }
        assert forall|key: Seq<u8>|
            #![trigger in_keyspace(self.1.namespaces(), key)]
            in_keyspace(self.1.namespaces(), key) implies {
            &&& m1.contains_key(key) == m2.contains_key(key)
            &&& m1.contains_key(key) ==> m1[key] == m2[key]
        } by {
            let ns = choose|ns: Seq<u8>|
                #![trigger self.1.namespaces().contains(ns)]
                self.1.namespaces().contains(ns) && crate::lex::has_prefix(
                    key,
                    crate::keys::spec_encode_segment(ns),
                );
            assert(self.namespaces().contains(ns));
            assert(in_keyspace(self.namespaces(), key));
        }
        self.0.lemma_conflicts_local(m1, m2, pk, data);
        self.1.lemma_conflicts_local(m1, m2, pk, data);
    }

    fn check(&self, store: &MemoryStorage, pk: &[u8], data: &[u8]) -> (ok: bool) {
        self.0.check(store, pk, data) && self.1.check(store, pk, data)
    }

    fn write(&self, store: &mut MemoryStorage, pk: &[u8], data: &[u8]) {
        let ghost before = crate::store::contents(*store);
        self.0.write(store, pk, data);
        self.1.write(store, pk, data);
        assert(crate::store::contents(*store) =~= before.union_prefer_right(
            self.entries(pk@, data@),
        ));
    }

    fn remove(&self, store: &mut MemoryStorage, pk: &[u8], old_data: &[u8]) {
        let ghost before = crate::store::contents(*store);
        self.0.remove(store, pk, old_data);
        self.1.remove(store, pk, old_data);
        assert(crate::store::contents(*store) =~= before.remove_keys(
            self.entries(pk@, old_data@).dom(),
        ));
    }
}

/// A key among the entries of a pair is an entry of exactly one side, whatever record it
/// was written for, and has the value that this side gives it.
pub proof fn lemma_pair_side<A: Index, B: Index>(
    pair: &(A, B),
    pk: Seq<u8>,
    data: Seq<u8>,
    key: Seq<u8>,
)
    requires
        pair.wf(),
        pair.entries(pk, data).contains_key(key),
    ensures
        pair.0.entries(pk, data).contains_key(key) != pair.1.entries(pk, data).contains_key(key),
        pair.1.entries(pk, data).contains_key(key) ==> in_keyspace(pair.1.namespaces(), key)
            && !in_keyspace(pair.0.namespaces(), key) && pair.entries(pk, data)[key]
            == pair.1.entries(pk, data)[key],
        pair.0.entries(pk, data).contains_key(key) ==> in_keyspace(pair.0.namespaces(), key)
            && !in_keyspace(pair.1.namespaces(), key) && pair.entries(pk, data)[key]
            == pair.0.entries(pk, data)[key],
{
    if pair.0.entries(pk, data).contains_key(key) {
        pair.0.lemma_entries(pk, data, key);
    }
    if pair.1.entries(pk, data).contains_key(key) {
        pair.1.lemma_entries(pk, data, key);
    }
    lemma_keyspaces_apart(&pair.0, &pair.1, key);
}

/// The keyspaces of two indexes with no namespace in common have no key in common.
pub proof fn lemma_keyspaces_apart<A: Index, B: Index>(a: &A, b: &B, key: Seq<u8>)
    requires
        a.wf(),
        b.wf(),
        a.namespaces().disjoint(b.namespaces()),
    ensures
        !(in_keyspace(a.namespaces(), key) && in_keyspace(b.namespaces(), key)),
{
    if in_keyspace(a.namespaces(), key) && in_keyspace(b.namespaces(), key) {
        let n1 = choose|ns: Seq<u8>|
            #![trigger a.namespaces().contains(ns)]
            a.namespaces().contains(ns) && crate::lex::has_prefix(
                key,
                crate::keys::spec_encode_segment(ns),
            );
        let n2 = choose|ns: Seq<u8>|
            #![trigger b.namespaces().contains(ns)]
            b.namespaces().contains(ns) && crate::lex::has_prefix(
                key,
                crate::keys::spec_encode_segment(ns),
            );
        a.lemma_namespaces(n1);
        b.lemma_namespaces(n2);
        lemma_one_keyspace(n1, n2, key);
    }
}

} // verus!
