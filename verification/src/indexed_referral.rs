//! The referral graph as an indexed map: each referred address maps to its edge, and an
//! index by referrer lists the addresses that one address brought in.

use crate::custom_dese_index::Plain;
use crate::error::StorageError;
use crate::index::{Index, IndexFn};
use crate::indexed_map::IndexedMap;
use crate::keys::{decode, extend, push_segment, MAX_SEGMENT_LEN};
use crate::multi_index::{multi_index, MultiIndex};
use crate::referral::{
    cursor_bounds, Addr, Refer, DEFAULT_ALL_LIMIT, DEFAULT_DEPTH, DEFAULT_REFERRED_LIMIT,
};
use crate::store::ExMemoryStorage;
use cosmwasm_std::MemoryStorage;
use vstd::prelude::*;

verus! {

/// An edge as it is stored: the referrer as one key segment, then the referred address.
pub open spec fn spec_record(referrer: Seq<u8>, referred: Seq<u8>) -> Seq<u8> {
    crate::keys::spec_encode_segment(referrer) + referred
}

/// The edge that a record stands for, as the referrer and the referred address; `None`
/// when the bytes are no record.
pub open spec fn spec_edge(record: Seq<u8>) -> Option<(Seq<u8>, Seq<u8>)> {
    match crate::keys::spec_decode(record, 1) {
        Some((segments, referred)) => Some((segments[0], referred)),
        None => None,
    }
}

/// Reading a written record gives the edge back.
pub proof fn lemma_edge_of_record(referrer: Seq<u8>, referred: Seq<u8>)
    requires
        referrer.len() <= MAX_SEGMENT_LEN,
    ensures
        spec_edge(spec_record(referrer, referred)) == Some((referrer, referred)),
        spec_record(referrer, referred).len() > 0,
{
    let segments = seq![referrer];
    reveal_with_fuel(crate::keys::spec_encode_segments, 2);
    assert(segments.drop_first() =~= Seq::<Seq<u8>>::empty());
    assert(crate::keys::spec_namespaces_with_key(segments, referred) =~= spec_record(
        referrer,
        referred,
    ));
    crate::keys::lemma_decode_encode(segments, referred);
    crate::keys::lemma_encode_length_value(referrer.len());
}

/// The referrer of a stored edge fits one key segment.
pub proof fn lemma_edge_fits(record: Seq<u8>)
    requires
        spec_edge(record) is Some,
    ensures
        spec_edge(record)->Some_0.0.len() <= MAX_SEGMENT_LEN,
{
    crate::keys::lemma_encode_decode(record, 1);
}

/// An edge as it is stored.
pub fn record_of(referrer: &Addr, referred: &Addr) -> (r: Vec<u8>)
    requires
        referrer@.len() <= MAX_SEGMENT_LEN,
    ensures
        r@ == spec_record(referrer@, referred@),
        r@.len() > 0,
{
    let mut r: Vec<u8> = Vec::new();
    push_segment(&mut r, referrer.as_bytes());
    extend(&mut r, referred.as_bytes());
    proof {
        lemma_edge_of_record(referrer@, referred@);
    }
    r
}

/// The edge that a record stands for.
pub fn edge_of(record: &[u8]) -> (r: Option<Refer>)
    ensures
        match r {
            Some(edge) => spec_edge(record@) == Some((edge.referrer@, edge.referred@)),
            None => spec_edge(record@) is None,
        },
{
    match decode(record, 1) {
        Some((segments, referred)) => {
            proof {
                crate::keys::lemma_encode_decode(record@, 1);
            }
            let referrer = Addr::from_bytes(segments[0].as_slice());
            Some(Refer { referrer, referred: Addr::from_vec(referred) })
        },
        None => None,
    }
}

/// The index key of an edge: its referrer. Bytes that are no record have the empty key.
pub struct ReferrerOf;

impl IndexFn for ReferrerOf {
    open spec fn spec_index(&self, data: Seq<u8>, pk: Seq<u8>) -> Seq<u8> {
        match spec_edge(data) {
            Some((referrer, _)) => referrer,
            None => Seq::<u8>::empty(),
        }
    }

    proof fn lemma_index_fits(&self, data: Seq<u8>, pk: Seq<u8>) {
        if spec_edge(data) is Some {
            lemma_edge_fits(data);
        }
    }

    fn index(&self, data: &[u8], pk: &[u8]) -> (k: Vec<u8>) {
        match edge_of(data) {
            Some(edge) => vstd::slice::slice_to_vec(edge.referrer.as_bytes()),
            None => Vec::new(),
        }
    }
}

/// The indexes of the referral graph.
pub struct ReferralIndexes {
    /// The referred addresses by referrer.
    pub referred: MultiIndex<ReferrerOf>,
}

impl Index for ReferralIndexes {
    open spec fn wf(&self) -> bool {
        self.referred.wf()
    }

    open spec fn namespaces(&self) -> Set<Seq<u8>> {
        self.referred.namespaces()
    }

    open spec fn entries(&self, pk: Seq<u8>, data: Seq<u8>) -> Map<Seq<u8>, Seq<u8>> {
        self.referred.entries(pk, data)
    }

    open spec fn conflicts(&self, m: Map<Seq<u8>, Seq<u8>>, pk: Seq<u8>, data: Seq<u8>) -> bool {
        self.referred.conflicts(m, pk, data)
    }

    proof fn lemma_namespaces(&self, ns: Seq<u8>) {
        if self.namespaces().contains(ns) {
            self.referred.lemma_namespaces(ns);
        }
    }

    proof fn lemma_entries(&self, pk: Seq<u8>, data: Seq<u8>, key: Seq<u8>) {
        if self.entries(pk, data).contains_key(key) {
            self.referred.lemma_entries(pk, data, key);
        }
    }

    proof fn lemma_owner(
        &self,
        pk: Seq<u8>,
        data: Seq<u8>,
        pk2: Seq<u8>,
        data2: Seq<u8>,
        key: Seq<u8>,
    ) {
        if self.entries(pk, data).contains_key(key) && self.entries(pk2, data2).contains_key(
            key,
        ) && self.entries(pk, data)[key] == self.entries(pk2, data2)[key] {
            self.referred.lemma_owner(pk, data, pk2, data2, key);
        }
    }

    proof fn lemma_conflict(
        &self,
        m: Map<Seq<u8>, Seq<u8>>,
        pk: Seq<u8>,
        data: Seq<u8>,
        pk2: Seq<u8>,
        data2: Seq<u8>,
        key: Seq<u8>,
    ) {
        if pk != pk2 && self.entries(pk, data).contains_key(key) && self.entries(
            pk2,
            data2,
        ).contains_key(key) && m.contains_key(key) && m[key] == self.entries(pk2, data2)[key] {
            self.referred.lemma_conflict(m, pk, data, pk2, data2, key);
        }
    }

    proof fn lemma_conflicts_local(
        &self,
        m1: Map<Seq<u8>, Seq<u8>>,
        m2: Map<Seq<u8>, Seq<u8>>,
        pk: Seq<u8>,
        data: Seq<u8>,
    ) {
        self.referred.lemma_conflicts_local(m1, m2, pk, data);
    }

    fn check(&self, store: &MemoryStorage, pk: &[u8], data: &[u8]) -> (ok: bool) {
        self.referred.check(store, pk, data)
    }

    fn write(&self, store: &mut MemoryStorage, pk: &[u8], data: &[u8]) {
        self.referred.write(store, pk, data)
    }

    fn remove(&self, store: &mut MemoryStorage, pk: &[u8], old_data: &[u8]) {
        self.referred.remove(store, pk, old_data)
    }
}

/// The referral graph with an index by referrer.
pub struct IndexedReferral(IndexedMap<ReferralIndexes>);

impl IndexedReferral {
    /// The indexed map that holds the edges.
    pub closed spec fn map(&self) -> IndexedMap<ReferralIndexes> {
        self.0
    }

    /// The map is well formed, and the index reads its records from the map's namespace.
    pub open spec fn wf(&self) -> bool {
        &&& self.map().wf()
        &&& self.map().indexes().referred.pk_namespace() == self.map().primary().namespace()
    }

    /// The edges and the index in `m` agree.
    pub open spec fn consistent(&self, m: Map<Seq<u8>, Seq<u8>>) -> bool {
        self.map().consistent(m)
    }

    /// The referrer that the entries `m` give for `addr`: none when `addr` has no record,
    /// `DecodeError` when what is kept for it is no record.
    pub open spec fn spec_ref_of(&self, m: Map<Seq<u8>, Seq<u8>>, addr: Seq<u8>) -> Result<
        Option<Seq<u8>>,
        StorageError,
    > {
        match self.map().spec_get(m, addr) {
            None => Ok(None),
            Some(record) => match spec_edge(record) {
                Some((referrer, _)) => Ok(Some(referrer)),
                None => Err(StorageError::DecodeError),
            },
        }
    }

    /// The referrer of every address that has a record in `m`, or the error that reading
    /// the record ends in.
    pub open spec fn spec_refs(&self, m: Map<Seq<u8>, Seq<u8>>) -> Map<
        Seq<u8>,
        Result<Seq<u8>, StorageError>,
    > {
        Map::new(
            |addr: Seq<u8>| self.map().spec_get(m, addr) is Some,
            |addr: Seq<u8>|
                match spec_edge(m[self.map().spec_key(addr)]) {
                    Some((referrer, _)) => Ok(referrer),
                    None => Err(StorageError::DecodeError),
                },
        )
    }

    /// The edges that the records of a page stand for: `DecodeError` when one is no record.
    pub open spec fn spec_edges(page: Seq<(Seq<u8>, Seq<u8>)>) -> Result<
        Seq<(Seq<u8>, Seq<u8>)>,
        StorageError,
    >
        decreases page.len(),
    {
        if page.len() == 0 {
            Ok(Seq::<(Seq<u8>, Seq<u8>)>::empty())
        } else {
            match Self::spec_edges(page.drop_last()) {
                Err(e) => Err(e),
                Ok(edges) => match spec_edge(page.last().1) {
                    Some((referrer, referred)) => Ok(edges.push((referred, referrer))),
                    None => Err(StorageError::DecodeError),
                },
            }
        }
    }

    /// The graph that keeps its edges under `ref_namespace` and the index by referrer
    /// under `ref_index_namespace`, which is another namespace.
    pub fn new(ref_namespace: &str, ref_index_namespace: &str) -> (r: Self)
        requires
            vstd::utf8::encode_utf8(ref_namespace@).len() <= MAX_SEGMENT_LEN,
            vstd::utf8::encode_utf8(ref_index_namespace@).len() <= MAX_SEGMENT_LEN,
            vstd::utf8::encode_utf8(ref_namespace@) != vstd::utf8::encode_utf8(
                ref_index_namespace@,
            ),
        ensures
            r.wf(),
            r.map().primary().namespace() == vstd::utf8::encode_utf8(ref_namespace@),
            r.map().indexes().referred.idx_namespace() == vstd::utf8::encode_utf8(
                ref_index_namespace@,
            ),
    {
        IndexedReferral(
            IndexedMap::new(
                ref_namespace,
                ReferralIndexes {
                    referred: multi_index(ReferrerOf, ref_namespace, ref_index_namespace),
                },
            ),
        )
    }

    /// Records that `referred_addr` was brought in by `referrer_addr`. An address cannot
    /// refer itself, and an address that has a referrer keeps it.
    pub fn set_ref(&self, store: &mut MemoryStorage, referred_addr: &Addr, referrer_addr: &Addr) -> (r:
        Result<(), StorageError>)
        requires
            self.wf(),
            referrer_addr@.len() <= MAX_SEGMENT_LEN,
        ensures
            match r {
                Ok(_) => {
                    &&& referred_addr@ != referrer_addr@
                    &&& self.map().spec_get(crate::store::contents(*old(store)), referred_addr@)
                        is None
                    &&& crate::store::contents(*final(store)) == self.map().spec_save(
                        crate::store::contents(*old(store)),
                        referred_addr@,
                        spec_record(referrer_addr@, referred_addr@),
                    )
                },
                Err(e) => {
                    &&& crate::store::contents(*final(store)) == crate::store::contents(
                        *old(store),
                    )
                    &&& if referred_addr@ == referrer_addr@ {
                        e == StorageError::SelfReference
                    } else {
                        &&& e == StorageError::DuplicateReferral
                        &&& self.map().spec_get(
                            crate::store::contents(*old(store)),
                            referred_addr@,
                        ) is Some
                    }
                },
            },
            self.consistent(crate::store::contents(*old(store))) ==> self.consistent(
                crate::store::contents(*final(store)),
            ),
    {
        if referred_addr.same(referrer_addr) {
            return Err(StorageError::SelfReference);
        }
        if self.0.may_load(store, referred_addr.as_bytes()).is_some() {
            return Err(StorageError::DuplicateReferral);
        }
        let record = record_of(referrer_addr, referred_addr);
        self.0.save(store, referred_addr.as_bytes(), record.as_slice())
    }

    /// The referrer of `addr`, if it has one.
    pub fn ref_of(&self, store: &MemoryStorage, addr: &Addr) -> (r: Result<
        Option<Addr>,
        StorageError,
    >)
        requires
            self.wf(),
        ensures
            match r {
                Ok(referrer) => self.spec_ref_of(crate::store::contents(*store), addr@) == Ok::<
                    Option<Seq<u8>>,
                    StorageError,
                >(crate::referral::addr_view(referrer)),
                Err(e) => self.spec_ref_of(crate::store::contents(*store), addr@) == Err::<
                    Option<Seq<u8>>,
                    StorageError,
                >(e),
            },
    {
        match self.0.may_load(store, addr.as_bytes()) {
            None => Ok(None),
            Some(record) => match edge_of(record.as_slice()) {
                Some(edge) => Ok(Some(edge.referrer)),
                None => Err(StorageError::DecodeError),
            },
        }
    }

    /// Whether `addr` has a referrer.
    pub fn has_ref(&self, store: &MemoryStorage, addr: &Addr) -> (r: Result<bool, StorageError>)
        requires
            self.wf(),
        ensures
            match r {
                Ok(has) => self.spec_ref_of(crate::store::contents(*store), addr@) matches Ok(
                    referrer,
                ) && has == referrer is Some,
                Err(e) => self.spec_ref_of(crate::store::contents(*store), addr@) == Err::<
                    Option<Seq<u8>>,
                    StorageError,
                >(e),
            },
    {
        match self.ref_of(store, addr) {
            Ok(referrer) => Ok(referrer.is_some()),
            Err(e) => Err(e),
        }
    }

    /// The ancestors of `addr`, nearest first, `depth` at most (three when none is given).
    /// The walk ends early at an address without a referrer and never looks for cycles:
    /// the depth alone bounds it.
    pub fn ref_chains(&self, store: &MemoryStorage, addr: &Addr, depth: Option<u64>) -> (r: Result<
        Vec<Addr>,
        StorageError,
    >)
        requires
            self.wf(),
        ensures
            match r {
                Ok(chain) => crate::referral::spec_chain(
                    self.spec_refs(crate::store::contents(*store)),
                    addr@,
                    depth.unwrap_or(DEFAULT_DEPTH) as nat,
                ) == Ok::<Seq<Seq<u8>>, StorageError>(crate::referral::addrs_view(chain@)),
                Err(e) => crate::referral::spec_chain(
                    self.spec_refs(crate::store::contents(*store)),
                    addr@,
                    depth.unwrap_or(DEFAULT_DEPTH) as nat,
                ) == Err::<Seq<Seq<u8>>, StorageError>(e),
            },
    {
        let steps: u64 = match depth {
            Some(d) => d,
            None => DEFAULT_DEPTH,
        };
        let ghost lookup = self.spec_refs(crate::store::contents(*store));
        let mut chains: Vec<Addr> = Vec::new();
        let mut i: u64 = 0;
        proof {
            assert(crate::referral::addrs_view(chains@) =~= Seq::<Seq<u8>>::empty());
            match crate::referral::spec_chain(lookup, addr@, steps as nat) {
                Ok(rest) => {
                    assert(Seq::<Seq<u8>>::empty() + rest =~= rest);
                },
                Err(_) => {},
            }
        }
        while i < steps
            invariant
                self.wf(),
                i <= steps,
                steps == depth.unwrap_or(DEFAULT_DEPTH),
                lookup == self.spec_refs(crate::store::contents(*store)),
                crate::referral::spec_chain(lookup, addr@, steps as nat)
                    == crate::referral::spec_chain_after(
                    lookup,
                    crate::referral::addrs_view(chains@),
                    if chains@.len() == 0 {
                        addr@
                    } else {
                        chains@.last()@
                    },
                    (steps - i) as nat,
                ),
            decreases steps - i,
        {
            let ghost walked = crate::referral::addrs_view(chains@);
            let found = if chains.len() == 0 {
                self.ref_of(store, addr)
            } else {
                self.ref_of(store, &chains[chains.len() - 1])
            };
            match found {
                Err(e) => {
                    return Err(e);
                },
                Ok(None) => {
                    assert(walked + Seq::<Seq<u8>>::empty() =~= walked);
                    return Ok(chains);
                },
                Ok(Some(parent)) => {
                    proof {
                        match crate::referral::spec_chain(lookup, parent@, (steps - i - 1) as nat) {
                            Ok(rest) => {
                                assert(walked + (seq![parent@] + rest) =~= walked.push(parent@)
                                    + rest);
                            },
                            Err(_) => {},
                        }
                        assert(crate::referral::addrs_view(chains@.push(parent)) =~= walked.push(
                            parent@,
                        ));
                    }
                    chains.push(parent);
                },
            }
            i += 1;
        }
        proof {
            let walked = crate::referral::addrs_view(chains@);
            assert(walked + Seq::<Seq<u8>>::empty() =~= walked);
        }
        Ok(chains)
    }

    /// One page of all edges in the order of the referred addresses: those strictly after
    /// `start_after` (before it, when descending), `limit` at most (a hundred when none is
    /// given), ascending unless `is_ascending` is `false`.
    pub fn all_ref(
        &self,
        store: &MemoryStorage,
        start_after: Option<Addr>,
        limit: Option<u64>,
        is_ascending: Option<bool>,
    ) -> (r: Result<Vec<Refer>, StorageError>)
        requires
            self.wf(),
        ensures
            exists|page: Seq<(Seq<u8>, Seq<u8>)>|
                {
                    &&& #[trigger] crate::range::is_page(
                        crate::store::contents(*store),
                        self.map().primary().spec_prefix(),
                        crate::referral::spec_min(
                            crate::referral::addr_view(start_after),
                            crate::referral::spec_descending(is_ascending),
                        ),
                        crate::referral::spec_max(
                            crate::referral::addr_view(start_after),
                            crate::referral::spec_descending(is_ascending),
                        ),
                        crate::referral::spec_descending(is_ascending),
                        crate::referral::spec_limit(limit, DEFAULT_ALL_LIMIT),
                        page,
                    )
                    &&& match r {
                        Ok(edges) => Self::spec_edges(page) == Ok::<
                            Seq<(Seq<u8>, Seq<u8>)>,
                            StorageError,
                        >(crate::referral::refers_view(edges@)),
                        Err(e) => Self::spec_edges(page) == Err::<
                            Seq<(Seq<u8>, Seq<u8>)>,
                            StorageError,
                        >(e),
                    }
                },
    {
        let (min, max, order) = cursor_bounds(&start_after, is_ascending);
        let count = crate::referral::page_limit(limit, DEFAULT_ALL_LIMIT);
        let page = self.0.range(store, min, max, order, count);
        let ghost entries = crate::range::entries_view(page@);
        let mut edges: Vec<Refer> = Vec::new();
        let mut i: usize = 0;
        proof {
            assert(entries.subrange(0, 0) =~= Seq::<(Seq<u8>, Seq<u8>)>::empty());
            assert(crate::referral::refers_view(edges@) =~= Seq::<(Seq<u8>, Seq<u8>)>::empty());
        }
        while i < page.len()
            invariant
                i <= page.len(),
                entries == crate::range::entries_view(page@),
                crate::range::is_page(
                    crate::store::contents(*store),
                    self.map().primary().spec_prefix(),
                    crate::referral::spec_min(
                        crate::referral::addr_view(start_after),
                        crate::referral::spec_descending(is_ascending),
                    ),
                    crate::referral::spec_max(
                        crate::referral::addr_view(start_after),
                        crate::referral::spec_descending(is_ascending),
                    ),
                    crate::referral::spec_descending(is_ascending),
                    crate::referral::spec_limit(limit, DEFAULT_ALL_LIMIT),
                    entries,
                ),
                Self::spec_edges(entries.subrange(0, i as int)) == Ok::<
                    Seq<(Seq<u8>, Seq<u8>)>,
                    StorageError,
                >(crate::referral::refers_view(edges@)),
            decreases page.len() - i,
        {
            let ghost before = entries.subrange(0, i as int);
            let ghost next = entries.subrange(0, i + 1);
            proof {
                assert(next.drop_last() =~= before);
                assert(next.last() == entries[i as int]);
                assert(entries[i as int].1 == page@[i as int].1@);
            }
            match edge_of(page[i].1.as_slice()) {
                None => {
                    proof {
                        assert(Self::spec_edges(next) == Err::<
                            Seq<(Seq<u8>, Seq<u8>)>,
                            StorageError,
                        >(StorageError::DecodeError));
                        Self::lemma_edges_fail(entries, i + 1);
                    }
                    return Err(StorageError::DecodeError);
                },
                Some(edge) => {
                    let ghost pair = (edge.referred@, edge.referrer@);
                    let ghost so_far = crate::referral::refers_view(edges@);
                    edges.push(edge);
                    assert(crate::referral::refers_view(edges@) =~= so_far.push(pair));
                    assert(Self::spec_edges(next) == Ok::<Seq<(Seq<u8>, Seq<u8>)>, StorageError>(
                        so_far.push(pair),
                    ));
                },
            }
            i += 1;
        }
        assert(entries.subrange(0, i as int) =~= entries);
        Ok(edges)
    }

    /// One page of the addresses that `addr` brought in, in their own order: those
    /// strictly after `start_after` (before it, when descending), `limit` at most (fifty
    /// when none is given), ascending unless `is_ascending` is `false`.
    pub fn all_referred_of(
        &self,
        store: &MemoryStorage,
        addr: Addr,
        start_after: Option<Addr>,
        limit: Option<u64>,
        is_ascending: Option<bool>,
    ) -> (r: Result<Vec<Addr>, StorageError>)
        requires
            self.wf(),
            addr@.len() <= MAX_SEGMENT_LEN,
        ensures
            r is Ok,
            exists|page: Seq<(Seq<u8>, Seq<u8>)>|
                {
                    &&& #[trigger] crate::range::is_page(
                        crate::store::contents(*store),
                        self.map().indexes().referred.spec_prefix(addr@),
                        crate::referral::spec_min(
                            crate::referral::addr_view(start_after),
                            crate::referral::spec_descending(is_ascending),
                        ),
                        crate::referral::spec_max(
                            crate::referral::addr_view(start_after),
                            crate::referral::spec_descending(is_ascending),
                        ),
                        crate::referral::spec_descending(is_ascending),
                        crate::referral::spec_limit(limit, DEFAULT_REFERRED_LIMIT),
                        page,
                    )
                    &&& r matches Ok(found) && crate::referral::addrs_view(found@)
                        == crate::range::page_keys(page)
                },
    {
        let (min, max, order) = cursor_bounds(&start_after, is_ascending);
        let count = crate::referral::page_limit(limit, DEFAULT_REFERRED_LIMIT);
        let keys = self.0.idx().referred.prefix(addr.as_bytes()).keys(
            store,
            min,
            max,
            order,
            count,
        );
        let ghost given = crate::keys::vecs_view(keys@);
        let mut found: Vec<Addr> = Vec::new();
        let mut i: usize = 0;
        while i < keys.len()
            invariant
                i <= keys.len(),
                found@.len() == i,
                given == crate::keys::vecs_view(keys@),
                forall|j: int| 0 <= j < i ==> (#[trigger] found@[j])@ == keys@[j]@,
            decreases keys.len() - i,
        {
            found.push(Addr::from_bytes(keys[i].as_slice()));
            i += 1;
        }
        assert(crate::referral::addrs_view(found@) =~= given);
        Ok(found)
    }

    /// After an edge was set, the referred address has its referrer, every other address
    /// has what it had, and the referred address is on every page of its referrer that
    /// has no bounds and is not full.
    pub proof fn lemma_edge_is_listed(
        &self,
        m: Map<Seq<u8>, Seq<u8>>,
        referred: Seq<u8>,
        referrer: Seq<u8>,
        other: Seq<u8>,
        descending: bool,
        limit: nat,
        page: Seq<(Seq<u8>, Seq<u8>)>,
    )
        requires
            self.wf(),
            referrer.len() <= MAX_SEGMENT_LEN,
            referred.len() <= u64::MAX,
            other != referred,
            crate::range::is_page(
                self.map().spec_save(m, referred, spec_record(referrer, referred)),
                self.map().indexes().referred.spec_prefix(referrer),
                None,
                None,
                descending,
                limit,
                page,
            ),
        ensures
            self.spec_ref_of(
                self.map().spec_save(m, referred, spec_record(referrer, referred)),
                referred,
            ) == Ok::<Option<Seq<u8>>, StorageError>(Some(referrer)),
            self.spec_ref_of(
                self.map().spec_save(m, referred, spec_record(referrer, referred)),
                other,
            ) == self.spec_ref_of(m, other),
            page.len() == limit || exists|i: int|
                0 <= i < page.len() && (#[trigger] page[i]).0 == referred,
    {
        let record = spec_record(referrer, referred);
        let after = self.map().spec_save(m, referred, record);
        let index = self.map().indexes().referred;
        lemma_edge_of_record(referrer, referred);
        self.map().lemma_saved_is_indexed(m, referred, record);
        self.map().lemma_save_keeps_others(m, referred, record, other);
        let key = index.spec_entry_key(referred, record);
        assert(self.map().indexes().entries(referred, record).contains_key(key));
        index.lemma_entry_listed(after, referred, record, descending, limit, page);
    }

    /// Once a front part of a page fails to decode, the whole page does.
    proof fn lemma_edges_fail(page: Seq<(Seq<u8>, Seq<u8>)>, n: int)
        requires
            0 <= n <= page.len(),
            Self::spec_edges(page.subrange(0, n)) is Err,
        ensures
            Self::spec_edges(page) == Self::spec_edges(page.subrange(0, n)),
        decreases page.len() - n,
    {
        if n == page.len() {
            assert(page.subrange(0, n) =~= page);
        } else {
            let longer = page.subrange(0, n + 1);
            assert(longer.drop_last() =~= page.subrange(0, n));
            Self::lemma_edges_fail(page, n + 1);
        }
    }
}

} // verus!
