//! The referral graph as one map from each referred address to its referrer.

use crate::error::StorageError;
use crate::frame::{frame, unframe};
use crate::keys::MAX_SEGMENT_LEN;
use crate::map::MapCow;
use crate::referral::{cursor_bounds, Addr, Refer, DEFAULT_ALL_LIMIT, DEFAULT_DEPTH};
use crate::store::ExMemoryStorage;
use cosmwasm_std::MemoryStorage;
use vstd::prelude::*;

verus! {

/// Each referred address maps to its referrer, kept behind its length.
pub struct SingleSidedReferral(MapCow);

impl SingleSidedReferral {
    /// The map that holds the edges.
    pub closed spec fn map(&self) -> MapCow {
        self.0
    }

    /// The namespace of the map fits the two-byte length prefix.
    pub open spec fn wf(&self) -> bool {
        self.map().wf()
    }

    /// The referrer that the entries `m` give for `addr`: none when `addr` has no entry,
    /// `DecodeError` when its entry is not a framed address.
    pub open spec fn spec_ref_of(&self, m: Map<Seq<u8>, Seq<u8>>, addr: Seq<u8>) -> Result<
        Option<Seq<u8>>,
        StorageError,
    > {
        match self.map().spec_get(m, addr) {
            None => Ok(None),
            Some(value) => match crate::frame::spec_unframe(value) {
                Some(referrer) => Ok(Some(referrer)),
                None => Err(StorageError::DecodeError),
            },
        }
    }

    /// The referrer of every address that has an entry in `m`, or the error that reading
    /// the entry ends in.
    pub open spec fn spec_refs(&self, m: Map<Seq<u8>, Seq<u8>>) -> Map<
        Seq<u8>,
        Result<Seq<u8>, StorageError>,
    > {
        Map::new(
            |addr: Seq<u8>| self.map().spec_get(m, addr) is Some,
            |addr: Seq<u8>|
                match crate::frame::spec_unframe(m[self.map().spec_key(addr)]) {
                    Some(referrer) => Ok(referrer),
                    None => Err(StorageError::DecodeError),
                },
        )
    }

    /// The entries after the edge from `referred` to `referrer` was added.
    pub open spec fn spec_with_edge(
        &self,
        m: Map<Seq<u8>, Seq<u8>>,
        referred: Seq<u8>,
        referrer: Seq<u8>,
    ) -> Map<Seq<u8>, Seq<u8>> {
        m.insert(self.map().spec_key(referred), crate::frame::spec_frame(referrer))
    }

    /// The edges that the entries of a page stand for: `DecodeError` when a value is not
    /// a framed address.
    pub open spec fn spec_edges(page: Seq<(Seq<u8>, Seq<u8>)>) -> Result<
        Seq<(Seq<u8>, Seq<u8>)>,
        StorageError,
    >
        decreases page.len(),
    {
        if page.len() == 0 {
            Ok(Seq::<(Seq<u8>, Seq<u8>)>::empty())
        } else {
            match Self::spec_edges(page.drop_last()) {
                Err(e) => Err(e),
                Ok(edges) => match crate::frame::spec_unframe(page.last().1) {
                    Some(referrer) => Ok(edges.push((page.last().0, referrer))),
                    None => Err(StorageError::DecodeError),
                },
            }
        }
    }

    /// The graph that keeps its edges under `map_namespace`.
    pub fn new(map_namespace: &str) -> (r: Self)
        requires
            vstd::utf8::encode_utf8(map_namespace@).len() <= MAX_SEGMENT_LEN,
        ensures
            r.wf(),
            r.map().namespace() == vstd::utf8::encode_utf8(map_namespace@),
    {
        SingleSidedReferral(MapCow::new_ref(map_namespace))
    }

    /// Records that `referred_addr` was brought in by `referrer_addr`. An address cannot
    /// refer itself, and an address that has a referrer keeps it.
    pub fn set_ref(&self, store: &mut MemoryStorage, referred_addr: &Addr, referrer_addr: &Addr) -> (r:
        Result<(), StorageError>)
        requires
            self.wf(),
        ensures
            match r {
                Ok(_) => {
                    &&& referred_addr@ != referrer_addr@
                    &&& self.map().spec_get(crate::store::contents(*old(store)), referred_addr@)
                        is None
                    &&& crate::store::contents(*final(store)) == self.spec_with_edge(
                        crate::store::contents(*old(store)),
                        referred_addr@,
                        referrer_addr@,
                    )
                },
                Err(e) => {
                    &&& crate::store::contents(*final(store)) == crate::store::contents(
                        *old(store),
                    )
                    &&& if referred_addr@ == referrer_addr@ {
                        e == StorageError::SelfReference
                    } else {
                        &&& e == StorageError::DuplicateReferral
                        &&& self.map().spec_get(
                            crate::store::contents(*old(store)),
                            referred_addr@,
                        ) is Some
                    }
                },
            },
    {
        if referred_addr.same(referrer_addr) {
            return Err(StorageError::SelfReference);
        }
        if self.0.has(store, referred_addr.as_bytes()) {
            return Err(StorageError::DuplicateReferral);
        }
        let value = frame(referrer_addr.as_bytes());
        self.0.save(store, referred_addr.as_bytes(), value.as_slice());
        Ok(())
    }

    /// The referrer of `addr`, if it has one.
    pub fn ref_of(&self, store: &MemoryStorage, addr: &Addr) -> (r: Result<
        Option<Addr>,
        StorageError,
    >)
        requires
            self.wf(),
        ensures
            match r {
                Ok(referrer) => self.spec_ref_of(crate::store::contents(*store), addr@) == Ok::<
                    Option<Seq<u8>>,
                    StorageError,
                >(crate::referral::addr_view(referrer)),
                Err(e) => self.spec_ref_of(crate::store::contents(*store), addr@) == Err::<
                    Option<Seq<u8>>,
                    StorageError,
                >(e),
            },
    {
        match self.0.may_load(store, addr.as_bytes()) {
            None => Ok(None),
            Some(value) => match unframe(value.as_slice()) {
                Some(referrer) => Ok(Some(Addr::from_vec(referrer))),
                None => Err(StorageError::DecodeError),
            },
        }
    }

    /// Whether `addr` has a referrer.
    pub fn has_ref(&self, store: &MemoryStorage, addr: &Addr) -> (r: Result<bool, StorageError>)
        requires
            self.wf(),
        ensures
            match r {
                Ok(has) => self.spec_ref_of(crate::store::contents(*store), addr@) matches Ok(
                    referrer,
                ) && has == referrer is Some,
                Err(e) => self.spec_ref_of(crate::store::contents(*store), addr@) == Err::<
                    Option<Seq<u8>>,
                    StorageError,
                >(e),
            },
    {
        match self.ref_of(store, addr) {
            Ok(referrer) => Ok(referrer.is_some()),
            Err(e) => Err(e),
        }
    }

    /// The ancestors of `addr`, nearest first, `depth` at most (three when none is given).
    /// The walk ends early at an address without a referrer and never looks for cycles:
    /// the depth alone bounds it.
    pub fn ref_chains(&self, store: &MemoryStorage, addr: &Addr, depth: Option<u64>) -> (r: Result<
        Vec<Addr>,
        StorageError,
    >)
        requires
            self.wf(),
        ensures
            match r {
                Ok(chain) => crate::referral::spec_chain(
                    self.spec_refs(crate::store::contents(*store)),
                    addr@,
                    depth.unwrap_or(DEFAULT_DEPTH) as nat,
                ) == Ok::<Seq<Seq<u8>>, StorageError>(crate::referral::addrs_view(chain@)),
                Err(e) => crate::referral::spec_chain(
                    self.spec_refs(crate::store::contents(*store)),
                    addr@,
                    depth.unwrap_or(DEFAULT_DEPTH) as nat,
                ) == Err::<Seq<Seq<u8>>, StorageError>(e),
            },
    {
        let steps: u64 = match depth {
            Some(d) => d,
            None => DEFAULT_DEPTH,
        };
        let ghost lookup = self.spec_refs(crate::store::contents(*store));
        let mut chains: Vec<Addr> = Vec::new();
        let mut i: u64 = 0;
        proof {
            assert(crate::referral::addrs_view(chains@) =~= Seq::<Seq<u8>>::empty());
            match crate::referral::spec_chain(lookup, addr@, steps as nat) {
                Ok(rest) => {
                    assert(Seq::<Seq<u8>>::empty() + rest =~= rest);
                },
                Err(_) => {},
            }
        }
        while i < steps
            invariant
                self.wf(),
                i <= steps,
                steps == depth.unwrap_or(DEFAULT_DEPTH),
                lookup == self.spec_refs(crate::store::contents(*store)),
                crate::referral::spec_chain(lookup, addr@, steps as nat)
                    == crate::referral::spec_chain_after(
                    lookup,
                    crate::referral::addrs_view(chains@),
                    if chains@.len() == 0 {
                        addr@
                    } else {
                        chains@.last()@
                    },
                    (steps - i) as nat,
                ),
            decreases steps - i,
        {
            let ghost walked = crate::referral::addrs_view(chains@);
            let ghost from = if chains@.len() == 0 {
                addr@
            } else {
                chains@.last()@
            };
            let found = if chains.len() == 0 {
                self.ref_of(store, addr)
            } else {
                self.ref_of(store, &chains[chains.len() - 1])
            };
            match found {
                Err(e) => {
                    return Err(e);
                },
                Ok(None) => {
                    assert(walked + Seq::<Seq<u8>>::empty() =~= walked);
                    return Ok(chains);
                },
                Ok(Some(parent)) => {
                    proof {
                        match crate::referral::spec_chain(lookup, parent@, (steps - i - 1) as nat) {
                            Ok(rest) => {
                                assert(walked + (seq![parent@] + rest) =~= walked.push(parent@)
                                    + rest);
                            },
                            Err(_) => {},
                        }
                        assert(crate::referral::addrs_view(chains@.push(parent)) =~= walked.push(
                            parent@,
                        ));
                    }
                    chains.push(parent);
                },
            }
            i += 1;
        }
        proof {
            let walked = crate::referral::addrs_view(chains@);
            assert(walked + Seq::<Seq<u8>>::empty() =~= walked);
        }
        Ok(chains)
    }

    /// One page of all edges in the order of the referred addresses: those strictly after
    /// `start_after` (before it, when descending), `limit` at most (a hundred when none is
    /// given), ascending unless `is_ascending` is `false`.
    pub fn all_ref(
        &self,
        store: &MemoryStorage,
        start_after: Option<Addr>,
        limit: Option<u64>,
        is_ascending: Option<bool>,
    ) -> (r: Result<Vec<Refer>, StorageError>)
        requires
            self.wf(),
        ensures
            exists|page: Seq<(Seq<u8>, Seq<u8>)>|
                {
                    &&& #[trigger] crate::range::is_page(
                        crate::store::contents(*store),
                        self.map().spec_prefix(),
                        crate::referral::spec_min(
                            crate::referral::addr_view(start_after),
                            crate::referral::spec_descending(is_ascending),
                        ),
                        crate::referral::spec_max(
                            crate::referral::addr_view(start_after),
                            crate::referral::spec_descending(is_ascending),
                        ),
                        crate::referral::spec_descending(is_ascending),
                        crate::referral::spec_limit(limit, DEFAULT_ALL_LIMIT),
                        page,
                    )
                    &&& match r {
                        Ok(edges) => Self::spec_edges(page) == Ok::<
                            Seq<(Seq<u8>, Seq<u8>)>,
                            StorageError,
                        >(crate::referral::refers_view(edges@)),
                        Err(e) => Self::spec_edges(page) == Err::<
                            Seq<(Seq<u8>, Seq<u8>)>,
                            StorageError,
                        >(e),
                    }
                },
    {
        let (min, max, order) = cursor_bounds(&start_after, is_ascending);
        let count = crate::referral::page_limit(limit, DEFAULT_ALL_LIMIT);
        let page = self.0.range(store, min, max, order, count);
        let ghost entries = crate::range::entries_view(page@);
        let mut edges: Vec<Refer> = Vec::new();
        let mut i: usize = 0;
        proof {
            assert(entries.subrange(0, 0) =~= Seq::<(Seq<u8>, Seq<u8>)>::empty());
            assert(crate::referral::refers_view(edges@) =~= Seq::<(Seq<u8>, Seq<u8>)>::empty());
        }
        while i < page.len()
            invariant
                i <= page.len(),
                entries == crate::range::entries_view(page@),
                crate::range::is_page(
                    crate::store::contents(*store),
                    self.map().spec_prefix(),
                    crate::referral::spec_min(
                        crate::referral::addr_view(start_after),
                        crate::referral::spec_descending(is_ascending),
                    ),
                    crate::referral::spec_max(
                        crate::referral::addr_view(start_after),
                        crate::referral::spec_descending(is_ascending),
                    ),
                    crate::referral::spec_descending(is_ascending),
                    crate::referral::spec_limit(limit, DEFAULT_ALL_LIMIT),
                    entries,
                ),
                Self::spec_edges(entries.subrange(0, i as int)) == Ok::<
                    Seq<(Seq<u8>, Seq<u8>)>,
                    StorageError,
                >(crate::referral::refers_view(edges@)),
            decreases page.len() - i,
        {
            let ghost before = entries.subrange(0, i as int);
            let ghost next = entries.subrange(0, i + 1);
            proof {
                assert(next.drop_last() =~= before);
                assert(next.last() == entries[i as int]);
                assert(entries[i as int].0 == page@[i as int].0@);
                assert(entries[i as int].1 == page@[i as int].1@);
            }
            match unframe(page[i].1.as_slice()) {
                None => {
                    proof {
                        assert(Self::spec_edges(next) == Err::<
                            Seq<(Seq<u8>, Seq<u8>)>,
                            StorageError,
                        >(StorageError::DecodeError));
                        Self::lemma_edges_fail(entries, i + 1);
                    }
                    return Err(StorageError::DecodeError);
                },
                Some(referrer) => {
                    let referred = Addr::from_bytes(page[i].0.as_slice());
                    let ghost edge = (referred@, referrer@);
                    let ghost so_far = crate::referral::refers_view(edges@);
                    edges.push(Refer { referrer: Addr::from_vec(referrer), referred });
                    assert(crate::referral::refers_view(edges@) =~= so_far.push(edge));
                    assert(Self::spec_edges(next) == Ok::<Seq<(Seq<u8>, Seq<u8>)>, StorageError>(
                        so_far.push(edge),
                    ));
                },
            }
            i += 1;
        }
        assert(entries.subrange(0, i as int) =~= entries);
        Ok(edges)
    }

    /// Once a front part of a page fails to decode, the whole page does.
    proof fn lemma_edges_fail(page: Seq<(Seq<u8>, Seq<u8>)>, n: int)
        requires
            0 <= n <= page.len(),
            Self::spec_edges(page.subrange(0, n)) is Err,
        ensures
            Self::spec_edges(page) == Self::spec_edges(page.subrange(0, n)),
        decreases page.len() - n,
    {
        if n == page.len() {
            assert(page.subrange(0, n) =~= page);
        } else {
            let longer = page.subrange(0, n + 1);
            assert(longer.drop_last() =~= page.subrange(0, n));
            Self::lemma_edges_fail(page, n + 1);
        }
    }
}

} // verus!
