//! Addresses, referral edges, and what the two referral graphs have in common.

use crate::error::StorageError;
use crate::keys::{bytes_equal, extend};
use crate::range::{Bound, Order};
use vstd::prelude::*;

verus! {

/// How many ancestors `ref_chains` walks up to when no depth is given.
pub const DEFAULT_DEPTH: u64 = 3;

/// How many addresses `all_referred_of` lists when no limit is given.
pub const DEFAULT_REFERRED_LIMIT: u64 = 50;

/// How many edges `all_ref` lists when no limit is given.
pub const DEFAULT_ALL_LIMIT: u64 = 100;

/// An address, compared and ordered by its bytes.
#[derive(Debug, PartialEq, Eq)]
pub struct Addr {
    bytes: Vec<u8>,
}

impl View for Addr {
    type V = Seq<u8>;

    closed spec fn view(&self) -> Seq<u8> {
        self.bytes@
    }
}

impl Clone for Addr {
    fn clone(&self) -> (r: Self)
        ensures
            r@ == self@,
    {
        Addr::from_bytes(self.bytes.as_slice())
    }
}

impl Addr {
    /// The address written as `s`, taken as it is.
    pub fn unchecked(s: &str) -> (r: Self)
        ensures
            r@ == vstd::utf8::encode_utf8(s@),
    {
        Addr { bytes: vstd::slice::slice_to_vec(s.as_bytes()) }
    }

    /// The address with the given bytes.
    pub fn from_bytes(bytes: &[u8]) -> (r: Self)
        ensures
            r@ == bytes@,
    {
        Addr { bytes: vstd::slice::slice_to_vec(bytes) }
    }

    /// The address with the given bytes, without copying them.
    pub fn from_vec(bytes: Vec<u8>) -> (r: Self)
        ensures
            r@ == bytes@,
    {
        Addr { bytes }
    }

    /// The bytes of the address.
    pub fn as_bytes(&self) -> (r: &[u8])
        ensures
            r@ == self@,
    {
        self.bytes.as_slice()
    }

    /// Whether the two addresses are the same bytes.
    pub fn same(&self, other: &Addr) -> (r: bool)
        ensures
            r == (self@ == other@),
    {
        bytes_equal(self.bytes.as_slice(), other.bytes.as_slice())
    }
}

/// One edge of the graph: `referred` was brought in by `referrer`.
#[derive(Debug, PartialEq, Eq)]
pub struct Refer {
    pub referrer: Addr,
    pub referred: Addr,
}

impl Clone for Refer {
    fn clone(&self) -> (r: Self)
        ensures
            r.referrer@ == self.referrer@,
            r.referred@ == self.referred@,
    {
        Refer { referrer: self.referrer.clone(), referred: self.referred.clone() }
    }
}

/// The views of a list of addresses.
pub open spec fn addrs_view(addrs: Seq<Addr>) -> Seq<Seq<u8>> {
    Seq::new(addrs.len(), |i: int| addrs[i]@)
}

/// The view of an optional address.
pub open spec fn addr_view(addr: Option<Addr>) -> Option<Seq<u8>> {
    match addr {
        Some(a) => Some(a@),
        None => None,
    }
}

/// The ancestors of `addr`, nearest first: its referrer, that one's referrer, and so on,
/// `depth` at most, ending early at an address without a referrer. `refs` gives the
/// referrer of each address that has one, or the error that reading it ends in; where
/// the walk meets an error, it ends in that error.
pub open spec fn spec_chain(
    refs: Map<Seq<u8>, Result<Seq<u8>, StorageError>>,
    addr: Seq<u8>,
    depth: nat,
) -> Result<Seq<Seq<u8>>, StorageError>
    decreases depth,
{
    if depth == 0 || !refs.contains_key(addr) {
        Ok(Seq::<Seq<u8>>::empty())
    } else {
        match refs[addr] {
            Err(e) => Err(e),
            Ok(parent) => match spec_chain(refs, parent, (depth - 1) as nat) {
                Ok(rest) => Ok(seq![parent] + rest),
                Err(e) => Err(e),
            },
        }
    }
}

/// The chain that starts with `walked` and goes on from `from` for `left` more steps.
pub open spec fn spec_chain_after(
    refs: Map<Seq<u8>, Result<Seq<u8>, StorageError>>,
    walked: Seq<Seq<u8>>,
    from: Seq<u8>,
    left: nat,
) -> Result<Seq<Seq<u8>>, StorageError> {
    match spec_chain(refs, from, left) {
        Ok(rest) => Ok(walked + rest),
        Err(e) => Err(e),
    }
}

/// A chain is never longer than its depth.
pub proof fn lemma_chain_len(
    refs: Map<Seq<u8>, Result<Seq<u8>, StorageError>>,
    addr: Seq<u8>,
    depth: nat,
)
    ensures
        spec_chain(refs, addr, depth) matches Ok(chain) ==> chain.len() <= depth,
    decreases depth,
{
    if depth > 0 && refs.contains_key(addr) {
        match refs[addr] {
            Ok(parent) => {
                lemma_chain_len(refs, parent, (depth - 1) as nat);
            },
            _ => {},
        }
    }
}

/// The edges of a list, each as the referred address and its referrer.
pub open spec fn refers_view(refers: Seq<Refer>) -> Seq<(Seq<u8>, Seq<u8>)> {
    Seq::new(refers.len(), |i: int| (refers[i].referred@, refers[i].referrer@))
}

/// The greatest number of items on a page: the limit asked for, or `default`.
pub open spec fn spec_limit(limit: Option<u64>, default: u64) -> nat {
    (match limit {
        Some(l) => l,
        None => default,
    }) as usize as nat
}

/// The greatest number of items on a page: the limit asked for, or `default`.
pub fn page_limit(limit: Option<u64>, default: u64) -> (r: usize)
    ensures
        r as nat == spec_limit(limit, default),
{
    match limit {
        Some(l) => l as usize,
        None => default as usize,
    }
}

/// Whether a listing descends: only when that is asked for.
pub open spec fn spec_descending(is_ascending: Option<bool>) -> bool {
    is_ascending == Some(false)
}

/// The cursor of a listing as its lower bound: what follows `start_after`, when the
/// listing ascends.
pub open spec fn spec_min(start_after: Option<Seq<u8>>, descending: bool) -> Option<
    crate::range::BoundView,
> {
    match start_after {
        Some(a) if !descending => Some(crate::range::BoundView::Exclusive(a)),
        _ => None,
    }
}

/// The cursor of a listing as its upper bound: what precedes `start_after`, when the
/// listing descends.
pub open spec fn spec_max(start_after: Option<Seq<u8>>, descending: bool) -> Option<
    crate::range::BoundView,
> {
    match start_after {
        Some(a) if descending => Some(crate::range::BoundView::Exclusive(a)),
        _ => None,
    }
}

/// The bounds and the order of a listing that resumes strictly after `start_after`.
pub fn cursor_bounds(start_after: &Option<Addr>, is_ascending: Option<bool>) -> (r: (
    Option<Bound>,
    Option<Bound>,
    Order,
))
    ensures
        crate::range::is_descending(r.2) == (spec_descending(is_ascending)),
        crate::range::bounds_view(r.0) == spec_min(
            addr_view(*start_after),
            spec_descending(is_ascending),
        ),
        crate::range::bounds_view(r.1) == spec_max(
            addr_view(*start_after),
            spec_descending(is_ascending),
        ),
{
    let ascending = match is_ascending {
        Some(a) => a,
        None => true,
    };
    let cursor: Option<Bound> = match start_after {
        Some(a) => {
            let mut bytes: Vec<u8> = Vec::new();
            extend(&mut bytes, a.as_bytes());
            Some(Bound::Exclusive(bytes))
        },
        None => None,
    };
    if ascending {
        (cursor, None, Order::Ascending)
    } else {
        (None, cursor, Order::Descending)
    }
}

} // verus!
