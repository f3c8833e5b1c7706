//! The ordered byte-string store that everything else is kept in:
//! `cosmwasm_std::MemoryStorage`, reached through four calls whose contracts are
//! stated here and taken on trust.

use cosmwasm_std::MemoryStorage;
use cosmwasm_std::Storage;
use vstd::prelude::*;

verus! {

/// `cosmwasm_std::MemoryStorage`, an ordered map from byte-string keys to byte-string values.
#[verifier::external_type_specification]
#[verifier::external_body]
pub struct ExMemoryStorage(MemoryStorage);

/// The direction of a scan.
#[derive(Clone, Copy, Debug, PartialEq, Eq, Structural)]
pub enum Order {
    Ascending,
    Descending,
}

/// The entries that a store holds.
pub uninterp spec fn contents(store: MemoryStorage) -> Map<Seq<u8>, Seq<u8>>;

/// The view of an optional byte slice.
pub open spec fn bound_view(bound: Option<&[u8]>) -> Option<Seq<u8>> {
    match bound {
        Some(b) => Some(b@),
        None => None,
    }
}

/// `key` lies at or after `start` and before `end`, where each is given.
pub open spec fn in_range(key: Seq<u8>, start: Option<Seq<u8>>, end: Option<Seq<u8>>) -> bool {
    &&& start matches Some(s) ==> crate::lex::lex_le(s, key)
    &&& end matches Some(e) ==> crate::lex::lex_lt(key, e)
}

/// `Storage::get` on a `MemoryStorage`: the value kept under `key`, if there is one.
#[verifier::external_body]
pub(crate) fn store_get(store: &MemoryStorage, key: &[u8]) -> (r: Option<Vec<u8>>)
    ensures
        match r {
            Some(value) => contents(*store).contains_key(key@) && contents(*store)[key@] == value@,
            None => !contents(*store).contains_key(key@),
        },
{
    store.get(key)
}

/// `Storage::set` on a `MemoryStorage`: afterwards `key` maps to `value` and every other
/// key is as it was. The call panics on an empty value, which `requires` leaves out.
#[verifier::external_body]
pub(crate) fn store_set(store: &mut MemoryStorage, key: &[u8], value: &[u8])
    requires
        value@.len() > 0,
    ensures
        contents(*final(store)) == contents(*old(store)).insert(key@, value@),
{
    store.set(key, value)
}

/// `Storage::remove` on a `MemoryStorage`: afterwards `key` is absent and every other key
/// is as it was.
#[verifier::external_body]
pub(crate) fn store_remove(store: &mut MemoryStorage, key: &[u8])
    ensures
        contents(*final(store)) == contents(*old(store)).remove(key@),
{
    store.remove(key)
}

/// The first item of `Storage::range` on a `MemoryStorage`. The range runs over the keys
/// from `start` (included) to `end` (excluded) in lexicographic byte order, ascending or
/// descending; so the item is the entry with the least, or the greatest, key in those
/// bounds, and there is none when no key lies in them.
#[verifier::external_body]
pub(crate) fn store_first(
    store: &MemoryStorage,
    start: Option<&[u8]>,
    end: Option<&[u8]>,
    order: Order,
) -> (r: Option<(Vec<u8>, Vec<u8>)>)
    ensures
        match r {
            Some((key, value)) => {
                &&& contents(*store).contains_key(key@)
                &&& contents(*store)[key@] == value@
                &&& in_range(key@, bound_view(start), bound_view(end))
                &&& forall|other: Seq<u8>|
                    #![trigger contents(*store).contains_key(other)]
                    contents(*store).contains_key(other) && in_range(
                        other,
                        bound_view(start),
                        bound_view(end),
                    ) ==> if order == Order::Descending {
                        crate::lex::lex_le(other, key@)
                    } else {
                        crate::lex::lex_le(key@, other)
                    }
            },
            None => forall|other: Seq<u8>|
                #![trigger contents(*store).contains_key(other)]
                contents(*store).contains_key(other) ==> !in_range(
                    other,
                    bound_view(start),
                    bound_view(end),
                ),
        },
{
    let order = match order {
        Order::Ascending => cosmwasm_std::Order::Ascending,
        Order::Descending => cosmwasm_std::Order::Descending,
    };
    store.range(start, end, order).next()
}

} // verus!
