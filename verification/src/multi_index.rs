//! The plain multi-valued index: every entry ends in the primary key as it is.

use crate::custom_dese_index::{CustomDeseMultiIndex, Plain};
use crate::index::{Index, IndexFn};
use crate::keys::MAX_SEGMENT_LEN;
use vstd::prelude::*;

verus! {

/// A multi-valued index without a transform.
pub type MultiIndex<D> = CustomDeseMultiIndex<D, Plain>;

/// The multi-valued index that keeps, under `idx_namespace`, the index keys that `idx_fn`
/// derives from the records of `pk_namespace`.
pub fn multi_index<D: IndexFn>(idx_fn: D, pk_namespace: &str, idx_namespace: &str) -> (r:
    MultiIndex<D>)
    requires
        vstd::utf8::encode_utf8(pk_namespace@).len() <= MAX_SEGMENT_LEN,
        vstd::utf8::encode_utf8(idx_namespace@).len() <= MAX_SEGMENT_LEN,
    ensures
        r.wf(),
        r.index_fn() == idx_fn,
        r.pk_namespace() == vstd::utf8::encode_utf8(pk_namespace@),
        r.idx_namespace() == vstd::utf8::encode_utf8(idx_namespace@),
{
    CustomDeseMultiIndex::new(idx_fn, Plain, pk_namespace, idx_namespace)
}

} // verus!
