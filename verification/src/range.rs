//! Bounded, ordered, paginated scans of the keys under one prefix.

use crate::keys::extend;
pub use crate::store::Order;
use crate::store::{store_first, ExMemoryStorage};
use cosmwasm_std::MemoryStorage;
use vstd::prelude::*;

verus! {

/// One end of a scan, over the part of a key that follows the prefix.
#[derive(Debug)]
pub enum Bound {
    Inclusive(Vec<u8>),
    Exclusive(Vec<u8>),
}

impl Clone for Bound {
    fn clone(&self) -> (r: Self)
        ensures
            r@ == self@,
    {
        match self {
            Bound::Inclusive(b) => Bound::Inclusive(vstd::slice::slice_to_vec(b.as_slice())),
            Bound::Exclusive(b) => Bound::Exclusive(vstd::slice::slice_to_vec(b.as_slice())),
        }
    }
}

/// A bound as specifications see it.
pub enum BoundView {
    Inclusive(Seq<u8>),
    Exclusive(Seq<u8>),
}

impl View for Bound {
    type V = BoundView;

    open spec fn view(&self) -> BoundView {
        match *self {
            Bound::Inclusive(b) => BoundView::Inclusive(b@),
            Bound::Exclusive(b) => BoundView::Exclusive(b@),
        }
    }
}

/// The view of an optional bound.
pub open spec fn bounds_view(bound: Option<Bound>) -> Option<BoundView> {
    match bound {
        Some(b) => Some(b@),
        None => None,
    }
}

/// One scanned entry: the key and the value kept under it.
pub type Entry = (Vec<u8>, Vec<u8>);

/// The views of the entries of a page.
pub open spec fn entries_view(entries: Seq<Entry>) -> Seq<(Seq<u8>, Seq<u8>)> {
    Seq::new(entries.len(), |i: int| (entries[i].0@, entries[i].1@))
}

/// The keys of the entries of a page.
pub open spec fn page_keys(page: Seq<(Seq<u8>, Seq<u8>)>) -> Seq<Seq<u8>> {
    Seq::new(page.len(), |i: int| page[i].0)
}

/// `suffix` is not below the lower bound.
pub open spec fn meets_min(min: Option<BoundView>, suffix: Seq<u8>) -> bool {
    match min {
        None => true,
        Some(BoundView::Inclusive(b)) => crate::lex::lex_le(b, suffix),
        Some(BoundView::Exclusive(b)) => crate::lex::lex_lt(b, suffix),
    }
}

/// `suffix` is not above the upper bound.
pub open spec fn meets_max(max: Option<BoundView>, suffix: Seq<u8>) -> bool {
    match max {
        None => true,
        Some(BoundView::Inclusive(b)) => crate::lex::lex_le(suffix, b),
        Some(BoundView::Exclusive(b)) => crate::lex::lex_lt(suffix, b),
    }
}

/// `a` is met before `b` by a scan in the given direction.
pub open spec fn comes_before(descending: bool, a: Seq<u8>, b: Seq<u8>) -> bool {
    if descending {
        crate::lex::lex_lt(b, a)
    } else {
        crate::lex::lex_lt(a, b)
    }
}

/// `page` is what a scan of the keys from `start` to `end` yields first: at most `limit`
/// entries of `m`, in scan order, with nothing in the bounds left out before the last one.
pub open spec fn is_scan(
    m: Map<Seq<u8>, Seq<u8>>,
    start: Option<Seq<u8>>,
    end: Option<Seq<u8>>,
    descending: bool,
    limit: nat,
    page: Seq<(Seq<u8>, Seq<u8>)>,
) -> bool {
    &&& page.len() <= limit
    &&& forall|i: int|
        0 <= i < page.len() ==> {
            &&& m.contains_key((#[trigger] page[i]).0)
            &&& m[page[i].0] == page[i].1
            &&& crate::store::in_range(page[i].0, start, end)
        }
    &&& forall|i: int, j: int|
        0 <= i < j < page.len() ==> comes_before(descending, (#[trigger] page[i]).0, (#[trigger] page[j]).0)
    &&& forall|key: Seq<u8>|
        #![trigger m.contains_key(key)]
        m.contains_key(key) && crate::store::in_range(key, start, end) ==> {
            ||| exists|i: int| 0 <= i < page.len() && (#[trigger] page[i]).0 == key
            ||| page.len() == limit && forall|i: int|
                0 <= i < page.len() ==> comes_before(descending, (#[trigger] page[i]).0, key)
        }
}

/// The key `prefix + suffix` is in `m` and `suffix` lies within both bounds.
pub open spec fn qualifies(
    m: Map<Seq<u8>, Seq<u8>>,
    prefix: Seq<u8>,
    min: Option<BoundView>,
    max: Option<BoundView>,
    suffix: Seq<u8>,
) -> bool {
    m.contains_key(prefix + suffix) && meets_min(min, suffix) && meets_max(max, suffix)
}

/// `page` is one page of the keys of `m` under `prefix`, each given without the prefix:
/// at most `limit` entries, all within the bounds, in scan order, and nothing that
/// qualifies is left out unless the page is full and it comes after the whole page.
pub open spec fn is_page(
    m: Map<Seq<u8>, Seq<u8>>,
    prefix: Seq<u8>,
    min: Option<BoundView>,
    max: Option<BoundView>,
    descending: bool,
    limit: nat,
    page: Seq<(Seq<u8>, Seq<u8>)>,
) -> bool {
    &&& page.len() <= limit
    &&& forall|i: int|
        0 <= i < page.len() ==> {
            &&& qualifies(m, prefix, min, max, (#[trigger] page[i]).0)
            &&& m[prefix + page[i].0] == page[i].1
        }
    &&& forall|i: int, j: int|
        0 <= i < j < page.len() ==> comes_before(descending, (#[trigger] page[i]).0, (#[trigger] page[j]).0)
    &&& forall|suffix: Seq<u8>|
        #![trigger m.contains_key(prefix + suffix)]
        qualifies(m, prefix, min, max, suffix) ==> {
            ||| exists|i: int| 0 <= i < page.len() && (#[trigger] page[i]).0 == suffix
            ||| page.len() == limit && forall|i: int|
                0 <= i < page.len() ==> comes_before(descending, (#[trigger] page[i]).0, suffix)
        }
}

/// Where `page` leaves a qualifying key out, it is full and the key comes after all of it.
proof fn lemma_left_out(
    m: Map<Seq<u8>, Seq<u8>>,
    prefix: Seq<u8>,
    min: Option<BoundView>,
    max: Option<BoundView>,
    descending: bool,
    limit: nat,
    page: Seq<(Seq<u8>, Seq<u8>)>,
    suffix: Seq<u8>,
)
    requires
        is_page(m, prefix, min, max, descending, limit, page),
        qualifies(m, prefix, min, max, suffix),
    ensures
        (exists|i: int| 0 <= i < page.len() && (#[trigger] page[i]).0 == suffix) || (page.len()
            == limit && forall|i: int|
            0 <= i < page.len() ==> comes_before(descending, (#[trigger] page[i]).0, suffix)),
{
    assert(m.contains_key(prefix + suffix));
}

/// Nothing comes before itself, and of two keys at most one comes before the other.
proof fn lemma_comes_before(descending: bool, a: Seq<u8>, b: Seq<u8>)
    ensures
        !comes_before(descending, a, a),
        !(comes_before(descending, a, b) && comes_before(descending, b, a)),
{
    crate::lex::lemma_lex_irreflexive(a);
    crate::lex::lemma_lex_asymmetric(a, b);
}

/// Two pages of the same scan hold the same key at a place up to which they agree.
proof fn lemma_page_same_key(
    m: Map<Seq<u8>, Seq<u8>>,
    prefix: Seq<u8>,
    min: Option<BoundView>,
    max: Option<BoundView>,
    descending: bool,
    limit: nat,
    p: Seq<(Seq<u8>, Seq<u8>)>,
    q: Seq<(Seq<u8>, Seq<u8>)>,
    i: int,
)
    requires
        is_page(m, prefix, min, max, descending, limit, p),
        is_page(m, prefix, min, max, descending, limit, q),
        0 <= i < p.len(),
        i < q.len(),
        forall|j: int| 0 <= j < i ==> (#[trigger] p[j]).0 == q[j].0,
    ensures
        p[i].0 == q[i].0,
{
    let s = p[i].0;
    let t = q[i].0;
    if s != t {
        lemma_comes_before(descending, s, t);
        lemma_comes_before(descending, s, s);
        lemma_comes_before(descending, t, t);
        // `t` comes before `s`, or `s` before `t`: either way one page breaks its order
        lemma_left_out(m, prefix, min, max, descending, limit, q, s);
        lemma_left_out(m, prefix, min, max, descending, limit, p, t);
        if exists|j: int| 0 <= j < q.len() && (#[trigger] q[j]).0 == s {
            let j = choose|j: int| 0 <= j < q.len() && (#[trigger] q[j]).0 == s;
            if j < i {
                assert(p[j].0 == q[j].0);
                assert(comes_before(descending, p[j].0, p[i].0));
            } else {
                assert(comes_before(descending, q[i].0, q[j].0));
            }
        } else {
            assert(comes_before(descending, q[i].0, s));
        }
        assert(comes_before(descending, t, s));
        if exists|j: int| 0 <= j < p.len() && (#[trigger] p[j]).0 == t {
            let j = choose|j: int| 0 <= j < p.len() && (#[trigger] p[j]).0 == t;
            if j < i {
                assert(p[j].0 == q[j].0);
                assert(comes_before(descending, q[j].0, q[i].0));
            } else {
                assert(comes_before(descending, p[i].0, p[j].0));
            }
        } else {
            assert(comes_before(descending, p[i].0, t));
        }
    }
}

/// Two pages of the same scan agree on their first `n` keys.
proof fn lemma_page_same_keys(
    m: Map<Seq<u8>, Seq<u8>>,
    prefix: Seq<u8>,
    min: Option<BoundView>,
    max: Option<BoundView>,
    descending: bool,
    limit: nat,
    p: Seq<(Seq<u8>, Seq<u8>)>,
    q: Seq<(Seq<u8>, Seq<u8>)>,
    n: int,
)
    requires
        is_page(m, prefix, min, max, descending, limit, p),
        is_page(m, prefix, min, max, descending, limit, q),
        0 <= n <= p.len(),
        n <= q.len(),
    ensures
        forall|j: int| 0 <= j < n ==> (#[trigger] p[j]).0 == q[j].0,
    decreases n,
{
    if n > 0 {
        lemma_page_same_keys(m, prefix, min, max, descending, limit, p, q, n - 1);
        lemma_page_same_key(m, prefix, min, max, descending, limit, p, q, n - 1);
    }
}

/// A page is never shorter than another page of the same scan.
proof fn lemma_page_not_shorter(
    m: Map<Seq<u8>, Seq<u8>>,
    prefix: Seq<u8>,
    min: Option<BoundView>,
    max: Option<BoundView>,
    descending: bool,
    limit: nat,
    p: Seq<(Seq<u8>, Seq<u8>)>,
    q: Seq<(Seq<u8>, Seq<u8>)>,
)
    requires
        is_page(m, prefix, min, max, descending, limit, p),
        is_page(m, prefix, min, max, descending, limit, q),
    ensures
        p.len() >= q.len(),
{
    if p.len() < q.len() {
        let n = p.len() as int;
        let t = q[n].0;
        lemma_page_same_keys(m, prefix, min, max, descending, limit, p, q, n);
        lemma_left_out(m, prefix, min, max, descending, limit, p, t);
        let j = choose|j: int| 0 <= j < p.len() && (#[trigger] p[j]).0 == t;
        assert(p[j].0 == q[j].0);
        assert(comes_before(descending, q[j].0, q[n].0));
        lemma_comes_before(descending, t, t);
    }
}

/// A scan has one page only: what `is_page` says of a page, it says of no other.
pub proof fn lemma_page_unique(
    m: Map<Seq<u8>, Seq<u8>>,
    prefix: Seq<u8>,
    min: Option<BoundView>,
    max: Option<BoundView>,
    descending: bool,
    limit: nat,
    p: Seq<(Seq<u8>, Seq<u8>)>,
    q: Seq<(Seq<u8>, Seq<u8>)>,
)
    requires
        is_page(m, prefix, min, max, descending, limit, p),
        is_page(m, prefix, min, max, descending, limit, q),
    ensures
        p == q,
{
    lemma_page_not_shorter(m, prefix, min, max, descending, limit, p, q);
    lemma_page_not_shorter(m, prefix, min, max, descending, limit, q, p);
    lemma_page_same_keys(m, prefix, min, max, descending, limit, p, q, p.len() as int);
    assert forall|j: int| 0 <= j < p.len() implies p[j] == q[j] by {
        assert(p[j].0 == q[j].0);
        assert(m[prefix + p[j].0] == p[j].1);
        assert(m[prefix + q[j].0] == q[j].1);
    }
    assert(p =~= q);
}

/// The first key of the scan of `prefix` with the lower bound `min`.
pub open spec fn spec_start(prefix: Seq<u8>, min: Option<BoundView>) -> Seq<u8> {
    match min {
        None => prefix,
        Some(BoundView::Inclusive(b)) => prefix + b,
        Some(BoundView::Exclusive(b)) => prefix + b.push(0),
    }
}

/// The key at which the scan of `prefix` with the upper bound `max` stops.
pub open spec fn spec_end(prefix: Seq<u8>, max: Option<BoundView>) -> Option<Seq<u8>> {
    match max {
        None => crate::lex::prefix_upper(prefix),
        Some(BoundView::Inclusive(b)) => Some(prefix + b.push(0)),
        Some(BoundView::Exclusive(b)) => Some(prefix + b),
    }
}

/// The view of an optional key.
pub open spec fn key_view(key: Option<Vec<u8>>) -> Option<Seq<u8>> {
    match key {
        Some(k) => Some(k@),
        None => None,
    }
}

/// Whether the scan runs from the greatest key down.
pub open spec fn is_descending(order: Order) -> bool {
    order == Order::Descending
}

/// The keys between `spec_start` and `spec_end` are those that start with the prefix and
/// whose rest lies within the two bounds.
pub proof fn lemma_bounds_of_prefix(
    prefix: Seq<u8>,
    min: Option<BoundView>,
    max: Option<BoundView>,
    key: Seq<u8>,
)
    ensures
        crate::store::in_range(key, Some(spec_start(prefix, min)), spec_end(prefix, max)) == (
        crate::lex::has_prefix(key, prefix) && meets_min(min, key.skip(prefix.len() as int))
            && meets_max(max, key.skip(prefix.len() as int))),
{
    let start = spec_start(prefix, min);
    let end = spec_end(prefix, max);
    let upper = crate::lex::prefix_upper(prefix);
    let n = prefix.len() as int;
    crate::lex::lemma_prefix_range(prefix, key);
    crate::lex::lemma_prefix_range(prefix, start);
    assert(crate::lex::has_prefix(start, prefix)) by {
        assert(start.subrange(0, n) =~= prefix);
    }
    if crate::store::in_range(key, Some(start), end) {
        // the key lies between two keys of the prefix, so it has the prefix too
        if prefix != start {
            crate::lex::lemma_lex_lt_le(prefix, start, key);
        }
        match max {
            None => {},
            Some(bound) => {
                let e = end->Some_0;
                assert(crate::lex::has_prefix(e, prefix)) by {
                    assert(e.subrange(0, n) =~= prefix);
                }
                crate::lex::lemma_prefix_range(prefix, e);
                if upper is Some {
                    crate::lex::lemma_lex_transitive(key, e, upper->Some_0);
                }
            },
        }
        assert(crate::lex::has_prefix(key, prefix));
    }
    if crate::lex::has_prefix(key, prefix) {
        let suffix = key.skip(n);
        assert(key =~= prefix + suffix);
        match min {
            None => {},
            Some(BoundView::Inclusive(b)) => {
                crate::lex::lemma_lex_prefix_cancel(prefix, b, suffix);
                if b == suffix {
                    assert(prefix + b =~= key);
                }
                if prefix + b == key {
                    assert(b =~= key.skip(n));
                }
            },
            Some(BoundView::Exclusive(b)) => {
                let c = b.push(0);
                crate::lex::lemma_lex_prefix_cancel(prefix, c, suffix);
                crate::lex::lemma_lex_successor(b, suffix);
                if c == suffix {
                    assert(prefix + c =~= key);
                }
                if prefix + c == key {
                    assert(c =~= key.skip(n));
                }
            },
        }
        match max {
            None => {},
            Some(BoundView::Inclusive(b)) => {
                let c = b.push(0);
                crate::lex::lemma_lex_prefix_cancel(prefix, suffix, c);
                crate::lex::lemma_lex_successor(b, suffix);
                crate::lex::lemma_lex_total(suffix, c);
                crate::lex::lemma_lex_asymmetric(suffix, c);
                crate::lex::lemma_lex_irreflexive(c);
                crate::lex::lemma_lex_total(suffix, b);
                crate::lex::lemma_lex_asymmetric(suffix, b);
                crate::lex::lemma_lex_irreflexive(suffix);
            },
            Some(BoundView::Exclusive(b)) => {
                crate::lex::lemma_lex_prefix_cancel(prefix, suffix, b);
            },
        }
    }
}

/// The least key above every key that starts with `prefix`, if there is one.
pub fn prefix_upper_bound(prefix: &[u8]) -> (r: Option<Vec<u8>>)
    ensures
        match r {
            Some(upper) => crate::lex::prefix_upper(prefix@) == Some(upper@),
            None => crate::lex::prefix_upper(prefix@) is None,
        },
{
    let mut i: usize = prefix.len();
    while i > 0 && prefix[i - 1] == 255
        invariant
            i <= prefix.len(),
            forall|j: int| i <= j < prefix@.len() ==> prefix@[j] == 255,
        decreases i,
    {
        i -= 1;
    }
    if i == 0 {
        proof {
            crate::lex::lemma_prefix_upper_none(prefix@);
        }
        None
    } else {
        let mut upper = vstd::slice::slice_to_vec(vstd::slice::slice_subrange(prefix, 0, i - 1));
        upper.push(prefix[i - 1] + 1);
        proof {
            crate::lex::lemma_prefix_upper_at(prefix@, i - 1);
        }
        Some(upper)
    }
}

fn as_bound(end: &Option<Vec<u8>>) -> (r: Option<&[u8]>)
    ensures
        crate::store::bound_view(r) == key_view(*end),
{
    match end {
        Some(e) => Some(e.as_slice()),
        None => None,
    }
}

/// Collects, in scan order, the first `limit` entries whose keys lie from `start`
/// (included) to `end` (excluded).
pub fn scan(
    store: &MemoryStorage,
    start: Vec<u8>,
    end: Option<Vec<u8>>,
    order: Order,
    limit: usize,
) -> (page: Vec<Entry>)
    ensures
        is_scan(
            crate::store::contents(*store),
            Some(start@),
            key_view(end),
            is_descending(order),
            limit as nat,
            entries_view(page@),
        ),
{
    let ghost m = crate::store::contents(*store);
    let ghost start0 = Some(start@);
    let ghost end0: Option<Seq<u8>> = key_view(end);
    let descending = match order {
        Order::Ascending => false,
        Order::Descending => true,
    };
    let mut lo: Vec<u8> = start;
    let mut hi: Option<Vec<u8>> = end;
    let mut page: Vec<Entry> = Vec::new();
    let mut done = false;
    while !done && page.len() < limit
        invariant
            m == crate::store::contents(*store),
            descending == is_descending(order),
            page@.len() <= limit,
            forall|i: int|
                0 <= i < page@.len() ==> {
                    &&& m.contains_key((#[trigger] page@[i]).0@)
                    &&& m[page@[i].0@] == page@[i].1@
                    &&& crate::store::in_range(page@[i].0@, start0, end0)
                },
            forall|i: int, j: int|
                0 <= i < j < page@.len() ==> comes_before(
                    descending,
                    (#[trigger] page@[i]).0@,
                    (#[trigger] page@[j]).0@,
                ),
            forall|key: Seq<u8>|
                #![trigger m.contains_key(key)]
                m.contains_key(key) && crate::store::in_range(key, start0, end0) ==> {
                    ||| exists|i: int| 0 <= i < page@.len() && (#[trigger] page@[i]).0@ == key
                    ||| !done && crate::store::in_range(
                        key,
                        Some(lo@),
                        key_view(hi),
                    )
                },
            forall|key: Seq<u8>, i: int|
                #![trigger m.contains_key(key), page@[i]]
                m.contains_key(key) && 0 <= i < page@.len() && crate::store::in_range(
                    key,
                    Some(lo@),
                    key_view(hi),
                ) ==> comes_before(descending, page@[i].0@, key),
            forall|key: Seq<u8>|
                #![trigger m.contains_key(key)]
                m.contains_key(key) && crate::store::in_range(
                    key,
                    Some(lo@),
                    key_view(hi),
                ) ==> crate::store::in_range(key, start0, end0),
        decreases (if done { 0int } else { 1int }) + limit - page@.len(),
    {
        let ghost lo0 = lo@;
        let ghost hi0: Option<Seq<u8>> = key_view(hi);
        let ghost before = page@;
        match store_first(store, Some(lo.as_slice()), as_bound(&hi), order) {
            None => {
                done = true;
            },
            Some((key, value)) => {
                if descending {
                    let mut h: Vec<u8> = Vec::new();
                    extend(&mut h, key.as_slice());
                    hi = Some(h);
                } else {
                    let mut l: Vec<u8> = Vec::new();
                    extend(&mut l, key.as_slice());
                    l.push(0);
                    lo = l;
                }
                let ghost k = key@;
                page.push((key, value));
                proof {
                    let hi1: Option<Seq<u8>> = key_view(hi);
                    assert(lo@ == if descending { lo0 } else { k.push(0) });
                    assert(hi1 == if descending { Some(k) } else { hi0 });
                    assert(m.contains_key(k));
                    assert forall|other: Seq<u8>|
                        #![trigger m.contains_key(other)]
                        m.contains_key(other) && crate::store::in_range(
                            other,
                            Some(lo0),
                            hi0,
                        ) implies other == k || (crate::store::in_range(other, Some(lo@), hi1)
                        && comes_before(descending, k, other)) by {
                        if other != k {
                            if descending {
                                assert(crate::lex::lex_le(other, k));
                            } else {
                                assert(crate::lex::lex_le(k, other));
                                crate::lex::lemma_lex_successor(k, other);
                            }
                        }
                    }
                    assert forall|other: Seq<u8>|
                        #![trigger m.contains_key(other)]
                        m.contains_key(other) && crate::store::in_range(
                            other,
                            Some(lo@),
                            hi1,
                        ) implies crate::store::in_range(other, Some(lo0), hi0) && comes_before(
                        descending,
                        k,
                        other,
                    ) by {
                        if descending {
                            if hi0 is Some {
                                crate::lex::lemma_lex_transitive(other, k, hi0->Some_0);
                            }
                        } else {
                            crate::lex::lemma_lex_successor(k, other);
                            crate::lex::lemma_lex_le_lt(lo0, k, other);
                        }
                    }
                    assert forall|i: int, j: int| 0 <= i < j < page@.len() implies comes_before(
                        descending,
                        (#[trigger] page@[i]).0@,
                        (#[trigger] page@[j]).0@,
                    ) by {
                        assert(page@[i] == before[i]);
                        if j < before.len() {
                            assert(page@[j] == before[j]);
                        }
                    }
                    assert forall|key: Seq<u8>|
                        #![trigger m.contains_key(key)]
                        m.contains_key(key) && crate::store::in_range(key, start0, end0) implies {
                        ||| exists|i: int| 0 <= i < page@.len() && (#[trigger] page@[i]).0@ == key
                        ||| !done && crate::store::in_range(key, Some(lo@), hi1)
                    } by {
                        if exists|i: int| 0 <= i < before.len() && (#[trigger] before[i]).0@ == key {
                            let i = choose|i: int|
                                0 <= i < before.len() && (#[trigger] before[i]).0@ == key;
                            assert(page@[i] == before[i]);
                        } else if key == k {
                            assert(page@[before.len() as int].0@ == key);
                        }
                    }
                    assert forall|key: Seq<u8>, i: int|
                        #![trigger m.contains_key(key), page@[i]]
                        m.contains_key(key) && 0 <= i < page@.len() && crate::store::in_range(
                            key,
                            Some(lo@),
                            hi1,
                        ) implies comes_before(descending, page@[i].0@, key) by {
                        if i < before.len() {
                            assert(page@[i] == before[i]);
                        }
                    }
                    assert forall|i: int| 0 <= i < page@.len() implies {
                        &&& m.contains_key((#[trigger] page@[i]).0@)
                        &&& m[page@[i].0@] == page@[i].1@
                        &&& crate::store::in_range(page@[i].0@, start0, end0)
                    } by {
                        if i < before.len() {
                            assert(page@[i] == before[i]);
                        }
                    }
                }
            },
        }
    }
    proof {
        let view = entries_view(page@);
        assert forall|key: Seq<u8>|
            #![trigger m.contains_key(key)]
            m.contains_key(key) && crate::store::in_range(key, start0, end0) implies {
            ||| exists|i: int| 0 <= i < view.len() && (#[trigger] view[i]).0 == key
            ||| view.len() == limit && forall|i: int|
                0 <= i < view.len() ==> comes_before(descending, (#[trigger] view[i]).0, key)
        } by {
            if exists|i: int| 0 <= i < page@.len() && (#[trigger] page@[i]).0@ == key {
                let i = choose|i: int| 0 <= i < page@.len() && (#[trigger] page@[i]).0@ == key;
                assert(view[i].0 == key);
            } else {
                assert forall|i: int| 0 <= i < view.len() implies comes_before(
                    descending,
                    (#[trigger] view[i]).0,
                    key,
                ) by {
                    assert(view[i].0 == page@[i].0@);
                }
            }
        }
        assert forall|i: int, j: int| 0 <= i < j < view.len() implies comes_before(
            descending,
            (#[trigger] view[i]).0,
            (#[trigger] view[j]).0,
        ) by {
            assert(view[i].0 == page@[i].0@);
            assert(view[j].0 == page@[j].0@);
        }
        assert forall|i: int| 0 <= i < view.len() implies {
            &&& m.contains_key((#[trigger] view[i]).0)
            &&& m[view[i].0] == view[i].1
            &&& crate::store::in_range(view[i].0, start0, end0)
        } by {
            assert(view[i].0 == page@[i].0@);
        }
    }
    page
}

/// The first key of the scan of `prefix` with the lower bound `min`.
fn start_key(prefix: &[u8], min: &Option<Bound>) -> (r: Vec<u8>)
    ensures
        r@ == spec_start(prefix@, bounds_view(*min)),
{
    let mut start: Vec<u8> = Vec::new();
    extend(&mut start, prefix);
    match min {
        None => {},
        Some(Bound::Inclusive(b)) => {
            extend(&mut start, b.as_slice());
        },
        Some(Bound::Exclusive(b)) => {
            extend(&mut start, b.as_slice());
            start.push(0);
            assert(start@ =~= prefix@ + b@.push(0));
        },
    }
    start
}

/// The key at which the scan of `prefix` with the upper bound `max` stops.
fn end_key(prefix: &[u8], max: &Option<Bound>) -> (r: Option<Vec<u8>>)
    ensures
        key_view(r) == spec_end(prefix@, bounds_view(*max)),
{
    match max {
        None => prefix_upper_bound(prefix),
        Some(Bound::Inclusive(b)) => {
            let mut end: Vec<u8> = Vec::new();
            extend(&mut end, prefix);
            extend(&mut end, b.as_slice());
            end.push(0);
            assert(end@ =~= prefix@ + b@.push(0));
            Some(end)
        },
        Some(Bound::Exclusive(b)) => {
            let mut end: Vec<u8> = Vec::new();
            extend(&mut end, prefix);
            extend(&mut end, b.as_slice());
            Some(end)
        },
    }
}

/// One page of the entries whose keys start with `prefix`, each key given without the
/// prefix: those within `min` and `max`, in the given order, `limit` at most.
pub fn range_with_prefix(
    store: &MemoryStorage,
    prefix: &[u8],
    min: Option<Bound>,
    max: Option<Bound>,
    order: Order,
    limit: usize,
) -> (page: Vec<Entry>)
    ensures
        is_page(
            crate::store::contents(*store),
            prefix@,
            bounds_view(min),
            bounds_view(max),
            is_descending(order),
            limit as nat,
            entries_view(page@),
        ),
{
    let ghost m = crate::store::contents(*store);
    let ghost descending = is_descending(order);
    let ghost vmin = bounds_view(min);
    let ghost vmax = bounds_view(max);
    let start = start_key(prefix, &min);
    let end = end_key(prefix, &max);
    let ghost start0 = Some(start@);
    let ghost end0 = key_view(end);
    let found = scan(store, start, end, order, limit);
    let ghost full = entries_view(found@);
    let n: usize = prefix.len();
    let mut page: Vec<Entry> = Vec::new();
    let mut i: usize = 0;
    while i < found.len()
        invariant
            i <= found.len(),
            n == prefix@.len(),
            page@.len() == i,
            full == entries_view(found@),
            start0 == Some(spec_start(prefix@, vmin)),
            end0 == spec_end(prefix@, vmax),
            is_scan(m, start0, end0, descending, limit as nat, full),
            forall|j: int|
                0 <= j < i ==> {
                    &&& prefix@ + (#[trigger] page@[j]).0@ == full[j].0
                    &&& page@[j].1@ == full[j].1
                },
        decreases found.len() - i,
    {
        let key: &Vec<u8> = &found[i].0;
        let value: &Vec<u8> = &found[i].1;
        proof {
            assert(full[i as int].0 == key@);
            assert(full[i as int].1 == value@);
            lemma_bounds_of_prefix(prefix@, vmin, vmax, key@);
            assert(prefix@ + key@.skip(n as int) =~= key@);
        }
        let suffix = vstd::slice::slice_to_vec(
            vstd::slice::slice_subrange(key.as_slice(), n, key.len()),
        );
        let mut copy: Vec<u8> = Vec::new();
        extend(&mut copy, value.as_slice());
        assert(suffix@ =~= key@.skip(n as int));
        let ghost before = page@;
        page.push((suffix, copy));
        proof {
            assert forall|j: int| 0 <= j < i + 1 implies {
                &&& prefix@ + (#[trigger] page@[j]).0@ == full[j].0
                &&& page@[j].1@ == full[j].1
            } by {
                if j < i {
                    assert(page@[j] == before[j]);
                }
            }
        }
        i += 1;
    }
    proof {
        let view = entries_view(page@);
        assert(view.len() == full.len());
        assert forall|j: int| 0 <= j < view.len() implies prefix@ + (#[trigger] view[j]).0
            == full[j].0 && view[j].1 == full[j].1 by {
            assert(view[j].0 == page@[j].0@);
        }
        assert forall|j: int| 0 <= j < view.len() implies {
            &&& qualifies(m, prefix@, vmin, vmax, (#[trigger] view[j]).0)
            &&& m[prefix@ + view[j].0] == view[j].1
        } by {
            let key = full[j].0;
            lemma_bounds_of_prefix(prefix@, vmin, vmax, key);
            assert(key.skip(n as int) =~= view[j].0);
        }
        assert forall|a: int, b: int| 0 <= a < b < view.len() implies comes_before(
            descending,
            (#[trigger] view[a]).0,
            (#[trigger] view[b]).0,
        ) by {
            assert(comes_before(descending, full[a].0, full[b].0));
            crate::lex::lemma_lex_prefix_cancel(prefix@, view[a].0, view[b].0);
            crate::lex::lemma_lex_prefix_cancel(prefix@, view[b].0, view[a].0);
        }
        assert forall|suffix: Seq<u8>|
            #![trigger m.contains_key(prefix@ + suffix)]
            qualifies(m, prefix@, vmin, vmax, suffix) implies {
            ||| exists|j: int| 0 <= j < view.len() && (#[trigger] view[j]).0 == suffix
            ||| view.len() == limit && forall|j: int|
                0 <= j < view.len() ==> comes_before(descending, (#[trigger] view[j]).0, suffix)
        } by {
            let key = prefix@ + suffix;
            lemma_bounds_of_prefix(prefix@, vmin, vmax, key);
            assert(key.subrange(0, n as int) =~= prefix@);
            assert(key.skip(n as int) =~= suffix);
            assert(m.contains_key(key));
            if exists|j: int| 0 <= j < full.len() && (#[trigger] full[j]).0 == key {
                let j = choose|j: int| 0 <= j < full.len() && (#[trigger] full[j]).0 == key;
                assert(prefix@ + view[j].0 == key);
                assert(view[j].0 =~= key.skip(n as int));
            } else {
                assert forall|j: int| 0 <= j < view.len() implies comes_before(
                    descending,
                    (#[trigger] view[j]).0,
                    suffix,
                ) by {
                    assert(comes_before(descending, full[j].0, key));
                    crate::lex::lemma_lex_prefix_cancel(prefix@, view[j].0, suffix);
                    crate::lex::lemma_lex_prefix_cancel(prefix@, suffix, view[j].0);
                }
            }
        }
    }
    page
}

} // verus!
