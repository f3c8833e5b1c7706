//! Lexicographic order on byte strings: the order in which the store keeps its keys.

use vstd::prelude::*;

verus! {

/// `a` comes strictly before `b`: at the first position where they differ `a` holds
/// the smaller byte, or `a` is a proper prefix of `b`.
pub open spec fn lex_lt(a: Seq<u8>, b: Seq<u8>) -> bool
    decreases a.len(),
{
    if b.len() == 0 {
        false
    } else if a.len() == 0 {
        true
    } else if a[0] != b[0] {
        a[0] < b[0]
    } else {
        lex_lt(a.drop_first(), b.drop_first())
    }
}

/// `a` comes before `b` or is `b`.
pub open spec fn lex_le(a: Seq<u8>, b: Seq<u8>) -> bool {
    a == b || lex_lt(a, b)
}

/// `k` starts with `p`.
pub open spec fn has_prefix(k: Seq<u8>, p: Seq<u8>) -> bool {
    p.len() <= k.len() && k.subrange(0, p.len() as int) == p
}

/// The least byte string that is greater than every string starting with `p`,
/// or `None` when there is none (`p` is empty or holds only `0xFF`).
pub open spec fn prefix_upper(p: Seq<u8>) -> Option<Seq<u8>>
    decreases p.len(),
{
    if p.len() == 0 {
        None
    } else {
        match prefix_upper(p.drop_first()) {
            Some(u) => Some(seq![p[0]] + u),
            None => if p[0] < 255 {
                Some(seq![(p[0] + 1) as u8])
            } else {
                None
            },
        }
    }
}

/// Every byte of `p` is `0xFF`.
pub open spec fn all_ff(p: Seq<u8>) -> bool {
    forall|i: int| 0 <= i < p.len() ==> p[i] == 255
}

/// Nothing comes before itself.
pub proof fn lemma_lex_irreflexive(a: Seq<u8>)
    ensures
        !lex_lt(a, a),
    decreases a.len(),
{
    if a.len() > 0 {
        lemma_lex_irreflexive(a.drop_first());
    }
}

/// Of two strings at most one comes before the other.
pub proof fn lemma_lex_asymmetric(a: Seq<u8>, b: Seq<u8>)
    ensures
        !(lex_lt(a, b) && lex_lt(b, a)),
    decreases a.len(),
{
    if a.len() > 0 && b.len() > 0 && a[0] == b[0] {
        lemma_lex_asymmetric(a.drop_first(), b.drop_first());
    }
}

/// What comes before a string comes before all that the string comes before.
pub proof fn lemma_lex_transitive(a: Seq<u8>, b: Seq<u8>, c: Seq<u8>)
    requires
        lex_lt(a, b),
        lex_lt(b, c),
    ensures
        lex_lt(a, c),
    decreases a.len(),
{
    if a.len() > 0 && b.len() > 0 && c.len() > 0 && a[0] == b[0] && b[0] == c[0] {
        lemma_lex_transitive(a.drop_first(), b.drop_first(), c.drop_first());
    }
}

/// Of two different strings one comes before the other.
pub proof fn lemma_lex_total(a: Seq<u8>, b: Seq<u8>)
    ensures
        lex_lt(a, b) || a == b || lex_lt(b, a),
    decreases a.len(),
{
    if a.len() > 0 && b.len() > 0 && a[0] == b[0] {
        lemma_lex_total(a.drop_first(), b.drop_first());
        if a.drop_first() == b.drop_first() {
            assert(a =~= seq![a[0]] + a.drop_first());
            assert(b =~= seq![b[0]] + b.drop_first());
        }
    } else if a.len() == 0 && b.len() == 0 {
        assert(a =~= b);
    }
}

/// `lex_le` and `lex_lt` chain as in any total order.
pub proof fn lemma_lex_le_lt(a: Seq<u8>, b: Seq<u8>, c: Seq<u8>)
    requires
        lex_le(a, b),
        lex_lt(b, c),
    ensures
        lex_lt(a, c),
{
    if a != b {
        lemma_lex_transitive(a, b, c);
    }
}

/// `lex_lt` and `lex_le` chain as in any total order.
pub proof fn lemma_lex_lt_le(a: Seq<u8>, b: Seq<u8>, c: Seq<u8>)
    requires
        lex_lt(a, b),
        lex_le(b, c),
    ensures
        lex_lt(a, c),
{
    if b != c {
        lemma_lex_transitive(a, b, c);
    }
}

/// A common prefix does not change the order of two strings.
pub proof fn lemma_lex_prefix_cancel(p: Seq<u8>, a: Seq<u8>, b: Seq<u8>)
    ensures
        lex_lt(p + a, p + b) == lex_lt(a, b),
    decreases p.len(),
{
    if p.len() == 0 {
        assert(p + a =~= a);
        assert(p + b =~= b);
    } else {
        let q = p.drop_first();
        assert((p + a).drop_first() =~= q + a);
        assert((p + b).drop_first() =~= q + b);
        lemma_lex_prefix_cancel(q, a, b);
    }
}

/// `c` followed by a zero byte is the immediate successor of `c`.
pub proof fn lemma_lex_successor(c: Seq<u8>, k: Seq<u8>)
    ensures
        lex_lt(c, k) == lex_le(c.push(0), k),
    decreases c.len(),
{
    let s = c.push(0);
    if k.len() == 0 {
    } else if c.len() == 0 {
        assert(s.drop_first() =~= Seq::<u8>::empty());
        if k[0] == 0 {
            assert(lex_lt(s, k) == lex_lt(s.drop_first(), k.drop_first()));
            if k.drop_first().len() == 0 {
                assert(k =~= s);
            }
        }
    } else if c[0] == k[0] {
        assert(s.drop_first() =~= c.drop_first().push(0));
        lemma_lex_successor(c.drop_first(), k.drop_first());
        if s.drop_first() == k.drop_first() {
            assert(s =~= seq![s[0]] + s.drop_first());
            assert(k =~= seq![k[0]] + k.drop_first());
        }
    } else {
        assert(s[0] == c[0]);
    }
}

proof fn lemma_has_prefix_step(p: Seq<u8>, k: Seq<u8>)
    requires
        p.len() > 0,
        k.len() > 0,
    ensures
        has_prefix(k, p) == (p[0] == k[0] && has_prefix(k.drop_first(), p.drop_first())),
{
    let pt = p.drop_first();
    let kt = k.drop_first();
    if has_prefix(k, p) {
        assert(k.subrange(0, p.len() as int)[0] == p[0]);
        assert forall|i: int| 0 <= i < pt.len() implies kt.subrange(0, pt.len() as int)[i]
            == pt[i] by {
            assert(k.subrange(0, p.len() as int)[i + 1] == p[i + 1]);
        }
        assert(kt.subrange(0, pt.len() as int) =~= pt);
    }
    if p[0] == k[0] && has_prefix(kt, pt) {
        assert forall|i: int| 0 <= i < p.len() implies k.subrange(0, p.len() as int)[i]
            == p[i] by {
            if i > 0 {
                assert(kt.subrange(0, pt.len() as int)[i - 1] == pt[i - 1]);
            }
        }
        assert(k.subrange(0, p.len() as int) =~= p);
    }
}

/// The strings that start with `p` are those from `p` up to, and without, `prefix_upper(p)`.
pub proof fn lemma_prefix_range(p: Seq<u8>, k: Seq<u8>)
    ensures
        has_prefix(k, p) == (lex_le(p, k) && match prefix_upper(p) {
            Some(u) => lex_lt(k, u),
            None => true,
        }),
    decreases p.len(),
{
    if p.len() == 0 {
        assert(k.subrange(0, 0) =~= p);
        if k.len() == 0 {
            assert(k =~= p);
        }
    } else if k.len() == 0 {
    } else {
        let pt = p.drop_first();
        let kt = k.drop_first();
        lemma_prefix_range(pt, kt);
        lemma_has_prefix_step(p, k);
        if pt == kt && p[0] == k[0] {
            assert(p =~= seq![p[0]] + pt);
            assert(k =~= seq![k[0]] + kt);
        }
        match prefix_upper(pt) {
            Some(ut) => {
                let u = seq![p[0]] + ut;
                assert(u.drop_first() =~= ut);
                assert(u[0] == p[0]);
            },
            None => {
                if p[0] < 255 {
                    let u = seq![(p[0] + 1) as u8];
                    assert(u.drop_first() =~= Seq::<u8>::empty());
                    assert(u[0] == p[0] + 1);
                    if k[0] == u[0] {
                        assert(lex_lt(k, u) == lex_lt(kt, u.drop_first()));
                    }
                }
            },
        }
    }
}

/// `prefix_upper` in closed form: drop the trailing `0xFF` bytes and add one to the last
/// byte that is left.
pub proof fn lemma_prefix_upper_at(p: Seq<u8>, i: int)
    requires
        0 <= i < p.len(),
        p[i] < 255,
        forall|j: int| i < j < p.len() ==> p[j] == 255,
    ensures
        prefix_upper(p) == Some(p.subrange(0, i).push((p[i] + 1) as u8)),
    decreases p.len(),
{
    let pt = p.drop_first();
    if i == 0 {
        lemma_prefix_upper_none(pt);
        assert(p.subrange(0, 0).push((p[0] + 1) as u8) =~= seq![(p[0] + 1) as u8]);
    } else {
        lemma_prefix_upper_at(pt, i - 1);
        assert(seq![p[0]] + pt.subrange(0, i - 1).push((pt[i - 1] + 1) as u8) =~= p.subrange(
            0,
            i,
        ).push((p[i] + 1) as u8));
    }
}

/// Strings of `0xFF` bytes have no upper bound of their prefix range.
pub proof fn lemma_prefix_upper_none(p: Seq<u8>)
    requires
        all_ff(p),
    ensures
        prefix_upper(p) is None,
    decreases p.len(),
{
    if p.len() > 0 {
        lemma_prefix_upper_none(p.drop_first());
    }
}

} // verus!
