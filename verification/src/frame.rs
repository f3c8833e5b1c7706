//! Lengths as eight big-endian bytes, and byte strings kept behind their length.

use crate::keys::extend;
use vstd::prelude::*;

verus! {

/// The big-endian form of `n` in `width` bytes.
pub open spec fn spec_big_endian(n: nat, width: nat) -> Seq<u8>
    decreases width,
{
    if width == 0 {
        Seq::<u8>::empty()
    } else {
        spec_big_endian(n / 256, (width - 1) as nat).push((n % 256) as u8)
    }
}

/// The number that big-endian bytes stand for.
pub open spec fn spec_big_endian_value(bytes: Seq<u8>) -> nat
    decreases bytes.len(),
{
    if bytes.len() == 0 {
        0
    } else {
        spec_big_endian_value(bytes.drop_last()) * 256 + bytes.last() as nat
    }
}

/// `n` can be written in `width` bytes.
pub open spec fn fits(n: nat, width: nat) -> bool
    decreases width,
{
    if width == 0 {
        n == 0
    } else {
        fits(n / 256, (width - 1) as nat)
    }
}

/// The eight-byte big-endian form of `n`.
pub open spec fn spec_encode_len(n: nat) -> Seq<u8> {
    spec_big_endian(n, 8)
}

/// The number that eight big-endian bytes stand for; `None` for any other count of bytes.
pub open spec fn spec_decode_len(bytes: Seq<u8>) -> Option<nat> {
    if bytes.len() != 8 {
        None
    } else {
        Some(spec_big_endian_value(bytes))
    }
}

/// `bytes` behind its own length.
pub open spec fn spec_frame(bytes: Seq<u8>) -> Seq<u8> {
    spec_encode_len(bytes.len()) + bytes
}

/// What stands behind the length at the front of `framed`, where the length is that of
/// all that follows it.
pub open spec fn spec_unframe(framed: Seq<u8>) -> Option<Seq<u8>> {
    if framed.len() < 8 {
        None
    } else if spec_decode_len(framed.subrange(0, 8)) != Some((framed.len() - 8) as nat) {
        None
    } else {
        Some(framed.skip(8))
    }
}

proof fn lemma_big_endian_len(n: nat, width: nat)
    ensures
        spec_big_endian(n, width).len() == width,
    decreases width,
{
    if width > 0 {
        lemma_big_endian_len(n / 256, (width - 1) as nat);
    }
}

proof fn lemma_big_endian_value(n: nat, width: nat)
    requires
        fits(n, width),
    ensures
        spec_big_endian_value(spec_big_endian(n, width)) == n,
    decreases width,
{
    if width > 0 {
        let rest = spec_big_endian(n / 256, (width - 1) as nat);
        lemma_big_endian_value(n / 256, (width - 1) as nat);
        assert(rest.push((n % 256) as u8).drop_last() =~= rest);
    }
}

proof fn lemma_big_endian_of_value(bytes: Seq<u8>)
    ensures
        fits(spec_big_endian_value(bytes), bytes.len()),
        spec_big_endian(spec_big_endian_value(bytes), bytes.len()) == bytes,
    decreases bytes.len(),
{
    if bytes.len() > 0 {
        lemma_big_endian_of_value(bytes.drop_last());
        let v = spec_big_endian_value(bytes.drop_last());
        let n = spec_big_endian_value(bytes);
        assert(n / 256 == v);
        assert(n % 256 == bytes.last());
        assert(bytes.drop_last().push(bytes.last()) =~= bytes);
    }
}

proof fn lemma_fits_u64(n: nat)
    ensures
        fits(n, 8) == (n <= u64::MAX),
{
    reveal_with_fuel(fits, 9);
    let a = n / 256;
    let b = a / 256;
    let c = b / 256;
    let d = c / 256;
    let e = d / 256;
    let f = e / 256;
    let g = f / 256;
    let h = g / 256;
    assert(fits(n, 8) == (h == 0));
}

/// An encoded length is eight bytes long.
pub proof fn lemma_encode_len_len(n: nat)
    ensures
        spec_encode_len(n).len() == 8,
{
    lemma_big_endian_len(n, 8);
}

/// Decoding an encoded length gives it back.
pub proof fn lemma_decode_encode_len(n: nat)
    requires
        n <= u64::MAX,
    ensures
        spec_encode_len(n).len() == 8,
        spec_decode_len(spec_encode_len(n)) == Some(n),
{
    lemma_big_endian_len(n, 8);
    lemma_fits_u64(n);
    lemma_big_endian_value(n, 8);
}

/// Eight bytes are the encoding of the number they stand for.
pub proof fn lemma_encode_decode_len(bytes: Seq<u8>)
    requires
        bytes.len() == 8,
    ensures
        spec_decode_len(bytes)->Some_0 <= u64::MAX,
        spec_encode_len(spec_decode_len(bytes)->Some_0) == bytes,
{
    lemma_big_endian_of_value(bytes);
    lemma_fits_u64(spec_big_endian_value(bytes));
}

/// Taking a framed string apart gives it back, and only framed strings come apart.
pub proof fn lemma_unframe_frame(bytes: Seq<u8>)
    requires
        bytes.len() <= u64::MAX,
    ensures
        spec_frame(bytes).len() == bytes.len() + 8,
        spec_unframe(spec_frame(bytes)) == Some(bytes),
{
    lemma_decode_encode_len(bytes.len());
    let framed = spec_frame(bytes);
    assert(framed.subrange(0, 8) =~= spec_encode_len(bytes.len()));
    assert(framed.skip(8) =~= bytes);
}

/// What comes apart was the frame of what came out.
pub proof fn lemma_frame_unframe(framed: Seq<u8>)
    requires
        spec_unframe(framed) is Some,
    ensures
        spec_frame(spec_unframe(framed)->Some_0) == framed,
{
    lemma_encode_decode_len(framed.subrange(0, 8));
    assert(spec_frame(framed.skip(8)) =~= framed);
}

/// The eight-byte big-endian form of `n`.
pub fn encode_len(n: usize) -> (r: Vec<u8>)
    ensures
        r@ == spec_encode_len(n as nat),
{
    let m0: u64 = n as u64;
    let m1: u64 = m0 / 256;
    let m2: u64 = m1 / 256;
    let m3: u64 = m2 / 256;
    let m4: u64 = m3 / 256;
    let m5: u64 = m4 / 256;
    let m6: u64 = m5 / 256;
    let m7: u64 = m6 / 256;
    let mut r: Vec<u8> = Vec::new();
    r.push((m7 % 256) as u8);
    r.push((m6 % 256) as u8);
    r.push((m5 % 256) as u8);
    r.push((m4 % 256) as u8);
    r.push((m3 % 256) as u8);
    r.push((m2 % 256) as u8);
    r.push((m1 % 256) as u8);
    r.push((m0 % 256) as u8);
    proof {
        reveal_with_fuel(spec_big_endian, 9);
        assert(r@ =~= spec_big_endian(n as nat, 8));
    }
    r
}

/// The number that eight big-endian bytes stand for; `None` for any other count of bytes.
pub fn decode_len(bytes: &[u8]) -> (r: Option<u64>)
    ensures
        match r {
            Some(n) => spec_decode_len(bytes@) == Some(n as nat),
            None => spec_decode_len(bytes@) is None,
        },
{
    if bytes.len() != 8 {
        return None;
    }
    let mut n: u64 = 0;
    let mut i: usize = 0;
    while i < 8
        invariant
            bytes@.len() == 8,
            i <= 8,
            n == spec_big_endian_value(bytes@.subrange(0, i as int)),
            fits(n as nat, i as nat),
        decreases 8 - i,
    {
        proof {
            lemma_fits_u64(n as nat * 256 + bytes@[i as int] as nat);
            lemma_fits_next(n as nat, bytes@[i as int], i as nat);
            assert(bytes@.subrange(0, i + 1).drop_last() =~= bytes@.subrange(0, i as int));
        }
        n = n * 256 + bytes[i] as u64;
        i += 1;
    }
    assert(bytes@.subrange(0, 8) =~= bytes@);
    Some(n)
}

proof fn lemma_fits_next(n: nat, byte: u8, width: nat)
    requires
        fits(n, width),
    ensures
        fits(n * 256 + byte as nat, width + 1),
        width < 8 ==> fits(n * 256 + byte as nat, 8),
    decreases 8 - width,
{
    let v = n * 256 + byte as nat;
    assert(v / 256 == n);
    if width < 8 {
        lemma_fits_more(v, width + 1);
    }
}

proof fn lemma_fits_more(n: nat, width: nat)
    requires
        fits(n, width),
        width <= 8,
    ensures
        fits(n, 8),
    decreases 8 - width,
{
    if width < 8 {
        lemma_fits_wider(n, width);
        lemma_fits_more(n, width + 1);
    }
}

proof fn lemma_fits_wider(n: nat, width: nat)
    requires
        fits(n, width),
    ensures
        fits(n, width + 1),
    decreases width,
{
    if width > 0 {
        lemma_fits_wider(n / 256, (width - 1) as nat);
    } else {
        reveal_with_fuel(fits, 2);
    }
}

/// `bytes` behind its own length.
pub fn frame(bytes: &[u8]) -> (r: Vec<u8>)
    ensures
        r@ == spec_frame(bytes@),
        r@.len() > 0,
{
    let mut r = encode_len(bytes.len());
    extend(&mut r, bytes);
    r
}

/// Takes a framed string apart; `None` when `framed` is no framed string.
pub fn unframe(framed: &[u8]) -> (r: Option<Vec<u8>>)
    ensures
        crate::range::key_view(r) == spec_unframe(framed@),
{
    if framed.len() < 8 {
        return None;
    }
    match decode_len(vstd::slice::slice_subrange(framed, 0, 8)) {
        Some(n) => {
            if n != (framed.len() - 8) as u64 {
                None
            } else {
                let r = vstd::slice::slice_to_vec(
                    vstd::slice::slice_subrange(framed, 8, framed.len()),
                );
                assert(r@ =~= framed@.skip(8));
                Some(r)
            }
        },
        None => None,
    }
}

} // verus!
