//! Composite keys: namespace segments, each behind its two-byte big-endian length,
//! followed by the raw key.

use vstd::prelude::*;

verus! {

/// The longest namespace segment that the two-byte length prefix can describe.
pub const MAX_SEGMENT_LEN: usize = 0xFFFF;

/// The two-byte big-endian form of a segment length.
pub open spec fn spec_encode_length(len: nat) -> Seq<u8> {
    seq![(len / 256) as u8, (len % 256) as u8]
}

/// A segment behind its length prefix.
pub open spec fn spec_encode_segment(segment: Seq<u8>) -> Seq<u8> {
    spec_encode_length(segment.len()) + segment
}

/// All segments, each behind its length prefix, in order.
pub open spec fn spec_encode_segments(segments: Seq<Seq<u8>>) -> Seq<u8>
    decreases segments.len(),
{
    if segments.len() == 0 {
        Seq::<u8>::empty()
    } else {
        spec_encode_segment(segments[0]) + spec_encode_segments(segments.drop_first())
    }
}

/// The encoded segments followed by the key, which carries no length prefix.
pub open spec fn spec_namespaces_with_key(namespaces: Seq<Seq<u8>>, key: Seq<u8>) -> Seq<u8> {
    spec_encode_segments(namespaces) + key
}

/// Every segment fits the length prefix.
pub open spec fn segments_fit(segments: Seq<Seq<u8>>) -> bool {
    forall|i: int| 0 <= i < segments.len() ==> (#[trigger] segments[i]).len() <= MAX_SEGMENT_LEN
}

/// Reads `count` length-prefixed segments off the front of `bytes`; what is left is the key.
/// `None` when `bytes` ends inside a prefix or inside a segment.
pub open spec fn spec_decode(bytes: Seq<u8>, count: nat) -> Option<(Seq<Seq<u8>>, Seq<u8>)>
    decreases count,
{
    if count == 0 {
        Some((Seq::<Seq<u8>>::empty(), bytes))
    } else if bytes.len() < 2 {
        None
    } else {
        let len = bytes[0] as int * 256 + bytes[1] as int;
        if bytes.len() < 2 + len {
            None
        } else {
            match spec_decode(bytes.skip(2 + len), (count - 1) as nat) {
                Some((rest, key)) => Some((seq![bytes.subrange(2, 2 + len)] + rest, key)),
                None => None,
            }
        }
    }
}

/// The views of a list of byte slices.
pub open spec fn slices_view(slices: Seq<&[u8]>) -> Seq<Seq<u8>> {
    Seq::new(slices.len(), |i: int| slices[i]@)
}

/// The views of a list of byte vectors.
pub open spec fn vecs_view(vecs: Seq<Vec<u8>>) -> Seq<Seq<u8>> {
    Seq::new(vecs.len(), |i: int| vecs[i]@)
}

/// Appends `bytes` to `out`.
pub fn extend(out: &mut Vec<u8>, bytes: &[u8])
    ensures
        final(out)@ == old(out)@ + bytes@,
{
    let ghost before = out@;
    let mut i: usize = 0;
    while i < bytes.len()
        invariant
            i <= bytes.len(),
            out@ == before + bytes@.subrange(0, i as int),
        decreases bytes.len() - i,
    {
        out.push(bytes[i]);
        i += 1;
        assert(out@ =~= before + bytes@.subrange(0, i as int));
    }
    assert(bytes@.subrange(0, i as int) =~= bytes@);
}

/// Whether two byte strings are equal.
pub fn bytes_equal(a: &[u8], b: &[u8]) -> (r: bool)
    ensures
        r == (a@ == b@),
{
    if a.len() != b.len() {
        return false;
    }
    let mut i: usize = 0;
    while i < a.len()
        invariant
            a@.len() == b@.len(),
            i <= a@.len(),
            a@.subrange(0, i as int) == b@.subrange(0, i as int),
        decreases a.len() - i,
    {
        if a[i] != b[i] {
            return false;
        }
        assert(a@.subrange(0, i + 1) =~= a@.subrange(0, i as int).push(a@[i as int]));
        assert(b@.subrange(0, i + 1) =~= b@.subrange(0, i as int).push(b@[i as int]));
        i += 1;
    }
    assert(a@ =~= a@.subrange(0, i as int));
    assert(b@ =~= b@.subrange(0, i as int));
    true
}

/// The two-byte big-endian length of a namespace segment.
pub fn encode_length(namespace: &[u8]) -> (r: [u8; 2])
    requires
        namespace@.len() <= MAX_SEGMENT_LEN,
    ensures
        r@ == spec_encode_length(namespace@.len()),
{
    let len: usize = namespace.len();
    let r = [(len / 256) as u8, (len % 256) as u8];
    assert(r@ =~= spec_encode_length(namespace@.len()));
    r
}

/// Appends `segment` behind its length to `out`.
pub fn push_segment(out: &mut Vec<u8>, segment: &[u8])
    requires
        segment@.len() <= MAX_SEGMENT_LEN,
    ensures
        final(out)@ == old(out)@ + spec_encode_segment(segment@),
{
    let ghost before = out@;
    let len = encode_length(segment);
    extend(out, len.as_slice());
    extend(out, segment);
    assert(out@ =~= before + spec_encode_segment(segment@));
}

/// The key under the namespaces: every namespace behind its length, then `key` as it is.
pub fn namespaces_with_key(namespaces: &[&[u8]], key: &[u8]) -> (out: Vec<u8>)
    requires
        segments_fit(slices_view(namespaces@)),
    ensures
        out@ == spec_namespaces_with_key(slices_view(namespaces@), key@),
{
    let ghost segments = slices_view(namespaces@);
    let mut out: Vec<u8> = Vec::new();
    let mut i: usize = 0;
    proof {
        assert(segments.subrange(0, 0) =~= Seq::<Seq<u8>>::empty());
    }
    while i < namespaces.len()
        invariant
            i <= namespaces.len(),
            segments == slices_view(namespaces@),
            segments_fit(segments),
            out@ == spec_encode_segments(segments.subrange(0, i as int)),
        decreases namespaces.len() - i,
    {
        let namespace: &[u8] = namespaces[i];
        assert(namespace@ == segments[i as int]);
        push_segment(&mut out, namespace);
        proof {
            lemma_encode_segments_push(segments.subrange(0, i as int), segments[i as int]);
            assert(segments.subrange(0, i as int).push(segments[i as int]) =~= segments.subrange(
                0,
                i + 1,
            ));
        }
        i += 1;
    }
    assert(segments.subrange(0, i as int) =~= segments);
    extend(&mut out, key);
    out
}

/// Splits `bytes` into `count` namespace segments and the key that follows them.
pub fn decode(bytes: &[u8], count: usize) -> (r: Option<(Vec<Vec<u8>>, Vec<u8>)>)
    ensures
        match r {
            Some((segments, key)) => spec_decode(bytes@, count as nat) == Some(
                (vecs_view(segments@), key@),
            ),
            None => spec_decode(bytes@, count as nat) is None,
        },
{
    let mut segments: Vec<Vec<u8>> = Vec::new();
    let mut at: usize = 0;
    let mut i: usize = 0;
    proof {
        assert(bytes@.skip(0) =~= bytes@);
        assert(vecs_view(segments@) + Seq::<Seq<u8>>::empty() =~= vecs_view(segments@));
    }
    while i < count
        invariant
            i <= count,
            at <= bytes@.len(),
            segments@.len() == i,
            spec_decode(bytes@, count as nat) == match spec_decode(
                bytes@.skip(at as int),
                (count - i) as nat,
            ) {
                Some((rest, key)) => Some((vecs_view(segments@) + rest, key)),
                None => None,
            },
        decreases count - i,
    {
        let ghost tail = bytes@.skip(at as int);
        if bytes.len() - at < 2 {
            return None;
        }
        let len: usize = bytes[at] as usize * 256 + bytes[at + 1] as usize;
        if bytes.len() - at - 2 < len {
            return None;
        }
        let segment = vstd::slice::slice_to_vec(vstd::slice::slice_subrange(bytes, at + 2, at + 2 + len));
        proof {
            assert(tail[0] == bytes@[at as int]);
            assert(tail[1] == bytes@[at + 1]);
            assert(tail.subrange(2, 2 + len) =~= segment@);
            assert(tail.skip(2 + len) =~= bytes@.skip(at + 2 + len));
            let ghost before = vecs_view(segments@);
            match spec_decode(bytes@.skip(at + 2 + len), (count - i - 1) as nat) {
                Some((rest, key)) => {
                    assert(before + (seq![segment@] + rest) =~= before.push(segment@) + rest);
                },
                None => {},
            }
            assert(vecs_view(segments@.push(segment)) =~= before.push(segment@));
        }
        segments.push(segment);
        at = at + 2 + len;
        i += 1;
    }
    let key = vstd::slice::slice_to_vec(vstd::slice::slice_subrange(bytes, at, bytes.len()));
    proof {
        assert(bytes@.skip(at as int) =~= key@);
        assert(vecs_view(segments@) + Seq::<Seq<u8>>::empty() =~= vecs_view(segments@));
    }
    Some((segments, key))
}

/// Encoding the segments one after another is encoding all but the last, then the last.
pub proof fn lemma_encode_segments_push(segments: Seq<Seq<u8>>, segment: Seq<u8>)
    ensures
        spec_encode_segments(segments.push(segment)) == spec_encode_segments(segments)
            + spec_encode_segment(segment),
    decreases segments.len(),
{
    let all = segments.push(segment);
    if segments.len() == 0 {
        reveal_with_fuel(spec_encode_segments, 2);
        assert(all.drop_first() =~= Seq::<Seq<u8>>::empty());
        assert(spec_encode_segments(all) =~= spec_encode_segment(segment));
        assert(spec_encode_segments(segments) + spec_encode_segment(segment)
            =~= spec_encode_segment(segment));
    } else {
        assert(all.drop_first() =~= segments.drop_first().push(segment));
        lemma_encode_segments_push(segments.drop_first(), segment);
        assert(spec_encode_segments(all) =~= spec_encode_segments(segments) + spec_encode_segment(
            segment,
        ));
    }
}

/// The length prefix gives the length back.
pub proof fn lemma_encode_length_value(len: nat)
    requires
        len <= MAX_SEGMENT_LEN,
    ensures
        spec_encode_length(len).len() == 2,
        spec_encode_length(len)[0] as int * 256 + spec_encode_length(len)[1] as int == len,
{
}

/// Decoding an encoded key gives back the segments and the key it was made from.
pub proof fn lemma_decode_encode(namespaces: Seq<Seq<u8>>, key: Seq<u8>)
    requires
        segments_fit(namespaces),
    ensures
        spec_decode(spec_namespaces_with_key(namespaces, key), namespaces.len()) == Some(
            (namespaces, key),
        ),
    decreases namespaces.len(),
{
    let bytes = spec_namespaces_with_key(namespaces, key);
    if namespaces.len() == 0 {
        assert(bytes =~= key);
    } else {
        let first = namespaces[0];
        let rest = namespaces.drop_first();
        assert(segments_fit(rest)) by {
            assert forall|i: int| 0 <= i < rest.len() implies (#[trigger] rest[i]).len()
                <= MAX_SEGMENT_LEN by {
                assert(rest[i] == namespaces[i + 1]);
            }
        }
        lemma_decode_encode(rest, key);
        lemma_encode_length_value(first.len());
        let len = first.len() as int;
        assert(bytes[0] == spec_encode_length(first.len())[0]);
        assert(bytes[1] == spec_encode_length(first.len())[1]);
        assert(bytes.subrange(2, 2 + len) =~= first);
        assert(bytes.skip(2 + len) =~= spec_namespaces_with_key(rest, key));
        assert(seq![first] + rest =~= namespaces);
    }
}

/// Whatever decodes was the encoding of what came out.
pub proof fn lemma_encode_decode(bytes: Seq<u8>, count: nat)
    requires
        spec_decode(bytes, count) is Some,
    ensures
        ({
            let (segments, key) = spec_decode(bytes, count)->Some_0;
            &&& segments.len() == count
            &&& segments_fit(segments)
            &&& spec_namespaces_with_key(segments, key) == bytes
        }),
    decreases count,
{
    if count == 0 {
        assert(spec_namespaces_with_key(Seq::<Seq<u8>>::empty(), bytes) =~= bytes);
    } else {
        let len = bytes[0] as int * 256 + bytes[1] as int;
        let tail = bytes.skip(2 + len);
        lemma_encode_decode(tail, (count - 1) as nat);
        let (rest, key) = spec_decode(tail, (count - 1) as nat)->Some_0;
        let first = bytes.subrange(2, 2 + len);
        let segments = seq![first] + rest;
        assert(segments.drop_first() =~= rest);
        assert(spec_encode_length(first.len()) =~= bytes.subrange(0, 2));
        assert(spec_encode_segments(rest) + key == tail);
        assert(spec_encode_segments(segments) == spec_encode_segment(first) + spec_encode_segments(
            rest,
        ));
        assert(spec_encode_segment(first) + spec_encode_segments(rest) + key =~= bytes.subrange(0, 2)
            + first + tail);
        assert(bytes.subrange(0, 2) + first + tail =~= bytes);
        assert forall|i: int| 0 <= i < segments.len() implies (#[trigger] segments[i]).len()
            <= MAX_SEGMENT_LEN by {
            if i > 0 {
                assert(segments[i] == rest[i - 1]);
            }
        }
    }
}

/// Two encoded segments, each followed by anything, are equal only if the segments are:
/// no key of one namespace is a key of another.
pub proof fn lemma_segment_prefix_free(a: Seq<u8>, x: Seq<u8>, b: Seq<u8>, y: Seq<u8>)
    requires
        a.len() <= MAX_SEGMENT_LEN,
        b.len() <= MAX_SEGMENT_LEN,
        spec_encode_segment(a) + x == spec_encode_segment(b) + y,
    ensures
        a == b,
        x == y,
{
    let l = spec_encode_segment(a) + x;
    let r = spec_encode_segment(b) + y;
    lemma_encode_length_value(a.len());
    lemma_encode_length_value(b.len());
    assert(l[0] == spec_encode_length(a.len())[0]);
    assert(l[1] == spec_encode_length(a.len())[1]);
    assert(r[0] == spec_encode_length(b.len())[0]);
    assert(r[1] == spec_encode_length(b.len())[1]);
    assert(a.len() == b.len());
    assert(a =~= l.subrange(2, 2 + a.len() as int));
    assert(b =~= r.subrange(2, 2 + b.len() as int));
    assert(x =~= l.skip(2 + a.len() as int));
    assert(y =~= r.skip(2 + b.len() as int));
}

} // verus!
