use storage_extra::frame::{decode_len, encode_len, frame, unframe};
use storage_extra::keys::{bytes_equal, decode, encode_length, extend, namespaces_with_key, push_segment};

#[test]
fn encode_length_is_big_endian() {
    assert_eq!(encode_length(b""), [0, 0]);
    assert_eq!(encode_length(b"abc"), [0, 3]);
    assert_eq!(encode_length(&vec![7u8; 258]), [1, 2]);
    assert_eq!(encode_length(&vec![7u8; 0xFFFF]), [0xFF, 0xFF]);
}

#[test]
fn namespaces_with_key_layout() {
    assert_eq!(namespaces_with_key(&[], b"key"), b"key".to_vec());
    assert_eq!(
        namespaces_with_key(&[b"ns", b"", b"third"], b"k"),
        b"\x00\x02ns\x00\x00\x00\x05thirdk".to_vec()
    );
    assert_eq!(namespaces_with_key(&[b"a"], b""), b"\x00\x01a".to_vec());
}

#[test]
fn decode_gives_back_segments_and_key() {
    let segments: Vec<&[u8]> = vec![b"ref_pk", b"", b"x"];
    let bytes = namespaces_with_key(&segments, b"the key");
    assert_eq!(
        decode(&bytes, 3),
        Some((vec![b"ref_pk".to_vec(), vec![], b"x".to_vec()], b"the key".to_vec()))
    );
    assert_eq!(decode(&bytes, 0), Some((vec![], bytes.clone())));
    assert_eq!(decode(&bytes, 1), Some((vec![b"ref_pk".to_vec()], bytes[8..].to_vec())));
}

#[test]
fn decode_refuses_short_input() {
    assert_eq!(decode(b"", 1), None);
    assert_eq!(decode(b"\x00", 1), None);
    assert_eq!(decode(b"\x00\x03ab", 1), None);
    assert_eq!(decode(b"\x00\x01a\x00", 2), None);
    assert_eq!(decode(b"\x00\x00", 1), Some((vec![vec![]], vec![])));
}

#[test]
fn lengths_are_eight_big_endian_bytes() {
    assert_eq!(encode_len(0), vec![0, 0, 0, 0, 0, 0, 0, 0]);
    assert_eq!(encode_len(0x0102), vec![0, 0, 0, 0, 0, 0, 1, 2]);
    assert_eq!(encode_len(0x01_0000_0003), vec![0, 0, 0, 1, 0, 0, 0, 3]);
    assert_eq!(decode_len(&[0, 0, 0, 1, 0, 0, 0, 3]), Some(0x01_0000_0003));
    assert_eq!(decode_len(&[0xFF; 8]), Some(u64::MAX));
    assert_eq!(decode_len(&[0; 7]), None);
    assert_eq!(decode_len(&[0; 9]), None);
}

#[test]
fn frames_come_apart() {
    assert_eq!(frame(b""), vec![0, 0, 0, 0, 0, 0, 0, 0]);
    assert_eq!(frame(b"ab"), vec![0, 0, 0, 0, 0, 0, 0, 2, b'a', b'b']);
    assert_eq!(unframe(&frame(b"hello")), Some(b"hello".to_vec()));
    assert_eq!(unframe(&[0, 0, 0, 0, 0, 0, 0, 2, b'a']), None);
    assert_eq!(unframe(&[0, 0, 0, 0, 0, 0, 0, 0, b'a']), None);
    assert_eq!(unframe(b"short"), None);
}

#[test]
fn segments_are_appended_behind_their_length() {
    let mut out = b"x".to_vec();
    push_segment(&mut out, b"ns");
    push_segment(&mut out, b"");
    extend(&mut out, b"key");
    assert_eq!(out, b"x\x00\x02ns\x00\x00key".to_vec());
    assert!(bytes_equal(b"ab", b"ab"));
    assert!(bytes_equal(b"", b""));
    assert!(!bytes_equal(b"ab", b"ac"));
    assert!(!bytes_equal(b"ab", b"abc"));
}
