use skein::error::PeerError;
use skein::wire::{
    classify_message, frame_header, frame_length, frame_op, parse_u64, split_fields, unframe_op, PeerMessage,
    MAX_TCP_MESSAGE_SIZE,
};

#[test]
fn frame_headers_are_big_endian_lengths() {
    assert_eq!(frame_header(0).unwrap(), [0, 0, 0, 0]);
    assert_eq!(frame_header(258).unwrap(), [0, 0, 1, 2]);
    assert_eq!(frame_header(MAX_TCP_MESSAGE_SIZE).unwrap(), (MAX_TCP_MESSAGE_SIZE as u32).to_be_bytes());
    for n in [0usize, 1, 255, 256, 65536, 1 << 20, MAX_TCP_MESSAGE_SIZE] {
        let h = frame_header(n).unwrap();
        assert_eq!(frame_length(&h).unwrap(), n);
    }
}

#[test]
fn oversized_frames_are_refused_both_ways() {
    match frame_header(MAX_TCP_MESSAGE_SIZE + 1) {
        Err(PeerError::PayloadTooLarge { size, max }) => {
            assert_eq!(size, MAX_TCP_MESSAGE_SIZE + 1);
            assert_eq!(max, 50 * 1024 * 1024);
        }
        other => panic!("unexpected {other:?}"),
    }
    match frame_length(&[0xff, 0xff, 0xff, 0xff]) {
        Err(PeerError::PayloadTooLarge { size, max }) => {
            assert_eq!(size, u32::MAX as usize);
            assert_eq!(max, MAX_TCP_MESSAGE_SIZE);
        }
        other => panic!("unexpected {other:?}"),
    }
}

#[test]
fn gossip_frames_carry_the_marker() {
    let framed = frame_op(&[1, 2, 3]);
    assert_eq!(framed, b"SKEIN_OP:\x01\x02\x03".to_vec());
    assert_eq!(unframe_op(&framed), Some(vec![1, 2, 3]));
    assert_eq!(unframe_op(b"SKEIN_OP:"), Some(vec![]));
    assert_eq!(unframe_op(b"SKEIN_OP"), None);
    assert_eq!(unframe_op(b"hello"), None);
}

#[test]
fn messages_are_sorted_by_prefix() {
    assert_eq!(classify_message(b"SKEIN_CHUNK_REQ:abc"), PeerMessage::ChunkRequest(b"abc".to_vec()));
    assert_eq!(classify_message(b"SKEIN_OP_SYNC:[]"), PeerMessage::OpSync(b"[]".to_vec()));
    assert_eq!(classify_message(b"SKEIN_OP_REPLY:[1]"), PeerMessage::OpReply(b"[1]".to_vec()));
    assert_eq!(classify_message(b"SKEIN_FILE:h:f:3"), PeerMessage::File(b"h:f:3".to_vec()));
    assert_eq!(classify_message(b"hi there"), PeerMessage::Text(b"hi there".to_vec()));
    assert_eq!(classify_message(b"SKEIN_OP_SYN"), PeerMessage::Text(b"SKEIN_OP_SYN".to_vec()));
    assert_eq!(classify_message(b""), PeerMessage::Text(vec![]));
}

#[test]
fn fields_split_like_str_split() {
    for s in ["a:b:c", "", ":", "abc", "a::b", "x:", ":y"] {
        let expected: Vec<Vec<u8>> = s.split(':').map(|p| p.as_bytes().to_vec()).collect();
        assert_eq!(split_fields(s.as_bytes()), expected, "input {s:?}");
    }
}

#[test]
fn numbers_parse_like_str_parse() {
    for s in [
        "0", "42", "+7", "+", "", "-1", "12a", "18446744073709551615", "18446744073709551616",
        "99999999999999999999", "007", " 1", "1844674407370955161", "18446744073709551620",
    ] {
        assert_eq!(parse_u64(s.as_bytes()), s.parse::<u64>().ok(), "input {s:?}");
    }
}
