//! Frames, replies and argument lists.
use picodb::bytes::{
    append, bytes_eq, get_be16, get_be32, get_be64, get_be64_signed, part, put_be16, put_be32,
    put_be64, put_be64_signed, to_vec,
};
use picodb::loadgen::{batch_frames, frame};
use picodb::protocol::{
    arr_header, arr_item, decode_header, encode_frame, is_mutating, parse_args, reply_bulk,
    reply_int, ACT_AUTH, ACT_DEL, ACT_FLUSH, ACT_GET, ACT_HDEL, ACT_HGET, ACT_HGETALL, ACT_HLEN,
    ACT_HSET, ACT_LLEN, ACT_LPOP, ACT_LPUSH, ACT_LRANGE, ACT_PUBLISH, ACT_RPOP, ACT_RPUSH,
    ACT_SADD, ACT_SCARD, ACT_SET, ACT_SISMEMBER, ACT_SMEMBERS, ACT_SREM, ACT_SUBSCRIBE, ACT_TYPE,
};

#[test]
fn integers_survive_the_wire() {
    let mut b = Vec::new();
    put_be16(&mut b, 0xBEEF);
    put_be32(&mut b, 0x1234_5678);
    put_be64(&mut b, 0x0102_0304_0506_0708);
    put_be64_signed(&mut b, -2);
    assert_eq!(b[..2], [0xBE, 0xEF]);
    assert_eq!(b[2..6], [0x12, 0x34, 0x56, 0x78]);
    assert_eq!(b[6..14], [1, 2, 3, 4, 5, 6, 7, 8]);
    assert_eq!(b[14..22], [0xFF, 0xFF, 0xFF, 0xFF, 0xFF, 0xFF, 0xFF, 0xFE]);
    assert_eq!(get_be16(&b, 0), 0xBEEF);
    assert_eq!(get_be32(&b, 2), 0x1234_5678);
    assert_eq!(get_be64(&b, 6), 0x0102_0304_0506_0708);
    assert_eq!(get_be64_signed(&b, 14), -2);
}

#[test]
fn signed_extremes_survive_the_wire() {
    for n in [i64::MIN, i64::MIN + 1, -1, 0, 1, i64::MAX] {
        let mut b = Vec::new();
        put_be64_signed(&mut b, n);
        assert_eq!(b, n.to_be_bytes().to_vec());
        assert_eq!(get_be64_signed(&b, 0), n);
    }
}

#[test]
fn only_the_low_bits_are_written() {
    let mut b = Vec::new();
    put_be16(&mut b, 0x1_0002);
    put_be32(&mut b, 0x1_0000_0003);
    assert_eq!(b, vec![0, 2, 0, 0, 0, 3]);
}

#[test]
fn byte_helpers() {
    assert!(bytes_eq(b"abc", b"abc"));
    assert!(!bytes_eq(b"abc", b"abd"));
    assert!(!bytes_eq(b"abc", b"ab"));
    assert_eq!(to_vec(b"abc"), b"abc".to_vec());
    assert_eq!(part(b"abcdef", 2, 4), b"cd");
    let mut v = b"ab".to_vec();
    append(&mut v, b"cd");
    assert_eq!(v, b"abcd".to_vec());
}

#[test]
fn a_frame_has_an_eleven_byte_header() {
    let f = encode_frame(ACT_SET, b"key", b"value", 60);
    assert_eq!(f[..11], [1, 0, 3, 0, 0, 0, 5, 0, 0, 0, 60]);
    assert_eq!(&f[11..], b"keyvalue");
    assert_eq!(decode_header(&f), (ACT_SET, 3, 5, 60));
    assert_eq!(frame(ACT_SET, b"key", b"value", 60), f);
}

#[test]
fn a_header_decodes_to_what_was_encoded() {
    let key = vec![7u8; 65535];
    let f = encode_frame(ACT_HSET, &key, &[], u32::MAX);
    assert_eq!(decode_header(&f), (ACT_HSET, 65535, 0, u32::MAX));
    assert_eq!(f.len(), 11 + 65535);
}

#[test]
fn replies_have_their_documented_form() {
    let mut out = vec![9u8];
    reply_int(&mut out, 5);
    assert_eq!(out, vec![9, 0, 0, 0, 0, 0, 0, 0, 0, 5]);
    let mut out = Vec::new();
    reply_int(&mut out, -1);
    assert_eq!(out, vec![0, 255, 255, 255, 255, 255, 255, 255, 255]);
    let mut out = Vec::new();
    reply_bulk(&mut out, b"hi");
    assert_eq!(out, vec![0, 0, 0, 0, 2, b'h', b'i']);
    let mut out = Vec::new();
    arr_header(&mut out, 1);
    arr_item(&mut out, b"x");
    assert_eq!(out, vec![0, 0, 0, 0, 1, 0, 0, 0, 1, b'x']);
}

#[test]
fn arguments_split_at_their_lengths() {
    let mut v = Vec::new();
    arr_item(&mut v, b"field");
    arr_item(&mut v, b"");
    arr_item(&mut v, b"value");
    let args = parse_args(&v).unwrap();
    assert_eq!(args, vec![&b"field"[..], &b""[..], &b"value"[..]]);
    assert_eq!(parse_args(b"").unwrap().len(), 0);
}

#[test]
fn malformed_arguments_are_refused() {
    assert!(parse_args(&[0, 0, 0]).is_none());
    assert!(parse_args(&[0, 0, 0, 2, b'x']).is_none());
    assert!(parse_args(&[0, 0, 0, 1, b'x', 0]).is_none());
}

#[test]
fn mutating_commands_are_the_eleven_writes() {
    for a in [
        ACT_SET, ACT_DEL, ACT_FLUSH, ACT_HSET, ACT_HDEL, ACT_LPUSH, ACT_RPUSH, ACT_LPOP, ACT_RPOP,
        ACT_SADD, ACT_SREM,
    ] {
        assert!(is_mutating(a));
    }
    for a in [
        ACT_GET, ACT_SUBSCRIBE, ACT_PUBLISH, ACT_AUTH, ACT_TYPE, ACT_HGET, ACT_HGETALL, ACT_HLEN,
        ACT_LRANGE, ACT_LLEN, ACT_SMEMBERS, ACT_SISMEMBER, ACT_SCARD, 0x00, 0xFF,
    ] {
        assert!(!is_mutating(a));
    }
}

#[test]
fn the_load_generator_numbers_its_keys() {
    let b = batch_frames(2);
    let mut want = frame(1, b"key00000000", &[b'x'; 64], 0);
    want.extend(frame(1, b"key00000001", &[b'x'; 64], 0));
    assert_eq!(b, want);
    assert_eq!(batch_frames(0), Vec::<u8>::new());
    let many = batch_frames(12);
    assert_eq!(many.len(), 12 * (11 + 11 + 64));
    assert_eq!(&many[11 * 86 + 11..11 * 86 + 22], b"key00000011");
}
