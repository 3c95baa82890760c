//! WebSocket frames, the handshake, SHA-1 and base64.
use picodb::base64::base64;
use picodb::sha1::sha1;
use picodb::ws::{
    encode_ws, ws_accept, ws_answer, ws_delivery, ws_event, ws_message, ws_read, ws_stats, WsEvent, WsProgress, WS_BIN, WS_CLOSE,
    WS_PING, WS_PONG, WS_TEXT,
};

fn hex(b: &[u8]) -> String {
    b.iter().map(|x| format!("{x:02x}")).collect()
}

#[test]
fn sha1_of_known_messages() {
    assert_eq!(hex(&sha1(b"")), "da39a3ee5e6b4b0d3255bfef95601890afd80709");
    assert_eq!(hex(&sha1(b"abc")), "a9993e364706816aba3e25717850c26c9cd0d89d");
    assert_eq!(
        hex(&sha1(b"abcdbcdecdefdefgefghfghighijhijkijkljklmklmnlmnomnopnopq")),
        "84983e441c3bd26ebaae4aa1f95129e5e54670f1"
    );
    assert_eq!(hex(&sha1(&[b'a'; 1000])), "291e9a6c66994949b57ba5e650361e98fc36b1ba");
}

#[test]
fn sha1_pads_every_length_around_a_block() {
    let want = [
        (55, "c1c8bbdc22796e28c0e15163d20899b65621d65a"),
        (56, "c2db330f6083854c99d4b5bfb6e8f29f201be699"),
        (63, "03f09f5b158a7a8cdad920bddc29b81c18a551f5"),
        (64, "0098ba824b5c16427bd7a1122a5a442a25ec644d"),
    ];
    for (n, h) in want {
        assert_eq!(hex(&sha1(&vec![b'a'; n])), h);
    }
}

#[test]
fn base64_pads_to_four_characters() {
    assert_eq!(base64(b""), "");
    assert_eq!(base64(b"f"), "Zg==");
    assert_eq!(base64(b"fo"), "Zm8=");
    assert_eq!(base64(b"foo"), "Zm9v");
    assert_eq!(base64(b"foob"), "Zm9vYg==");
    assert_eq!(base64(b"fooba"), "Zm9vYmE=");
    assert_eq!(base64(b"foobar"), "Zm9vYmFy");
    assert_eq!(base64(&[0xFB, 0xFF, 0xFE]), "+//+");
    assert_eq!(base64(&[0, 16, 131, 16, 81, 135]), "ABCDEFGH");
}

#[test]
fn the_accept_key_of_the_rfc() {
    assert_eq!(ws_accept("dGhlIHNhbXBsZSBub25jZQ=="), "s3pPLMBiTxaQ9kYGzzhZRbK+xOo=");
    assert_eq!(ws_accept("  dGhlIHNhbXBsZSBub25jZQ==\t"), "s3pPLMBiTxaQ9kYGzzhZRbK+xOo=");
}

#[test]
fn server_frames_are_final_and_unmasked() {
    assert_eq!(encode_ws(WS_TEXT, b"Hello"), vec![0x81, 5, b'H', b'e', b'l', b'l', b'o']);
    assert_eq!(encode_ws(WS_CLOSE, b""), vec![0x88, 0]);
    assert_eq!(encode_ws(0xFA, b""), vec![0x8A, 0]);
    let f = encode_ws(WS_BIN, &[1; 126]);
    assert_eq!(f[..4], [0x82, 126, 0, 126]);
    let f = encode_ws(WS_BIN, &[1; 65535]);
    assert_eq!(f[..4], [0x82, 126, 0xFF, 0xFF]);
    let f = encode_ws(WS_BIN, &[1; 65536]);
    assert_eq!(f[..10], [0x82, 127, 0, 0, 0, 0, 0, 1, 0, 0]);
    assert_eq!(f.len(), 65546);
}

#[test]
fn a_server_frame_reads_back() {
    for n in [0usize, 1, 125, 126, 127, 65535, 65536] {
        let payload = vec![0x5Au8; n];
        let f = encode_ws(WS_PONG, &payload);
        assert_eq!(ws_read(&f), WsProgress::Whole);
        assert_eq!(ws_message(&f), (WS_PONG, payload));
    }
}

#[test]
fn a_masked_frame_is_unmasked() {
    let f = [0x81, 0x85, 0x37, 0xfa, 0x21, 0x3d, 0x7f, 0x9f, 0x4d, 0x51, 0x58];
    assert_eq!(ws_read(&f), WsProgress::Whole);
    assert_eq!(ws_message(&f), (WS_TEXT, b"Hello".to_vec()));
}

#[test]
fn masking_twice_gives_the_payload_back() {
    let mask = [9u8, 8, 7, 6];
    let payload = b"some payload".to_vec();
    let mut f = vec![0x81, 0x80 | payload.len() as u8];
    f.extend(mask);
    f.extend(payload.iter().enumerate().map(|(i, b)| b ^ mask[i % 4]));
    assert_eq!(ws_message(&f).1, payload);
}

#[test]
fn the_reader_asks_for_one_part_at_a_time() {
    assert_eq!(ws_read(&[]), WsProgress::Need(2));
    assert_eq!(ws_read(&[0x81]), WsProgress::Need(1));
    assert_eq!(ws_read(&[0x81, 0x85]), WsProgress::Need(4));
    assert_eq!(ws_read(&[0x81, 0x05]), WsProgress::Need(5));
    assert_eq!(ws_read(&[0x81, 0x00]), WsProgress::Whole);
    assert_eq!(ws_read(&[0x81, 126]), WsProgress::Need(2));
    assert_eq!(ws_read(&[0x81, 127]), WsProgress::Need(8));
    assert_eq!(ws_read(&[0x81, 126, 1, 0]), WsProgress::Need(256));
    assert_eq!(ws_read(&[0x81, 0x80 | 126, 1, 0, 0]), WsProgress::Need(3));
}

#[test]
fn an_absurd_length_is_refused() {
    assert_eq!(ws_read(&[0x81, 127, 0, 0, 0, 0, 4, 0, 0, 0]), WsProgress::Need(67108864));
    assert_eq!(ws_read(&[0x81, 127, 0, 0, 0, 0, 4, 0, 0, 1]), WsProgress::TooLong);
    assert_eq!(ws_read(&[0x81, 127, 255, 255, 255, 255, 255, 255, 255, 255]), WsProgress::TooLong);
}

#[test]
fn what_client_frames_ask_for() {
    assert!(matches!(ws_event(WS_CLOSE, vec![1]), WsEvent::Close));
    assert!(matches!(ws_event(WS_PING, vec![1]), WsEvent::Ping(p) if p == [1]));
    assert!(matches!(ws_event(WS_TEXT, b"news".to_vec()), WsEvent::Subscribe(c) if c == b"news"));
    assert!(matches!(ws_event(WS_BIN, b"news".to_vec()), WsEvent::Subscribe(c) if c == b"news"));
    assert!(matches!(ws_event(WS_TEXT, Vec::new()), WsEvent::Ignore));
    assert!(matches!(ws_event(WS_PONG, vec![1]), WsEvent::Ignore));
    assert!(matches!(ws_event(0, vec![1]), WsEvent::Ignore));
}

#[test]
fn pings_and_closes_are_answered() {
    assert_eq!(ws_answer(&WsEvent::Ping(b"hi".to_vec())), Some(vec![0x8A, 2, b'h', b'i']));
    assert_eq!(ws_answer(&WsEvent::Close), Some(vec![0x88, 0]));
    assert_eq!(ws_answer(&WsEvent::Subscribe(b"c".to_vec())), None);
    assert_eq!(ws_answer(&WsEvent::Ignore), None);
    assert_eq!(ws_delivery(b"p"), vec![0x82, 1, b'p']);
    assert_eq!(ws_stats("{}"), vec![0x81, 2, b'{', b'}']);
}

#[test]
fn masked_frames_of_every_length_field_are_read() {
    let mask = [1u8, 2, 3, 4];
    for n in [0usize, 1, 125, 126, 65535, 65536] {
        let payload: Vec<u8> = (0..n).map(|i| i as u8).collect();
        let mut f = encode_ws(WS_TEXT, &payload);
        let head = f.len() - n;
        f[1] += 128;
        for (i, b) in payload.iter().enumerate() {
            f[head + i] = b ^ mask[i % 4];
        }
        f.splice(head..head, mask);
        assert_eq!(ws_read(&f), WsProgress::Whole);
        assert_eq!(ws_message(&f), (WS_TEXT, payload));
    }
}
