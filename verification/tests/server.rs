//! The dispatcher, the log handle, subscribers and connections.
use picodb::aof::{ack_wait, Aof, AofMsg};
use picodb::clock::{now_secs, reading};
use picodb::engine::{next_frame, EngineConn, Incoming, Next};
use picodb::protocol::{
    arr_item, encode_frame, ACT_AUTH, ACT_DEL, ACT_FLUSH, ACT_GET, ACT_HSET, ACT_LPUSH,
    ACT_PUBLISH, ACT_SET, ACT_SUBSCRIBE,
};
use picodb::pubsub::{delivery_frame, publish, strike_off, subscribe};
use picodb::server::{apply_at, apply_into, ct_eq, Server};
use std::sync::mpsc::{channel, Receiver};
use tokio::sync::mpsc::unbounded_channel;

const NOW: u64 = 1_000;

fn logging(cap: usize) -> (Server, Receiver<AofMsg>) {
    let (tx, rx) = channel();
    let mut s = Server::new(cap, None);
    s.aof = Some(Aof::new(tx, 5, 30));
    (s, rx)
}

fn frames(rx: &Receiver<AofMsg>) -> Vec<Vec<u8>> {
    let mut v = Vec::new();
    while let Ok(m) = rx.try_recv() {
        match m {
            AofMsg::Frame(f) => v.push(f),
            _ => panic!("not a frame"),
        }
    }
    v
}

fn apply(s: &mut Server, action: u8, key: &[u8], value: &[u8], ttl: u32) -> Vec<u8> {
    let mut out = Vec::new();
    apply_at(s, NOW, action, key, value, ttl, &mut out);
    out
}

#[test]
fn the_clock_reads_seconds_since_the_epoch() {
    assert!(now_secs() > 1_600_000_000);
    assert_eq!(reading(Some(7)), 7);
    assert_eq!(reading(None), 0);
}

#[test]
fn tokens_compare_by_content() {
    assert!(ct_eq(b"secret", b"secret"));
    assert!(!ct_eq(b"secret", b"secreu"));
    assert!(!ct_eq(b"Secret", b"secret"));
    assert!(!ct_eq(b"secret", b"secre"));
    assert!(ct_eq(b"", b""));
    let open = Server::new(0, None);
    assert!(open.token_ok(b"anything"));
    let shut = Server::new(0, Some(b"tok".to_vec()));
    assert!(shut.token_ok(b"tok"));
    assert!(!shut.token_ok(b""));
}

#[test]
fn hits_and_misses_are_counted() {
    let mut s = Server::new(1 << 20, None);
    apply(&mut s, ACT_GET, b"k", b"", 0);
    apply(&mut s, ACT_SET, b"k", b"v", 0);
    apply(&mut s, ACT_GET, b"k", b"", 0);
    apply(&mut s, ACT_GET, b"k", b"", 0);
    assert_eq!((s.hits, s.misses), (2, 1));
}

#[test]
fn replies_are_appended() {
    let mut s = Server::new(1 << 20, None);
    let mut out = vec![1, 2, 3];
    apply_at(&mut s, NOW, ACT_SET, b"k", b"v", 0, &mut out);
    apply_at(&mut s, NOW, ACT_GET, b"k", b"", 0, &mut out);
    assert_eq!(out, vec![1, 2, 3, 0, 0, 0, 0, 0, 1, b'v']);
}

#[test]
fn the_system_clock_drives_commands() {
    let mut s = Server::new(1 << 20, None);
    let mut out = Vec::new();
    apply_into(&mut s, ACT_SET, b"k", b"v", 1000, &mut out);
    let ttl = s.cache.snapshot(now_secs())[0].4.unwrap();
    assert!(ttl > 900 && ttl <= 1000);
}

#[test]
fn writes_are_logged_with_absolute_expiry() {
    let (mut s, rx) = logging(1 << 20);
    apply(&mut s, ACT_SET, b"a", b"1", 0);
    apply(&mut s, ACT_SET, b"b", b"2", 60);
    apply(&mut s, ACT_GET, b"a", b"", 0);
    apply(&mut s, ACT_DEL, b"x", b"", 9);
    apply(&mut s, ACT_FLUSH, b"", b"", 0);
    assert_eq!(
        frames(&rx),
        vec![
            encode_frame(ACT_SET, b"a", b"1", 0),
            encode_frame(ACT_SET, b"b", b"2", 1060),
            encode_frame(ACT_DEL, b"x", b"", 0),
            encode_frame(ACT_FLUSH, b"", b"", 0),
        ]
    );
}

#[test]
fn refused_commands_are_not_logged() {
    let (mut s, rx) = logging(1 << 20);
    apply(&mut s, ACT_SET, b"a", b"1", 0);
    frames(&rx);
    assert_eq!(apply(&mut s, ACT_HSET, b"a", b"junk", 0), vec![0xFF]);
    let mut args = Vec::new();
    arr_item(&mut args, b"x");
    assert_eq!(apply(&mut s, ACT_LPUSH, b"a", &args, 0), vec![0xFF]);
    assert_eq!(frames(&rx).len(), 0);
}

#[test]
fn evictions_are_logged_after_their_command() {
    let (mut s, rx) = logging(150);
    apply(&mut s, ACT_SET, b"a", b"1", 0);
    apply(&mut s, ACT_SET, b"b", b"2", 0);
    apply(&mut s, ACT_SET, b"c", b"3", 0);
    assert_eq!(
        frames(&rx)[2..],
        [encode_frame(ACT_SET, b"c", b"3", 0), encode_frame(ACT_DEL, b"a", b"", 0)]
    );
    assert_eq!(s.cache.drain_evicted().len(), 0);
}

#[test]
fn without_a_log_evictions_are_forgotten() {
    let mut s = Server::new(100, None);
    apply(&mut s, ACT_SET, b"a", b"1", 0);
    apply(&mut s, ACT_SET, b"b", b"2", 0);
    assert_eq!(s.cache.len(), 1);
    assert_eq!(s.cache.drain_evicted().len(), 0);
}

#[test]
fn a_write_that_the_log_does_not_take_is_rejected() {
    let (mut s, rx) = logging(1 << 20);
    assert_eq!(apply(&mut s, ACT_SET, b"a", b"old", 0), vec![0]);
    drop(rx);
    let before = s.cache.snapshot(NOW);
    let mut out = vec![7];
    apply_at(&mut s, NOW, ACT_SET, b"a", b"new", 5, &mut out);
    assert_eq!(out, vec![7, 0x45]);
    let aof = s.aof.as_ref().unwrap();
    assert!(!aof.healthy);
    assert_eq!(aof.write_errors, 1);
    assert_eq!(s.cache.snapshot(NOW), before);
    assert_eq!(apply(&mut s, ACT_GET, b"a", b"", 0), vec![0, 0, 0, 0, 3, b'o', b'l', b'd']);
}

#[test]
fn a_dead_log_rejects_every_write_and_serves_reads() {
    let (mut s, rx) = logging(1 << 20);
    let item = {
        let mut v = Vec::new();
        arr_item(&mut v, b"x");
        v
    };
    assert_eq!(apply(&mut s, ACT_SET, b"a", b"1", 0), vec![0]);
    apply(&mut s, ACT_LPUSH, b"l", &item, 0);
    drop(rx);
    let before = s.cache.snapshot(NOW);
    for (n, (action, key, value)) in [
        (ACT_SET, &b"a"[..], &b"2"[..]),
        (ACT_SET, b"new", b"2"),
        (ACT_DEL, b"a", b""),
        (ACT_FLUSH, b"", b""),
        (ACT_LPUSH, b"l", &item),
    ]
    .into_iter()
    .enumerate()
    {
        assert_eq!(apply(&mut s, action, key, value, 0), vec![0x45]);
        assert_eq!(s.aof.as_ref().unwrap().write_errors, n as u64 + 1);
        assert_eq!(s.cache.snapshot(NOW), before);
    }
    // What would not run anyway is answered as ever, and is no write error.
    assert_eq!(apply(&mut s, ACT_LPUSH, b"a", &item, 0), vec![0xFF]);
    assert_eq!(apply(&mut s, ACT_HSET, b"h", b"bad", 0), vec![0xFF]);
    assert_eq!(s.aof.as_ref().unwrap().write_errors, 5);
    assert_eq!(apply(&mut s, ACT_GET, b"a", b"", 0), vec![0, 0, 0, 0, 1, b'1']);
    assert_eq!(apply(&mut s, ACT_GET, b"new", b"", 0), vec![0x44]);
}

#[test]
fn a_set_is_read_back_until_it_expires() {
    let mut s = Server::new(50, None);
    let big = vec![b'v'; 100];
    assert_eq!(apply(&mut s, ACT_SET, b"k", &big, 10), vec![0]);
    let mut want = vec![0, 0, 0, 0, 100];
    want.extend(&big);
    let mut out = Vec::new();
    apply_at(&mut s, NOW + 9, ACT_GET, b"k", b"", 0, &mut out);
    assert_eq!(out, want);
    out.clear();
    apply_at(&mut s, NOW + 10, ACT_GET, b"k", b"", 0, &mut out);
    assert_eq!(out, vec![0x44]);
    assert_eq!(s.cache.len(), 0);
}

#[test]
fn publish_reaches_every_subscriber_of_the_channel() {
    let mut s = Server::new(1 << 20, None);
    let (tx1, mut rx1) = unbounded_channel();
    let (tx2, mut rx2) = unbounded_channel();
    let (tx3, mut rx3) = unbounded_channel();
    subscribe(&mut s.subs, b"news", tx1);
    subscribe(&mut s.subs, b"news", tx2);
    subscribe(&mut s.subs, b"other", tx3);
    assert_eq!(apply(&mut s, ACT_PUBLISH, b"news", b"hello", 0), vec![0]);
    assert_eq!(apply(&mut s, ACT_PUBLISH, b"nobody", b"hello", 0), vec![0]);
    assert_eq!(rx1.try_recv().unwrap(), b"hello".to_vec());
    assert_eq!(rx2.try_recv().unwrap(), b"hello".to_vec());
    assert!(rx3.try_recv().is_err());
    assert_eq!(s.cache.len(), 0);
}

#[test]
fn subscribers_that_are_gone_are_struck_off() {
    let mut s = Server::new(1 << 20, None);
    let (tx1, rx1) = unbounded_channel();
    let (tx2, mut rx2) = unbounded_channel();
    subscribe(&mut s.subs, b"news", tx1);
    subscribe(&mut s.subs, b"news", tx2);
    drop(rx1);
    publish(&mut s.subs, b"news", b"1");
    assert_eq!(s.subs.get(b"news").unwrap().len(), 1);
    assert_eq!(rx2.try_recv().unwrap(), b"1".to_vec());
    drop(rx2);
    publish(&mut s.subs, b"news", b"2");
    assert!(s.subs.get(b"news").is_none());
}

#[test]
fn a_delivery_is_length_prefixed() {
    assert_eq!(delivery_frame(b"hey"), vec![0, 0, 0, 0, 3, b'h', b'e', b'y']);
}

#[test]
fn a_flush_request_reaches_the_writer() {
    let (tx, rx) = channel();
    let mut aof = Aof::new(tx, 0, 30);
    // Nobody acknowledges: the wait is bounded.
    assert!(aof.flush_blocking());
    assert!(matches!(rx.try_recv(), Ok(AofMsg::Flush(_))));
    drop(rx);
    assert!(!aof.flush_blocking());
}

#[test]
fn only_a_taken_flush_request_is_waited_for() {
    assert_eq!(ack_wait(true), Some(2));
    assert_eq!(ack_wait(false), None);
}

#[test]
fn frames_are_cut_off_the_front() {
    let f = encode_frame(ACT_SET, b"k", b"vv", 3);
    assert!(matches!(next_frame(&f[..10]), Incoming::Partial));
    assert!(matches!(next_frame(&f[..13]), Incoming::Partial));
    match next_frame(&f) {
        Incoming::Whole(g) => {
            assert_eq!((g.action, g.key, g.value, g.ttl, g.len), (ACT_SET, &b"k"[..], &b"vv"[..], 3, 14))
        }
        _ => panic!(),
    }
    let mut long = encode_frame(ACT_SET, b"", b"", 0);
    long[3..7].copy_from_slice(&67108864u32.to_be_bytes());
    assert!(matches!(next_frame(&long), Incoming::Partial));
    long[3..7].copy_from_slice(&67108865u32.to_be_bytes());
    assert!(matches!(next_frame(&long), Incoming::TooLong));
}

#[test]
fn pipelined_and_fragmented_requests_get_the_same_replies() {
    let mut stream = encode_frame(ACT_SET, b"a", b"1", 0);
    stream.extend(encode_frame(ACT_GET, b"a", b"", 0));
    stream.extend(encode_frame(ACT_GET, b"b", b"", 0));
    stream.extend(encode_frame(0x77, b"", b"", 0));
    let want = vec![0, 0, 0, 0, 0, 1, b'1', 0x44, 0xFF];
    for step in [1usize, 2, 5, 11, 100] {
        let mut s = Server::new(1 << 20, None);
        let mut c = EngineConn::new(&s);
        let mut out = Vec::new();
        for part in stream.chunks(step) {
            assert!(matches!(c.serve(&mut s, part, &mut out), Next::Read));
        }
        assert_eq!(out, want);
        assert!(c.acc.is_empty());
    }
}

#[test]
fn every_command_needs_authentication() {
    let mut s = Server::new(1 << 20, Some(b"tok".to_vec()));
    let mut c = EngineConn::new(&s);
    assert!(!c.authed);
    let mut out = Vec::new();
    let mut b = encode_frame(ACT_SET, b"a", b"1", 0);
    b.extend(encode_frame(ACT_SUBSCRIBE, b"ch", b"", 0));
    b.extend(encode_frame(ACT_AUTH, b"wrong", b"", 0));
    b.extend(encode_frame(ACT_GET, b"a", b"", 0));
    assert!(matches!(c.serve(&mut s, &b, &mut out), Next::Read));
    assert_eq!(out, vec![0x41; 4]);
    assert_eq!(s.cache.len(), 0);
    out.clear();
    let mut b = encode_frame(ACT_AUTH, b"tok", b"", 0);
    b.extend(encode_frame(ACT_SET, b"a", b"1", 0));
    b.extend(encode_frame(ACT_AUTH, b"nope", b"", 0));
    b.extend(encode_frame(ACT_GET, b"a", b"", 0));
    assert!(matches!(c.serve(&mut s, &b, &mut out), Next::Read));
    assert_eq!(out, vec![0, 0, 0x41, 0x41]);
}

#[test]
fn subscribe_hands_over_the_channel() {
    let mut s = Server::new(1 << 20, None);
    let mut c = EngineConn::new(&s);
    let mut out = Vec::new();
    let mut b = encode_frame(ACT_SET, b"a", b"1", 0);
    b.extend(encode_frame(ACT_SUBSCRIBE, b"news", b"", 0));
    b.extend(b"rest");
    match c.serve(&mut s, &b, &mut out) {
        Next::Subscribe(ch) => assert_eq!(ch, b"news".to_vec()),
        _ => panic!(),
    }
    assert_eq!(out, vec![0]);
    assert_eq!(c.acc, b"rest".to_vec());
}

#[test]
fn an_oversized_frame_drops_the_connection() {
    let mut s = Server::new(1 << 20, None);
    let mut c = EngineConn::new(&s);
    let mut out = Vec::new();
    let mut b = encode_frame(ACT_SET, b"a", b"1", 0);
    let mut long = encode_frame(ACT_SET, b"", b"", 0);
    long[3..7].copy_from_slice(&u32::MAX.to_be_bytes());
    b.extend(long);
    assert!(matches!(c.serve(&mut s, &b, &mut out), Next::Close));
    assert_eq!(out, vec![0, 0xFF]);
}

#[test]
fn a_subscriber_that_takes_a_payload_stays() {
    let mut s = Server::new(1 << 20, None);
    let (tx1, mut rx1) = unbounded_channel();
    let (tx2, rx2) = unbounded_channel();
    let (tx3, mut rx3) = unbounded_channel();
    subscribe(&mut s.subs, b"news", tx1);
    subscribe(&mut s.subs, b"news", tx2);
    subscribe(&mut s.subs, b"news", tx3);
    drop(rx2);
    let first = publish(&mut s.subs, b"news", b"1");
    assert_eq!(first.taken, vec![true, false, true]);
    assert_eq!(first.gone.len(), 1);
    let second = publish(&mut s.subs, b"news", b"2");
    assert_eq!(second.taken, vec![true, true]);
    assert!(second.gone.is_empty());
    for rx in [&mut rx1, &mut rx3] {
        assert_eq!(rx.try_recv().unwrap(), b"1".to_vec());
        assert_eq!(rx.try_recv().unwrap(), b"2".to_vec());
    }
    assert!(publish(&mut s.subs, b"other", b"3").taken.is_empty());
}

#[test]
fn only_those_that_did_not_take_it_are_struck_off() {
    let mut list = Vec::new();
    let mut inboxes = Vec::new();
    for _ in 0..4 {
        let (tx, rx) = unbounded_channel();
        list.push(tx);
        inboxes.push(rx);
    }
    let gone = strike_off(&mut list, &vec![false, true, false, true]);
    for (tx, n) in list.iter().chain(&gone).zip(0u8..) {
        tx.send(vec![n]).unwrap();
    }
    let got: Vec<Vec<u8>> = inboxes.iter_mut().map(|rx| rx.try_recv().unwrap()).collect();
    assert_eq!(got, vec![vec![2], vec![0], vec![3], vec![1]]);
}
