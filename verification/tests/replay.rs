//! The log: replay, compaction, the writer's decisions.
use picodb::aof::{
    frames_len, opening, Aof, AofMsg, Fsync, Maintenance, RewriteStatus, Writer, WriterAction,
    WriterEvent, WriterResult,
};
use picodb::protocol::{
    arr_item, encode_frame, ACT_DEL, ACT_FLUSH, ACT_GET, ACT_HSET, ACT_LPUSH, ACT_RPUSH, ACT_SADD,
    ACT_SET,
};
use picodb::replay::{aof_magic, replay_aof, replay_at};
use picodb::server::{apply_at, trigger_aof_rewrite, trigger_rewrite_at, Server};
use std::sync::mpsc::{channel, Receiver};

const NOW: u64 = 1_000;

fn args(items: &[&[u8]]) -> Vec<u8> {
    let mut v = Vec::new();
    for i in items {
        arr_item(&mut v, i);
    }
    v
}

fn apply(s: &mut Server, now: u64, action: u8, key: &[u8], value: &[u8], ttl: u32) -> Vec<u8> {
    let mut out = Vec::new();
    apply_at(s, now, action, key, value, ttl, &mut out);
    out
}

fn logging(cap: usize, interval: u64) -> (Server, Receiver<AofMsg>) {
    let (tx, rx) = channel();
    let mut s = Server::new(cap, None);
    s.aof = Some(Aof::new(tx, 5, interval));
    (s, rx)
}

fn fill(s: &mut Server) {
    apply(s, NOW, ACT_SET, b"plain", b"v1", 0);
    apply(s, NOW, ACT_SET, b"timed", b"v2", 50);
    apply(s, NOW, ACT_HSET, b"hash", &args(&[b"f", b"1"]), 0);
    apply(s, NOW, ACT_HSET, b"hash", &args(&[b"g", b"2"]), 0);
    apply(s, NOW, ACT_RPUSH, b"list", &args(&[b"a", b"b"]), 0);
    apply(s, NOW, ACT_LPUSH, b"list", &args(&[b"c"]), 0);
    apply(s, NOW, ACT_SADD, b"set", &args(&[b"x", b"y"]), 0);
}

#[test]
fn replaying_the_log_rebuilds_the_dataset() {
    let (mut s, rx) = logging(1 << 20, 30);
    fill(&mut s);
    apply(&mut s, NOW, ACT_SET, b"gone", b"v", 0);
    apply(&mut s, NOW, ACT_DEL, b"gone", b"", 0);
    apply(&mut s, NOW, ACT_GET, b"plain", b"", 0);
    let mut log = aof_magic();
    while let Ok(AofMsg::Frame(f)) = rx.try_recv() {
        log.extend(f);
    }
    let mut t = Server::new(1 << 20, None);
    assert_eq!(replay_at(&mut t, &log, NOW + 10), 9);
    let mut a = s.cache.snapshot(NOW + 10);
    let mut b = t.cache.snapshot(NOW + 10);
    a.sort();
    b.sort();
    assert_eq!(a, b);
    assert_eq!(t.cache.used(), s.cache.used());
}

#[test]
fn replaying_a_compacted_log_rebuilds_dataset_and_recency() {
    let mut s = Server::new(1 << 20, None);
    fill(&mut s);
    apply(&mut s, NOW, ACT_SET, b"dies", b"v", 5);
    let dump = s.cache.dump_frames(NOW + 5);
    assert_eq!(
        dump,
        vec![
            encode_frame(ACT_SET, b"plain", b"v1", 0),
            encode_frame(ACT_SET, b"timed", b"v2", 1050),
            encode_frame(ACT_HSET, b"hash", &args(&[b"f", b"1"]), 0),
            encode_frame(ACT_HSET, b"hash", &args(&[b"g", b"2"]), 0),
            encode_frame(ACT_RPUSH, b"list", &args(&[b"c", b"a", b"b"]), 0),
            encode_frame(ACT_SADD, b"set", &args(&[b"x", b"y"]), 0),
        ]
    );
    let mut t = Server::new(1 << 20, None);
    assert_eq!(replay_at(&mut t, &dump.concat(), NOW + 20), 6);
    assert_eq!(t.cache.snapshot(NOW + 20), s.cache.snapshot(NOW + 20));
    let mut u = Server::new(1 << 20, None);
    assert_eq!(replay_at(&mut u, &dump.concat(), NOW + 50), 5);
    assert_eq!(u.cache.snapshot(NOW + 50), s.cache.snapshot(NOW + 50));
}

#[test]
fn a_torn_tail_is_tolerated_at_every_offset() {
    let one = encode_frame(ACT_SET, b"a", b"1", 0);
    let two = encode_frame(ACT_SET, b"b", b"22", 0);
    for cut in 0..two.len() {
        let mut log = aof_magic();
        log.extend(&one);
        log.extend(&two[..cut]);
        let mut s = Server::new(1 << 20, None);
        assert_eq!(replay_at(&mut s, &log, NOW), 1);
        assert_eq!(s.cache.len(), 1);
    }
}

#[test]
fn the_magic_header_may_be_missing() {
    let log = encode_frame(ACT_SET, b"a", b"1", 0);
    let mut s = Server::new(1 << 20, None);
    assert_eq!(replay_at(&mut s, &log, NOW), 1);
    assert_eq!(aof_magic(), b"Pico1".to_vec());
    assert_eq!(replay_at(&mut s, b"Pico1", NOW), 0);
    assert_eq!(replay_at(&mut s, b"", NOW), 0);
}

#[test]
fn an_absurd_record_stops_replay() {
    let mut log = encode_frame(ACT_SET, b"a", b"1", 0);
    let mut bad = encode_frame(ACT_SET, b"b", b"1", 0);
    bad[3] = 0xFF;
    log.extend(bad);
    log.extend(encode_frame(ACT_SET, b"c", b"1", 0));
    let mut s = Server::new(1 << 20, None);
    assert_eq!(replay_at(&mut s, &log, NOW), 1);
}

#[test]
fn replay_skips_what_expired_and_what_cannot_fit() {
    let mut log = encode_frame(ACT_SET, b"past", b"1", 999);
    log.extend(encode_frame(ACT_SET, b"this", b"1", 1000));
    log.extend(encode_frame(ACT_SET, b"next", b"1", 1001));
    log.extend(encode_frame(ACT_SET, b"big", &[0; 500], 0));
    log.extend(encode_frame(ACT_DEL, b"none", b"", 5));
    let mut s = Server::new(400, None);
    assert_eq!(replay_at(&mut s, &log, NOW), 2);
    assert_eq!(s.cache.snapshot(NOW), vec![(b"next".to_vec(), "string", 1, 1, Some(1))]);
}

#[test]
fn evictions_during_replay_leave_no_markers() {
    let mut log = Vec::new();
    for k in [b"a", b"b", b"c"] {
        log.extend(encode_frame(ACT_SET, k, b"1", 0));
    }
    log.extend(encode_frame(0x99, b"", b"", 0));
    let mut s = Server::new(150, None);
    assert_eq!(replay_aof(&mut s, &log), 4);
    assert_eq!(s.cache.len(), 2);
    assert_eq!(s.cache.drain_evicted().len(), 0);
}

#[test]
fn a_replayed_flush_empties_the_cache() {
    let mut log = encode_frame(ACT_SET, b"a", b"1", 0);
    log.extend(encode_frame(ACT_FLUSH, b"", b"", 0));
    let mut s = Server::new(1 << 20, None);
    assert_eq!(replay_at(&mut s, &log, NOW), 2);
    assert_eq!(s.cache.len(), 0);
}

#[test]
fn a_rewrite_hands_over_the_live_dataset() {
    let (mut s, rx) = logging(1 << 20, 30);
    apply(&mut s, NOW, ACT_SET, b"a", b"1", 0);
    let _ = rx.try_recv();
    assert_eq!(trigger_rewrite_at(&mut s, NOW, 0, true), RewriteStatus::Started);
    match rx.try_recv().unwrap() {
        AofMsg::Rewrite(frames) => {
            assert_eq!(frames, vec![encode_frame(ACT_SET, b"a", b"1", 0)]);
            assert_eq!(frames_len(&frames), 13);
        }
        _ => panic!(),
    }
    assert!(s.aof.as_ref().unwrap().rewriting);
}

#[test]
fn rewrites_are_deduplicated_and_rate_limited() {
    let (mut s, _rx) = logging(1 << 20, 30);
    assert_eq!(trigger_aof_rewrite(&mut s, 1_000, true), RewriteStatus::Started);
    assert_eq!(trigger_aof_rewrite(&mut s, 2_000, true), RewriteStatus::TooSoon);
    assert_eq!(trigger_aof_rewrite(&mut s, 31_000, true), RewriteStatus::AlreadyRunning);
    s.aof.as_mut().unwrap().rewritten(77, 40_000);
    let a = s.aof.as_ref().unwrap();
    assert_eq!((a.size, a.rewrites, a.rewriting, a.last_rewrite), (77, 1, false, Some(40_000)));
    assert_eq!(trigger_aof_rewrite(&mut s, 69_999, true), RewriteStatus::TooSoon);
    assert_eq!(trigger_aof_rewrite(&mut s, 69_999, false), RewriteStatus::Started);
    s.aof.as_mut().unwrap().rewrite_failed();
    assert_eq!(trigger_aof_rewrite(&mut s, 99_999, true), RewriteStatus::Started);
}

#[test]
fn a_rewrite_needs_a_log_and_a_writer() {
    let mut s = Server::new(1 << 20, None);
    assert_eq!(trigger_aof_rewrite(&mut s, 0, true), RewriteStatus::Disabled);
    let (mut s, rx) = logging(1 << 20, 30);
    drop(rx);
    assert_eq!(trigger_aof_rewrite(&mut s, 0, true), RewriteStatus::Disabled);
    assert!(!s.aof.as_ref().unwrap().rewriting);
    assert_eq!(trigger_aof_rewrite(&mut s, 1, true), RewriteStatus::TooSoon);
}

#[test]
fn the_writer_reports_to_the_handle() {
    let (tx, _rx) = channel();
    let mut a = Aof::new(tx, 5, 30);
    a.appended(10);
    assert_eq!(a.size, 15);
    a.writer_died();
    assert!(!a.healthy);
    assert_eq!(a.write_errors, 1);
    assert!(!a.log(vec![1]));
    assert_eq!(a.write_errors, 2);
}

#[test]
fn a_new_log_gets_the_magic_bytes() {
    let o = opening(0);
    assert!(o.write_magic && o.size == 5);
    let o = opening(40);
    assert!(!o.write_magic && o.size == 40);
}

#[test]
fn policies_are_named_loosely() {
    assert_eq!(Fsync::parse("always"), Fsync::Always);
    assert_eq!(Fsync::parse("  ALWAYS\n"), Fsync::Always);
    assert_eq!(Fsync::parse("no"), Fsync::No);
    assert_eq!(Fsync::parse("Never"), Fsync::No);
    assert_eq!(Fsync::parse("everysec"), Fsync::EverySec);
    assert_eq!(Fsync::parse("bogus"), Fsync::EverySec);
    assert_eq!(Fsync::parse(""), Fsync::EverySec);
}

fn step(w: &mut Writer, e: WriterEvent) -> WriterAction {
    let a = w.decide(e);
    assert!(w.record(a, WriterResult::Done));
    a
}

#[test]
fn a_batch_is_pushed_according_to_the_policy() {
    let drained = WriterEvent::Drained { since_sync_ms: 10 };
    for (policy, sync) in [(Fsync::Always, true), (Fsync::EverySec, false), (Fsync::No, false)] {
        let mut w = Writer::new(policy);
        assert_eq!(step(&mut w, drained), WriterAction::Wait);
        assert_eq!(step(&mut w, WriterEvent::Frame), WriterAction::Append);
        assert_eq!(step(&mut w, WriterEvent::Frame), WriterAction::Append);
        assert_eq!(step(&mut w, drained), WriterAction::Push { sync });
        assert_eq!(w, Writer { policy, wrote: false, unsynced: !sync });
    }
}

#[test]
fn every_second_means_every_second() {
    let mut w = Writer::new(Fsync::EverySec);
    step(&mut w, WriterEvent::Frame);
    step(&mut w, WriterEvent::Drained { since_sync_ms: 999 });
    assert_eq!(step(&mut w, WriterEvent::Idle), WriterAction::Sync);
    assert_eq!(step(&mut w, WriterEvent::Idle), WriterAction::Wait);
    step(&mut w, WriterEvent::Frame);
    assert_eq!(
        step(&mut w, WriterEvent::Drained { since_sync_ms: 1000 }),
        WriterAction::Push { sync: true }
    );
    assert_eq!(step(&mut w, WriterEvent::Idle), WriterAction::Wait);
    let mut w = Writer::new(Fsync::No);
    step(&mut w, WriterEvent::Frame);
    step(&mut w, WriterEvent::Drained { since_sync_ms: 9999 });
    assert_eq!(step(&mut w, WriterEvent::Idle), WriterAction::Wait);
}

#[test]
fn a_rewrite_pushes_what_was_written_first() {
    let mut w = Writer::new(Fsync::Always);
    assert_eq!(w.decide(WriterEvent::Rewrite), WriterAction::Compact { push_first: false });
    step(&mut w, WriterEvent::Frame);
    let a = w.decide(WriterEvent::Rewrite);
    assert_eq!(a, WriterAction::Compact { push_first: true });
    assert!(w.record(a, WriterResult::Failed));
    assert!(w.wrote);
    assert!(w.record(a, WriterResult::Done));
    assert!(!w.wrote && !w.unsynced);
    assert!(!w.record(a, WriterResult::PushFailed));
}

#[test]
fn io_errors_end_the_writer_but_a_flush_does_not() {
    let mut w = Writer::new(Fsync::EverySec);
    assert!(!w.record(WriterAction::Append, WriterResult::Failed));
    assert!(!w.record(WriterAction::Sync, WriterResult::Failed));
    assert!(!w.record(WriterAction::Push { sync: false }, WriterResult::Failed));
    step(&mut w, WriterEvent::Frame);
    assert_eq!(w.decide(WriterEvent::Flush), WriterAction::Settle);
    assert!(w.record(WriterAction::Settle, WriterResult::Failed));
    assert_eq!(w, Writer::new(Fsync::EverySec));
    assert_eq!(w.decide(WriterEvent::Gone), WriterAction::Stop);
    assert!(!w.record(WriterAction::Stop, WriterResult::Done));
}

#[test]
fn background_compaction_waits_for_growth() {
    let mut m = Maintenance::new();
    assert!(!m.tick(99, false, 100));
    assert!(m.tick(100, false, 100));
    m.triggered(RewriteStatus::AlreadyRunning);
    assert!(m.tick(101, false, 100));
    m.triggered(RewriteStatus::Started);
    assert!(m.pending);
    assert!(!m.tick(500, true, 100));
    assert!(!m.tick(120, false, 100));
    assert_eq!(m, Maintenance { base: 120, pending: false });
    assert!(!m.tick(239, false, 100));
    assert!(m.tick(240, false, 100));
    let mut m = Maintenance { base: u64::MAX - 1, pending: false };
    assert!(!m.tick(u64::MAX - 1, false, 0));
    assert!(m.tick(u64::MAX, false, 0));
}

fn log_file(rx: &Receiver<AofMsg>) -> Vec<u8> {
    let mut log = aof_magic();
    while let Ok(AofMsg::Frame(f)) = rx.try_recv() {
        log.extend(f);
    }
    log
}

#[test]
fn an_expired_set_does_not_bring_back_what_it_overwrote() {
    let mut log = encode_frame(ACT_SET, b"k", b"a", 0);
    log.extend(encode_frame(ACT_SET, b"k", b"b", 1));
    let mut s = Server::new(1048576, None);
    assert_eq!(replay_at(&mut s, &log, 2), 1);
    assert_eq!(apply(&mut s, 2, ACT_GET, b"k", b"", 0), vec![0x44]);
    let mut t = Server::new(1048576, None);
    assert_eq!(replay_aof(&mut t, &log), 1);
    assert_eq!(t.cache.len(), 0);
    // A collection made under the key afterwards is not lost.
    log.extend(encode_frame(ACT_HSET, b"k", &args(&[b"f", b"1"]), 0));
    let mut u = Server::new(1048576, None);
    assert_eq!(replay_at(&mut u, &log, 2), 2);
    assert_eq!(u.cache.snapshot(2), vec![(b"k".to_vec(), "hash", 26, 1, None)]);
}

#[test]
fn a_restart_restores_after_many_overwrites_and_expiries() {
    let (mut s, rx) = logging(400, 30);
    for i in 0..1000u32 {
        apply(&mut s, NOW, ACT_SET, b"counter", i.to_string().as_bytes(), 0);
        apply(&mut s, NOW, ACT_GET, b"counter", b"", 0);
    }
    apply(&mut s, NOW, ACT_SET, b"k", b"old", 0);
    apply(&mut s, NOW, ACT_SET, b"k", b"brief", 5);
    apply(&mut s, NOW, ACT_SET, b"m", b"old", 0);
    apply(&mut s, NOW, ACT_SET, b"m", b"brief", 5);
    apply(&mut s, NOW + 7, ACT_HSET, b"m", &args(&[b"f", b"1"]), 0);
    let mut t = Server::new(400, None);
    replay_at(&mut t, &log_file(&rx), NOW + 9);
    let mut a = s.cache.snapshot(NOW + 9);
    let mut b = t.cache.snapshot(NOW + 9);
    a.sort();
    b.sort();
    assert_eq!(a, b);
    assert_eq!(a.len(), 2);
}

#[test]
fn a_restart_goes_through_the_same_evictions() {
    let (mut s, rx) = logging(230, 30);
    for k in [b"a", b"b", b"c", b"d", b"a", b"e"] {
        apply(&mut s, NOW, ACT_SET, k, b"v", 0);
    }
    let log = log_file(&rx);
    let mut t = Server::new(230, None);
    assert_eq!(replay_at(&mut t, &log, NOW + 1), 9);
    assert_eq!(t.cache.snapshot(NOW), s.cache.snapshot(NOW));
    let keys: Vec<Vec<u8>> = t.cache.snapshot(NOW).into_iter().map(|i| i.0).collect();
    assert_eq!(keys, vec![b"e".to_vec(), b"a".to_vec(), b"d".to_vec()]);
    // With room to spare, what was evicted stays gone all the same.
    let mut u = Server::new(1 << 20, None);
    replay_at(&mut u, &log, NOW + 1);
    assert_eq!(u.cache.snapshot(NOW), s.cache.snapshot(NOW));
}

#[test]
fn a_restart_after_a_compaction_restores_what_came_after() {
    let (mut s, rx) = logging(1 << 20, 30);
    fill(&mut s);
    assert!(matches!(trigger_rewrite_at(&mut s, NOW, 60_000, false), RewriteStatus::Started));
    apply(&mut s, NOW, ACT_SET, b"plain", b"v3", 0);
    apply(&mut s, NOW, ACT_DEL, b"set", b"", 0);
    let mut file = Vec::new();
    while let Ok(m) = rx.try_recv() {
        match m {
            AofMsg::Rewrite(frames) => file = frames.concat(),
            AofMsg::Frame(f) => file.extend(f),
            AofMsg::Flush(_) => {}
        }
    }
    let mut t = Server::new(1 << 20, None);
    replay_at(&mut t, &file, NOW + 3);
    assert_eq!(t.cache.snapshot(NOW + 3), s.cache.snapshot(NOW + 3));
}

#[test]
fn an_expired_set_larger_than_the_cache_removes_the_key_too() {
    let mut log = encode_frame(ACT_SET, b"k", b"a", 0);
    log.extend(encode_frame(ACT_SET, b"k", &[0; 500], 1));
    let mut s = Server::new(400, None);
    assert_eq!(replay_at(&mut s, &log, 2), 1);
    assert_eq!(s.cache.len(), 0);
}

#[test]
fn a_restart_with_expiries_goes_through_the_same_evictions() {
    let (mut s, rx) = logging(230, 30);
    for (k, ttl) in [(b"a", 5), (b"b", 0), (b"c", 500), (b"d", 0), (b"e", 6), (b"b", 0), (b"f", 0)] {
        apply(&mut s, NOW, ACT_SET, k, b"v", ttl);
    }
    let mut t = Server::new(230, None);
    replay_at(&mut t, &log_file(&rx), NOW + 9);
    assert_eq!(t.cache.snapshot(NOW + 9), s.cache.snapshot(NOW + 9));
    let keys: Vec<Vec<u8>> = t.cache.snapshot(NOW + 9).into_iter().map(|i| i.0).collect();
    assert_eq!(keys, vec![b"f".to_vec(), b"b".to_vec()]);
}

#[test]
fn a_failed_fsync_is_fatal_where_it_is_owed_every_second() {
    for (policy, lives) in [(Fsync::EverySec, false), (Fsync::Always, true)] {
        let mut w = Writer::new(policy);
        assert!(w.record(WriterAction::Append, WriterResult::Done));
        let push = w.decide(WriterEvent::Drained { since_sync_ms: 1000 });
        assert_eq!(push, WriterAction::Push { sync: true });
        assert_eq!(w.record(push, WriterResult::SyncFailed), lives);
    }
    let mut w = Writer::new(Fsync::EverySec);
    assert!(!w.record(WriterAction::Sync, WriterResult::Failed));
}

#[test]
fn messages_are_told_apart() {
    assert_eq!(AofMsg::Frame(vec![]).event(), WriterEvent::Frame);
    assert_eq!(AofMsg::Rewrite(vec![]).event(), WriterEvent::Rewrite);
    assert_eq!(AofMsg::Flush(channel().0).event(), WriterEvent::Flush);
}
