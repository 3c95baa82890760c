//! The cache and the commands on it.
use picodb::bytemap::ByteMap;
use picodb::commands::{arr_header_count, execute, reply_count, would_run, Outcome};
use picodb::lru::{entry_size, LruCache};
use picodb::protocol::{
    arr_item, ACT_DEL, ACT_FLUSH, ACT_GET, ACT_HDEL, ACT_HGET, ACT_HGETALL, ACT_HLEN, ACT_HSET,
    ACT_LLEN, ACT_LPOP, ACT_LPUSH, ACT_LRANGE, ACT_RPOP, ACT_RPUSH, ACT_SADD, ACT_SCARD, ACT_SET,
    ACT_SISMEMBER, ACT_SMEMBERS, ACT_SREM, ACT_TYPE,
};
use picodb::value::Value;
use std::collections::VecDeque;

const NOW: u64 = 1_000;

fn args(items: &[&[u8]]) -> Vec<u8> {
    let mut v = Vec::new();
    for i in items {
        arr_item(&mut v, i);
    }
    v
}

fn at(c: &mut LruCache, now: u64, action: u8, key: &[u8], value: &[u8], ttl: u32) -> Vec<u8> {
    let mut out = Vec::new();
    execute(c, now, action, key, value, ttl, &mut out);
    out
}

fn run(c: &mut LruCache, action: u8, key: &[u8], value: &[u8]) -> Vec<u8> {
    at(c, NOW, action, key, value, 0)
}

fn outcome(c: &mut LruCache, action: u8, key: &[u8], value: &[u8]) -> Outcome {
    let mut out = Vec::new();
    execute(c, NOW, action, key, value, 0, &mut out)
}

fn number(n: i64) -> Vec<u8> {
    let mut v = vec![0];
    v.extend(n.to_be_bytes());
    v
}

fn bulk(d: &[u8]) -> Vec<u8> {
    let mut v = vec![0];
    v.extend((d.len() as u32).to_be_bytes());
    v.extend(d);
    v
}

fn array(items: &[&[u8]]) -> Vec<u8> {
    let mut v = vec![0];
    v.extend((items.len() as u32).to_be_bytes());
    v.extend(args(items));
    v
}

fn range(start: i64, stop: i64) -> Vec<u8> {
    let mut v = start.to_be_bytes().to_vec();
    v.extend(stop.to_be_bytes());
    v
}

fn keys(c: &LruCache) -> Vec<Vec<u8>> {
    c.snapshot(0).into_iter().map(|i| i.0).collect()
}

#[test]
fn a_byte_map_binds_and_forgets() {
    let mut m: ByteMap<u32> = ByteMap::new();
    assert!(m.is_empty());
    assert_eq!(m.insert(b"a".to_vec(), 1), None);
    assert_eq!(m.insert(b"b".to_vec(), 2), None);
    assert_eq!(m.insert(b"c".to_vec(), 3), None);
    assert_eq!(m.insert(b"a".to_vec(), 4), Some(1));
    assert_eq!(m.len(), 3);
    assert_eq!(m.get(b"a"), Some(&4));
    assert_eq!(m.get(b"x"), None);
    assert_eq!(m.find(b"c"), Some(2));
    assert_eq!(m.remove(b"a"), Some(4));
    assert_eq!(m.remove(b"a"), None);
    assert_eq!(m.key_at(0), &b"c".to_vec());
    assert_eq!(*m.value_at(1), 2);
    assert!(m.contains_key(b"b"));
    assert!(!m.contains_key(b"a"));
}

#[test]
fn a_byte_map_holds_many_keys() {
    let mut m: ByteMap<usize> = ByteMap::new();
    for i in 0..2000usize {
        m.insert(format!("key{i}").into_bytes(), i);
    }
    for i in (0..2000usize).step_by(3) {
        assert_eq!(m.remove(format!("key{i}").as_bytes()), Some(i));
    }
    for i in 0..2000usize {
        let want = if i % 3 == 0 { None } else { Some(i) };
        assert_eq!(m.get(format!("key{i}").as_bytes()).copied(), want);
    }
}

#[test]
fn sizes_and_kinds_of_values() {
    let s = Value::Str(b"hello".to_vec());
    assert_eq!((s.mem_size(), s.kind_name(), s.cardinality()), (5, "string", 5));
    assert!(!s.is_empty_collection());
    let mut h = ByteMap::new();
    h.insert(b"f".to_vec(), b"vv".to_vec());
    let h = Value::Hash(h);
    assert_eq!((h.mem_size(), h.kind_name(), h.cardinality()), (27, "hash", 1));
    let l = Value::List(VecDeque::from(vec![b"a".to_vec(), b"bc".to_vec()]));
    assert_eq!((l.mem_size(), l.kind_name(), l.cardinality()), (51, "list", 2));
    let m = Value::Members(ByteMap::new());
    assert_eq!((m.mem_size(), m.kind_name(), m.cardinality()), (0, "set", 0));
    assert!(m.is_empty_collection());
    assert!(!Value::Str(Vec::new()).is_empty_collection());
    assert_eq!(entry_size(b"key", &s), 3 + 5 + 72);
}

#[test]
fn get_returns_what_set_stored_until_it_expires() {
    let mut c = LruCache::new(1 << 20);
    assert_eq!(at(&mut c, NOW, ACT_SET, b"k", b"v", 10), vec![0]);
    assert_eq!(at(&mut c, NOW + 9, ACT_GET, b"k", b"", 0), bulk(b"v"));
    assert_eq!(at(&mut c, NOW + 10, ACT_GET, b"k", b"", 0), vec![0x44]);
    assert_eq!(c.len(), 0);
    assert_eq!(c.used(), 0);
}

#[test]
fn set_replaces_a_value_and_its_expiry() {
    let mut c = LruCache::new(1 << 20);
    at(&mut c, NOW, ACT_SET, b"k", b"old value", 10);
    at(&mut c, NOW, ACT_SET, b"k", b"new", 0);
    assert_eq!(at(&mut c, NOW + 100, ACT_GET, b"k", b"", 0), bulk(b"new"));
    assert_eq!(c.used(), 1 + 3 + 72);
    assert_eq!(c.len(), 1);
}

#[test]
fn an_expiry_past_the_end_of_time_wraps() {
    let mut c = LruCache::new(1 << 20);
    at(&mut c, u64::MAX, ACT_SET, b"k", b"v", 2);
    assert_eq!(at(&mut c, 0, ACT_GET, b"k", b"", 0), bulk(b"v"));
    assert_eq!(at(&mut c, 1, ACT_GET, b"k", b"", 0), vec![0x44]);
}

#[test]
fn get_counts_hits_and_misses() {
    let mut c = LruCache::new(1 << 20);
    let o = outcome(&mut c, ACT_GET, b"k", b"");
    assert!(o.done && o.miss && !o.hit);
    run(&mut c, ACT_SET, b"k", b"v");
    let o = outcome(&mut c, ACT_GET, b"k", b"");
    assert!(o.done && o.hit && !o.miss);
    run(&mut c, ACT_SADD, b"s", &args(&[b"m"]));
    let o = outcome(&mut c, ACT_GET, b"s", b"");
    assert!(o.done && !o.hit && !o.miss);
}

#[test]
fn del_and_flush_remove() {
    let mut c = LruCache::new(1 << 20);
    run(&mut c, ACT_SET, b"a", b"1");
    run(&mut c, ACT_SET, b"b", b"2");
    assert_eq!(run(&mut c, ACT_DEL, b"a", b""), vec![0]);
    assert_eq!(run(&mut c, ACT_DEL, b"a", b""), vec![0x44]);
    assert_eq!(run(&mut c, ACT_GET, b"b", b""), bulk(b"2"));
    assert_eq!(run(&mut c, ACT_FLUSH, b"", b""), vec![0]);
    assert_eq!(run(&mut c, ACT_GET, b"b", b""), vec![0x44]);
    assert_eq!((c.len(), c.used()), (0, 0));
}

#[test]
fn del_of_an_expired_key_reports_it_missing() {
    let mut c = LruCache::new(1 << 20);
    at(&mut c, NOW, ACT_SET, b"k", b"v", 5);
    assert_eq!(at(&mut c, NOW + 5, ACT_DEL, b"k", b"", 0), vec![0x44]);
    assert_eq!(c.len(), 0);
}

#[test]
fn type_names_the_value() {
    let mut c = LruCache::new(1 << 20);
    run(&mut c, ACT_SET, b"s", b"v");
    run(&mut c, ACT_HSET, b"h", &args(&[b"f", b"v"]));
    run(&mut c, ACT_RPUSH, b"l", &args(&[b"i"]));
    run(&mut c, ACT_SADD, b"m", &args(&[b"i"]));
    assert_eq!(run(&mut c, ACT_TYPE, b"s", b""), bulk(b"string"));
    assert_eq!(run(&mut c, ACT_TYPE, b"h", b""), bulk(b"hash"));
    assert_eq!(run(&mut c, ACT_TYPE, b"l", b""), bulk(b"list"));
    assert_eq!(run(&mut c, ACT_TYPE, b"m", b""), bulk(b"set"));
    assert_eq!(run(&mut c, ACT_TYPE, b"x", b""), bulk(b"none"));
}

#[test]
fn hash_commands() {
    let mut c = LruCache::new(1 << 20);
    assert_eq!(run(&mut c, ACT_HSET, b"h", &args(&[b"f", b"1"])), number(1));
    assert_eq!(run(&mut c, ACT_HSET, b"h", &args(&[b"f", b"2"])), number(0));
    assert_eq!(run(&mut c, ACT_HSET, b"h", &args(&[b"g", b"3"])), number(1));
    assert_eq!(run(&mut c, ACT_HGET, b"h", &args(&[b"f"])), bulk(b"2"));
    assert_eq!(run(&mut c, ACT_HGET, b"h", &args(&[b"x"])), vec![0x44]);
    assert_eq!(run(&mut c, ACT_HGET, b"none", &args(&[b"x"])), vec![0x44]);
    assert_eq!(run(&mut c, ACT_HLEN, b"h", b""), number(2));
    assert_eq!(run(&mut c, ACT_HLEN, b"none", b""), number(0));
    assert_eq!(run(&mut c, ACT_HGETALL, b"h", b""), array(&[b"f", b"2", b"g", b"3"]));
    assert_eq!(run(&mut c, ACT_HGETALL, b"none", b""), array(&[]));
    assert_eq!(run(&mut c, ACT_HDEL, b"h", &args(&[b"f"])), number(1));
    assert_eq!(run(&mut c, ACT_HDEL, b"h", &args(&[b"f"])), number(0));
    assert_eq!(run(&mut c, ACT_HDEL, b"none", &args(&[b"f"])), number(0));
    assert_eq!(run(&mut c, ACT_HGET, b"h", &args(&[b"g"])), bulk(b"3"));
}

#[test]
fn an_emptied_collection_goes_with_all_its_bytes() {
    let mut c = LruCache::new(1 << 20);
    run(&mut c, ACT_HSET, b"h", &args(&[b"f", b"1"]));
    assert_eq!(c.used(), 1 + 72 + 26);
    run(&mut c, ACT_HDEL, b"h", &args(&[b"f"]));
    assert_eq!((c.len(), c.used()), (0, 0));
    run(&mut c, ACT_RPUSH, b"l", &args(&[b"i"]));
    run(&mut c, ACT_LPOP, b"l", b"");
    assert_eq!((c.len(), c.used()), (0, 0));
    run(&mut c, ACT_SADD, b"s", &args(&[b"m"]));
    run(&mut c, ACT_SREM, b"s", &args(&[b"m"]));
    assert_eq!((c.len(), c.used()), (0, 0));
}

#[test]
fn list_commands() {
    let mut c = LruCache::new(1 << 20);
    assert_eq!(run(&mut c, ACT_RPUSH, b"l", &args(&[b"a", b"b"])), number(2));
    assert_eq!(run(&mut c, ACT_LPUSH, b"l", &args(&[b"x", b"y"])), number(4));
    assert_eq!(run(&mut c, ACT_LLEN, b"l", b""), number(4));
    assert_eq!(run(&mut c, ACT_LLEN, b"none", b""), number(0));
    assert_eq!(
        run(&mut c, ACT_LRANGE, b"l", &range(0, -1)),
        array(&[b"y", b"x", b"a", b"b"])
    );
    assert_eq!(run(&mut c, ACT_LPOP, b"l", b""), bulk(b"y"));
    assert_eq!(run(&mut c, ACT_RPOP, b"l", b""), bulk(b"b"));
    assert_eq!(run(&mut c, ACT_LRANGE, b"l", &range(0, 10)), array(&[b"x", b"a"]));
    assert_eq!(run(&mut c, ACT_LPOP, b"none", b""), vec![0x44]);
    assert_eq!(run(&mut c, ACT_RPOP, b"none", b""), vec![0x44]);
}

#[test]
fn the_last_item_pushed_is_the_first_popped_at_the_same_end() {
    let mut c = LruCache::new(1 << 20);
    run(&mut c, ACT_RPUSH, b"l", &args(&[b"1", b"2", b"3"]));
    assert_eq!(run(&mut c, ACT_RPOP, b"l", b""), bulk(b"3"));
    run(&mut c, ACT_LPUSH, b"l", &args(&[b"7", b"8"]));
    assert_eq!(run(&mut c, ACT_LPOP, b"l", b""), bulk(b"8"));
    assert_eq!(run(&mut c, ACT_LRANGE, b"l", &range(0, -1)), array(&[b"7", b"1", b"2"]));
}

#[test]
fn ranges_are_cut_off_at_both_ends() {
    let mut c = LruCache::new(1 << 20);
    run(&mut c, ACT_RPUSH, b"l", &args(&[b"0", b"1", b"2", b"3"]));
    let mut r = |a: i64, b: i64| run(&mut c, ACT_LRANGE, b"l", &range(a, b));
    assert_eq!(r(1, 2), array(&[b"1", b"2"]));
    assert_eq!(r(-2, -1), array(&[b"2", b"3"]));
    assert_eq!(r(-100, 0), array(&[b"0"]));
    assert_eq!(r(2, 1), array(&[]));
    assert_eq!(r(4, 9), array(&[]));
    assert_eq!(r(0, -5), array(&[]));
    assert_eq!(r(i64::MIN, i64::MAX), array(&[b"0", b"1", b"2", b"3"]));
    assert_eq!(r(i64::MAX, i64::MIN), array(&[]));
    assert_eq!(run(&mut c, ACT_LRANGE, b"l", &[0; 15]), vec![0xFF]);
    assert_eq!(run(&mut c, ACT_LRANGE, b"none", &range(0, 1)), array(&[]));
}

#[test]
fn set_commands() {
    let mut c = LruCache::new(1 << 20);
    assert_eq!(run(&mut c, ACT_SADD, b"s", &args(&[b"a", b"b", b"a"])), number(2));
    assert_eq!(run(&mut c, ACT_SADD, b"s", &args(&[b"b", b"c"])), number(1));
    assert_eq!(run(&mut c, ACT_SCARD, b"s", b""), number(3));
    assert_eq!(run(&mut c, ACT_SCARD, b"none", b""), number(0));
    assert_eq!(run(&mut c, ACT_SISMEMBER, b"s", &args(&[b"b"])), number(1));
    assert_eq!(run(&mut c, ACT_SISMEMBER, b"s", &args(&[b"x"])), number(0));
    assert_eq!(run(&mut c, ACT_SISMEMBER, b"none", &args(&[b"x"])), number(0));
    assert_eq!(run(&mut c, ACT_SMEMBERS, b"s", b""), array(&[b"a", b"b", b"c"]));
    assert_eq!(run(&mut c, ACT_SMEMBERS, b"none", b""), array(&[]));
    assert_eq!(run(&mut c, ACT_SREM, b"s", &args(&[b"a", b"x", b"a"])), number(1));
    assert_eq!(run(&mut c, ACT_SREM, b"none", &args(&[b"a"])), number(0));
    assert_eq!(run(&mut c, ACT_SISMEMBER, b"s", &args(&[b"a"])), number(0));
    assert_eq!(run(&mut c, ACT_SISMEMBER, b"s", &args(&[b"c"])), number(1));
}

#[test]
fn malformed_arguments_get_an_error_and_change_nothing() {
    let mut c = LruCache::new(1 << 20);
    for action in [ACT_HSET, ACT_HGET, ACT_HDEL, ACT_LPUSH, ACT_RPUSH, ACT_SADD, ACT_SREM, ACT_SISMEMBER] {
        assert_eq!(run(&mut c, action, b"k", b"abc"), vec![0xFF]);
        assert_eq!(run(&mut c, action, b"k", b""), vec![0xFF]);
        assert!(!outcome(&mut c, action, b"k", b"").done);
    }
    assert_eq!(run(&mut c, ACT_HSET, b"k", &args(&[b"f"])), vec![0xFF]);
    assert_eq!(run(&mut c, ACT_HGET, b"k", &args(&[b"f", b"g"])), vec![0xFF]);
    assert_eq!(c.len(), 0);
}

#[test]
fn a_value_of_another_type_gets_an_error() {
    let mut c = LruCache::new(1 << 20);
    run(&mut c, ACT_SET, b"s", b"v");
    run(&mut c, ACT_SADD, b"m", &args(&[b"x"]));
    let one = args(&[b"x"]);
    let two = args(&[b"x", b"y"]);
    assert_eq!(run(&mut c, ACT_GET, b"m", b""), vec![0xFF]);
    for (action, value) in [
        (ACT_HSET, &two),
        (ACT_HGET, &one),
        (ACT_HDEL, &one),
        (ACT_LPUSH, &one),
        (ACT_RPUSH, &one),
        (ACT_SADD, &one),
        (ACT_SREM, &one),
        (ACT_SISMEMBER, &one),
    ] {
        assert_eq!(run(&mut c, action, b"s", value), vec![0xFF]);
    }
    for action in [ACT_HGETALL, ACT_HLEN, ACT_LPOP, ACT_RPOP, ACT_LLEN, ACT_SMEMBERS, ACT_SCARD] {
        assert_eq!(run(&mut c, action, b"s", b""), vec![0xFF]);
    }
    assert_eq!(run(&mut c, ACT_LRANGE, b"s", &range(0, 1)), vec![0xFF]);
    assert_eq!(run(&mut c, ACT_GET, b"s", b""), bulk(b"v"));
    assert!(!outcome(&mut c, ACT_LPUSH, b"s", &one).done);
    assert!(outcome(&mut c, ACT_HGET, b"s", &one).done);
}

#[test]
fn an_unknown_action_gets_an_error() {
    let mut c = LruCache::new(1 << 20);
    assert_eq!(run(&mut c, 0x99, b"k", b"v"), vec![0xFF]);
    assert!(outcome(&mut c, 0x99, b"k", b"v").done);
}

#[test]
fn the_least_recently_used_key_is_evicted_first() {
    // Each entry counts 1 + 1 + 72 bytes; three fit.
    let mut c = LruCache::new(3 * 74);
    for k in [b"a", b"b", b"c"] {
        run(&mut c, ACT_SET, k, b"1");
    }
    run(&mut c, ACT_GET, b"a", b"");
    run(&mut c, ACT_SET, b"d", b"1");
    assert_eq!(keys(&c), vec![b"d".to_vec(), b"a".to_vec(), b"c".to_vec()]);
    assert_eq!(c.drain_evicted(), vec![b"b".to_vec()]);
    assert_eq!(c.drain_evicted(), Vec::<Vec<u8>>::new());
    assert_eq!(c.used(), 222);
}

#[test]
fn eviction_goes_on_until_the_cap_is_met() {
    let mut c = LruCache::new(5 * 74);
    for k in [b"a", b"b", b"c", b"d", b"e"] {
        run(&mut c, ACT_SET, k, b"1");
    }
    run(&mut c, ACT_TYPE, b"b", b"");
    // 73 + 150 bytes leave room for one of the others.
    run(&mut c, ACT_SET, b"x", &[0; 150]);
    assert_eq!(keys(&c), vec![b"x".to_vec(), b"b".to_vec()]);
    assert_eq!(c.drain_evicted(), vec![b"a".to_vec(), b"c".to_vec(), b"d".to_vec(), b"e".to_vec()]);
}

#[test]
fn the_key_just_written_is_never_evicted() {
    let mut c = LruCache::new(200);
    run(&mut c, ACT_SET, b"a", b"1");
    run(&mut c, ACT_SET, b"b", b"1");
    run(&mut c, ACT_SET, b"big", &[7; 500]);
    assert_eq!(keys(&c), vec![b"big".to_vec()]);
    assert_eq!(c.drain_evicted(), vec![b"a".to_vec(), b"b".to_vec()]);
    assert_eq!(c.used(), 575);
    assert_eq!(run(&mut c, ACT_GET, b"big", b""), bulk(&[7; 500]));
    run(&mut c, ACT_SET, b"c", b"1");
    assert_eq!(keys(&c), vec![b"c".to_vec()]);
}

#[test]
fn a_growing_collection_evicts_others() {
    let mut c = LruCache::new(300);
    run(&mut c, ACT_SET, b"a", b"1");
    for i in 0..8u8 {
        run(&mut c, ACT_RPUSH, b"l", &args(&[&[i]]));
    }
    assert_eq!(keys(&c), vec![b"l".to_vec()]);
    assert_eq!(c.used(), 73 + 8 * 25);
}

#[test]
fn reads_leave_every_live_value() {
    let mut c = LruCache::new(1 << 20);
    run(&mut c, ACT_SET, b"a", b"1");
    run(&mut c, ACT_HSET, b"h", &args(&[b"f", b"v"]));
    let before = c.used();
    for action in [ACT_GET, ACT_TYPE, ACT_HGETALL, ACT_HLEN, ACT_LLEN, ACT_SMEMBERS, ACT_SCARD] {
        run(&mut c, action, b"a", b"");
        run(&mut c, action, b"h", b"");
    }
    assert_eq!(c.used(), before);
    assert_eq!(run(&mut c, ACT_GET, b"a", b""), bulk(b"1"));
    assert_eq!(run(&mut c, ACT_HGET, b"h", &args(&[b"f"])), bulk(b"v"));
}

#[test]
fn slots_are_reused() {
    let mut c = LruCache::new(1 << 20);
    for round in 0..50u8 {
        for i in 0..20u8 {
            run(&mut c, ACT_SET, &[i], &[round]);
        }
        for i in (0..20u8).rev() {
            assert_eq!(run(&mut c, ACT_DEL, &[i], b""), vec![0]);
        }
    }
    assert_eq!((c.len(), c.used()), (0, 0));
}

#[test]
fn the_snapshot_hides_expired_keys() {
    let mut c = LruCache::new(1 << 20);
    at(&mut c, NOW, ACT_SET, b"soon", b"abc", 5);
    at(&mut c, NOW, ACT_SET, b"late", b"abcd", 50);
    at(&mut c, NOW, ACT_SADD, b"set", &args(&[b"m", b"n"]), 0);
    assert_eq!(
        c.snapshot(NOW + 5),
        vec![
            (b"set".to_vec(), "set", 50, 2, None),
            (b"late".to_vec(), "string", 4, 4, Some(45)),
        ]
    );
    assert_eq!(c.len(), 3);
    assert_eq!(c.cap(), 1 << 20);
}

#[test]
fn slab_and_list_operations() {
    let mut c = LruCache::new(1 << 20);
    let a = c.create(b"a".to_vec(), Value::Str(b"1".to_vec()), None, NOW);
    let b = c.create(b"b".to_vec(), Value::Str(b"2".to_vec()), None, NOW);
    assert_eq!(keys(&c), vec![b"b".to_vec(), b"a".to_vec()]);
    c.move_to_front(a);
    assert_eq!(keys(&c), vec![b"a".to_vec(), b"b".to_vec()]);
    assert_eq!(c.node_size(b), 74);
    assert_eq!(c.live_idx(b"b", NOW), Some(b));
    assert_eq!(c.live_idx(b"x", NOW), None);
    assert!(matches!(c.value_ref(b), Value::Str(v) if v == b"2"));
    if let Value::Str(v) = c.value_mut(b) {
        v.extend(b"345");
    }
    c.commit(b, 74);
    assert_eq!(c.used(), 74 + 77);
    c.set(b"c".to_vec(), Value::Str(Vec::new()), Some(5), NOW);
    assert!(!c.del(b"c", 5));
    c.remove_idx(a);
    assert!(c.evict_lru());
    assert!(!c.evict_lru());
    c.enforce_cap(None);
    assert_eq!((c.len(), c.used()), (0, 0));
}

#[test]
fn counts_are_written_whole() {
    let mut out = Vec::new();
    reply_count(&mut out, 300);
    assert_eq!(out, number(300));
    let mut out = Vec::new();
    arr_header_count(&mut out, 70000);
    assert_eq!(out, vec![0, 0, 1, 0x11, 0x70]);
}

#[test]
fn whether_a_write_would_run_is_known_beforehand() {
    let cases: [(u8, Vec<u8>); 11] = [
        (ACT_SET, b"v".to_vec()),
        (ACT_DEL, vec![]),
        (ACT_HSET, args(&[b"f", b"1"])),
        (ACT_HSET, args(&[b"f"])),
        (ACT_HDEL, args(&[b"f"])),
        (ACT_LPUSH, args(&[b"x"])),
        (ACT_RPUSH, vec![]),
        (ACT_LPOP, vec![]),
        (ACT_SADD, args(&[b"x"])),
        (ACT_SREM, b"bad".to_vec()),
        (ACT_FLUSH, vec![]),
    ];
    for (action, value) in &cases {
        for key in [&b"s"[..], b"h", b"l", b"m", b"gone", b"none"] {
            let mut c = LruCache::new(1 << 20);
            at(&mut c, NOW, ACT_SET, b"s", b"v", 0);
            at(&mut c, NOW, ACT_HSET, b"h", &args(&[b"f", b"1"]), 0);
            at(&mut c, NOW, ACT_RPUSH, b"l", &args(&[b"x", b"y"]), 0);
            at(&mut c, NOW, ACT_SADD, b"m", &args(&[b"x", b"y"]), 0);
            at(&mut c, NOW - 9, ACT_SET, b"gone", b"v", 9);
            let told = would_run(&c, NOW, *action, key, value);
            assert_eq!(told, outcome(&mut c, *action, key, value).done);
        }
    }
}

#[test]
fn peeking_is_no_access() {
    let mut c = LruCache::new(1 << 20);
    at(&mut c, NOW, ACT_SET, b"a", b"1", 5);
    at(&mut c, NOW, ACT_SET, b"b", b"2", 0);
    assert!(matches!(c.peek(b"a", NOW + 4), Some(Value::Str(_))));
    assert!(c.peek(b"a", NOW + 5).is_none());
    assert!(c.peek(b"c", NOW).is_none());
    assert_eq!(c.len(), 2);
    assert_eq!(c.snapshot(NOW)[0].0, b"b".to_vec());
}
