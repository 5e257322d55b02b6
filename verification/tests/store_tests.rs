use kvs::{log_path, Engine, Error, Segment, Store};

fn fresh() -> Store {
    Store::open(Vec::new())
}

fn reopen(store: &Store) -> Store {
    let mut segs: Vec<Segment> = Vec::new();
    for i in 0..store.segment_count() {
        let s = store.segment_at(i);
        segs.push(Segment::new(s.log_index(), s.data().clone()));
    }
    Store::open(segs)
}

fn total_bytes(store: &Store) -> usize {
    let mut sum = 0;
    for i in 0..store.segment_count() {
        sum += store.segment_at(i).data().len();
    }
    sum
}

fn max_index(store: &Store) -> u64 {
    let mut m = 0;
    for i in 0..store.segment_count() {
        let idx = store.segment_at(i).log_index();
        if idx > m {
            m = idx;
        }
    }
    m
}

#[test]
fn fresh_store_gets_nothing() {
    let mut store = fresh();
    assert_eq!(store.get("anything".to_string()).unwrap(), None);
    assert_eq!(store.get(String::new()).unwrap(), None);
}

#[test]
fn set_then_get() {
    let mut store = fresh();
    store.set("hello".to_string(), "world".to_string()).unwrap();
    assert_eq!(store.get("hello".to_string()).unwrap(), Some("world".to_string()));
    assert_eq!(store.get("missing".to_string()).unwrap(), None);
}

#[test]
fn overwrite() {
    let mut store = fresh();
    store.set("k".to_string(), "v1".to_string()).unwrap();
    store.set("k".to_string(), "v2".to_string()).unwrap();
    assert_eq!(store.get("k".to_string()).unwrap(), Some("v2".to_string()));
}

#[test]
fn remove_then_get() {
    let mut store = fresh();
    store.set("k".to_string(), "v".to_string()).unwrap();
    store.remove("k".to_string()).unwrap();
    assert_eq!(store.get("k".to_string()).unwrap(), None);
    let bytes_before = total_bytes(&store);
    match store.remove("k".to_string()) {
        Err(Error::KeyNotFound) => {}
        other => panic!("expected KeyNotFound, got {:?}", other),
    }
    // a failed remove appends nothing observable on the next replay
    assert_eq!(total_bytes(&store), bytes_before);
    let mut again = reopen(&store);
    assert_eq!(again.get("k".to_string()).unwrap(), None);
}

#[test]
fn set_twice_same_value_idempotent() {
    let mut store = fresh();
    store.set("k".to_string(), "v".to_string()).unwrap();
    store.set("k".to_string(), "v".to_string()).unwrap();
    assert_eq!(store.get("k".to_string()).unwrap(), Some("v".to_string()));
    assert_eq!(store.index_size(), 1);
}

#[test]
fn durability_after_restart() {
    let mut store = fresh();
    store.set("a".to_string(), "1".to_string()).unwrap();
    store.set("b".to_string(), "2".to_string()).unwrap();
    let mut again = reopen(&store);
    assert_eq!(again.get("a".to_string()).unwrap(), Some("1".to_string()));
    assert_eq!(again.get("b".to_string()).unwrap(), Some("2".to_string()));
    assert_eq!(again.get("c".to_string()).unwrap(), None);
}

#[test]
fn last_write_wins_over_history() {
    let mut store = fresh();
    store.set("a".to_string(), "1".to_string()).unwrap();
    store.set("b".to_string(), "2".to_string()).unwrap();
    store.set("a".to_string(), "3".to_string()).unwrap();
    store.remove("b".to_string()).unwrap();
    store.set("c".to_string(), "4".to_string()).unwrap();
    store.remove("c".to_string()).unwrap();
    store.set("c".to_string(), "5".to_string()).unwrap();
    assert_eq!(store.get("a".to_string()).unwrap(), Some("3".to_string()));
    assert_eq!(store.get("b".to_string()).unwrap(), None);
    assert_eq!(store.get("c".to_string()).unwrap(), Some("5".to_string()));
    // and the same after a restart
    let mut again = reopen(&store);
    assert_eq!(again.get("a".to_string()).unwrap(), Some("3".to_string()));
    assert_eq!(again.get("b".to_string()).unwrap(), None);
    assert_eq!(again.get("c".to_string()).unwrap(), Some("5".to_string()));
}

#[test]
fn empty_key_and_value_round_trip() {
    let mut store = fresh();
    store.set(String::new(), String::new()).unwrap();
    assert_eq!(store.get(String::new()).unwrap(), Some(String::new()));
    store.set("k".to_string(), String::new()).unwrap();
    assert_eq!(store.get("k".to_string()).unwrap(), Some(String::new()));
    let mut again = reopen(&store);
    assert_eq!(again.get(String::new()).unwrap(), Some(String::new()));
    assert_eq!(again.get("k".to_string()).unwrap(), Some(String::new()));
}

#[test]
fn large_value_round_trips_and_compacts() {
    let mut store = fresh();
    let big1 = "x".repeat(1 << 20);
    let big2 = "y".repeat(1 << 20);
    store.set("k".to_string(), big1.clone()).unwrap();
    assert_eq!(store.get("k".to_string()).unwrap(), Some(big1.clone()));
    let before = max_index(&store);
    // overwriting a megabyte turns it dead, which crosses the threshold
    store.set("k".to_string(), big2.clone()).unwrap();
    assert_eq!(store.get("k".to_string()).unwrap(), Some(big2.clone()));
    assert!(max_index(&store) >= before + 2, "no compaction happened");
    // after compaction only the live value remains on disk (plus framing)
    assert!(total_bytes(&store) < (1 << 20) + 1024);
    let mut again = reopen(&store);
    assert_eq!(again.get("k".to_string()).unwrap(), Some(big2));
}

#[test]
fn compaction_bounds_directory_size() {
    let mut store = fresh();
    let mut x: u64 = 0x2545f4914f6cdd1d;
    let mut last = String::new();
    for _ in 0..10000 {
        let mut v = String::with_capacity(200);
        for _ in 0..200 {
            x = x.wrapping_mul(6364136223846793005).wrapping_add(1442695040888963407);
            v.push((b'a' + (x >> 33) as u8 % 26) as char);
        }
        store.set("k".to_string(), v.clone()).unwrap();
        last = v;
    }
    // live bytes are ~200; the rest is bounded by the compaction threshold
    // plus what the loop appended since the last compaction fired
    assert!(total_bytes(&store) < 2 * 1024 * 1024 + 4096);
    assert_eq!(store.get("k".to_string()).unwrap(), Some(last));
    assert_eq!(store.index_size(), 1);
}

#[test]
fn index_size_bounded_by_keys_ever_set() {
    let mut store = fresh();
    store.set("a".to_string(), "1".to_string()).unwrap();
    store.set("b".to_string(), "2".to_string()).unwrap();
    store.set("a".to_string(), "3".to_string()).unwrap();
    store.set("c".to_string(), "4".to_string()).unwrap();
    store.remove("b".to_string()).unwrap();
    assert!(store.index_size() <= 3);
    assert_eq!(store.index_size(), 2);
}

#[test]
fn truncated_segment_replays_prefix() {
    let mut store = fresh();
    store.set("a".to_string(), "1".to_string()).unwrap();
    store.set("b".to_string(), "2".to_string()).unwrap();
    // cut the active segment in the middle of the second record
    let seg = store.segment_at(store.segment_count() - 1);
    let full = seg.data().clone();
    let mut cut = full.clone();
    cut.truncate(full.len() - 3);
    let mut again = Store::open(vec![Segment::new(seg.log_index(), cut)]);
    assert_eq!(again.get("a".to_string()).unwrap(), Some("1".to_string()));
    assert_eq!(again.get("b".to_string()).unwrap(), None);
    // the truncated record was discarded from the kept segment
    let kept = again.segment_at(again.segment_count() - 1);
    assert!(kept.data().len() < full.len() - 3);
}

#[test]
fn log_path_names() {
    assert_eq!(log_path(0).as_str(), "0.log");
    assert_eq!(log_path(7).as_str(), "7.log");
    assert_eq!(log_path(42).as_str(), "42.log");
    assert_eq!(log_path(1234567890).as_str(), "1234567890.log");
    assert_eq!(log_path(u64::MAX).as_str(), "18446744073709551615.log");
}

#[test]
fn later_segments_win_on_replay() {
    // the most recent record in (segment, offset) scan order decides
    let mut first = fresh();
    first.set("a".to_string(), "1".to_string()).unwrap();
    first.set("b".to_string(), "2".to_string()).unwrap();
    let seg0 = first.segment_at(first.segment_count() - 1);
    let mut second = fresh();
    second.set("a".to_string(), "3".to_string()).unwrap();
    second.remove("a".to_string()).unwrap();
    second.set("a".to_string(), "4".to_string()).unwrap();
    let seg1 = second.segment_at(second.segment_count() - 1);
    let mut merged = Store::open(vec![
        Segment::new(0, seg0.data().clone()),
        Segment::new(5, seg1.data().clone()),
    ]);
    assert_eq!(merged.get("a".to_string()).unwrap(), Some("4".to_string()));
    assert_eq!(merged.get("b".to_string()).unwrap(), Some("2".to_string()));
}

#[test]
fn removal_in_later_segment_wins() {
    let mut first = fresh();
    first.set("a".to_string(), "1".to_string()).unwrap();
    let seg0 = first.segment_at(first.segment_count() - 1);
    let mut second = fresh();
    second.set("a".to_string(), "x".to_string()).unwrap();
    second.remove("a".to_string()).unwrap();
    let seg1 = second.segment_at(second.segment_count() - 1);
    // keep only the remove record of the second log
    let cut: Vec<u8> = {
        let data = seg1.data().clone();
        let first_len = kvs::encode_command(&kvs::Command::Put {
            value: "x".to_string(),
            key: "a".to_string(),
        })
        .unwrap()
        .len();
        data[first_len..].to_vec()
    };
    let mut merged = Store::open(vec![
        Segment::new(0, seg0.data().clone()),
        Segment::new(1, cut),
    ]);
    assert_eq!(merged.get("a".to_string()).unwrap(), None);
}

#[test]
fn appended_value_sits_at_fixed_offset_in_segment() {
    let mut store = fresh();
    store.set("warmup".to_string(), "w".to_string()).unwrap();
    let start = store.segment_at(store.segment_count() - 1).data().len();
    store.set("key".to_string(), "the payload".to_string()).unwrap();
    let seg = store.segment_at(store.segment_count() - 1);
    let (value, _) = kvs::read_str(seg.data(), start + 3).unwrap();
    assert_eq!(value, "the payload");
}

#[test]
fn sort_indices_orders_and_dedups() {
    let sorted = kvs::sort_indices(&vec![5, 1, 3, 1, 5, 0]);
    assert_eq!(sorted, vec![0, 1, 3, 5]);
    assert_eq!(kvs::sort_indices(&Vec::new()), Vec::<u64>::new());
    assert_eq!(kvs::sort_indices(&vec![7, 7, 7]), vec![7]);
}
