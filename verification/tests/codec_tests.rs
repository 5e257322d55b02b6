use kvs::{
    encode_command, open_entry, read_command, read_str, Command, Index, IndexEntry, Offset,
    ReaderIterator, VALUE_OFFSET,
};

fn put(value: &str, key: &str) -> Command {
    Command::Put { value: value.to_string(), key: key.to_string() }
}

fn rm(key: &str) -> Command {
    Command::Remove { key: key.to_string() }
}

#[test]
fn put_round_trip() {
    let bytes = encode_command(&put("world", "hello")).unwrap();
    let (c, end) = read_command(&bytes, 0).unwrap();
    assert_eq!(end, bytes.len());
    match c {
        Command::Put { value, key } => {
            assert_eq!(value, "world");
            assert_eq!(key, "hello");
        }
        other => panic!("wrong command: {:?}", other),
    }
}

#[test]
fn remove_round_trip() {
    let bytes = encode_command(&rm("hello")).unwrap();
    let (c, end) = read_command(&bytes, 0).unwrap();
    assert_eq!(end, bytes.len());
    match c {
        Command::Remove { key } => assert_eq!(key, "hello"),
        other => panic!("wrong command: {:?}", other),
    }
}

#[test]
fn empty_strings_round_trip() {
    let bytes = encode_command(&put("", "")).unwrap();
    assert_eq!(bytes, vec![0x92, 0x00, 0x92, 0xa0, 0xa0]);
    let (c, end) = read_command(&bytes, 0).unwrap();
    assert_eq!(end, 5);
    match c {
        Command::Put { value, key } => {
            assert_eq!(value, "");
            assert_eq!(key, "");
        }
        other => panic!("wrong command: {:?}", other),
    }
}

#[test]
fn multibyte_strings_round_trip() {
    let value = "h\u{e9}llo \u{2192} \u{1f980}";
    let key = "cl\u{e9}";
    let bytes = encode_command(&put(value, key)).unwrap();
    let (c, _) = read_command(&bytes, 0).unwrap();
    match c {
        Command::Put { value: v, key: k } => {
            assert_eq!(v, value);
            assert_eq!(k, key);
        }
        other => panic!("wrong command: {:?}", other),
    }
}

#[test]
fn longer_strings_use_wider_headers() {
    for n in [31usize, 32, 255, 256, 65535, 65536] {
        let value = "v".repeat(n);
        let bytes = encode_command(&put(&value, "k")).unwrap();
        let (c, end) = read_command(&bytes, 0).unwrap();
        assert_eq!(end, bytes.len());
        match c {
            Command::Put { value: v, key } => {
                assert_eq!(v, value);
                assert_eq!(key, "k");
            }
            other => panic!("wrong command: {:?}", other),
        }
    }
}

#[test]
fn value_sits_at_fixed_offset() {
    let bytes = encode_command(&put("the value", "the key")).unwrap();
    assert_eq!(VALUE_OFFSET, 3);
    let (v, _) = read_str(&bytes, 3).unwrap();
    assert_eq!(v, "the value");
}

#[test]
fn framing_is_three_single_byte_headers() {
    let bytes = encode_command(&put("v", "k")).unwrap();
    assert_eq!(&bytes[0..3], &[0x92, 0x00, 0x92]);
    let bytes = encode_command(&rm("k")).unwrap();
    assert_eq!(&bytes[0..3], &[0x92, 0x01, 0x91]);
}

#[test]
fn matches_reference_messagepack() {
    // a Put encodes exactly like MessagePack's [0, [value, key]]
    let mine = encode_command(&put("world", "hello")).unwrap();
    let reference = rmp_serde::to_vec(&(0u8, ("world", "hello"))).unwrap();
    assert_eq!(mine, reference);
    // a Remove encodes exactly like MessagePack's [1, [key]]
    let mine = encode_command(&rm("hello")).unwrap();
    let reference = rmp_serde::to_vec(&(1u8, ("hello",))).unwrap();
    assert_eq!(mine, reference);
    // a longer string, exercising the wider headers
    let long = "z".repeat(300);
    let mine = encode_command(&put(&long, "k")).unwrap();
    let reference = rmp_serde::to_vec(&(0u8, (long.as_str(), "k"))).unwrap();
    assert_eq!(mine, reference);
    // and the reference decoder reads my bytes back
    let mine = encode_command(&put("a", "b")).unwrap();
    let (tag, (value, key)): (u8, (String, String)) = rmp_serde::from_slice(&mine).unwrap();
    assert_eq!(tag, 0);
    assert_eq!(value, "a");
    assert_eq!(key, "b");
}

#[test]
fn reader_iterator_walks_records() {
    let mut stream = encode_command(&put("1", "a")).unwrap();
    let second = encode_command(&rm("a")).unwrap();
    let first_len = stream.len();
    stream.extend_from_slice(&second);
    let mut it = ReaderIterator::init(&stream);
    let (c1, off1, len1) = it.next().unwrap().unwrap();
    assert!(matches!(c1, Command::Put { .. }));
    assert_eq!(off1.get(), 3);
    assert_eq!(len1 as usize, first_len);
    let (c2, off2, len2) = it.next().unwrap().unwrap();
    assert!(matches!(c2, Command::Remove { .. }));
    assert_eq!(off2.get() as usize, first_len + 3);
    assert_eq!(len2 as usize, second.len());
    assert!(it.next().is_none());
    assert_eq!(it.offset(), stream.len());
}

#[test]
fn truncated_record_stops_the_walk() {
    let mut stream = encode_command(&put("value", "key")).unwrap();
    stream.truncate(stream.len() - 1);
    let mut it = ReaderIterator::init(&stream);
    match it.next() {
        Some(Err(kvs::Error::Decode)) => {}
        other => panic!("expected a decode error, got {:?}", other),
    }
    assert_eq!(it.offset(), 0);
}

#[test]
fn garbage_does_not_decode() {
    assert!(read_command(&[0xff, 0x00, 0x01], 0).is_none());
    assert!(read_command(&[], 0).is_none());
    // a record with an invalid UTF-8 body is refused
    let bad = vec![0x92, 0x01, 0x91, 0xa1, 0xff];
    assert!(read_command(&bad, 0).is_none());
}

#[test]
fn open_entry_applies_the_replay_rule() {
    let mut index = Index::new();
    let put_record = (put("1", "a"), Offset::from_record_start(0), 10u64);
    assert_eq!(open_entry(0, &mut index, put_record), 0);
    // overwriting turns the old record's bytes dead
    let put_again = (put("2", "a"), Offset::from_record_start(10), 12u64);
    assert_eq!(open_entry(0, &mut index, put_again), 10);
    // removing kills the entry and the remove record itself
    let rm_record = (rm("a"), Offset::from_record_start(22), 7u64);
    assert_eq!(open_entry(0, &mut index, rm_record), 12 + 7);
    // removing an absent key costs only the remove record
    let rm_again = (rm("a"), Offset::from_record_start(29), 7u64);
    assert_eq!(open_entry(0, &mut index, rm_again), 7);
    let _ = IndexEntry { log_index: 0, offset: Offset::from_record_start(0), length: 1 };
}
