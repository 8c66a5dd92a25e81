//! The store over its append log: replay, tombstones, growth,
//! compaction, and the header invariant.

use kvlog::buffer::Buffer;
use kvlog::store::Store;
use kvlog::Error;

#[test]
fn get_from_empty_store_is_key_not_found() {
    let s = Store::open(Vec::new()).unwrap();
    assert!(matches!(s.get("missing"), Err(Error::KeyNotFound)));
}

#[test]
fn put_then_get() {
    let mut s = Store::open(Vec::new()).unwrap();
    s.put(&Buffer::from_i32("answer", 42)).unwrap();
    let b = s.get("answer").unwrap();
    assert_eq!(b.key(), "answer");
    assert_eq!(b.decode_i32(), Ok(42));
}

#[test]
fn later_put_overrides_earlier() {
    let mut s = Store::open(Vec::new()).unwrap();
    s.put(&Buffer::from_i32("k", 1)).unwrap();
    s.put(&Buffer::from_i32("k", 2)).unwrap();
    assert_eq!(s.get("k").unwrap().decode_i32(), Ok(2));
}

#[test]
fn get_with_wrong_type_is_type_mismatch() {
    let mut s = Store::open(Vec::new()).unwrap();
    s.put(&Buffer::from_i32("n", 5)).unwrap();
    assert_eq!(s.get("n").unwrap().decode_str(), Err(Error::TypeMissMatch));
}

#[test]
fn delete_then_get_is_key_not_found_but_log_keeps_bytes() {
    let mut s = Store::open(Vec::new()).unwrap();
    s.put(&Buffer::from_i32("k", 9)).unwrap();
    let before = s.log_size();
    s.delete("k").unwrap();
    // The read reports the key gone ...
    assert!(matches!(s.get("k"), Err(Error::KeyNotFound)));
    // ... yet the log physically grew by the tombstone record.
    assert!(s.log_size() > before);
}

#[test]
fn header_equals_sum_of_record_lengths() {
    let records = [
        Buffer::from_i32("a", 1),
        Buffer::form_str("b", "two"),
        Buffer::from_bool("c", true),
        Buffer::tombstone("a"),
    ];
    let mut s = Store::open(Vec::new()).unwrap();
    let mut expected = 0usize;
    for r in &records {
        expected += r.to_bytes().unwrap().len();
        s.put(r).unwrap();
        assert_eq!(s.log_size(), expected);
    }
}

#[test]
fn scenario_put_put_delete_reopen() {
    let mut s = Store::open(Vec::new()).unwrap();
    s.put(&Buffer::from_i32("a", 42)).unwrap();
    s.put(&Buffer::form_str("b", "hi")).unwrap();
    s.delete("a").unwrap();

    let region = s.region_bytes().clone();
    let reopened = Store::open(region).unwrap();
    assert!(matches!(reopened.get("a"), Err(Error::KeyNotFound)));
    assert_eq!(
        reopened.get("b").unwrap().decode_str(),
        Ok(String::from("hi"))
    );
}

#[test]
fn replay_rebuilds_identical_reads() {
    let mut s = Store::open(Vec::new()).unwrap();
    s.put(&Buffer::from_i32("x", 1)).unwrap();
    s.put(&Buffer::form_str("y", "one")).unwrap();
    s.delete("x").unwrap();
    s.put(&Buffer::from_i32("x", 2)).unwrap();
    s.put(&Buffer::from_bool("z", false)).unwrap();
    s.delete("y").unwrap();

    let reopened = Store::open(s.region_bytes().clone()).unwrap();
    assert_eq!(reopened.get("x").unwrap().decode_i32(), Ok(2));
    assert!(matches!(reopened.get("y"), Err(Error::KeyNotFound)));
    assert_eq!(reopened.get("z").unwrap().decode_bool(), Ok(false));
}

#[test]
fn growth_preserves_earlier_records_byte_for_byte() {
    // The fresh region holds 128 bytes; these records force the region
    // through several doublings.
    let mut s = Store::open(Vec::new()).unwrap();
    let mut expected: Vec<u8> = Vec::new();
    let mut keys: Vec<String> = Vec::new();
    for i in 0..40 {
        let key = format!("key-number-{i}");
        let b = Buffer::from_i64(&key, i * 1_000_000_007);
        expected.extend_from_slice(&b.to_bytes().unwrap());
        s.put(&b).unwrap();
        keys.push(key);
    }
    let region = s.region_bytes();
    assert!(region.len() >= 512, "expected at least two growth steps");
    // Byte-exact: the data range is the concatenation of every record
    // as it was first encoded.
    assert_eq!(&region[8..8 + expected.len()], expected.as_slice());
    // And every key still reads back.
    for (i, key) in keys.iter().enumerate() {
        assert_eq!(
            s.get(key).unwrap().decode_i64(),
            Ok(i as i64 * 1_000_000_007)
        );
    }
}

#[test]
fn compaction_preserves_reads_and_never_grows_the_log() {
    let mut s = Store::open(Vec::new()).unwrap();
    for i in 0..10 {
        s.put(&Buffer::from_i32("churn", i)).unwrap();
    }
    s.put(&Buffer::form_str("kept", "value")).unwrap();
    s.put(&Buffer::from_bool("doomed", true)).unwrap();
    s.delete("doomed").unwrap();

    let size_before = s.log_size();
    s.compact();
    let size_after = s.log_size();

    assert!(size_after <= size_before);
    assert_eq!(s.get("churn").unwrap().decode_i32(), Ok(9));
    assert_eq!(s.get("kept").unwrap().decode_str(), Ok(String::from("value")));
    assert!(matches!(s.get("doomed"), Err(Error::KeyNotFound)));
    assert!(matches!(s.get("never"), Err(Error::KeyNotFound)));

    // A store reopened from the compacted log sees the same state.
    let reopened = Store::open(s.region_bytes().clone()).unwrap();
    assert_eq!(reopened.get("churn").unwrap().decode_i32(), Ok(9));
    assert!(matches!(reopened.get("doomed"), Err(Error::KeyNotFound)));
}

#[test]
fn compacted_tombstoned_key_is_absent_after_reopen() {
    let mut s = Store::open(Vec::new()).unwrap();
    s.put(&Buffer::from_i32("a", 1)).unwrap();
    s.delete("a").unwrap();
    s.compact();
    // The tombstone itself was dropped: the log is empty again.
    assert_eq!(s.log_size(), 0);
    let reopened = Store::open(s.region_bytes().clone()).unwrap();
    assert!(matches!(reopened.get("a"), Err(Error::KeyNotFound)));
}

#[test]
fn live_size_tracks_the_latest_live_records() {
    let mut s = Store::open(Vec::new()).unwrap();
    assert_eq!(s.live_size(), 0);

    let a = Buffer::from_i32("a", 1);
    let b = Buffer::form_str("b", "text");
    let a_len = a.to_bytes().unwrap().len();
    let b_len = b.to_bytes().unwrap().len();

    s.put(&a).unwrap();
    s.put(&b).unwrap();
    assert_eq!(s.live_size(), a_len + b_len);
    // A superseded record counts once, at its latest size.
    s.put(&Buffer::from_i32("a", 2)).unwrap();
    assert_eq!(s.live_size(), a_len + b_len);
    // A tombstoned key counts as nothing, though the log grew.
    s.delete("b").unwrap();
    assert_eq!(s.live_size(), a_len);
    assert!(s.live_size() < s.log_size());
    // Compaction brings the log down to exactly the live bytes.
    s.compact();
    assert_eq!(s.log_size(), s.live_size());
    assert_eq!(s.live_size(), a_len);
}

#[test]
fn open_rejects_header_larger_than_region() {
    // Eight header bytes claiming 99 data bytes, but none follow.
    let region = vec![0, 0, 0, 0, 0, 0, 0, 99];
    assert!(matches!(Store::open(region), Err(Error::DecodeFailed(_))));
}

#[test]
fn open_rejects_corrupt_record() {
    let mut s = Store::open(Vec::new()).unwrap();
    s.put(&Buffer::from_i32("abc", 7)).unwrap();
    let mut region = s.region_bytes().clone();
    // Overwrite the record's type tag (after the 8-byte header, the
    // 4-byte key length and the 3 key bytes) with an unknown one.
    region[8 + 7] = 0x77;
    assert!(matches!(Store::open(region), Err(Error::DecodeFailed(_))));
}

#[test]
fn empty_key_put_is_encode_failed_and_changes_nothing() {
    let mut s = Store::open(Vec::new()).unwrap();
    let before = s.log_size();
    assert!(matches!(
        s.put(&Buffer::from_i32("", 1)),
        Err(Error::EncodeFailed(_))
    ));
    assert_eq!(s.log_size(), before);
}
