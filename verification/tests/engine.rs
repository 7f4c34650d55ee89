use bitcask::data::data_file::DataFile;
use bitcask::db::{check_options, Engine, Options};
use bitcask::errors::Errors;
use bytes::Bytes;

fn opts(data_file_size: u64, sync_writes: bool) -> Options {
    Options { dir_path: String::from("store"), data_file_size, sync_writes }
}

fn fresh(data_file_size: u64) -> Engine {
    Engine::open(opts(data_file_size, false), Vec::new()).unwrap()
}

#[test]
fn basic_put_get_delete() {
    // Options: data_file_size = 1024, sync_writes = false.
    let mut e = fresh(1024);
    e.put(Bytes::from("a"), Bytes::from("1")).unwrap();
    e.put(Bytes::from("b"), Bytes::from("22")).unwrap();
    assert_eq!(e.get(Bytes::from("a")).unwrap(), Bytes::from("1"));
    assert_eq!(e.get(Bytes::from("b")).unwrap(), Bytes::from("22"));
    e.delete(Bytes::from("a")).unwrap();
    assert_eq!(e.get(Bytes::from("a")).unwrap_err(), Errors::KeyNotFound);
}

#[test]
fn round_trip() {
    let mut e = fresh(1024);
    e.put(Bytes::from("k"), Bytes::from("v")).unwrap();
    assert_eq!(e.get(Bytes::from("k")).unwrap(), Bytes::from("v"));
}

#[test]
fn last_writer_wins() {
    let mut e = fresh(1024);
    e.put(Bytes::from("k"), Bytes::from("v1")).unwrap();
    e.put(Bytes::from("k"), Bytes::from("v2")).unwrap();
    assert_eq!(e.get(Bytes::from("k")).unwrap(), Bytes::from("v2"));
}

#[test]
fn delete_hides() {
    let mut e = fresh(1024);
    e.put(Bytes::from("k"), Bytes::from("v")).unwrap();
    e.delete(Bytes::from("k")).unwrap();
    assert_eq!(e.get(Bytes::from("k")).unwrap_err(), Errors::KeyNotFound);
}

#[test]
fn resurrect() {
    let mut e = fresh(1024);
    e.put(Bytes::from("k"), Bytes::from("v1")).unwrap();
    e.delete(Bytes::from("k")).unwrap();
    e.put(Bytes::from("k"), Bytes::from("v2")).unwrap();
    assert_eq!(e.get(Bytes::from("k")).unwrap(), Bytes::from("v2"));
}

#[test]
fn empty_key_rejected_everywhere() {
    let mut e = fresh(1024);
    assert_eq!(e.put(Bytes::new(), Bytes::from("v")).unwrap_err(), Errors::KeyIsEmpty);
    assert_eq!(e.get(Bytes::new()).unwrap_err(), Errors::KeyIsEmpty);
    assert_eq!(e.delete(Bytes::new()).unwrap_err(), Errors::KeyIsEmpty);
}

#[test]
fn delete_missing_key_succeeds() {
    let mut e = fresh(1024);
    e.delete(Bytes::from("never")).unwrap();
    assert_eq!(e.get(Bytes::from("never")).unwrap_err(), Errors::KeyNotFound);
}

#[test]
fn empty_value_is_legal() {
    let mut e = fresh(1024);
    e.put(Bytes::from("x"), Bytes::new()).unwrap();
    assert_eq!(e.get(Bytes::from("x")).unwrap(), Bytes::new());
}

#[test]
fn options_validation() {
    assert_eq!(
        Engine::open(Options { dir_path: String::new(), data_file_size: 1024, sync_writes: false }, Vec::new())
            .unwrap_err(),
        Errors::DirPathEmpty
    );
    assert_eq!(Engine::open(opts(0, false), Vec::new()).unwrap_err(), Errors::DataFileSizeIllegal);
    assert_eq!(check_options(&opts(0, false)), Some(Errors::DataFileSizeIllegal));
    assert_eq!(check_options(&opts(7, true)), None);
}

#[test]
fn rotation_moves_to_new_segment() {
    // Each record is 59 bytes: one type byte, two one-byte lengths, a
    // two-byte key, a 50-byte value, and the four CRC bytes.
    let mut e = fresh(64);
    let v50 = Bytes::from(vec![b'x'; 50]);
    e.put(Bytes::from("k1"), v50.clone()).unwrap();
    assert_eq!(e.active_file_id(), 0);
    e.put(Bytes::from("k2"), v50.clone()).unwrap();
    assert_eq!(e.active_file_id(), 1);
    assert_eq!(e.get(Bytes::from("k1")).unwrap(), v50);
    assert_eq!(e.get(Bytes::from("k2")).unwrap(), v50);
}

#[test]
fn reopen_after_rotation() {
    let v50 = Bytes::from(vec![b'x'; 50]);
    let mut e = fresh(64);
    e.put(Bytes::from("k1"), v50.clone()).unwrap();
    e.put(Bytes::from("k2"), v50.clone()).unwrap();
    let files = e.close().unwrap();
    assert_eq!(files.len(), 2);

    let mut e2 = Engine::open(opts(64, false), files).unwrap();
    assert_eq!(e2.get(Bytes::from("k1")).unwrap(), v50);
    assert_eq!(e2.get(Bytes::from("k2")).unwrap(), v50);

    e2.delete(Bytes::from("k1")).unwrap();
    let files = e2.close().unwrap();
    let e3 = Engine::open(opts(64, false), files).unwrap();
    assert_eq!(e3.get(Bytes::from("k1")).unwrap_err(), Errors::KeyNotFound);
    assert_eq!(e3.get(Bytes::from("k2")).unwrap(), v50);
}

#[test]
fn reopen_accepts_any_file_order() {
    let v50 = Bytes::from(vec![b'x'; 50]);
    let mut e = fresh(64);
    e.put(Bytes::from("k1"), v50.clone()).unwrap();
    e.put(Bytes::from("k2"), Bytes::from("late")).unwrap();
    let mut files = e.close().unwrap();
    files.reverse();
    let e2 = Engine::open(opts(64, false), files).unwrap();
    assert_eq!(e2.get(Bytes::from("k1")).unwrap(), v50);
    assert_eq!(e2.get(Bytes::from("k2")).unwrap(), Bytes::from("late"));
}

#[test]
fn reopen_with_sync_writes() {
    let mut e = Engine::open(opts(1024, true), Vec::new()).unwrap();
    e.put(Bytes::from("durable"), Bytes::from("yes")).unwrap();
    e.sync().unwrap();
    let files = e.close().unwrap();
    let e2 = Engine::open(opts(1024, true), files).unwrap();
    assert_eq!(e2.get(Bytes::from("durable")).unwrap(), Bytes::from("yes"));
}

#[test]
fn corrupt_frozen_segment_is_fatal() {
    let v50 = Bytes::from(vec![b'x'; 50]);
    let mut e = fresh(64);
    e.put(Bytes::from("k1"), v50.clone()).unwrap();
    e.put(Bytes::from("k2"), v50).unwrap();
    let mut files = e.close().unwrap();
    let frozen = files.remove(0);
    assert_eq!(frozen.get_file_id(), 0);
    let mut bytes = frozen.into_contents();
    bytes[10] = bytes[10] ^ 0x01;
    let rebuilt = vec![DataFile::new(0, bytes), files.remove(0)];
    assert_eq!(Engine::open(opts(64, false), rebuilt).unwrap_err(), Errors::Corrupted);
}

#[test]
fn corrupt_record_in_active_segment_is_fatal() {
    // A complete record whose CRC does not check is interior corruption, not
    // a torn tail: recovery refuses it rather than silently dropping data.
    let mut e = fresh(1024);
    e.put(Bytes::from("k"), Bytes::from("v")).unwrap();
    let mut files = e.close().unwrap();
    let mut bytes = files.remove(0).into_contents();
    bytes[3] = bytes[3] ^ 0x01;
    assert_eq!(
        Engine::open(opts(1024, false), vec![DataFile::new(0, bytes)]).unwrap_err(),
        Errors::Corrupted
    );
}

#[test]
fn corrupt_record_before_intact_records_is_fatal() {
    let mut e = fresh(1024);
    e.put(Bytes::from("k1"), Bytes::from("v1")).unwrap();
    e.put(Bytes::from("k2"), Bytes::from("v2")).unwrap();
    let mut files = e.close().unwrap();
    let mut bytes = files.remove(0).into_contents();
    // Damage the first record; the intact second record must not be lost by
    // a silent truncation.
    bytes[3] = bytes[3] ^ 0x01;
    assert_eq!(
        Engine::open(opts(1024, false), vec![DataFile::new(0, bytes)]).unwrap_err(),
        Errors::Corrupted
    );
}

#[test]
fn tail_truncation_recovers_earlier_records() {
    let mut e = fresh(1024);
    e.put(Bytes::from("k1"), Bytes::from("v1")).unwrap();
    e.put(Bytes::from("k2"), Bytes::from("v2")).unwrap();
    let mut files = e.close().unwrap();
    let mut bytes = files.remove(0).into_contents();
    // Cut inside the second record: the first survives, the second is gone.
    let keep = bytes.len() - 5;
    bytes.truncate(keep);
    let mut e2 = Engine::open(opts(1024, false), vec![DataFile::new(0, bytes)]).unwrap();
    assert_eq!(e2.get(Bytes::from("k1")).unwrap(), Bytes::from("v1"));
    assert_eq!(e2.get(Bytes::from("k2")).unwrap_err(), Errors::KeyNotFound);
    e2.put(Bytes::from("k3"), Bytes::from("v3")).unwrap();
    assert_eq!(e2.get(Bytes::from("k3")).unwrap(), Bytes::from("v3"));
    assert_eq!(e2.get(Bytes::from("k1")).unwrap(), Bytes::from("v1"));
}

#[test]
fn truncate_to_midpoint_of_single_record() {
    let mut e = fresh(1024);
    e.put(Bytes::from("solo"), Bytes::from("value")).unwrap();
    let mut files = e.close().unwrap();
    let mut bytes = files.remove(0).into_contents();
    let keep = bytes.len() / 2;
    bytes.truncate(keep);
    let mut e2 = Engine::open(opts(1024, false), vec![DataFile::new(0, bytes)]).unwrap();
    assert_eq!(e2.get(Bytes::from("solo")).unwrap_err(), Errors::KeyNotFound);
    e2.put(Bytes::from("next"), Bytes::from("ok")).unwrap();
    assert_eq!(e2.get(Bytes::from("next")).unwrap(), Bytes::from("ok"));
}

#[test]
fn oversized_record_still_readable() {
    // A single record larger than the bound lands alone in a fresh segment.
    let mut e = fresh(16);
    let big = Bytes::from(vec![b'z'; 100]);
    e.put(Bytes::from("big"), big.clone()).unwrap();
    assert_eq!(e.get(Bytes::from("big")).unwrap(), big);
    e.put(Bytes::from("big2"), big.clone()).unwrap();
    assert_eq!(e.get(Bytes::from("big")).unwrap(), big);
    assert_eq!(e.get(Bytes::from("big2")).unwrap(), big);
}
