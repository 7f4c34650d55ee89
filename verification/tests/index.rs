use bitcask::data::log_record::LogRecordPos;
use bitcask::index::{bytes_equal, Indexer, Keydir};

#[test]
fn keydir_put() {
    let mut bt = Keydir::new();
    let res1 = bt.put("".as_bytes().to_vec(), LogRecordPos { file_id: 1, offset: 10 });
    assert_eq!(res1, true);
}

#[test]
fn keydir_get() {
    let mut bt = Keydir::new();
    bt.put("".as_bytes().to_vec(), LogRecordPos { file_id: 1, offset: 10 });
    let res1 = bt.get("".as_bytes().to_vec());
    assert!(res1.is_some());
    assert_eq!(res1.unwrap().file_id, 1);
    assert_eq!(res1.unwrap().offset, 10);
}

#[test]
fn keydir_overwrite_is_last_writer_wins() {
    let mut bt = Keydir::new();
    bt.put(b"k".to_vec(), LogRecordPos { file_id: 1, offset: 10 });
    bt.put(b"k".to_vec(), LogRecordPos { file_id: 2, offset: 20 });
    let got = bt.get(b"k".to_vec()).unwrap();
    assert_eq!(got.file_id, 2);
    assert_eq!(got.offset, 20);
}

#[test]
fn keydir_delete() {
    let mut bt = Keydir::new();
    bt.put("".as_bytes().to_vec(), LogRecordPos { file_id: 1, offset: 10 });
    let res1 = bt.delete("".as_bytes().to_vec());
    assert_eq!(res1, true);
    let res2 = bt.delete("aaa".as_bytes().to_vec());
    assert_eq!(res2, false);
    assert!(bt.get("".as_bytes().to_vec()).is_none());
}

#[test]
fn bytes_equal_compares_contents() {
    assert!(bytes_equal(&b"abc".to_vec(), &b"abc".to_vec()));
    assert!(!bytes_equal(&b"abc".to_vec(), &b"abd".to_vec()));
    assert!(!bytes_equal(&b"abc".to_vec(), &b"ab".to_vec()));
    assert!(bytes_equal(&Vec::new(), &Vec::new()));
}
