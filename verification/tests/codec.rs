use bitcask::data::log_record::{
    crc32, decode, decode_header, varint_decode, varint_encode, LogRecord, LogRecordType,
};
use bitcask::errors::Errors;

#[test]
fn crc32_check_value() {
    // The well-known IEEE CRC-32 check value.
    let data: Vec<u8> = b"123456789".to_vec();
    assert_eq!(crc32(&data), 0xCBF43926);
}

#[test]
fn crc32_empty() {
    let data: Vec<u8> = Vec::new();
    assert_eq!(crc32(&data), 0);
}

#[test]
fn varint_round_trip_small() {
    let mut out: Vec<u8> = Vec::new();
    varint_encode(5, &mut out);
    assert_eq!(out, vec![5u8]);
    assert_eq!(varint_decode(&out, 0), Some((5, 1)));
}

#[test]
fn varint_round_trip_multi_byte() {
    let mut out: Vec<u8> = Vec::new();
    varint_encode(300, &mut out);
    assert_eq!(out, vec![0xACu8, 0x02u8]);
    assert_eq!(varint_decode(&out, 0), Some((300, 2)));
}

#[test]
fn varint_round_trip_max() {
    let mut out: Vec<u8> = Vec::new();
    varint_encode(u32::MAX, &mut out);
    assert_eq!(out.len(), 5);
    assert_eq!(varint_decode(&out, 0), Some((u32::MAX, 5)));
}

#[test]
fn varint_decode_empty_is_none() {
    let out: Vec<u8> = Vec::new();
    assert_eq!(varint_decode(&out, 0), None);
}

#[test]
fn encode_layout_small_record() {
    let rec = LogRecord { key: b"a".to_vec(), value: b"1".to_vec(), rec_type: LogRecordType::NORMAL };
    let enc = rec.encode();
    // type byte, one-byte key length, one-byte value length, key, value, CRC.
    assert_eq!(enc.len(), 9);
    assert_eq!(&enc[0..5], &[1u8, 1, 1, b'a', b'1']);
    let body: Vec<u8> = enc[0..5].to_vec();
    let crc = crc32(&body);
    assert_eq!(&enc[5..9], &crc.to_le_bytes());
}

#[test]
fn encode_tombstone_type_byte() {
    let rec = LogRecord { key: b"a".to_vec(), value: Vec::new(), rec_type: LogRecordType::DELETED };
    let enc = rec.encode();
    assert_eq!(enc[0], 2);
}

#[test]
fn decode_header_reads_lengths() {
    let rec = LogRecord {
        key: b"key".to_vec(),
        value: b"value".to_vec(),
        rec_type: LogRecordType::NORMAL,
    };
    let enc = rec.encode();
    let (t, klen, vlen, hl) = decode_header(&enc, 0).unwrap();
    assert_eq!(t, LogRecordType::NORMAL);
    assert_eq!(klen, 3);
    assert_eq!(vlen, 5);
    assert_eq!(hl, 3);
}

#[test]
fn codec_round_trip() {
    let rec = LogRecord {
        key: b"some key".to_vec(),
        value: b"some value".to_vec(),
        rec_type: LogRecordType::NORMAL,
    };
    let enc = rec.encode();
    let (back, n) = decode(&enc).unwrap();
    assert_eq!(n, enc.len());
    assert_eq!(back.key, b"some key".to_vec());
    assert_eq!(back.value, b"some value".to_vec());
    assert_eq!(back.rec_type, LogRecordType::NORMAL);
}

#[test]
fn codec_round_trip_empty_value() {
    let rec = LogRecord { key: b"k".to_vec(), value: Vec::new(), rec_type: LogRecordType::NORMAL };
    let enc = rec.encode();
    let (back, _) = decode(&enc).unwrap();
    assert_eq!(back.value, Vec::<u8>::new());
}

#[test]
fn decode_detects_any_flipped_byte() {
    let rec = LogRecord {
        key: b"key".to_vec(),
        value: b"value".to_vec(),
        rec_type: LogRecordType::NORMAL,
    };
    let enc = rec.encode();
    for i in 0..enc.len() {
        for bit in 0..8 {
            let mut bad = enc.clone();
            bad[i] = bad[i] ^ (1u8 << bit);
            match decode(&bad) {
                Err(Errors::Corrupted) => (),
                other => panic!("flip at byte {} bit {} not caught: {:?}", i, bit, other.is_ok()),
            }
        }
    }
}

#[test]
fn decode_truncated_is_corrupted() {
    let rec = LogRecord {
        key: b"key".to_vec(),
        value: b"value".to_vec(),
        rec_type: LogRecordType::NORMAL,
    };
    let enc = rec.encode();
    let cut: Vec<u8> = enc[0..enc.len() / 2].to_vec();
    assert_eq!(decode(&cut).unwrap_err(), Errors::Corrupted);
}

#[test]
fn decode_bad_type_byte_is_corrupted() {
    let data: Vec<u8> = vec![9, 1, 1, b'a', b'1', 0, 0, 0, 0];
    assert_eq!(decode(&data).unwrap_err(), Errors::Corrupted);
}
