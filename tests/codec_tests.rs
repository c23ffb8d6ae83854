use minigit::codec::{
    create_index_entry, decode_index_entry, encode_index_entry, FileStat, IndexEntry,
};
use minigit::error::IndexError;

fn sample(name: &str) -> IndexEntry {
    IndexEntry {
        ctime_sec: 1_700_000_000,
        ctime_nsec: 123_456_789,
        mtime_sec: 1_700_000_100,
        mtime_nsec: 987_654_321,
        dev: 2049,
        ino: 0xDEAD_BEEF,
        mode: 0o100644,
        uid: 1000,
        gid: 1001,
        size: 42,
        hash: "32f95c0d1244a0d3c7d0aa8e3f5f8f7e2b4c6d8e".to_string(),
        name: name.to_string(),
        stage: 0,
    }
}

fn assert_same(a: &IndexEntry, b: &IndexEntry) {
    assert_eq!(a.ctime_sec, b.ctime_sec);
    assert_eq!(a.ctime_nsec, b.ctime_nsec);
    assert_eq!(a.mtime_sec, b.mtime_sec);
    assert_eq!(a.mtime_nsec, b.mtime_nsec);
    assert_eq!(a.dev, b.dev);
    assert_eq!(a.ino, b.ino);
    assert_eq!(a.mode, b.mode);
    assert_eq!(a.uid, b.uid);
    assert_eq!(a.gid, b.gid);
    assert_eq!(a.size, b.size);
    assert_eq!(a.hash, b.hash);
    assert_eq!(a.name, b.name);
    assert_eq!(a.stage, b.stage);
}

#[test]
fn round_trip_reproduces_every_field() {
    let e = sample("hello.txt");
    let bytes = encode_index_entry(&e).unwrap();
    let (d, next) = decode_index_entry(&bytes, 0).unwrap();
    assert_same(&e, &d);
    assert_eq!(next, bytes.len());
}

#[test]
fn round_trip_with_stage_and_long_name() {
    let mut e = sample(&"n".repeat(0xFFF));
    e.stage = 3;
    let bytes = encode_index_entry(&e).unwrap();
    let (d, next) = decode_index_entry(&bytes, 0).unwrap();
    assert_same(&e, &d);
    assert_eq!(next, bytes.len());
}

#[test]
fn round_trip_non_ascii_name() {
    let e = sample("naïve-日本.txt");
    let bytes = encode_index_entry(&e).unwrap();
    let (d, _) = decode_index_entry(&bytes, 0).unwrap();
    assert_same(&e, &d);
}

#[test]
fn encoded_length_is_multiple_of_eight() {
    for n in 0..40 {
        let e = sample(&"x".repeat(n));
        let bytes = encode_index_entry(&e).unwrap();
        assert_eq!(bytes.len() % 8, 0);
        assert_eq!(bytes.len(), 62 + n + (8 - (62 + n) % 8) % 8);
    }
}

#[test]
fn exact_layout_of_a_record() {
    let e = sample("a.txt");
    let b = encode_index_entry(&e).unwrap();
    assert_eq!(b.len(), 72);
    assert_eq!(&b[0..4], &1_700_000_000u32.to_be_bytes());
    assert_eq!(&b[20..24], &[0xDE, 0xAD, 0xBE, 0xEF]);
    assert_eq!(&b[24..28], &0o100644u32.to_be_bytes());
    assert_eq!(&b[36..40], &[0, 0, 0, 42]);
    assert_eq!(&b[40..42], &[0x32, 0xf9]);
    assert_eq!(&b[58..60], &[0x6d, 0x8e]);
    assert_eq!(&b[60..62], &[0x00, 0x05]);
    assert_eq!(&b[62..67], b"a.txt");
    assert_eq!(&b[67..72], &[0, 0, 0, 0, 0]);
}

#[test]
fn flags_hold_stage_above_length() {
    let mut e = sample("abc");
    e.stage = 2;
    let b = encode_index_entry(&e).unwrap();
    assert_eq!(&b[60..62], &[0x20, 0x03]);
}

#[test]
fn uppercase_hash_is_rejected() {
    let mut e = sample("f");
    e.hash = "32F95C0D1244A0D3C7D0AA8E3F5F8F7E2B4C6D8E".to_string();
    assert_eq!(encode_index_entry(&e).unwrap_err(), IndexError::BadHash);
}

#[test]
fn bad_hash_is_rejected() {
    let mut e = sample("f");
    e.hash = "zz".repeat(20);
    assert_eq!(encode_index_entry(&e).unwrap_err(), IndexError::BadHash);
    e.hash = "ab".repeat(19);
    assert_eq!(encode_index_entry(&e).unwrap_err(), IndexError::BadHash);
    e.hash = "abc".to_string();
    assert_eq!(encode_index_entry(&e).unwrap_err(), IndexError::BadHash);
    e.hash = "ab".repeat(21);
    assert_eq!(encode_index_entry(&e).unwrap_err(), IndexError::BadHash);
}

#[test]
fn long_name_is_rejected() {
    let e = sample(&"n".repeat(0x1000));
    assert_eq!(encode_index_entry(&e).unwrap_err(), IndexError::NameTooLong);
}

#[test]
fn name_with_nul_is_rejected() {
    let e = sample("a\0b");
    assert_eq!(encode_index_entry(&e).unwrap_err(), IndexError::NameHasNul);
}

#[test]
fn wide_stage_is_rejected() {
    let mut e = sample("a");
    e.stage = 4;
    assert_eq!(encode_index_entry(&e).unwrap_err(), IndexError::BadStage);
}

#[test]
fn truncated_record_is_rejected() {
    let b = encode_index_entry(&sample("hello.txt")).unwrap();
    assert_eq!(decode_index_entry(&b[..61], 0).unwrap_err(), IndexError::Truncated);
    assert_eq!(decode_index_entry(&b[..b.len() - 1], 0).unwrap_err(), IndexError::Truncated);
    assert_eq!(decode_index_entry(&b, b.len()).unwrap_err(), IndexError::Truncated);
}

#[test]
fn zero_byte_ends_the_name_early() {
    let mut b = encode_index_entry(&sample("abcdef")).unwrap();
    b[62 + 3] = 0;
    let (d, next) = decode_index_entry(&b, 0).unwrap();
    assert_eq!(d.name, "abc");
    assert_eq!(next, b.len());
}

#[test]
fn non_utf8_name_is_rejected() {
    let mut b = encode_index_entry(&sample("abcdef")).unwrap();
    b[62] = 0xFF;
    assert_eq!(decode_index_entry(&b, 0).unwrap_err(), IndexError::BadName);
}

#[test]
fn decode_at_offset() {
    let mut b = vec![7u8; 12];
    b.extend(encode_index_entry(&sample("x.rs")).unwrap());
    let (d, next) = decode_index_entry(&b, 12).unwrap();
    assert_eq!(d.name, "x.rs");
    assert_eq!(next, b.len());
}

#[test]
fn entry_from_metadata() {
    let stat = FileStat {
        ctime: 0x1_0000_0005,
        ctime_nsec: 6,
        mtime: 7,
        mtime_nsec: 8,
        dev: 0x2_0000_0009,
        ino: 10,
        uid: 11,
        gid: 12,
        size: 0x1_0000_0002,
    };
    let e = create_index_entry("f.txt".to_string(), &stat, "ab".repeat(20));
    assert_eq!(e.ctime_sec, 5);
    assert_eq!(e.ctime_nsec, 6);
    assert_eq!(e.mtime_sec, 7);
    assert_eq!(e.mtime_nsec, 8);
    assert_eq!(e.dev, 9);
    assert_eq!(e.ino, 10);
    assert_eq!(e.mode, 0o100644);
    assert_eq!(e.uid, 11);
    assert_eq!(e.gid, 12);
    assert_eq!(e.size, 2);
    assert_eq!(e.stage, 0);
    assert_eq!(e.name, "f.txt");
}
