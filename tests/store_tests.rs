use std::io::Read;

use minigit::codec::{encode_index_entry, FileStat, IndexEntry};
use minigit::commands::add_file;
use minigit::error::IndexError;
use minigit::hasher::{hash_object, serialize_object};
use minigit::index::{
    append_record, ends_with_digest, index_checksum_ok, new_index, read_index, update_index,
};
use minigit::object::compress_and_store;
use minigit::order::{contains_sorted, insert_sorted, lex_less};
use minigit::status::{classify_files, sorted_index_names};
use sha1::{Digest, Sha1};

fn sha1_hex(data: &[u8]) -> String {
    let d = Sha1::digest(data);
    d.iter().map(|b| format!("{:02x}", b)).collect()
}

fn entry(name: &str, size: u32) -> IndexEntry {
    IndexEntry {
        ctime_sec: 1,
        ctime_nsec: 2,
        mtime_sec: 3,
        mtime_nsec: 4,
        dev: 5,
        ino: 6,
        mode: 0o100644,
        uid: 7,
        gid: 8,
        size,
        hash: hash_object("blob", name.as_bytes()),
        name: name.to_string(),
        stage: 0,
    }
}

fn stat(size: u64) -> FileStat {
    FileStat {
        ctime: 10,
        ctime_nsec: 11,
        mtime: 12,
        mtime_nsec: 13,
        dev: 14,
        ino: 15,
        uid: 16,
        gid: 17,
        size,
    }
}

#[test]
fn hash_is_sha1_of_header_and_payload() {
    let h = hash_object("blob", b"hi");
    assert_eq!(h, sha1_hex(b"blob 2\0hi"));
    assert_eq!(hash_object("blob", b""), "e69de29bb2d1d6434b8b29ae775ad8c2e48c5391");
}

#[test]
fn hash_is_deterministic() {
    let payload = vec![0u8, 1, 2, 255, 10, 0];
    assert_eq!(hash_object("blob", &payload), hash_object("blob", &payload));
    assert_ne!(hash_object("blob", &payload), hash_object("tree", &payload));
}

#[test]
fn hash_is_forty_lowercase_hex_digits() {
    for p in [&b""[..], b"a", b"hello world", &[0xFFu8; 1000][..]] {
        let h = hash_object("blob", p);
        assert_eq!(h.len(), 40);
        assert!(h.chars().all(|c| c.is_ascii_digit() || ('a'..='f').contains(&c)));
    }
}

#[test]
fn serialized_object_has_header() {
    assert_eq!(serialize_object("blob", b"hi"), b"blob 2\0hi".to_vec());
    let big = vec![b'z'; 1234];
    let s = serialize_object("blob", &big);
    assert_eq!(&s[..10], b"blob 1234\0");
    assert_eq!(s.len(), 10 + 1234);
}

#[test]
fn stored_object_is_compressed_record_at_derived_path() {
    let o = compress_and_store("blob", b"hi");
    let id = sha1_hex(b"blob 2\0hi");
    assert_eq!(o.id, id);
    assert_eq!(o.dir, id[..2]);
    assert_eq!(o.file, id[2..]);
    assert_ne!(o.data, b"blob 2\0hi".to_vec());
    let mut out = Vec::new();
    flate2::read::ZlibDecoder::new(&o.data[..]).read_to_end(&mut out).unwrap();
    assert_eq!(out, b"blob 2\0hi".to_vec());
}

#[test]
fn storing_twice_gives_same_path_and_bytes() {
    let a = compress_and_store("blob", b"same content");
    let b = compress_and_store("blob", b"same content");
    assert_eq!(a.dir, b.dir);
    assert_eq!(a.file, b.file);
    assert_eq!(a.data, b.data);
}

#[test]
fn new_index_layout() {
    let rec = encode_index_entry(&entry("a.txt", 1)).unwrap();
    let f = new_index(&rec);
    assert_eq!(&f[0..4], b"DIRC");
    assert_eq!(&f[4..8], &[0, 0, 0, 2]);
    assert_eq!(&f[8..12], &[0, 0, 0, 1]);
    assert_eq!(&f[12..12 + rec.len()], &rec[..]);
    let digest = Sha1::digest(&f[..f.len() - 20]);
    assert_eq!(&f[f.len() - 20..], &digest[..]);
    assert!(index_checksum_ok(&f));
}

#[test]
fn appends_are_counted_and_read_back_in_order() {
    let names = ["one.txt", "two.txt", "three.txt", "one.txt"];
    let mut f: Option<Vec<u8>> = None;
    for (i, n) in names.iter().enumerate() {
        let g = update_index(f.as_deref(), &entry(n, i as u32)).unwrap();
        assert!(index_checksum_ok(&g));
        f = Some(g);
    }
    let f = f.unwrap();
    assert_eq!(&f[8..12], &[0, 0, 0, 4]);
    let es = read_index(&f).unwrap();
    assert_eq!(es.len(), 4);
    for (i, n) in names.iter().enumerate() {
        assert_eq!(es[i].name, *n);
        assert_eq!(es[i].size, i as u32);
        assert_eq!(es[i].hash, hash_object("blob", n.as_bytes()));
    }
}

#[test]
fn append_keeps_the_version_bytes() {
    let rec = encode_index_entry(&entry("a", 1)).unwrap();
    let mut f = new_index(&rec);
    f[7] = 3;
    let g = append_record(&f, &rec).unwrap();
    assert_eq!(&g[4..8], &[0, 0, 0, 3]);
    assert_eq!(&g[8..12], &[0, 0, 0, 2]);
    assert_eq!(g.len(), f.len() + rec.len());
}

#[test]
fn append_errors() {
    let rec = encode_index_entry(&entry("a", 1)).unwrap();
    assert_eq!(append_record(&[0u8; 31], &rec).unwrap_err(), IndexError::Truncated);
    let mut f = new_index(&rec);
    f[0] = b'X';
    assert_eq!(append_record(&f, &rec).unwrap_err(), IndexError::BadSignature);
    let mut f = new_index(&rec);
    f[8..12].copy_from_slice(&[0xFF; 4]);
    assert_eq!(append_record(&f, &rec).unwrap_err(), IndexError::TooManyEntries);
}

#[test]
fn update_index_rejects_bad_entry() {
    let mut e = entry("a", 1);
    e.hash = "nothex".to_string();
    assert_eq!(update_index(None, &e).unwrap_err(), IndexError::BadHash);
}

#[test]
fn read_errors() {
    let f = update_index(None, &entry("a.txt", 1)).unwrap();
    let mut bad = f.clone();
    bad[1] = b'X';
    assert_eq!(read_index(&bad).unwrap_err(), IndexError::BadSignature);
    assert_eq!(read_index(&f[..20]).unwrap_err(), IndexError::Truncated);
    let mut more = f.clone();
    more[11] = 2;
    assert_eq!(read_index(&more).unwrap_err(), IndexError::Truncated);
    assert!(!index_checksum_ok(&more));
}

#[test]
fn empty_index_reads_no_entries() {
    let mut f = b"DIRC\0\0\0\x02\0\0\0\0".to_vec();
    f.extend_from_slice(&Sha1::digest(&f));
    assert_eq!(read_index(&f).unwrap().len(), 0);
    assert!(index_checksum_ok(&f));
}

#[test]
fn status_classifies_by_name() {
    let entries = vec![entry("a.txt", 1), entry("b.txt", 2)];
    let files = vec!["a.txt".to_string(), "c.txt".to_string()];
    let r = classify_files(&entries, &files);
    assert_eq!(r.staged, vec!["a.txt".to_string()]);
    assert_eq!(r.untracked, vec!["c.txt".to_string()]);
}

#[test]
fn status_of_empty_repository() {
    let r = classify_files(&vec![], &vec![]);
    assert!(r.staged.is_empty());
    assert!(r.untracked.is_empty());
}

#[test]
fn status_keeps_discovery_order_and_duplicates() {
    let entries = vec![entry("z", 1), entry("m", 1), entry("a", 1), entry("m", 1)];
    let files: Vec<String> = ["q", "m", "a", "b", "z", "m"].iter().map(|s| s.to_string()).collect();
    let r = classify_files(&entries, &files);
    assert_eq!(r.staged, vec!["m", "a", "z", "m"]);
    assert_eq!(r.untracked, vec!["q", "b"]);
}

#[test]
fn index_names_are_sorted() {
    let entries = vec![entry("pear", 1), entry("apple", 1), entry("fig", 1), entry("apple", 1)];
    let names = sorted_index_names(&entries);
    let expect: Vec<Vec<u8>> =
        vec![b"apple".to_vec(), b"apple".to_vec(), b"fig".to_vec(), b"pear".to_vec()];
    assert_eq!(names, expect);
}

#[test]
fn byte_order_and_search() {
    assert!(lex_less(b"ab", b"abc"));
    assert!(lex_less(b"", b"a"));
    assert!(!lex_less(b"b", b"abc"));
    assert!(!lex_less(b"abc", b"abc"));
    let mut v: Vec<Vec<u8>> = Vec::new();
    for w in ["m", "c", "x", "a", "c"] {
        insert_sorted(&mut v, w.as_bytes().to_vec());
    }
    assert_eq!(v, vec![b"a".to_vec(), b"c".to_vec(), b"c".to_vec(), b"m".to_vec(), b"x".to_vec()]);
    assert!(contains_sorted(&v, b"m"));
    assert!(contains_sorted(&v, b"a"));
    assert!(!contains_sorted(&v, b"b"));
    assert!(!contains_sorted(&v, b"zz"));
    assert!(!contains_sorted(&Vec::new(), b"a"));
}

#[test]
fn init_then_add() {
    let out = add_file("hello.txt".to_string(), b"hi", &stat(2), None).unwrap();
    let id = sha1_hex(b"blob 2\0hi");
    assert_eq!(out.object.dir, id[..2]);
    assert_eq!(out.object.file, id[2..]);
    let es = read_index(&out.index).unwrap();
    assert_eq!(es.len(), 1);
    assert_eq!(es[0].name, "hello.txt");
    assert_eq!(es[0].size, 2);
    assert_eq!(es[0].hash, id);
    assert_eq!(es[0].mode, 0o100644);
}

#[test]
fn add_appends_to_existing_index() {
    let first = add_file("a.txt".to_string(), b"aa", &stat(2), None).unwrap();
    let second = add_file("b.txt".to_string(), b"bbb", &stat(3), Some(&first.index)).unwrap();
    let es = read_index(&second.index).unwrap();
    assert_eq!(es.len(), 2);
    assert_eq!(es[0].name, "a.txt");
    assert_eq!(es[1].name, "b.txt");
    assert_eq!(es[1].size, 3);
}

#[test]
fn add_reports_index_errors() {
    let r = add_file("a\0b".to_string(), b"x", &stat(1), None);
    assert!(matches!(r, Err(IndexError::NameHasNul)));
    let r = add_file("a".to_string(), b"x", &stat(1), Some(&[0u8; 40]));
    assert!(matches!(r, Err(IndexError::BadSignature)));
}

#[test]
fn trailing_digest_comparison() {
    let mut f = vec![9u8; 5];
    f.extend_from_slice(&[1u8; 20]);
    assert!(ends_with_digest(&f, &[1u8; 20]));
    assert!(!ends_with_digest(&f, &[2u8; 20]));
    assert!(!ends_with_digest(&f, &[1u8; 19]));
    assert!(!ends_with_digest(&[1u8; 19], &[1u8; 20]));
}

#[test]
fn bytes_after_the_counted_records_are_rejected() {
    let rec = encode_index_entry(&entry("a.txt", 1)).unwrap();
    let mut f = b"DIRC\0\0\0\x02\0\0\0\0".to_vec();
    f.extend_from_slice(&rec);
    f.extend_from_slice(&Sha1::digest(&f));
    assert_eq!(read_index(&f).unwrap_err(), IndexError::ExtraBytes);
}

#[test]
fn adding_the_same_file_twice_stores_the_same_object() {
    let first = add_file("a.txt".to_string(), b"same", &stat(4), None).unwrap();
    let second = add_file("a.txt".to_string(), b"same", &stat(4), Some(&first.index)).unwrap();
    assert_eq!(first.object.dir, second.object.dir);
    assert_eq!(first.object.file, second.object.file);
    assert_eq!(first.object.data, second.object.data);
    assert_eq!(read_index(&second.index).unwrap().len(), 2);
}
