//! Unit tests for the object encoding, digests, index parsing, and HEAD
//! parsing.

use minigit::digest::{object_digest, sha1_hex};
use minigit::head::parse_head;
use minigit::index::{index_line, parse_index, index_digest_of};
use minigit::object::{decimal_digits, decode_object, encode_object, frame, unframe, shard_dir,
    shard_file};

#[test]
fn decimal_rendering() {
    assert_eq!(decimal_digits(0), b"0".to_vec());
    assert_eq!(decimal_digits(7), b"7".to_vec());
    assert_eq!(decimal_digits(10), b"10".to_vec());
    assert_eq!(decimal_digits(305), b"305".to_vec());
    assert_eq!(decimal_digits(18446744073709551615), b"18446744073709551615".to_vec());
}

#[test]
fn frame_exact_bytes() {
    assert_eq!(frame(&b"Hello".to_vec()), b"blob 5\0Hello".to_vec());
    assert_eq!(frame(&b"".to_vec()), b"blob 0\0".to_vec());
    assert_eq!(frame(&b"Hello, Git!\n".to_vec()), b"blob 12\0Hello, Git!\n".to_vec());
}

#[test]
fn unframe_inverts_frame() {
    let contents: Vec<Vec<u8>> = vec![
        b"".to_vec(),
        b"x".to_vec(),
        b"Hello, Git!\n".to_vec(),
        b"with\0nul inside".to_vec(),
    ];
    for c in contents {
        assert_eq!(unframe(&frame(&c)), Some(c));
    }
}

#[test]
fn unframe_rejects_malformed() {
    assert_eq!(unframe(&b"".to_vec()), None);
    assert_eq!(unframe(&b"blob 5Hello".to_vec()), None);
    assert_eq!(unframe(&b"tree 5\0Hello".to_vec()), None);
    assert_eq!(unframe(&b"blob 6\0Hello".to_vec()), None);
    assert_eq!(unframe(&b"blob 05\0Hello".to_vec()), None);
}

#[test]
fn sha1_known_vectors() {
    assert_eq!(sha1_hex(&b"abc".to_vec()), b"a9993e364706816aba3e25717850c26c9cd0d89d".to_vec());
    assert_eq!(sha1_hex(&b"".to_vec()), b"da39a3ee5e6b4b0d3255bfef95601890afd80709".to_vec());
}

#[test]
fn object_digest_hashes_framed_content() {
    let content = b"Hello".to_vec();
    assert_eq!(object_digest(&content), sha1_hex(&b"blob 5\0Hello".to_vec()));
    assert_eq!(object_digest(&content).len(), 40);
}

#[test]
fn object_round_trip() {
    let contents: Vec<Vec<u8>> = vec![b"".to_vec(), b"Hello, Git!\n".to_vec(), vec![0u8, 255u8, 10u8, 32u8]];
    for c in contents {
        let stored = encode_object(&c);
        assert_ne!(stored, c);
        assert_eq!(decode_object(&stored), Some(c));
    }
}

#[test]
fn decode_rejects_garbage() {
    assert_eq!(decode_object(&b"not a zlib stream".to_vec()), None);
}

#[test]
fn shard_paths_split_digest() {
    let digest = object_digest(&b"Hello".to_vec());
    let dir = shard_dir(&digest);
    let name = shard_file(&digest);
    assert_eq!(dir.len(), 2);
    assert_eq!(name.len(), 38);
    let mut joined = dir.clone();
    joined.extend_from_slice(&name);
    assert_eq!(joined, digest);
}

#[test]
fn index_line_format() {
    let line = index_line(&b"abcd".to_vec(), &b"dir/file.txt".to_vec());
    assert_eq!(line, b"abcd dir/file.txt\n".to_vec());
}

#[test]
fn parse_index_skips_malformed_lines() {
    let data = b"h1 a.txt\nmalformed\nh2 b.txt\n".to_vec();
    let entries = parse_index(&data);
    assert_eq!(entries.len(), 2);
    assert_eq!(entries[0].digest, b"h1".to_vec());
    assert_eq!(entries[0].path, b"a.txt".to_vec());
    assert_eq!(entries[1].digest, b"h2".to_vec());
    assert_eq!(entries[1].path, b"b.txt".to_vec());
}

#[test]
fn parse_index_empty_input() {
    assert_eq!(parse_index(&Vec::new()).len(), 0);
}

#[test]
fn index_lookup_last_entry_wins() {
    let data = b"h1 a.txt\nh2 b.txt\nh3 a.txt\n".to_vec();
    let entries = parse_index(&data);
    assert_eq!(index_digest_of(&entries, &b"a.txt".to_vec()), Some(b"h3".to_vec()));
    assert_eq!(index_digest_of(&entries, &b"b.txt".to_vec()), Some(b"h2".to_vec()));
    assert_eq!(index_digest_of(&entries, &b"c.txt".to_vec()), None);
}

#[test]
fn parse_head_branch() {
    assert_eq!(parse_head(&b"ref: refs/heads/master\n".to_vec()), Some(b"master".to_vec()));
    assert_eq!(parse_head(&b"ref: refs/heads/dev".to_vec()), Some(b"dev".to_vec()));
}

#[test]
fn parse_head_rejects_detached_or_corrupt() {
    assert_eq!(parse_head(&b"a94a8fe5ccb19ba61c4c0873d391e987982fbbd3\n".to_vec()), None);
    assert_eq!(parse_head(&b"ref: refs/tags/v1\n".to_vec()), None);
    assert_eq!(parse_head(&b"".to_vec()), None);
}
