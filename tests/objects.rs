use minigit::{frame, Author, Blob, Commit, Db, Object, ObjectKind, Oid, OidError, Refs, Lockfile};
use std::io::Read;

fn inflate(data: &[u8]) -> Vec<u8> {
    let mut out = Vec::new();
    flate2::read::ZlibDecoder::new(data).read_to_end(&mut out).unwrap();
    out
}

fn text(b: &[u8]) -> String {
    String::from_utf8(b.to_vec()).unwrap()
}

#[test]
fn oid_of_abc_is_sha1() {
    let o = Oid::new(b"abc");
    assert_eq!(o.to_hex(), "a9993e364706816aba3e25717850c26c9cd0d89d");
    assert_eq!(text(&o.hex_bytes()), "a9993e364706816aba3e25717850c26c9cd0d89d");
    assert_eq!(o.as_bytes()[0], 0xa9);
}

#[test]
fn oid_derive_is_deterministic() {
    assert_eq!(Oid::new(b"payload"), Oid::new(b"payload"));
    assert_ne!(Oid::new(b"payload"), Oid::new(b"payload!"));
}

#[test]
fn oid_hex_round_trip() {
    let o = Oid::new(b"abc");
    assert_eq!(Oid::from_hex(&o.to_hex()), Ok(o));
    assert_eq!(Oid::from_hex("A9993E364706816ABA3E25717850C26C9CD0D89D"), Ok(o));
    assert_eq!(Oid::parse("  a9993e364706816aba3e25717850c26c9cd0d89d\n"), Ok(o));
}

#[test]
fn oid_malformed_inputs() {
    assert_eq!(Oid::from_hex("a9993e"), Err(OidError::MalformedIdentifier));
    assert_eq!(Oid::from_hex("zz993e364706816aba3e25717850c26c9cd0d89d"), Err(OidError::MalformedIdentifier));
    assert_eq!(Oid::from_hex("a9993e364706816aba3e25717850c26c9cd0d89"), Err(OidError::MalformedIdentifier));
    assert_eq!(Oid::from_bytes(&[0u8; 19]), Err(OidError::MalformedIdentifier));
    assert_eq!(Oid::from_bytes(&[7u8; 20]).unwrap().as_bytes(), &[7u8; 20]);
}

#[test]
fn oid_fanout_splits_two_and_thirty_eight() {
    let o = Oid::new(b"abc");
    let (group, file) = o.fanout();
    assert_eq!(group, "a9");
    assert_eq!(file, "993e364706816aba3e25717850c26c9cd0d89d");
}

#[test]
fn frame_has_kind_length_and_nul() {
    assert_eq!(frame(ObjectKind::Blob, b"hello"), b"blob 5\0hello".to_vec());
    assert_eq!(frame(ObjectKind::Tree, b""), b"tree 0\0".to_vec());
    assert_eq!(frame(ObjectKind::Commit, &[b'x'; 12]), b"commit 12\0xxxxxxxxxxxx".to_vec());
}

#[test]
fn store_blob_matches_known_identifier() {
    let db = Db::new(String::from("/repo/.git"));
    let w = db.store(ObjectKind::Blob, b"hello\n").unwrap();
    assert_eq!(w.oid.to_hex(), "ce013625030ba8dba906f756967f9e9ca394464a");
    assert_eq!(w.group, "ce");
    assert_eq!(w.file, "013625030ba8dba906f756967f9e9ca394464a");
    assert_eq!(inflate(&w.data), b"blob 6\0hello\n".to_vec());
}

#[test]
fn store_twice_gives_one_object() {
    let db = Db::new(String::from("/repo/.git"));
    let a = db.store(ObjectKind::Blob, b"same bytes").unwrap();
    let b = db.store(ObjectKind::Blob, b"same bytes").unwrap();
    assert_eq!(a.oid, b.oid);
    assert_eq!((a.group, a.file), (b.group, b.file));
    assert_eq!(a.data, b.data);
}

#[test]
fn store_object_records_identifier() {
    let db = Db::new(String::from("/repo/.git"));
    let mut blob = Blob::new(b"hello\n".to_vec());
    assert_eq!(blob.oid(), None);
    let w = db.store_object(&mut blob).unwrap();
    assert_eq!(blob.oid(), Some(w.oid));
    assert_eq!(blob.to_bytes(), b"hello\n".to_vec());
    assert_eq!(blob.kind(), ObjectKind::Blob);
}

#[test]
fn store_empty_blob() {
    let db = Db::new(String::from("/repo/.git"));
    let w = db.store(ObjectKind::Blob, b"").unwrap();
    assert_eq!(w.oid.to_hex(), "e69de29bb2d1d6434b8b29ae775ad8c2e48c5391");
}

#[test]
fn author_line_with_offsets() {
    let a = Author::new(String::from("Ann"), String::from("ann@x.org"), 1700000000, 3600);
    assert_eq!(text(&a.string()), "Ann <ann@x.org> 1700000000 +0100");
    let b = Author::new(String::from("Bo"), String::from("b@y"), -5, -(5 * 3600 + 30 * 60));
    assert_eq!(text(&b.string()), "Bo <b@y> -5 -0530");
    let c = Author::new(String::from("C"), String::from("c@z"), 0, 0);
    assert_eq!(text(&c.string()), "C <c@z> 0 +0000");
}

#[test]
fn commit_without_parent_has_no_parent_line() {
    let tree = Oid::new(b"tree");
    let a = Author::new(String::from("Ann"), String::from("ann@x.org"), 1700000000, 0);
    let c = Commit::new(tree, None, a, String::from("first\n"));
    let body = text(&c.to_bytes());
    assert_eq!(
        body,
        format!(
            "tree {}\nauthor Ann <ann@x.org> 1700000000 +0000\ncommitter Ann <ann@x.org> 1700000000 +0000\n\nfirst\n",
            tree.to_hex()
        )
    );
    assert!(!body.contains("parent"));
    assert_eq!(c.kind(), ObjectKind::Commit);
}

#[test]
fn commit_with_parent_has_one_parent_line_before_author() {
    let tree = Oid::new(b"tree");
    let parent = Oid::new(b"parent");
    let a = Author::new(String::from("Ann"), String::from("ann@x.org"), 1700000000, 0);
    let c = Commit::new(tree, Some(parent), a, String::from("second"));
    let body = text(&c.to_bytes());
    let lines: Vec<&str> = body.lines().collect();
    assert_eq!(lines[0], format!("tree {}", tree.to_hex()));
    assert_eq!(lines[1], format!("parent {}", parent.to_hex()));
    assert!(lines[2].starts_with("author "));
    assert_eq!(body.matches("parent ").count(), 1);
}

#[test]
fn store_commit_object() {
    let db = Db::new(String::from("/repo/.git"));
    let a = Author::new(String::from("Ann"), String::from("ann@x.org"), 1, 0);
    let mut c = Commit::new(Oid::new(b"t"), None, a, String::from("m"));
    let body = c.to_bytes();
    let w = db.store_object(&mut c).unwrap();
    assert_eq!(c.oid(), Some(w.oid));
    let mut framed = format!("commit {}\0", body.len()).into_bytes();
    framed.extend_from_slice(&body);
    assert_eq!(inflate(&w.data), framed);
    assert_eq!(w.oid, Oid::new(&framed));
}

#[test]
fn set_head_writes_hex_line() {
    let refs = Refs::new(String::from("/repo/.git"));
    let o = Oid::new(b"abc");
    let mut lock = Lockfile::new(String::from("/repo/.git/HEAD"));
    assert!(lock.hold_for_update(true));
    let bytes = refs.set_head(&o, &mut lock).unwrap();
    assert_eq!(text(&bytes), "a9993e364706816aba3e25717850c26c9cd0d89d\n");
    assert!(!lock.is_held());
}

#[test]
fn set_head_without_claim_fails() {
    let refs = Refs::new(String::from("/repo/.git"));
    let mut lock = Lockfile::new(String::from("/repo/.git/HEAD"));
    assert_eq!(refs.set_head(&Oid::new(b"x"), &mut lock), Err(minigit::LockError::NotHolding));
}

#[test]
fn parse_trims_unicode_whitespace() {
    let o = Oid::new(b"abc");
    let text = format!("\u{3000}\t{}\u{a0}\r\n", o.to_hex());
    assert_eq!(Oid::parse(&text), Ok(o));
    assert_eq!(Oid::parse("  \n"), Err(OidError::MalformedIdentifier));
    assert_eq!(minigit::oid::trim_text(" a b\u{2028}"), "a b");
    assert_eq!(minigit::oid::trim_text("\u{2003}"), "");
}
