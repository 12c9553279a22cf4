use minigit::{Db, ObjectKind, ObjectWrite, Oid, Tree};
use std::io::Read;

fn inflate(data: &[u8]) -> Vec<u8> {
    let mut out = Vec::new();
    flate2::read::ZlibDecoder::new(data).read_to_end(&mut out).unwrap();
    out
}

fn comps(path: &str) -> Vec<Vec<u8>> {
    path.split('/').map(|c| c.as_bytes().to_vec()).collect()
}

fn build(files: &[(&str, &[u8], u32)]) -> (Oid, Vec<ObjectWrite>) {
    let db = Db::new(String::from("/repo/.git"));
    let mut tree = Tree::new();
    for (path, content, mode) in files {
        let blob = db.store(ObjectKind::Blob, content).unwrap();
        tree.add_entry(&comps(path), blob.oid, *mode);
    }
    let mut out = Vec::new();
    let root = tree.traverse(&db, &mut out).unwrap();
    (root, out)
}

fn entry(mode: &str, name: &str, oid: &Oid) -> Vec<u8> {
    let mut v = format!("{} {}\0", mode, name).into_bytes();
    v.extend_from_slice(oid.as_bytes());
    v
}

fn tree_object(entries: &[Vec<u8>]) -> Vec<u8> {
    let body: Vec<u8> = entries.concat();
    let mut v = format!("tree {}\0", body.len()).into_bytes();
    v.extend_from_slice(&body);
    v
}

fn blob_oid(content: &[u8]) -> Oid {
    let mut v = format!("blob {}\0", content.len()).into_bytes();
    v.extend_from_slice(content);
    Oid::new(&v)
}

#[test]
fn end_to_end_three_files() {
    let files: [(&str, &[u8], u32); 3] = [
        ("a/b.txt", b"bee\n", 0o100644),
        ("a/c.txt", b"sea\n", 0o100644),
        ("d.txt", b"dee\n", 0o100644),
    ];
    let (root, out) = build(&files);
    assert_eq!(out.len(), 2);
    let sub = tree_object(&[
        entry("100644", "b.txt", &blob_oid(b"bee\n")),
        entry("100644", "c.txt", &blob_oid(b"sea\n")),
    ]);
    assert_eq!(inflate(&out[0].data), sub);
    let sub_oid = Oid::new(&sub);
    assert_eq!(out[0].oid, sub_oid);
    let top = tree_object(&[entry("40000", "a", &sub_oid), entry("100644", "d.txt", &blob_oid(b"dee\n"))]);
    assert_eq!(inflate(&out[1].data), top);
    assert_eq!(root, Oid::new(&top));
    assert_eq!(out[1].oid, root);
    let (again, _) = build(&files);
    assert_eq!(again, root);
}

#[test]
fn root_identifier_ignores_insertion_order() {
    let files: [(&str, &[u8], u32); 5] = [
        ("src/main.rs", b"fn main() {}\n", 0o100644),
        ("src/lib/mod.rs", b"mod x;\n", 0o100644),
        ("run.sh", b"#!/bin/sh\n", 0o100755),
        ("README", b"read me\n", 0o100644),
        ("src/lib/x.rs", b"\n", 0o100600),
    ];
    let (first, _) = build(&files);
    let orders: [[usize; 5]; 4] = [[4, 3, 2, 1, 0], [2, 0, 4, 1, 3], [1, 4, 0, 3, 2], [3, 1, 2, 4, 0]];
    for order in orders {
        let permuted: Vec<(&str, &[u8], u32)> = order.iter().map(|&i| files[i]).collect();
        let (root, _) = build(&permuted);
        assert_eq!(root, first);
    }
}

#[test]
fn executable_bit_sets_mode() {
    let (root, out) = build(&[("x", b"x", 0o100711)]);
    let top = tree_object(&[entry("100755", "x", &blob_oid(b"x"))]);
    assert_eq!(inflate(&out[0].data), top);
    assert_eq!(root, Oid::new(&top));
}

#[test]
fn entries_sorted_by_name_bytes() {
    let (_, out) = build(&[("b", b"2", 0o100644), ("a.b", b"1", 0o100644), ("a", b"0", 0o100644)]);
    let top = tree_object(&[
        entry("100644", "a", &blob_oid(b"0")),
        entry("100644", "a.b", &blob_oid(b"1")),
        entry("100644", "b", &blob_oid(b"2")),
    ]);
    assert_eq!(inflate(&out[0].data), top);
}

#[test]
fn re_adding_a_path_replaces_it() {
    let (root, _) = build(&[("f", b"old", 0o100644), ("f", b"new", 0o100644)]);
    let (expected, _) = build(&[("f", b"new", 0o100644)]);
    assert_eq!(root, expected);
}

#[test]
fn file_on_the_way_blocks() {
    let db = Db::new(String::from("/repo/.git"));
    let mut tree = Tree::new();
    tree.add_entry(&comps("a"), Oid::new(b"1"), 0o100644);
    tree.add_entry(&comps("a/b"), Oid::new(b"2"), 0o100644);
    assert_eq!(tree.shows(&comps("a")), Some((Some(Oid::new(b"1")), 0o100644)));
    assert_eq!(tree.shows(&comps("a/b")), None);
    let mut out = Vec::new();
    tree.traverse(&db, &mut out).unwrap();
    assert_eq!(out.len(), 1);
}

#[test]
fn shows_directories_and_files() {
    let mut tree = Tree::new();
    tree.add_entry(&comps("a/b/c"), Oid::new(b"1"), 0o100644);
    assert_eq!(tree.shows(&comps("a")), Some((None, 0)));
    assert_eq!(tree.shows(&comps("a/b")), Some((None, 0)));
    assert_eq!(tree.shows(&comps("a/b/c")), Some((Some(Oid::new(b"1")), 0o100644)));
    assert_eq!(tree.shows(&comps("a/x")), None);
    tree.add_entry(&comps("a/b"), Oid::new(b"2"), 0o100755);
    assert_eq!(tree.shows(&comps("a/b")), Some((Some(Oid::new(b"2")), 0o100755)));
    assert_eq!(tree.shows(&comps("a/b/c")), None);
}

#[test]
fn empty_tree_identifier() {
    let (root, out) = build(&[]);
    assert_eq!(root.to_hex(), "4b825dc642cb6eb9a060e54bf8d69288fbee4904");
    assert_eq!(out.len(), 1);
}

fn triples(files: &[(&str, &[u8], u32)]) -> Vec<(Vec<Vec<u8>>, Oid, u32)> {
    files.iter().map(|(p, c, m)| (comps(p), blob_oid(c), *m)).collect()
}

#[test]
fn from_files_matches_added_one_by_one() {
    let files: [(&str, &[u8], u32); 3] = [
        ("a/b.txt", b"bee\n", 0o100644),
        ("a/c.txt", b"sea\n", 0o100644),
        ("d.txt", b"dee\n", 0o100644),
    ];
    let db = Db::new(String::from("/repo/.git"));
    let tree = Tree::from_files(&triples(&files));
    let mut out = Vec::new();
    let root = tree.traverse(&db, &mut out).unwrap();
    let (expected, _) = build(&files);
    assert_eq!(root, expected);
}

#[test]
fn from_files_any_order_same_root() {
    let files: [(&str, &[u8], u32); 4] = [
        ("x/y/z", b"1", 0o100644),
        ("x/w", b"2", 0o100755),
        ("file10", b"3", 0o100644),
        ("file2", b"4", 0o100644),
    ];
    let db = Db::new(String::from("/repo/.git"));
    let mut reversed = files;
    reversed.reverse();
    let mut o1 = Vec::new();
    let mut o2 = Vec::new();
    let r1 = Tree::from_files(&triples(&files)).traverse(&db, &mut o1).unwrap();
    let r2 = Tree::from_files(&triples(&reversed)).traverse(&db, &mut o2).unwrap();
    assert_eq!(r1, r2);
    assert_eq!(o1.len(), 3);
}

#[test]
fn traverse_writes_children_before_parents() {
    let files: [(&str, &[u8], u32); 3] = [("a/b/c", b"1", 0o100644), ("a/d", b"2", 0o100644), ("e/f", b"3", 0o100644)];
    let (root, out) = build(&files);
    let ids: Vec<Oid> = out.iter().map(|w| w.oid).collect();
    assert_eq!(ids.len(), 4);
    let b = tree_object(&[entry("100644", "c", &blob_oid(b"1"))]);
    assert_eq!(ids[0], Oid::new(&b));
    let a = tree_object(&[entry("40000", "b", &Oid::new(&b)), entry("100644", "d", &blob_oid(b"2"))]);
    assert_eq!(ids[1], Oid::new(&a));
    let e = tree_object(&[entry("100644", "f", &blob_oid(b"3"))]);
    assert_eq!(ids[2], Oid::new(&e));
    assert_eq!(ids[3], root);
}

#[test]
fn to_bytes_gives_sorted_entries() {
    let files: [(&str, &[u8], u32); 3] = [
        ("d.txt", b"dee\n", 0o100644),
        ("a/c.txt", b"sea\n", 0o100644),
        ("a/b.txt", b"bee\n", 0o100644),
    ];
    let tree = Tree::from_files(&triples(&files));
    let sub = tree_object(&[
        entry("100644", "b.txt", &blob_oid(b"bee\n")),
        entry("100644", "c.txt", &blob_oid(b"sea\n")),
    ]);
    let expected = [entry("40000", "a", &Oid::new(&sub)), entry("100644", "d.txt", &blob_oid(b"dee\n"))].concat();
    assert_eq!(tree.to_bytes(), expected);
    assert_eq!(tree.entries.len(), 2);
}
