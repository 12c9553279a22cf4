use minigit::index::is_comparable;
use minigit::{decode, encode, Checksum, ChecksumError, FileStat, Index, IndexEntry, IndexError, LockError, Lockfile, Oid};

fn stat(mode: u32, size: u64) -> FileStat {
    FileStat {
        ctime: 1_700_000_000,
        ctime_nsec: 123,
        mtime: 1_700_000_001,
        mtime_nsec: 456,
        dev: 42,
        ino: 7,
        mode,
        uid: 1000,
        gid: 100,
        size,
    }
}

fn paths(index: &Index) -> Vec<String> {
    index.entries().iter().map(|e| String::from_utf8(e.path.clone()).unwrap()).collect()
}

#[test]
fn entry_collapses_mode_and_clamps_flags() {
    let e = IndexEntry::new(b"run.sh", Oid::new(b"x"), stat(0o100775, 10)).unwrap();
    assert_eq!(e.mode, 0o100755);
    assert_eq!(e.flags, 6);
    let r = IndexEntry::new(b"notes.txt", Oid::new(b"x"), stat(0o100664, 10)).unwrap();
    assert_eq!(r.mode, 0o100644);
    let long = vec![b'a'; 5000];
    let l = IndexEntry::new(&long, Oid::new(b"x"), stat(0o100644, 10)).unwrap();
    assert_eq!(l.flags, 0xFFF);
    assert_eq!(l.path.len(), 5000);
}

#[test]
fn entry_truncates_wide_metadata() {
    let mut s = stat(0o100644, (1u64 << 32) + 5);
    s.ino = (1u64 << 33) + 9;
    s.ctime = -1;
    let e = IndexEntry::new(b"f", Oid::new(b"x"), s).unwrap();
    assert_eq!(e.size, 5);
    assert_eq!(e.ino, 9);
    assert_eq!(e.ctime, -1);
}

#[test]
fn entry_with_nul_in_path_is_refused() {
    let r = IndexEntry::new(b"a\0b", Oid::new(b"x"), stat(0o100644, 1));
    assert!(matches!(r, Err(IndexError::PathContainsNul)));
}

#[test]
fn entry_record_layout() {
    let oid = Oid::new(b"x");
    let e = IndexEntry::new(b"ab", oid, stat(0o100644, 3)).unwrap();
    let b = e.to_bytes();
    assert_eq!(b.len(), 72);
    assert_eq!(&b[0..4], &1_700_000_000i32.to_be_bytes());
    assert_eq!(&b[24..28], &0o100644u32.to_be_bytes());
    assert_eq!(&b[40..60], oid.as_bytes());
    assert_eq!(&b[60..62], &[0, 2]);
    assert_eq!(&b[62..64], b"ab");
    assert!(b[64..].iter().all(|&x| x == 0));
    let p = IndexEntry::parse(&b).unwrap();
    assert_eq!(p.path, b"ab".to_vec());
    assert_eq!(p.to_bytes(), b);
}

#[test]
fn entry_record_sizes_are_multiples_of_eight() {
    for n in 0..20usize {
        let path = vec![b'p'; n];
        let e = IndexEntry::new(&path, Oid::new(b"x"), stat(0o100644, 1)).unwrap();
        let b = e.to_bytes();
        assert_eq!(b.len() % 8, 0);
        assert!(b.len() >= 64);
        assert!(b.len() >= 63 + n);
        assert!(b.len() < 63 + n + 8);
    }
}

#[test]
fn parse_rejects_short_and_unterminated() {
    assert!(matches!(IndexEntry::parse(&[1u8; 10]), Err(IndexError::EntryTooShort)));
    assert!(matches!(IndexEntry::parse(&[1u8; 64]), Err(IndexError::PathNotTerminated)));
}

#[test]
fn natural_order_of_paths() {
    let mut index = Index::new(String::from("/repo/.git/index"));
    for p in ["file2", "file10", "file1"] {
        index.add(p.as_bytes(), Oid::new(p.as_bytes()), stat(0o100644, 1)).unwrap();
    }
    assert_eq!(paths(&index), vec!["file1", "file2", "file10"]);
}

#[test]
fn add_same_path_replaces() {
    let mut index = Index::new(String::from("/repo/.git/index"));
    index.add(b"a.txt", Oid::new(b"one"), stat(0o100644, 1)).unwrap();
    index.add(b"b.txt", Oid::new(b"two"), stat(0o100644, 1)).unwrap();
    index.add(b"a.txt", Oid::new(b"three"), stat(0o100755, 9)).unwrap();
    assert_eq!(index.len(), 2);
    assert_eq!(paths(&index), vec!["a.txt", "b.txt"]);
    assert_eq!(index.entries()[0].oid, Oid::new(b"three"));
    assert_eq!(index.entries()[0].mode, 0o100755);
}

fn sample_entries() -> Vec<IndexEntry> {
    vec![
        IndexEntry::new(b"a/b.txt", Oid::new(b"1"), stat(0o100644, 11)).unwrap(),
        IndexEntry::new(b"a/c.txt", Oid::new(b"2"), stat(0o100755, 22)).unwrap(),
        IndexEntry::new(b"d.txt", Oid::new(b"3"), stat(0o100644, 33)).unwrap(),
        IndexEntry::new(b"some/longer/path/name.rs", Oid::new(b"4"), stat(0o100644, 44)).unwrap(),
    ]
}

#[test]
fn index_file_round_trip() {
    let entries = sample_entries();
    let bytes = encode(&entries);
    assert_eq!(&bytes[0..4], b"DIRC");
    assert_eq!(&bytes[4..8], &[0, 0, 0, 2]);
    assert_eq!(&bytes[8..12], &[0, 0, 0, 4]);
    let back = decode(bytes).unwrap();
    assert_eq!(back.len(), entries.len());
    for (a, b) in entries.iter().zip(back.iter()) {
        assert_eq!(a.to_bytes(), b.to_bytes());
        assert_eq!(a.path, b.path);
        assert_eq!(a.oid, b.oid);
        assert_eq!((a.ctime, a.ctime_nsec, a.mtime, a.mtime_nsec), (b.ctime, b.ctime_nsec, b.mtime, b.mtime_nsec));
        assert_eq!((a.dev, a.ino, a.mode, a.uid, a.gid, a.size, a.flags), (b.dev, b.ino, b.mode, b.uid, b.gid, b.size, b.flags));
    }
}

#[test]
fn empty_index_round_trip() {
    let bytes = encode(&Vec::new());
    assert_eq!(bytes.len(), 32);
    assert_eq!(decode(bytes).unwrap().len(), 0);
}

#[test]
fn digest_flip_is_checksum_mismatch() {
    let bytes = encode(&sample_entries());
    for k in 0..20 {
        let mut bad = bytes.clone();
        let at = bad.len() - 1 - k;
        bad[at] ^= 0x01;
        assert!(matches!(decode(bad), Err(IndexError::ChecksumMismatch)));
    }
}

#[test]
fn body_flip_is_detected() {
    let bytes = encode(&sample_entries());
    let mut bad = bytes.clone();
    bad[20] ^= 0x80;
    assert!(matches!(decode(bad), Err(IndexError::ChecksumMismatch)));
}

#[test]
fn truncation_is_end_of_input() {
    let bytes = encode(&sample_entries());
    for cut in [5usize, 11, 12, 40, 80, 100, bytes.len() - 21, bytes.len() - 1] {
        let r = decode(bytes[..cut].to_vec());
        assert!(matches!(r, Err(IndexError::UnexpectedEndOfInput)), "cut at {}", cut);
    }
}

#[test]
fn bad_signature_and_version() {
    let bytes = encode(&sample_entries());
    let mut sig = bytes.clone();
    sig[0] = b'X';
    assert!(matches!(decode(sig), Err(IndexError::BadSignature)));
    let mut ver = bytes.clone();
    ver[7] = 3;
    assert!(matches!(decode(ver), Err(IndexError::BadVersion)));
}

#[test]
fn load_missing_file_is_empty() {
    let mut index = Index::new(String::from("/repo/.git/index"));
    assert!(index.load(None).is_ok());
    assert_eq!(index.len(), 0);
}

#[test]
fn load_failure_adds_nothing() {
    let mut index = Index::new(String::from("/repo/.git/index"));
    let mut bad = encode(&sample_entries());
    let n = bad.len();
    bad[n - 1] ^= 1;
    assert!(matches!(index.load(Some(bad)), Err(IndexError::ChecksumMismatch)));
    assert_eq!(index.len(), 0);
}

#[test]
fn load_for_update_busy_loads_nothing() {
    let mut index = Index::new(String::from("/repo/.git/index"));
    let r = index.load_for_update(false, Some(encode(&sample_entries())));
    assert!(matches!(r, Ok(false)));
    assert_eq!(index.len(), 0);
    assert!(!index.lockfile().is_held());
}

#[test]
fn write_then_load_reproduces_entries() {
    let mut index = Index::new(String::from("/repo/.git/index"));
    assert!(matches!(index.load_for_update(true, None), Ok(true)));
    for p in ["d.txt", "a/c.txt", "a/b.txt"] {
        index.add(p.as_bytes(), Oid::new(p.as_bytes()), stat(0o100644, 5)).unwrap();
    }
    let written = index.write_updates().unwrap().unwrap();
    assert_eq!(written, encode(index.entries()));
    assert!(!index.lockfile().is_held());

    let mut again = Index::new(String::from("/repo/.git/index"));
    assert!(matches!(again.load_for_update(true, Some(written)), Ok(true)));
    assert_eq!(paths(&again), paths(&index));
    for (a, b) in index.entries().iter().zip(again.entries().iter()) {
        assert_eq!(a.to_bytes(), b.to_bytes());
    }
}

#[test]
fn clean_index_rolls_back() {
    let mut index = Index::new(String::from("/repo/.git/index"));
    assert!(matches!(index.load_for_update(true, None), Ok(true)));
    assert!(matches!(index.write_updates(), Ok(None)));
    assert!(!index.lockfile().is_held());
}

#[test]
fn write_without_claim_fails() {
    let mut index = Index::new(String::from("/repo/.git/index"));
    index.add(b"x", Oid::new(b"x"), stat(0o100644, 1)).unwrap();
    assert!(matches!(index.write_updates(), Err(IndexError::NotHolding)));
}

#[test]
fn lockfile_protocol() {
    let mut lock = Lockfile::new(String::from("/repo/.git/index"));
    assert_eq!(lock.lock_path().as_str(), "/repo/.git/index.lock");
    assert_eq!(lock.write(b"x"), Err(LockError::NotHolding));
    assert_eq!(lock.commit(), Err(LockError::NotHolding));
    assert_eq!(lock.rollback(), Err(LockError::NotHolding));
    assert!(lock.hold_for_update(true));
    assert!(lock.hold_for_update(false));
    lock.write(b"ab").unwrap();
    lock.write(b"cd").unwrap();
    assert_eq!(lock.commit(), Ok(b"abcd".to_vec()));
    assert!(!lock.is_held());
    assert!(lock.hold_for_update(true));
    lock.write(b"zz").unwrap();
    assert_eq!(lock.rollback(), Ok(()));
    assert_eq!(lock.commit(), Err(LockError::NotHolding));
}

#[test]
fn lock_path_replaces_extension() {
    let lock = Lockfile::new(String::from("/repo/.git/HEAD"));
    assert_eq!(lock.lock_path().as_str(), "/repo/.git/HEAD.lock");
    assert_eq!(lock.file_path().as_str(), "/repo/.git/HEAD");
    let other = Lockfile::new(String::from("dir/data.txt"));
    assert_eq!(other.lock_path().as_str(), "dir/data.lock");
}

#[test]
fn two_claims_one_wins() {
    // The exclusive creation of the lock file succeeds for the first claimant
    // only; the second is told that it exists until the first releases it.
    let mut first = Lockfile::new(String::from("/repo/.git/index"));
    let mut second = Lockfile::new(String::from("/repo/.git/index"));
    assert!(first.hold_for_update(true));
    assert!(!second.hold_for_update(false));
    first.commit().unwrap();
    assert!(second.hold_for_update(true));
}

#[test]
fn checksum_stream_reads_and_verifies() {
    let mut w = Checksum::new(Vec::new());
    w.write(b"hello ");
    w.write(b"world");
    w.write_checksum();
    let bytes = w.into_bytes();
    assert_eq!(bytes.len(), 31);
    let mut r = Checksum::new(bytes.clone());
    assert_eq!(r.read(6).unwrap(), b"hello ".to_vec());
    assert_eq!(r.read(5).unwrap(), b"world".to_vec());
    assert_eq!(r.verify_checksum(), Ok(()));

    let mut short = Checksum::new(bytes.clone());
    assert_eq!(short.read(100), Err(ChecksumError::UnexpectedEndOfInput));
    let mut early = Checksum::new(bytes);
    early.read(6).unwrap();
    assert_eq!(early.verify_checksum(), Err(ChecksumError::ChecksumMismatch));
}

#[test]
fn long_digit_runs_compare_only_against_short_ones() {
    let mut index = Index::new(String::from("/repo/.git/index"));
    index.add(b"v99999999999999999999", Oid::new(b"x"), stat(0o100644, 1)).unwrap();
    index.add(b"w1", Oid::new(b"y"), stat(0o100644, 1)).unwrap();
    let r = index.add(b"v99999999999999999998", Oid::new(b"z"), stat(0o100644, 1));
    assert!(matches!(r, Err(IndexError::DigitRunTooLong)));
    assert_eq!(index.len(), 2);
    index.add(b"v9999999999999999999", Oid::new(b"x"), stat(0o100644, 1)).unwrap();
    index.add(b"v99999999999999999999", Oid::new(b"q"), stat(0o100644, 1)).unwrap();
    assert_eq!(index.len(), 3);
}

#[test]
fn non_ascii_names_load() {
    let names = ["\u{e9}\u{e9}", "\u{6f22}\u{5b57}", "\u{1f600}.txt", "\u{e9}\u{e9}1", "a"];
    let entries: Vec<IndexEntry> = names
        .iter()
        .map(|n| IndexEntry::new(n.as_bytes(), Oid::new(n.as_bytes()), stat(0o100644, 1)).unwrap())
        .collect();
    let mut index = Index::new(String::from("/repo/.git/index"));
    index.load(Some(encode(&entries))).unwrap();
    assert_eq!(index.len(), 5);
    for n in names {
        index.add(n.as_bytes(), Oid::new(b"again"), stat(0o100644, 1)).unwrap();
    }
    assert_eq!(index.len(), 5);
}

#[test]
fn load_refuses_two_long_digit_runs() {
    let entries = vec![
        IndexEntry::new(b"v99999999999999999999", Oid::new(b"1"), stat(0o100644, 1)).unwrap(),
        IndexEntry::new(b"v99999999999999999998", Oid::new(b"2"), stat(0o100644, 1)).unwrap(),
    ];
    let mut index = Index::new(String::from("/repo/.git/index"));
    index.add(b"keep", Oid::new(b"k"), stat(0o100644, 1)).unwrap();
    assert!(matches!(index.load(Some(encode(&entries))), Err(IndexError::DigitRunTooLong)));
    assert_eq!(index.len(), 1);
}

#[test]
fn comparable_streams() {
    assert!(is_comparable("caf\u{e9}.txt".as_bytes()));
    assert!(is_comparable("\u{e9}\u{e9}1".as_bytes()));
    assert!(is_comparable(b"0123456789012345678"));
    assert!(!is_comparable(b"01234567890123456789"));
    assert!(is_comparable(b"0123456789x0123456789"));
}
