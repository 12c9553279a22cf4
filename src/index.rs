use crate::bytes::{
    append, be16, be32, get_be16, get_be32, lemma_be16_round_trip, lemma_be32_round_trip,
    push_be16, push_be32, read_be16, read_be32,
};
use crate::checksum::{Checksum, ChecksumError, CHECKSUM_SIZE};
use crate::lockfile::{LockError, Lockfile};
use crate::oid::{sha1_of, Oid, OID_LEN};
use std::cmp::Ordering;
use vstd::prelude::*;
use vstd::string::StrSliceExecFns;

verus! {

/// Records are padded to a multiple of this many bytes, and read in steps of it.
pub const ENTRY_BLOCK: usize = 8;

/// The smallest record: the fixed header, a one-byte path and its terminator.
pub const ENTRY_MIN_SIZE: usize = 64;

/// Length of the fixed part of a record, before the path.
pub const ENTRY_FIXED_SIZE: usize = 62;

/// Length of the file header: signature, version and entry count.
pub const HEADER_SIZE: usize = 12;

/// The largest path length that the flags field records.
pub const MAX_PATH_SIZE: usize = 0xFFF;

/// Mode of a file with some executable bit set.
pub const EXECUTABLE_MODE: u32 = 0o100755;

/// Mode of any other regular file.
pub const REGULAR_MODE: u32 = 0o100644;

/// The only format version this index reads and writes.
pub const VERSION: u32 = 2;

/// The four signature bytes, "DIRC".
pub open spec fn signature() -> Seq<u8> {
    seq![0x44u8, 0x49u8, 0x52u8, 0x43u8]
}

/// What the file system reports of a file, as plain values.
#[derive(Debug, Clone, Copy, PartialEq, Eq, Structural)]
pub struct FileStat {
    pub ctime: i64,
    pub ctime_nsec: i64,
    pub mtime: i64,
    pub mtime_nsec: i64,
    pub dev: u64,
    pub ino: u64,
    pub mode: u32,
    pub uid: u32,
    pub gid: u32,
    pub size: u64,
}

/// One row of the staging index, as a mathematical value.
pub struct EntryView {
    pub ctime: i32,
    pub ctime_nsec: u32,
    pub mtime: i32,
    pub mtime_nsec: u32,
    pub dev: u32,
    pub ino: u32,
    pub mode: u32,
    pub uid: u32,
    pub gid: u32,
    pub size: u32,
    pub oid: Seq<u8>,
    pub flags: u16,
    pub path: Seq<u8>,
}

/// One row of the staging index: a tracked path, its metadata and the
/// identifier of its content.
#[derive(Debug, Clone)]
pub struct IndexEntry {
    pub ctime: i32,
    pub ctime_nsec: u32,
    pub mtime: i32,
    pub mtime_nsec: u32,
    pub dev: u32,
    pub ino: u32,
    pub mode: u32,
    pub uid: u32,
    pub gid: u32,
    pub size: u32,
    pub oid: Oid,
    pub flags: u16,
    pub path: Vec<u8>,
}

impl View for IndexEntry {
    type V = EntryView;

    open spec fn view(&self) -> EntryView {
        EntryView {
            ctime: self.ctime,
            ctime_nsec: self.ctime_nsec,
            mtime: self.mtime,
            mtime_nsec: self.mtime_nsec,
            dev: self.dev,
            ino: self.ino,
            mode: self.mode,
            uid: self.uid,
            gid: self.gid,
            size: self.size,
            oid: self.oid@,
            flags: self.flags,
            path: self.path@,
        }
    }
}

/// A path that a record can hold: no NUL byte inside it.
pub open spec fn no_nul(p: Seq<u8>) -> bool {
    forall|i: int| 0 <= i < p.len() ==> #[trigger] p[i] != 0
}

/// An entry that a record can carry: a 20-byte identifier and a path
/// without NUL bytes.
pub open spec fn storable(e: EntryView) -> bool {
    e.oid.len() == 20 && no_nul(e.path)
}

/// No two entries of `es` share a path.
pub open spec fn unique_paths(es: Seq<EntryView>) -> bool {
    forall|i: int, j: int| 0 <= i < es.len() && 0 <= j < es.len() && i != j ==> (#[trigger] es[i]).path != (#[trigger] es[j]).path
}

/// The mode recorded for a file: executable when any executable bit is set.
pub open spec fn collapsed_mode(raw: u32) -> u32 {
    if raw & 0o111 != 0 {
        EXECUTABLE_MODE
    } else {
        REGULAR_MODE
    }
}

/// The path length as the flags field records it, clamped.
pub open spec fn path_flags(len: nat) -> u16 {
    if len < MAX_PATH_SIZE {
        len as u16
    } else {
        MAX_PATH_SIZE as u16
    }
}

/// How many zero bytes bring `n` up to a multiple of eight.
pub open spec fn pad_len(n: nat) -> nat {
    ((8 - n % 8) % 8) as nat
}

/// The fixed 62-byte part of a record.
pub open spec fn entry_fixed(e: EntryView) -> Seq<u8> {
    be32(e.ctime as u32) + be32(e.ctime_nsec) + be32(e.mtime as u32) + be32(e.mtime_nsec) + be32(
        e.dev,
    ) + be32(e.ino) + be32(e.mode) + be32(e.uid) + be32(e.gid) + be32(e.size) + e.oid + be16(
        e.flags,
    )
}

/// The whole record: fixed part, path, NUL, zero padding to a multiple of 8.
#[verifier::opaque]
pub open spec fn entry_bytes(e: EntryView) -> Seq<u8> {
    entry_fixed(e) + e.path + seq![0u8] + Seq::new(
        pad_len((ENTRY_FIXED_SIZE + e.path.len() + 1) as nat),
        |i: int| 0u8,
    )
}

/// The index entry for `path` with content `oid` and metadata `stat`.
/// Times, ids and size are truncated to 32 bits; the mode collapses to
/// executable or regular.
pub open spec fn entry_of(path: Seq<u8>, oid: Seq<u8>, stat: FileStat) -> EntryView {
    EntryView {
        ctime: stat.ctime as i32,
        ctime_nsec: stat.ctime_nsec as u32,
        mtime: stat.mtime as i32,
        mtime_nsec: stat.mtime_nsec as u32,
        dev: stat.dev as u32,
        ino: stat.ino as u32,
        mode: collapsed_mode(stat.mode),
        uid: stat.uid,
        gid: stat.gid,
        size: stat.size as u32,
        oid: oid,
        flags: path_flags(path.len()),
        path: path,
    }
}

/// Why an index could not be built, read or written.
#[derive(Debug, Clone, Copy, PartialEq, Eq, Structural)]
pub enum IndexError {
    /// A path holds a NUL byte.
    PathContainsNul,
    /// The file does not start with the signature.
    BadSignature,
    /// The file's format version is not the supported one.
    BadVersion,
    /// The file ends inside the header, an entry or the digest.
    UnexpectedEndOfInput,
    /// The stored digest differs from the digest of what precedes it.
    ChecksumMismatch,
    /// A record is shorter than the smallest record.
    EntryTooShort,
    /// A record's path has no terminating NUL.
    PathNotTerminated,
    /// The index was written without holding its claim.
    NotHolding,
    /// A path holds a run of digits too long to compare in natural order.
    DigitRunTooLong,
}


/// Index of the first NUL at or after `from`, or the length when there is none.
pub open spec fn first_nul(s: Seq<u8>, from: int) -> int
    decreases s.len() - from,
{
    if from >= s.len() {
        s.len() as int
    } else if s[from] == 0 {
        from
    } else {
        first_nul(s, from + 1)
    }
}

/// The entry that a record's bytes hold.
pub open spec fn parse_entry(data: Seq<u8>) -> Result<EntryView, IndexError> {
    if data.len() < ENTRY_MIN_SIZE {
        Err(IndexError::EntryTooShort)
    } else if first_nul(data, ENTRY_FIXED_SIZE as int) >= data.len() {
        Err(IndexError::PathNotTerminated)
    } else {
        Ok(
            EntryView {
                ctime: read_be32(data, 0) as i32,
                ctime_nsec: read_be32(data, 4),
                mtime: read_be32(data, 8) as i32,
                mtime_nsec: read_be32(data, 12),
                dev: read_be32(data, 16),
                ino: read_be32(data, 20),
                mode: read_be32(data, 24),
                uid: read_be32(data, 28),
                gid: read_be32(data, 32),
                size: read_be32(data, 36),
                oid: data.subrange(40, 60),
                flags: read_be16(data, 60),
                path: data.subrange(
                    ENTRY_FIXED_SIZE as int,
                    first_nul(data, ENTRY_FIXED_SIZE as int),
                ),
            },
        )
    }
}

/// Where a record read from the stream ends: it is read in a chunk of the
/// smallest record size, then extended a block at a time until its last byte
/// is NUL. `end` is the current candidate; `None` when the data runs out.
pub open spec fn record_end(data: Seq<u8>, end: int) -> Option<int>
    decreases data.len() + 8 - end,
{
    if end > data.len() {
        None
    } else if data[end - 1] == 0 {
        Some(end)
    } else {
        record_end(data, end + 8)
    }
}

/// The first `count` records from `at` on, and where they end.
pub open spec fn parse_records(data: Seq<u8>, at: int, count: nat) -> Result<
    (Seq<EntryView>, int),
    IndexError,
>
    decreases count,
{
    if count == 0 {
        Ok((Seq::empty(), at))
    } else {
        match parse_records(data, at, (count - 1) as nat) {
            Err(x) => Err(x),
            Ok((es, p)) => match record_end(data, p + ENTRY_MIN_SIZE) {
                None => Err(IndexError::UnexpectedEndOfInput),
                Some(end) => match parse_entry(data.subrange(p, end)) {
                    Err(x) => Err(x),
                    Ok(e) => Ok((es.push(e), end)),
                },
            },
        }
    }
}

/// The entries that an index file holds, or why it is refused.
pub open spec fn decode_index(data: Seq<u8>) -> Result<Seq<EntryView>, IndexError> {
    if data.len() < HEADER_SIZE {
        Err(IndexError::UnexpectedEndOfInput)
    } else if data.subrange(0, 4) != signature() {
        Err(IndexError::BadSignature)
    } else if read_be32(data, 4) != VERSION {
        Err(IndexError::BadVersion)
    } else {
        match parse_records(data, HEADER_SIZE as int, read_be32(data, 8) as nat) {
            Err(x) => Err(x),
            Ok((es, p)) => if p + CHECKSUM_SIZE > data.len() {
                Err(IndexError::UnexpectedEndOfInput)
            } else if data.subrange(p, p + CHECKSUM_SIZE) != sha1_of(data.subrange(0, p)) {
                Err(IndexError::ChecksumMismatch)
            } else {
                Ok(es)
            },
        }
    }
}

/// The records of `es`, one after the other.
pub open spec fn entries_bytes(es: Seq<EntryView>) -> Seq<u8>
    decreases es.len(),
{
    if es.len() == 0 {
        Seq::empty()
    } else {
        entries_bytes(es.drop_last()) + entry_bytes(es.last())
    }
}

/// Header and records of an index file holding `es`.
pub open spec fn index_body(es: Seq<EntryView>) -> Seq<u8> {
    signature() + be32(VERSION) + be32(es.len() as u32) + entries_bytes(es)
}

/// An index file holding `es`: header, records, and the digest of both.
pub open spec fn index_file(es: Seq<EntryView>) -> Seq<u8> {
    index_body(es) + sha1_of(index_body(es))
}

/// The models of a sequence of entries.
pub open spec fn views(v: Seq<IndexEntry>) -> Seq<EntryView> {
    v.map_values(|e: IndexEntry| e@)
}

fn checksum_error(e: ChecksumError) -> (r: IndexError)
    ensures
        e == ChecksumError::UnexpectedEndOfInput ==> r == IndexError::UnexpectedEndOfInput,
        e == ChecksumError::ChecksumMismatch ==> r == IndexError::ChecksumMismatch,
{
    match e {
        ChecksumError::UnexpectedEndOfInput => IndexError::UnexpectedEndOfInput,
        ChecksumError::ChecksumMismatch => IndexError::ChecksumMismatch,
    }
}

/// The position of the first entry in `s`, from `i` on, whose path is `p`;
/// the length of `s` when there is none.
pub open spec fn find_path(s: Seq<EntryView>, p: Seq<u8>, i: int) -> int
    decreases s.len() - i,
{
    if i >= s.len() {
        s.len() as int
    } else if s[i].path == p {
        i
    } else {
        find_path(s, p, i + 1)
    }
}

/// Where a new path goes: before the first entry, from `i` on, that it
/// precedes in natural order; at the end when there is none.
pub open spec fn insert_position(s: Seq<EntryView>, p: Seq<u8>, i: int) -> int
    decreases s.len() - i,
{
    if i >= s.len() {
        s.len() as int
    } else if natural_cmp_of(p, s[i].path) == Ordering::Less {
        i
    } else {
        insert_position(s, p, i + 1)
    }
}

/// The table with `e` added under its path: it replaces the entry with the
/// same path, or else goes in at its place in natural order.
pub open spec fn upsert(s: Seq<EntryView>, e: EntryView) -> Seq<EntryView> {
    let j = find_path(s, e.path, 0);
    if j < s.len() {
        s.update(j, e)
    } else {
        s.insert(insert_position(s, e.path, 0), e)
    }
}

/// The order that `lexical_sort::natural_lexical_cmp` gives two paths (each
/// read as UTF-8, an invalid one as empty).
pub uninterp spec fn natural_cmp_of(a: Seq<u8>, b: Seq<u8>) -> Ordering;

/// The characters that `lexical_sort::natural_lexical_cmp` walks for a path
/// (read as UTF-8, an invalid one as empty): ASCII lowercased, other
/// letters and digits transliterated to ASCII, combining marks dropped.
pub uninterp spec fn lexical_chars_of(p: Seq<u8>) -> Seq<char>;

/// Relies on lexical_sort::iter::iterate_lexical, the character stream that
/// natural_lexical_cmp compares.
#[verifier::external_body]
fn lexical_chars(p: &[u8]) -> (r: String)
    ensures
        r@ == lexical_chars_of(p@),
{
    lexical_sort::iter::iterate_lexical(std::str::from_utf8(p).unwrap_or_default()).collect()
}

/// The length of the run of ASCII digits that ends just before `i`.
pub open spec fn digit_run(cs: Seq<char>, i: int) -> int
    decreases i,
{
    if i <= 0 || i > cs.len() {
        0
    } else if '0' <= cs[i - 1] <= '9' {
        digit_run(cs, i - 1) + 1
    } else {
        0
    }
}

/// Every run of digits in `cs` is shorter than 20, so the number that the
/// comparison builds from it fits in a `u64`.
pub open spec fn short_digit_runs(cs: Seq<char>) -> bool {
    forall|i: int| 0 <= i <= cs.len() ==> #[trigger] digit_run(cs, i) < 20
}

/// The comparison's character stream for `p` has only short digit runs.
pub open spec fn comparable(p: Seq<u8>) -> bool {
    short_digit_runs(lexical_chars_of(p))
}

/// Two paths that the comparison can take: a digit run overflows only
/// where both streams hold one of 20 or more digits.
pub open spec fn cmp_ok(p: Seq<u8>, q: Seq<u8>) -> bool {
    comparable(p) || comparable(q)
}

/// Relies on lexical_sort::natural_lexical_cmp: case-aware comparison in
/// which runs of digits compare by value. Two aligned runs of 20 or more
/// digits overflow its `u64` accumulators; the `requires` keeps one side's
/// runs short.
#[verifier::external_body]
fn natural_cmp(a: &[u8], b: &[u8]) -> (r: Ordering)
    requires
        cmp_ok(a@, b@),
    ensures
        r == natural_cmp_of(a@, b@),
{
    lexical_sort::natural_lexical_cmp(
        std::str::from_utf8(a).unwrap_or_default(),
        std::str::from_utf8(b).unwrap_or_default(),
    )
}

/// Whether the comparison's character stream for `p` has only short digit
/// runs.
pub fn is_comparable(p: &[u8]) -> (r: bool)
    ensures
        r == comparable(p@),
{
    let s = lexical_chars(p);
    let n = s.as_str().unicode_len();
    let mut run: usize = 0;
    let mut i: usize = 0;
    while i < n
        invariant
            n == s@.len(),
            s@ == lexical_chars_of(p@),
            0 <= i <= n,
            run == digit_run(s@, i as int),
            run < 20,
            forall|k: int| 0 <= k <= i ==> #[trigger] digit_run(s@, k) < 20,
        decreases n - i,
    {
        let c = s.as_str().get_char(i);
        if '0' <= c && c <= '9' {
            run = run + 1;
        } else {
            run = 0;
        }
        i = i + 1;
        assert(run == digit_run(s@, i as int));
        if run >= 20 {
            return false;
        }
    }
    true
}

/// Where inserting `p` from `i` on stops at an entry that it cannot be
/// compared with, before finding its place.
pub open spec fn insert_blocked(s: Seq<EntryView>, p: Seq<u8>, i: int) -> bool
    decreases s.len() - i,
{
    if i >= s.len() {
        false
    } else if !cmp_ok(p, s[i].path) {
        true
    } else if natural_cmp_of(p, s[i].path) == Ordering::Less {
        false
    } else {
        insert_blocked(s, p, i + 1)
    }
}

/// Adding `e` needs a comparison that could overflow.
pub open spec fn upsert_blocked(s: Seq<EntryView>, e: EntryView) -> bool {
    find_path(s, e.path, 0) >= s.len() && insert_blocked(s, e.path, 0)
}

/// The table with each of `es` added in turn, or `None` where some addition
/// is blocked.
pub open spec fn upsert_all_checked(s: Seq<EntryView>, es: Seq<EntryView>) -> Option<Seq<EntryView>>
    decreases es.len(),
{
    if es.len() == 0 {
        Some(s)
    } else {
        match upsert_all_checked(s, es.drop_last()) {
            None => None,
            Some(t) => if upsert_blocked(t, es.last()) {
                None
            } else {
                Some(upsert(t, es.last()))
            },
        }
    }
}

proof fn lemma_checked_none_persists(s: Seq<EntryView>, es: Seq<EntryView>, k: int, n: int)
    requires
        0 <= k <= n <= es.len(),
        upsert_all_checked(s, es.subrange(0, k)) is None,
    ensures
        upsert_all_checked(s, es.subrange(0, n)) is None,
    decreases n,
{
    if n > k {
        lemma_checked_none_persists(s, es, k, n - 1);
        assert(es.subrange(0, n).drop_last() =~= es.subrange(0, n - 1));
    }
}

/// Adds `e` to the table in `entries` as `upsert` does, unless that needs a
/// comparison that could overflow: then `false`, and nothing changes.
fn upsert_into(entries: &mut Vec<IndexEntry>, e: IndexEntry) -> (r: bool)
    requires
        storable(e@),
        unique_paths(views(old(entries)@)),
        forall|i: int| 0 <= i < old(entries)@.len() ==> storable(#[trigger] views(old(entries)@)[i]),
    ensures
        r == !upsert_blocked(views(old(entries)@), e@),
        r ==> views(final(entries)@) == upsert(views(old(entries)@), e@),
        !r ==> *final(entries) == *old(entries),
        unique_paths(views(final(entries)@)),
        forall|i: int| 0 <= i < final(entries)@.len() ==> storable(#[trigger] views(final(entries)@)[i]),
{
    let ghost s = views(entries@);
    let mut j: usize = 0;
    while j < entries.len() && !bytes_equal(entries[j].path.as_slice(), e.path.as_slice())
        invariant
            s == views(entries@),
            0 <= j <= entries@.len(),
            find_path(s, e@.path, 0) == find_path(s, e@.path, j as int),
            forall|k: int| 0 <= k < j ==> (#[trigger] s[k]).path != e@.path,
        decreases entries@.len() - j,
    {
        assert(s[j as int] == entries@[j as int]@);
        j = j + 1;
    }
    if j < entries.len() {
        assert(s[j as int] == entries@[j as int]@);
        let ghost ev = e@;
        entries.set(j, e);
        assert(views(entries@) =~= s.update(j as int, ev));
        proof {
            let t = s.update(j as int, ev);
            assert forall|a: int, b: int| 0 <= a < t.len() && 0 <= b < t.len() && a != b implies (#[trigger] t[a]).path != (#[trigger] t[b]).path by {
                assert(s[a].path != s[b].path);
            }
            assert forall|a: int| 0 <= a < t.len() implies storable(#[trigger] t[a]) by {
                if a != j {
                    assert(storable(s[a]));
                }
            }
        }
        return true;
    }
    let new_ok = is_comparable(e.path.as_slice());
    let mut k: usize = 0;
    let mut placed = false;
    while !placed && k < entries.len()
        invariant
            s == views(entries@),
            *entries == *old(entries),
            s == views(old(entries)@),
            unique_paths(s),
            forall|i: int| 0 <= i < s.len() ==> storable(#[trigger] s[i]),
            new_ok == comparable(e@.path),
            find_path(s, e@.path, 0) >= s.len(),
            0 <= k <= entries@.len(),
            insert_position(s, e@.path, 0) == insert_position(s, e@.path, k as int),
            insert_blocked(s, e@.path, 0) == insert_blocked(s, e@.path, k as int),
            placed ==> k < entries@.len() && cmp_ok(e@.path, s[k as int].path) && natural_cmp_of(
                e@.path,
                s[k as int].path,
            ) == Ordering::Less,
        decreases entries@.len() - k + (if placed {
            0int
        } else {
            1int
        }),
    {
        assert(s[k as int] == entries@[k as int]@);
        if !new_ok && !is_comparable(entries[k].path.as_slice()) {
            return false;
        }
        if precedes(e.path.as_slice(), entries[k].path.as_slice()) {
            placed = true;
        } else {
            k = k + 1;
        }
    }
    let ghost ev = e@;
    entries.insert(k, e);
    assert(views(entries@) =~= s.insert(k as int, ev));
    proof {
        let t = s.insert(k as int, ev);
        assert forall|a: int, b: int| 0 <= a < t.len() && 0 <= b < t.len() && a != b implies (#[trigger] t[a]).path != (#[trigger] t[b]).path by {
            let a2 = if a < k { a } else { a - 1 };
            let b2 = if b < k { b } else { b - 1 };
            if a != k && b != k {
                assert(t[a] == s[a2] && t[b] == s[b2]);
                assert(s[a2].path != s[b2].path);
            } else if a == k {
                assert(t[b] == s[b2]);
                assert(s[b2].path != ev.path);
            } else {
                assert(t[a] == s[a2]);
                assert(s[a2].path != ev.path);
            }
        }
        assert forall|a: int| 0 <= a < t.len() implies storable(#[trigger] t[a]) by {
            if a < k {
                assert(storable(s[a]));
            } else if a > k {
                assert(storable(s[a - 1]));
            }
        }
    }
    true
}

pub proof fn lemma_records_error_persists(data: Seq<u8>, at: int, i: nat, n: nat)
    requires
        i <= n,
        parse_records(data, at, i) is Err,
    ensures
        parse_records(data, at, n) == parse_records(data, at, i),
    decreases n,
{
    if n > i {
        lemma_records_error_persists(data, at, i, (n - 1) as nat);
    }
}

/// Decodes a whole index file: header, `count` records, and the digest,
/// which must match everything before it.
pub fn decode(data: Vec<u8>) -> (r: Result<Vec<IndexEntry>, IndexError>)
    ensures
        r matches Ok(v) ==> decode_index(data@) == Ok::<Seq<EntryView>, IndexError>(views(v@)),
        r matches Ok(v) ==> forall|i: int| 0 <= i < v@.len() ==> storable(#[trigger] views(v@)[i]),
        r matches Err(x) ==> decode_index(data@) == Err::<Seq<EntryView>, IndexError>(x),
{
    let ghost d = data@;
    let mut rdr = Checksum::new(data);
    let header = match rdr.read(HEADER_SIZE) {
        Ok(h) => h,
        Err(_) => {
            return Err(IndexError::UnexpectedEndOfInput);
        },
    };
    assert(header@ == d.subrange(0, 12));
    if header[0] != 0x44 || header[1] != 0x49 || header[2] != 0x52 || header[3] != 0x43 {
        assert(d.subrange(0, 4) != signature()) by {
            assert(d.subrange(0, 4)[0] == header@[0]);
            assert(d.subrange(0, 4)[1] == header@[1]);
            assert(d.subrange(0, 4)[2] == header@[2]);
            assert(d.subrange(0, 4)[3] == header@[3]);
        }
        return Err(IndexError::BadSignature);
    }
    assert(d.subrange(0, 4) =~= signature());
    let version = get_be32(header.as_slice(), 4);
    assert(read_be32(header@, 4) == read_be32(d, 4));
    if version != VERSION {
        return Err(IndexError::BadVersion);
    }
    let count = get_be32(header.as_slice(), 8);
    assert(read_be32(header@, 8) == read_be32(d, 8));
    let mut entries: Vec<IndexEntry> = Vec::new();
    let mut i: u32 = 0;
    assert(views(entries@) =~= Seq::<EntryView>::empty());
    while i < count
        invariant
            rdr.wf(),
            rdr.stream() == d,
            d == data@,
            d.len() >= HEADER_SIZE,
            d.subrange(0, 4) == signature(),
            read_be32(d, 4) == VERSION,
            count == read_be32(d, 8),
            i <= count,
            forall|k: int| 0 <= k < entries@.len() ==> storable(#[trigger] views(entries@)[k]),
            parse_records(d, HEADER_SIZE as int, i as nat) == Ok::<
                (Seq<EntryView>, int),
                IndexError,
            >((views(entries@), rdr.position() as int)),
        decreases count - i,
    {
        let ghost before = views(entries@);
        let ghost pos = rdr.position() as int;
        let e = match IndexEntry::read_entry(&mut rdr) {
            Ok(e) => e,
            Err(x) => {
                assert(match record_end(d, pos + ENTRY_MIN_SIZE) {
                    None => x == IndexError::UnexpectedEndOfInput,
                    Some(end) => parse_entry(d.subrange(pos, end)) == Err::<EntryView, IndexError>(
                        x,
                    ),
                });
                assert(parse_records(d, HEADER_SIZE as int, (i + 1) as nat) == Err::<
                    (Seq<EntryView>, int),
                    IndexError,
                >(x));
                proof {
                    lemma_records_error_persists(
                        d,
                        HEADER_SIZE as int,
                        (i + 1) as nat,
                        count as nat,
                    );
                }
                assert(parse_records(d, HEADER_SIZE as int, read_be32(d, 8) as nat) == Err::<
                    (Seq<EntryView>, int),
                    IndexError,
                >(x));
                assert(decode_index(d) == Err::<Seq<EntryView>, IndexError>(x));
                return Err(x);
            },
        };
        entries.push(e);
        assert(views(entries@) =~= before.push(e@));
        assert(views(entries@)[entries@.len() - 1] == e@);
        i = i + 1;
    }
    assert(rdr.covered() == d.subrange(0, rdr.position() as int));
    match rdr.verify_checksum() {
        Ok(()) => Ok(entries),
        Err(x) => Err(checksum_error(x)),
    }
}

/// Encodes `entries` as an index file, in their order, with the trailing
/// digest.
pub fn encode(entries: &Vec<IndexEntry>) -> (r: Vec<u8>)
    requires
        entries@.len() <= u32::MAX,
    ensures
        r@ == index_file(views(entries@)),
        sha1_of(index_body(views(entries@))).len() == CHECKSUM_SIZE,
{
    let ghost es = views(entries@);
    let mut header: Vec<u8> = Vec::new();
    header.push(0x44);
    header.push(0x49);
    header.push(0x52);
    header.push(0x43);
    push_be32(&mut header, VERSION);
    push_be32(&mut header, entries.len() as u32);
    assert(header@ =~= signature() + be32(VERSION) + be32(es.len() as u32));
    let mut w = Checksum::new(Vec::new());
    w.write(header.as_slice());
    let mut i: usize = 0;
    assert(es.subrange(0, 0) =~= Seq::<EntryView>::empty());
    assert(w.stream() =~= header@ + entries_bytes(es.subrange(0, 0)));
    while i < entries.len()
        invariant
            es == views(entries@),
            0 <= i <= entries@.len(),
            w.wf(),
            w.stream() == header@ + entries_bytes(es.subrange(0, i as int)),
            w.position() == w.stream().len(),
        decreases entries@.len() - i,
    {
        let rec = entries[i].to_bytes();
        w.write(rec.as_slice());
        assert(es.subrange(0, i + 1).drop_last() =~= es.subrange(0, i as int));
        assert(w.stream() =~= header@ + entries_bytes(es.subrange(0, i + 1)));
        i = i + 1;
    }
    assert(es.subrange(0, es.len() as int) =~= es);
    assert(w.covered() =~= index_body(es));
    w.write_checksum();
    w.into_bytes()
}

/// The staging index: tracked paths with their metadata and content
/// identifiers, one entry per path, kept in natural path order, behind an
/// atomic file transaction on the index file.
pub struct Index {
    lockfile: Lockfile,
    changed: bool,
    entries: Vec<IndexEntry>,
}

impl IndexEntry {

    /// The entry held by a record's bytes.
    pub fn parse(data: &[u8]) -> (r: Result<IndexEntry, IndexError>)
        ensures
            r matches Ok(e) ==> storable(e@),
            r matches Ok(e) ==> parse_entry(data@) == Ok::<EntryView, IndexError>(e@),
            r matches Err(x) ==> parse_entry(data@) == Err::<EntryView, IndexError>(x),
    {
        if data.len() < ENTRY_MIN_SIZE {
            return Err(IndexError::EntryTooShort);
        }
        let mut end: usize = ENTRY_FIXED_SIZE;
        while end < data.len() && data[end] != 0
            invariant
                ENTRY_FIXED_SIZE <= end <= data@.len(),
                first_nul(data@, ENTRY_FIXED_SIZE as int) == first_nul(data@, end as int),
                forall|k: int| ENTRY_FIXED_SIZE <= k < end ==> data@[k] != 0,
            decreases data@.len() - end,
        {
            end = end + 1;
        }
        if end >= data.len() {
            return Err(IndexError::PathNotTerminated);
        }
        let oid = match Oid::from_bytes(vstd::slice::slice_subrange(data, 40, 60)) {
            Ok(o) => o,
            Err(_) => {
                return Err(IndexError::EntryTooShort);
            },
        };
        let mut path: Vec<u8> = Vec::new();
        append(&mut path, vstd::slice::slice_subrange(data, ENTRY_FIXED_SIZE, end));
        let e = IndexEntry {
            ctime: get_be32(data, 0) as i32,
            ctime_nsec: get_be32(data, 4),
            mtime: get_be32(data, 8) as i32,
            mtime_nsec: get_be32(data, 12),
            dev: get_be32(data, 16),
            ino: get_be32(data, 20),
            mode: get_be32(data, 24),
            uid: get_be32(data, 28),
            gid: get_be32(data, 32),
            size: get_be32(data, 36),
            oid,
            flags: get_be16(data, 60),
            path,
        };
        assert(e@ =~= parse_entry(data@)->Ok_0);
        proof {
            e.oid.lemma_len();
        }
        Ok(e)
    }

    /// Reads one record through the integrity stream: a chunk of the smallest
    /// record size, extended a block at a time until it ends in NUL.
    pub fn read_entry(reader: &mut Checksum) -> (r: Result<IndexEntry, IndexError>)
        requires
            old(reader).wf(),
        ensures
            final(reader).wf(),
            final(reader).stream() == old(reader).stream(),
            r matches Ok(e) ==> storable(e@),
            ({
                let s = old(reader).stream();
                let p = old(reader).position() as int;
                match record_end(s, p + ENTRY_MIN_SIZE) {
                    None => r == Err::<IndexEntry, IndexError>(IndexError::UnexpectedEndOfInput),
                    Some(end) => final(reader).position() == end && (r matches Ok(e)
                        ==> parse_entry(s.subrange(p, end)) == Ok::<EntryView, IndexError>(e@))
                        && (r matches Err(x) ==> parse_entry(s.subrange(p, end)) == Err::<
                        EntryView,
                        IndexError,
                    >(x)),
                }
            }),
    {
        let ghost s = reader.stream();
        let ghost p = reader.position() as int;
        let mut chunk = match reader.read(ENTRY_MIN_SIZE) {
            Ok(c) => c,
            Err(_) => {
                assert(record_end(s, p + ENTRY_MIN_SIZE) == None::<int>);
                return Err(IndexError::UnexpectedEndOfInput);
            },
        };
        while chunk[chunk.len() - 1] != 0
            invariant
                reader.wf(),
                reader.stream() == s,
                s == old(reader).stream(),
                p == old(reader).position(),
                chunk@.len() == reader.position() - p,
                0 <= p,
                reader.position() >= p + ENTRY_MIN_SIZE,
                chunk@ == s.subrange(p, reader.position() as int),
                record_end(s, p + ENTRY_MIN_SIZE) == record_end(s, reader.position() as int),
            decreases s.len() - reader.position(),
        {
            let more = match reader.read(ENTRY_BLOCK) {
                Ok(m) => m,
                Err(_) => {
                    assert(record_end(s, reader.position() as int) == record_end(
                        s,
                        reader.position() + 8 as int,
                    ));
                    return Err(IndexError::UnexpectedEndOfInput);
                },
            };
            assert(record_end(s, reader.position() - 8 as int) == record_end(
                s,
                reader.position() as int,
            ));
            append(&mut chunk, more.as_slice());
            assert(chunk@ =~= s.subrange(p, reader.position() as int));
        }
        assert(chunk@[chunk@.len() - 1] == s[reader.position() - 1]);
        assert(record_end(s, p + ENTRY_MIN_SIZE) == Some(reader.position() as int));
        IndexEntry::parse(chunk.as_slice())
    }
    /// The entry for `path` with content `oid` and metadata `stat`.
    pub fn new(path: &[u8], oid: Oid, stat: FileStat) -> (r: Result<IndexEntry, IndexError>)
        ensures
            r is Ok <==> no_nul(path@),
            r is Err ==> r == Err::<IndexEntry, IndexError>(IndexError::PathContainsNul),
            r matches Ok(e) ==> e@ == entry_of(path@, oid@, stat),
    {
        let mut i: usize = 0;
        while i < path.len()
            invariant
                0 <= i <= path@.len(),
                forall|j: int| 0 <= j < i ==> path@[j] != 0,
            decreases path@.len() - i,
        {
            if path[i] == 0 {
                return Err(IndexError::PathContainsNul);
            }
            i = i + 1;
        }
        let mode = if stat.mode & 0o111 != 0 {
            EXECUTABLE_MODE
        } else {
            REGULAR_MODE
        };
        let flags: u16 = if path.len() < MAX_PATH_SIZE {
            path.len() as u16
        } else {
            MAX_PATH_SIZE as u16
        };
        let mut owned: Vec<u8> = Vec::new();
        append(&mut owned, path);
        Ok(
            IndexEntry {
                ctime: stat.ctime as i32,
                ctime_nsec: stat.ctime_nsec as u32,
                mtime: stat.mtime as i32,
                mtime_nsec: stat.mtime_nsec as u32,
                dev: stat.dev as u32,
                ino: stat.ino as u32,
                mode,
                uid: stat.uid,
                gid: stat.gid,
                size: stat.size as u32,
                oid,
                flags,
                path: owned,
            },
        )
    }

    /// A copy of the entry.
    pub fn copy(&self) -> (r: IndexEntry)
        ensures
            r@ == self@,
    {
        let mut path: Vec<u8> = Vec::new();
        append(&mut path, self.path.as_slice());
        IndexEntry {
            ctime: self.ctime,
            ctime_nsec: self.ctime_nsec,
            mtime: self.mtime,
            mtime_nsec: self.mtime_nsec,
            dev: self.dev,
            ino: self.ino,
            mode: self.mode,
            uid: self.uid,
            gid: self.gid,
            size: self.size,
            oid: self.oid,
            flags: self.flags,
            path,
        }
    }

    /// The record as it stands in the index file.
    pub fn to_bytes(&self) -> (r: Vec<u8>)
        ensures
            r@ == entry_bytes(self@),
    {
        let mut bytes: Vec<u8> = Vec::new();
        push_be32(&mut bytes, self.ctime as u32);
        push_be32(&mut bytes, self.ctime_nsec);
        push_be32(&mut bytes, self.mtime as u32);
        push_be32(&mut bytes, self.mtime_nsec);
        push_be32(&mut bytes, self.dev);
        push_be32(&mut bytes, self.ino);
        push_be32(&mut bytes, self.mode);
        push_be32(&mut bytes, self.uid);
        push_be32(&mut bytes, self.gid);
        push_be32(&mut bytes, self.size);
        append(&mut bytes, self.oid.as_bytes().as_slice());
        push_be16(&mut bytes, self.flags);
        assert(bytes@ == entry_fixed(self@));
        append(&mut bytes, self.path.as_slice());
        bytes.push(0);
        let ghost before_pad = bytes@;
        let pad: usize = (8 - bytes.len() % 8) % 8;
        let mut k: usize = 0;
        while k < pad
            invariant
                0 <= k <= pad < 8,
                bytes@ == before_pad + Seq::new(k as nat, |i: int| 0u8),
            decreases pad - k,
        {
            bytes.push(0);
            k = k + 1;
            assert(bytes@ =~= before_pad + Seq::new(k as nat, |i: int| 0u8));
        }
        assert(before_pad.len() == ENTRY_FIXED_SIZE + self.path@.len() + 1);
        proof {
            reveal(entry_bytes);
        }
        bytes
    }
}

impl Index {
    /// The entries, in order.
    pub closed spec fn table(&self) -> Seq<EntryView> {
        views(self.entries@)
    }

    /// Whether an entry was added since the index was loaded or written.
    pub closed spec fn dirty(&self) -> bool {
        self.changed
    }

    /// The transaction on the index file.
    pub closed spec fn transaction(&self) -> Lockfile {
        self.lockfile
    }

    /// Nothing is written through the transaction but by `write_updates`,
    /// which commits at once.
    pub closed spec fn wf(&self) -> bool {
        &&& self.lockfile.pending() == Seq::<u8>::empty()
        &&& unique_paths(self.table())
        &&& forall|i: int| 0 <= i < self.table().len() ==> storable(#[trigger] self.table()[i])
    }

    /// Paths are unique and NUL-free, identifiers are 20 bytes.
    pub proof fn lemma_wf(&self)
        requires
            self.wf(),
        ensures
            unique_paths(self.table()),
            forall|i: int| 0 <= i < self.table().len() ==> storable(#[trigger] self.table()[i]),
    {
    }

    /// An empty, clean index whose file is `index_path`.
    pub fn new(index_path: String) -> (r: Index)
        ensures
            r.wf(),
            r.table() == Seq::<EntryView>::empty(),
            !r.dirty(),
            !r.transaction().holding(),
            r.transaction().target() == index_path@,
    {
        let lockfile = Lockfile::new(index_path);
        let entries: Vec<IndexEntry> = Vec::new();
        assert(views(entries@) =~= Seq::<EntryView>::empty());
        Index { lockfile, changed: false, entries }
    }

    /// The entries, in order.
    pub fn entries(&self) -> (r: &Vec<IndexEntry>)
        ensures
            views(r@) == self.table(),
    {
        &self.entries
    }

    /// The number of entries.
    pub fn len(&self) -> (r: usize)
        ensures
            r == self.table().len(),
    {
        self.entries.len()
    }

    /// The transaction on the index file.
    pub fn lockfile(&self) -> (r: &Lockfile)
        ensures
            *r == self.transaction(),
    {
        &self.lockfile
    }

    /// Adds the entry for `path`, replacing the one with the same path; the
    /// index becomes dirty. Refused where placing the path needs a
    /// comparison whose digit runs could overflow.
    pub fn add(&mut self, path: &[u8], oid: Oid, stat: FileStat) -> (r: Result<(), IndexError>)
        requires
            old(self).wf(),
        ensures
            !no_nul(path@) ==> r == Err::<(), IndexError>(IndexError::PathContainsNul),
            no_nul(path@) ==> (r is Ok <==> !upsert_blocked(old(self).table(), entry_of(path@, oid@, stat))),
            no_nul(path@) && r is Err ==> r == Err::<(), IndexError>(IndexError::DigitRunTooLong),
            r is Err ==> *final(self) == *old(self),
            r is Ok ==> final(self).table() == upsert(old(self).table(), entry_of(path@, oid@, stat))
                && final(self).dirty(),
            final(self).transaction() == old(self).transaction(),
            final(self).wf(),
    {
        let e = IndexEntry::new(path, oid, stat)?;
        proof {
            oid.lemma_len();
        }
        if !upsert_into(&mut self.entries, e) {
            return Err(IndexError::DigitRunTooLong);
        }
        self.changed = true;
        Ok(())
    }

    /// Loads the index file's bytes, `None` when there is no file: each
    /// entry it holds is added in turn. On an error nothing is added; an
    /// addition whose comparison could overflow is an error.
    pub fn load(&mut self, data: Option<Vec<u8>>) -> (r: Result<(), IndexError>)
        requires
            old(self).wf(),
        ensures
            data is None ==> r is Ok && *final(self) == *old(self),
            data matches Some(d) ==> match decode_index(d@) {
                Ok(es) => match upsert_all_checked(old(self).table(), es) {
                    Some(t) => r is Ok && final(self).table() == t,
                    None => r == Err::<(), IndexError>(IndexError::DigitRunTooLong) && *final(self)
                        == *old(self),
                },
                Err(x) => r == Err::<(), IndexError>(x) && *final(self) == *old(self),
            },
            final(self).dirty() == old(self).dirty(),
            final(self).transaction() == old(self).transaction(),
            final(self).wf(),
    {
        let d = match data {
            None => {
                return Ok(());
            },
            Some(d) => d,
        };
        let ghost dv = d@;
        let mut rest = decode(d)?;
        let ghost es = views(rest@);
        let ghost start = self.table();
        let mut work: Vec<IndexEntry> = Vec::new();
        let mut c: usize = 0;
        while c < self.entries.len()
            invariant
                0 <= c <= self.entries@.len(),
                views(work@) == views(self.entries@).subrange(0, c as int),
            decreases self.entries@.len() - c,
        {
            let copy = self.entries[c].copy();
            assert(views(self.entries@)[c as int] == self.entries@[c as int]@);
            let ghost before = views(work@);
            let ghost cv = copy@;
            work.push(copy);
            assert(views(work@) =~= before.push(cv));
            assert(views(work@) =~= views(self.entries@).subrange(0, c + 1));
            c = c + 1;
        }
        assert(views(work@) =~= start);
        let mut k: usize = 0;
        let total: usize = rest.len();
        assert(es.subrange(0, 0) =~= Seq::<EntryView>::empty());
        while rest.len() > 0
            invariant
                es.len() == total,
                k + rest@.len() == total,
                views(rest@) == es.subrange(k as int, total as int),
                upsert_all_checked(start, es.subrange(0, k as int)) == Some(views(work@)),
                forall|i: int| 0 <= i < es.len() ==> storable(#[trigger] es[i]),
                unique_paths(views(work@)),
                forall|i: int| 0 <= i < work@.len() ==> storable(#[trigger] views(work@)[i]),
                *self == *old(self),
                self.wf(),
                start == self.table(),
                decode_index(dv) == Ok::<Seq<EntryView>, IndexError>(es),
                data matches Some(x) && x@ == dv,
            decreases rest@.len(),
        {
            let ghost old_rest = rest@;
            assert(k < total);
            assert(views(old_rest)[0] == old_rest[0]@);
            let e = rest.remove(0);
            assert(e@ == es[k as int]);
            assert(es.subrange(0, k + 1).drop_last() =~= es.subrange(0, k as int));
            assert(es.subrange(0, k + 1).last() == es[k as int]);
            if !upsert_into(&mut work, e) {
                proof {
                    lemma_checked_none_persists(start, es, k + 1, total as int);
                    assert(es.subrange(0, total as int) =~= es);
                }
                return Err(IndexError::DigitRunTooLong);
            }
            assert(rest@ =~= old_rest.subrange(1, old_rest.len() as int));
            assert forall|i: int| 0 <= i < rest@.len() implies views(rest@)[i] == es[k + 1 + i] by {
                assert(views(rest@)[i] == rest@[i]@);
                assert(views(old_rest)[i + 1] == old_rest[i + 1]@);
                assert(views(old_rest)[i + 1] == es.subrange(k as int, total as int)[i + 1]);
            }
            assert(views(rest@) =~= es.subrange(k + 1, total as int));
            k = k + 1;
        }
        assert(es.subrange(0, total as int) =~= es);
        self.entries = work;
        Ok(())
    }

    /// Takes the claim on the index file where its exclusive creation
    /// succeeded (`created`), then loads the file's bytes (`None` when there
    /// is no file). `Ok(false)`: another process holds the claim, and
    /// nothing is loaded.
    pub fn load_for_update(&mut self, created: bool, data: Option<Vec<u8>>) -> (r: Result<bool, IndexError>)
        requires
            old(self).wf(),
        ensures
            (old(self).transaction().holding() || created) ==> final(self).transaction().holding(),
            !(old(self).transaction().holding() || created) ==> r == Ok::<bool, IndexError>(false)
                && final(self).table() == old(self).table(),
            (old(self).transaction().holding() || created) ==> match data {
                None => r == Ok::<bool, IndexError>(true) && final(self).table() == old(self).table(),
                Some(d) => match decode_index(d@) {
                    Ok(es) => match upsert_all_checked(old(self).table(), es) {
                        Some(t) => r == Ok::<bool, IndexError>(true) && final(self).table() == t,
                        None => r == Err::<bool, IndexError>(IndexError::DigitRunTooLong)
                            && final(self).table() == old(self).table(),
                    },
                    Err(x) => r == Err::<bool, IndexError>(x) && final(self).table() == old(
                        self,
                    ).table(),
                },
            },
            final(self).dirty() == old(self).dirty(),
            final(self).wf(),
    {
        if !self.lockfile.hold_for_update(created) {
            return Ok(false);
        }
        self.load(data)?;
        Ok(true)
    }

    /// Writes the index through its transaction. Clean: the claim is
    /// released and `None` comes back. Dirty: the whole file is encoded,
    /// written and committed, and `Some` holds the bytes that the commit
    /// installs on the index file; the index becomes clean.
    pub fn write_updates(&mut self) -> (r: Result<Option<Vec<u8>>, IndexError>)
        requires
            old(self).wf(),
            old(self).table().len() <= u32::MAX,
        ensures
            !old(self).transaction().holding() ==> r == Err::<Option<Vec<u8>>, IndexError>(
                IndexError::NotHolding,
            ),
            old(self).transaction().holding() && !old(self).dirty() ==> r matches Ok(None),
            old(self).transaction().holding() && old(self).dirty() ==> (r matches Ok(Some(b)) && b@
                == index_file(old(self).table())),
            r matches Ok(Some(b)) ==> decode_index(b@) == Ok::<Seq<EntryView>, IndexError>(
                old(self).table(),
            ),
            r is Ok ==> !final(self).dirty(),
            !final(self).transaction().holding(),
            final(self).table() == old(self).table(),
            final(self).wf(),
    {
        if !self.changed {
            return match self.lockfile.rollback() {
                Ok(()) => Ok(None),
                Err(_) => Err(IndexError::NotHolding),
            };
        }
        let bytes = encode(&self.entries);
        proof {
            let t = self.table();
            crate::index_laws::lemma_index_round_trip(t, sha1_of(index_body(t)));
        }
        if self.lockfile.write(bytes.as_slice()).is_err() {
            return Err(IndexError::NotHolding);
        }
        let content = match self.lockfile.commit() {
            Ok(c) => c,
            Err(_) => {
                return Err(IndexError::NotHolding);
            },
        };
        self.changed = false;
        Ok(Some(content))
    }
}

/// Whether `a` comes before `b` in natural order.
fn precedes(a: &[u8], b: &[u8]) -> (r: bool)
    requires
        cmp_ok(a@, b@),
    ensures
        r == (natural_cmp_of(a@, b@) == Ordering::Less),
{
    match natural_cmp(a, b) {
        Ordering::Less => true,
        _ => false,
    }
}

/// Whether two byte slices are equal.
fn bytes_equal(a: &[u8], b: &[u8]) -> (r: bool)
    ensures
        r == (a@ == b@),
{
    if a.len() != b.len() {
        return false;
    }
    let mut i: usize = 0;
    while i < a.len()
        invariant
            a@.len() == b@.len(),
            0 <= i <= a@.len(),
            forall|j: int| 0 <= j < i ==> a@[j] == b@[j],
        decreases a@.len() - i,
    {
        if a[i] != b[i] {
            return false;
        }
        i = i + 1;
    }
    assert(a@ =~= b@);
    true
}

} // verus!
