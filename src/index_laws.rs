use crate::bytes::{be16, be32, lemma_be16_round_trip, lemma_be32_round_trip, read_be16, read_be32};
use crate::checksum::CHECKSUM_SIZE;
use crate::index::{
    storable,
    lemma_records_error_persists, decode_index, entries_bytes, entry_bytes, entry_fixed, first_nul, index_body, index_file,
    no_nul, pad_len, parse_entry, parse_records, record_end, signature, EntryView, IndexError,
    ENTRY_FIXED_SIZE, HEADER_SIZE, VERSION,
};
use crate::index::Index;
use crate::oid::sha1_of;
use vstd::prelude::*;

verus! {

proof fn lemma_entry_len(e: EntryView)
    requires
        e.oid.len() == 20,
    ensures
        entry_fixed(e).len() == ENTRY_FIXED_SIZE,
        entry_bytes(e).len() == ENTRY_FIXED_SIZE + e.path.len() + 1 + pad_len(
            (ENTRY_FIXED_SIZE + e.path.len() + 1) as nat,
        ),
        entry_bytes(e).len() % 8 == 0,
        entry_bytes(e).len() >= 64,
        entry_bytes(e).len() < ENTRY_FIXED_SIZE + e.path.len() + 1 + 8,
{
    reveal(entry_bytes);
}

proof fn lemma_entry_byte(e: EntryView, o: int)
    requires
        e.oid.len() == 20,
        62 <= o < entry_bytes(e).len(),
    ensures
        o < 62 + e.path.len() ==> entry_bytes(e)[o] == e.path[o - 62],
        o >= 62 + e.path.len() ==> entry_bytes(e)[o] == 0,
{
    reveal(entry_bytes);
}

proof fn lemma_block_below(x: int, l: int, m: int)
    requires
        x % 8 == 0,
        l % 8 == 0,
        m <= l < m + 8,
        x < l,
    ensures
        x < m,
{
    assert(x < m) by (nonlinear_arith)
        requires
            x % 8 == 0,
            l % 8 == 0,
            m <= l < m + 8,
            x < l,
    {
        assert(x == 8 * (x / 8));
        assert(l == 8 * (l / 8));
        assert(x / 8 < l / 8);
    }
}

proof fn lemma_i32_cast(x: i32)
    ensures
        (x as u32) as i32 == x,
{
    assert((x as u32) as i32 == x) by (bit_vector);
}

/// A record's bytes give back the entry.
proof fn lemma_parse_entry_bytes(e: EntryView)
    requires
        storable(e),
    ensures
        parse_entry(entry_bytes(e)) == Ok::<EntryView, IndexError>(e),
{
    reveal(entry_bytes);
    let rec = entry_bytes(e);
    lemma_entry_len(e);
    let n = e.path.len() as int;
    assert forall|k: int| 62 <= k < 62 + n implies rec[k] != 0 by {
        assert(rec[k] == e.path[k - 62]);
    }
    assert(rec[62 + n] == 0);
    lemma_first_nul_run(rec, 62, 62 + n);
    assert(rec.subrange(62, 62 + n) =~= e.path);
    let f = entry_fixed(e);
    assert(rec.subrange(0, 62) =~= f);
    assert(rec.subrange(0, 4) =~= be32(e.ctime as u32));
    assert(rec.subrange(4, 8) =~= be32(e.ctime_nsec));
    assert(rec.subrange(8, 12) =~= be32(e.mtime as u32));
    assert(rec.subrange(12, 16) =~= be32(e.mtime_nsec));
    assert(rec.subrange(16, 20) =~= be32(e.dev));
    assert(rec.subrange(20, 24) =~= be32(e.ino));
    assert(rec.subrange(24, 28) =~= be32(e.mode));
    assert(rec.subrange(28, 32) =~= be32(e.uid));
    assert(rec.subrange(32, 36) =~= be32(e.gid));
    assert(rec.subrange(36, 40) =~= be32(e.size));
    assert(rec.subrange(40, 60) =~= e.oid);
    assert(rec.subrange(60, 62) =~= be16(e.flags));
    lemma_be32_round_trip(e.ctime as u32, rec, 0);
    lemma_be32_round_trip(e.ctime_nsec, rec, 4);
    lemma_be32_round_trip(e.mtime as u32, rec, 8);
    lemma_be32_round_trip(e.mtime_nsec, rec, 12);
    lemma_be32_round_trip(e.dev, rec, 16);
    lemma_be32_round_trip(e.ino, rec, 20);
    lemma_be32_round_trip(e.mode, rec, 24);
    lemma_be32_round_trip(e.uid, rec, 28);
    lemma_be32_round_trip(e.gid, rec, 32);
    lemma_be32_round_trip(e.size, rec, 36);
    lemma_be16_round_trip(e.flags, rec, 60);
    lemma_i32_cast(e.ctime);
    lemma_i32_cast(e.mtime);
    assert(parse_entry(rec) =~= Ok::<EntryView, IndexError>(e));
}

proof fn lemma_first_nul_run(s: Seq<u8>, from: int, at: int)
    requires
        0 <= from <= at < s.len(),
        s[at] == 0,
        forall|k: int| from <= k < at ==> s[k] != 0,
    ensures
        first_nul(s, from) == at,
    decreases at - from,
{
    if from < at {
        lemma_first_nul_run(s, from + 1, at);
    }
}

/// Scanning for the end of a record of length `l` with an `n`-byte path that
/// stands at `p` stops exactly at its end: every earlier block ends inside
/// the path, which holds no NUL.
proof fn lemma_record_scan(data: Seq<u8>, p: int, n: int, l: int, end: int)
    requires
        0 <= p,
        0 <= n,
        p + l <= data.len(),
        l % 8 == 0,
        63 + n <= l < 63 + n + 8,
        forall|k: int| p + 62 <= k < p + 62 + n ==> data[k] != 0,
        data[p + l - 1] == 0,
        p + 64 <= end <= p + l,
        (end - p) % 8 == 0,
    ensures
        record_end(data, end) == Some(p + l),
    decreases p + l - end,
{
    if end < p + l {
        lemma_block_below(end - p, l, 63 + n);
        lemma_record_scan(data, p, n, l, end + 8);
    }
}

proof fn lemma_record_bytes(data: Seq<u8>, p: int, e: EntryView)
    requires
        storable(e),
        0 <= p,
        p + entry_bytes(e).len() <= data.len(),
        data.subrange(p, p + entry_bytes(e).len()) == entry_bytes(e),
    ensures
        forall|k: int| p + 62 <= k < p + 62 + e.path.len() ==> data[k] != 0,
        data[p + entry_bytes(e).len() - 1] == 0,
{
    lemma_entry_len(e);
    let l = entry_bytes(e).len() as int;
    assert forall|k: int| p + 62 <= k < p + 62 + e.path.len() implies data[k] != 0 by {
        assert(data[k] == data.subrange(p, p + l)[k - p]);
        lemma_entry_byte(e, k - p);
    }
    assert(data[p + l - 1] == data.subrange(p, p + l)[l - 1]);
    lemma_entry_byte(e, l - 1);
}

/// A record standing at `p` is read back whole.
proof fn lemma_record_at(data: Seq<u8>, p: int, e: EntryView)
    requires
        storable(e),
        0 <= p,
        p + entry_bytes(e).len() <= data.len(),
        data.subrange(p, p + entry_bytes(e).len()) == entry_bytes(e),
    ensures
        record_end(data, p + 64) == Some(p + entry_bytes(e).len()),
        parse_entry(data.subrange(p, p + entry_bytes(e).len())) == Ok::<EntryView, IndexError>(e),
{
    lemma_entry_len(e);
    lemma_record_bytes(data, p, e);
    lemma_record_scan(data, p, e.path.len() as int, entry_bytes(e).len() as int, p + 64);
    lemma_parse_entry_bytes(e);
}

proof fn lemma_entries_bytes_step(es: Seq<EntryView>, k: int)
    requires
        0 <= k < es.len(),
    ensures
        entries_bytes(es.subrange(0, k + 1)) == entries_bytes(es.subrange(0, k)) + entry_bytes(es[k]),
{
    assert(es.subrange(0, k + 1).drop_last() =~= es.subrange(0, k));
}

proof fn lemma_entries_bytes_prefix(es: Seq<EntryView>, k: int, j: int)
    requires
        0 <= k <= j <= es.len(),
    ensures
        entries_bytes(es.subrange(0, k)).len() <= entries_bytes(es.subrange(0, j)).len(),
        entries_bytes(es.subrange(0, j)).subrange(0, entries_bytes(es.subrange(0, k)).len() as int)
            == entries_bytes(es.subrange(0, k)),
    decreases j - k,
{
    if k < j {
        lemma_entries_bytes_prefix(es, k, j - 1);
        lemma_entries_bytes_step(es, j - 1);
        let a = entries_bytes(es.subrange(0, j - 1));
        let b = entries_bytes(es.subrange(0, k));
        assert((a + entry_bytes(es[j - 1])).subrange(0, b.len() as int) =~= a.subrange(0, b.len() as int));
    }
}

/// Records laid one after the other from `at` on parse back as the entries.
proof fn lemma_records(data: Seq<u8>, at: int, es: Seq<EntryView>, k: nat)
    requires
        0 <= at,
        k <= es.len(),
        forall|i: int| 0 <= i < es.len() ==> storable(#[trigger] es[i]),
        at + entries_bytes(es).len() <= data.len(),
        data.subrange(at, at + entries_bytes(es).len()) == entries_bytes(es),
    ensures
        parse_records(data, at, k) == Ok::<(Seq<EntryView>, int), IndexError>(
            (es.subrange(0, k as int), at + entries_bytes(es.subrange(0, k as int)).len()),
        ),
    decreases k,
{
    if k == 0 {
        assert(es.subrange(0, 0) =~= Seq::<EntryView>::empty());
    } else {
        let j = k - 1;
        lemma_records(data, at, es, j as nat);
        let prev = entries_bytes(es.subrange(0, j));
        let p = at + prev.len();
        lemma_entries_bytes_step(es, j);
        assert(es.subrange(0, es.len() as int) =~= es);
        lemma_entries_bytes_prefix(es, k as int, es.len() as int);
        let cur = entries_bytes(es.subrange(0, k as int));
        let rec = entry_bytes(es[j]);
        assert(data.subrange(p, p + rec.len()) =~= rec) by {
            assert forall|i: int| 0 <= i < rec.len() implies data.subrange(p, p + rec.len())[i] == rec[i] by {
                assert(data[p + i] == data.subrange(at, at + entries_bytes(es).len())[prev.len() + i]);
                assert(entries_bytes(es)[prev.len() + i] == cur[prev.len() + i]);
                assert(cur[prev.len() + i] == rec[i]);
            }
        }
        lemma_record_at(data, p, es[j]);
        assert(es.subrange(0, j).push(es[j]) =~= es.subrange(0, k as int));
    }
}

/// What any byte sequence that starts with the header and records of `es`
/// decodes to: `es`, when the next 20 bytes are the digest of everything
/// before them.
proof fn lemma_decode_prefix(es: Seq<EntryView>, data: Seq<u8>)
    requires
        es.len() <= u32::MAX,
        forall|i: int| 0 <= i < es.len() ==> storable(#[trigger] es[i]),
        index_body(es).len() <= data.len(),
        data.subrange(0, index_body(es).len() as int) == index_body(es),
    ensures
        ({
            let b = index_body(es);
            decode_index(data) == if b.len() + CHECKSUM_SIZE > data.len() {
                Err::<Seq<EntryView>, IndexError>(IndexError::UnexpectedEndOfInput)
            } else if data.subrange(b.len() as int, b.len() + CHECKSUM_SIZE) != sha1_of(b) {
                Err(IndexError::ChecksumMismatch)
            } else {
                Ok(es)
            }
        }),
{
    let b = index_body(es);
    let eb = entries_bytes(es);
    assert(b.len() == 12 + eb.len());
    assert(data.subrange(0, 4) =~= signature()) by {
        assert forall|i: int| 0 <= i < 4 implies data[i] == b[i] by {
            assert(data.subrange(0, b.len() as int)[i] == data[i]);
        }
    }
    assert(data.subrange(4, 8) =~= be32(VERSION)) by {
        assert forall|i: int| 4 <= i < 8 implies data[i] == b[i] by {
            assert(data.subrange(0, b.len() as int)[i] == data[i]);
        }
    }
    assert(data.subrange(8, 12) =~= be32(es.len() as u32)) by {
        assert forall|i: int| 8 <= i < 12 implies data[i] == b[i] by {
            assert(data.subrange(0, b.len() as int)[i] == data[i]);
        }
    }
    lemma_be32_round_trip(VERSION, data, 4);
    lemma_be32_round_trip(es.len() as u32, data, 8);
    assert(data.subrange(12, 12 + eb.len() as int) =~= eb) by {
        assert forall|i: int| 0 <= i < eb.len() implies data[12 + i] == eb[i] by {
            assert(data.subrange(0, b.len() as int)[12 + i] == data[12 + i]);
            assert(b[12 + i] == eb[i]);
        }
    }
    lemma_records(data, HEADER_SIZE as int, es, es.len());
    assert(es.subrange(0, es.len() as int) =~= es);
}

/// Writing entries to an index file and reading it back gives the same
/// entries, every field, in the same order, with the digest verified.
/// (`digest` is the 20-byte SHA-1 digest of what precedes it.)
pub proof fn lemma_index_round_trip(es: Seq<EntryView>, digest: Seq<u8>)
    requires
        es.len() <= u32::MAX,
        forall|i: int| 0 <= i < es.len() ==> storable(#[trigger] es[i]),
        digest.len() == CHECKSUM_SIZE,
        digest == sha1_of(index_body(es)),
    ensures
        index_file(es) == index_body(es) + digest,
        decode_index(index_body(es) + digest) == Ok::<Seq<EntryView>, IndexError>(es),
{
    let b = index_body(es);
    let data = b + digest;
    assert(data.subrange(0, b.len() as int) =~= b);
    assert(data.subrange(b.len() as int, b.len() + CHECKSUM_SIZE) =~= digest);
    lemma_decode_prefix(es, data);
}

/// Changing any byte of the trailing digest of an index file makes the
/// load fail with a checksum mismatch.
pub proof fn lemma_digest_corruption(es: Seq<EntryView>, digest: Seq<u8>, i: int, v: u8)
    requires
        es.len() <= u32::MAX,
        forall|k: int| 0 <= k < es.len() ==> storable(#[trigger] es[k]),
        digest.len() == CHECKSUM_SIZE,
        digest == sha1_of(index_body(es)),
        0 <= i < CHECKSUM_SIZE,
        v != digest[i],
    ensures
        decode_index(index_body(es) + digest.update(i, v)) == Err::<Seq<EntryView>, IndexError>(
            IndexError::ChecksumMismatch,
        ),
{
    let b = index_body(es);
    let data = b + digest.update(i, v);
    assert(data.subrange(0, b.len() as int) =~= b);
    assert(data.subrange(b.len() as int, b.len() + CHECKSUM_SIZE) =~= digest.update(i, v));
    lemma_decode_prefix(es, data);
    assert(digest.update(i, v)[i] != digest[i]);
}

/// Scanning for the end of a record that was cut short before its end
/// runs out of data.
proof fn lemma_record_scan_cut(data: Seq<u8>, p: int, n: int, l: int, end: int)
    requires
        0 <= p <= data.len(),
        0 <= n,
        data.len() < p + l,
        l % 8 == 0,
        63 + n <= l < 63 + n + 8,
        forall|k: int| p + 62 <= k < p + 62 + n && k < data.len() ==> data[k] != 0,
        p + 64 <= end,
        (end - p) % 8 == 0,
    ensures
        record_end(data, end) is None,
    decreases data.len() + 8 - end,
{
    if end <= data.len() {
        lemma_block_below(end - p, l, 63 + n);
        lemma_record_scan_cut(data, p, n, l, end + 8);
    }
}

proof fn lemma_find_cut(es: Seq<EntryView>, c: int, k: int) -> (r: int)
    requires
        0 <= k < es.len(),
        12 + entries_bytes(es.subrange(0, k)).len() <= c < 12 + entries_bytes(es).len(),
    ensures
        k <= r < es.len(),
        12 + entries_bytes(es.subrange(0, r)).len() <= c < 12 + entries_bytes(es.subrange(0, r + 1)).len(),
    decreases es.len() - k,
{
    if c < 12 + entries_bytes(es.subrange(0, k + 1)).len() {
        k
    } else {
        if k + 1 == es.len() {
            assert(es.subrange(0, k + 1) =~= es);
        }
        lemma_find_cut(es, c, k + 1)
    }
}

/// Cutting an index file short anywhere makes the load fail with an
/// end-of-input error, never a short read.
pub proof fn lemma_truncation(es: Seq<EntryView>, digest: Seq<u8>, c: int)
    requires
        es.len() <= u32::MAX,
        forall|k: int| 0 <= k < es.len() ==> storable(#[trigger] es[k]),
        digest.len() == CHECKSUM_SIZE,
        digest == sha1_of(index_body(es)),
        0 <= c < index_body(es).len() + CHECKSUM_SIZE,
    ensures
        decode_index((index_body(es) + digest).subrange(0, c)) == Err::<Seq<EntryView>, IndexError>(
            IndexError::UnexpectedEndOfInput,
        ),
{
    let b = index_body(es);
    let full = b + digest;
    let data = full.subrange(0, c);
    let eb = entries_bytes(es);
    if c < 12 {
        return;
    }
    if c >= b.len() {
        assert(data.subrange(0, b.len() as int) =~= b);
        lemma_decode_prefix(es, data);
        return;
    }
    assert(data.subrange(0, 4) =~= signature()) by {
        assert forall|i: int| 0 <= i < 4 implies data[i] == b[i] by {}
    }
    assert(data.subrange(4, 8) =~= be32(VERSION)) by {
        assert forall|i: int| 4 <= i < 8 implies data[i] == b[i] by {}
    }
    assert(data.subrange(8, 12) =~= be32(es.len() as u32)) by {
        assert forall|i: int| 8 <= i < 12 implies data[i] == b[i] by {}
    }
    lemma_be32_round_trip(VERSION, data, 4);
    lemma_be32_round_trip(es.len() as u32, data, 8);
    assert(es.subrange(0, 0) =~= Seq::<EntryView>::empty());
    assert(es.len() > 0) by {
        if es.len() == 0 {
            assert(eb.len() == 0);
        }
    }
    let k = lemma_find_cut(es, c, 0);
    let pre = es.subrange(0, k);
    let pb = entries_bytes(pre);
    let p: int = 12 + pb.len() as int;
    assert(es.subrange(0, es.len() as int) =~= es);
    lemma_entries_bytes_prefix(es, k, es.len() as int);
    lemma_entries_bytes_prefix(es, k + 1, es.len() as int);
    lemma_entries_bytes_step(es, k);
    assert forall|i: int| 0 <= i < pre.len() implies storable(#[trigger] pre[i]) by {
        assert(pre[i] == es[i]);
    }
    assert(pre.subrange(0, k) =~= pre);
    assert(data.subrange(12, 12 + pb.len() as int) =~= pb) by {
        assert forall|i: int| 0 <= i < pb.len() implies data[12 + i] == pb[i] by {
            assert(data[12 + i] == b[12 + i]);
            assert(b[12 + i] == eb[i]);
        }
    }
    lemma_records(data, 12, pre, k as nat);
    let e = es[k];
    let cur = entries_bytes(es.subrange(0, k + 1));
    lemma_entry_len(e);
    assert(data.subrange(p, c) =~= entry_bytes(e).subrange(0, c - p)) by {
        assert forall|i: int| 0 <= i < c - p implies data[p + i] == entry_bytes(e)[i] by {
            assert(data[p + i] == b[p + i]);
            assert(b[p + i] == eb[pb.len() + i]);
            assert(eb[pb.len() + i] == cur[pb.len() + i]);
        }
    }
    assert forall|k: int| p + 62 <= k < p + 62 + e.path.len() && k < data.len() implies data[k] != 0 by {
        assert(data[k] == data.subrange(p, c)[k - p]);
        lemma_entry_byte(e, k - p);
    }
    lemma_record_scan_cut(data, p, e.path.len() as int, entry_bytes(e).len() as int, p + 64);
    assert(parse_records(data, 12, (k + 1) as nat) is Err);
    lemma_records_error_persists(data, 12, (k + 1) as nat, es.len());
}

/// What `write_updates` writes for a table reads back as that table.
/// (`sha1_of(...).len() == 20` is what `encode` establishes on every write.)
pub proof fn lemma_written_round_trip(idx: Index)
    requires
        idx.wf(),
        idx.table().len() <= u32::MAX,
        sha1_of(index_body(idx.table())).len() == CHECKSUM_SIZE,
    ensures
        decode_index(index_file(idx.table())) == Ok::<Seq<EntryView>, IndexError>(idx.table()),
{
    idx.lemma_wf();
    lemma_index_round_trip(idx.table(), sha1_of(index_body(idx.table())));
}

/// Changing a byte of the digest of what `write_updates` writes makes the
/// load fail with a checksum mismatch.
pub proof fn lemma_written_digest_corruption(idx: Index, i: int, v: u8)
    requires
        idx.wf(),
        idx.table().len() <= u32::MAX,
        sha1_of(index_body(idx.table())).len() == CHECKSUM_SIZE,
        index_body(idx.table()).len() <= i < index_file(idx.table()).len(),
        v != index_file(idx.table())[i],
    ensures
        decode_index(index_file(idx.table()).update(i, v)) == Err::<Seq<EntryView>, IndexError>(
            IndexError::ChecksumMismatch,
        ),
{
    idx.lemma_wf();
    let t = idx.table();
    let b = index_body(t);
    let d = sha1_of(b);
    let k = i - b.len();
    assert(index_file(t)[i] == d[k]);
    assert(index_file(t).update(i, v) =~= b + d.update(k, v));
    lemma_digest_corruption(t, d, k, v);
}

/// Cutting short what `write_updates` writes, anywhere, makes the load fail
/// with an end-of-input error.
pub proof fn lemma_written_truncation(idx: Index, c: int)
    requires
        idx.wf(),
        idx.table().len() <= u32::MAX,
        sha1_of(index_body(idx.table())).len() == CHECKSUM_SIZE,
        0 <= c < index_file(idx.table()).len(),
    ensures
        decode_index(index_file(idx.table()).subrange(0, c)) == Err::<Seq<EntryView>, IndexError>(
            IndexError::UnexpectedEndOfInput,
        ),
{
    idx.lemma_wf();
    lemma_truncation(idx.table(), sha1_of(index_body(idx.table())), c);
}

} // verus!
