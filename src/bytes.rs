use vstd::prelude::*;

verus! {

/// Decimal digits of `n` as ASCII bytes, most significant first, no sign,
/// no leading zeros ("0" for zero).
pub open spec fn decimal(n: nat) -> Seq<u8>
    decreases n,
{
    if n < 10 {
        seq![(48 + n) as u8]
    } else {
        decimal(n / 10).push((48 + n % 10) as u8)
    }
}

/// Big-endian bytes of a 32-bit value.
pub open spec fn be32(n: u32) -> Seq<u8> {
    seq![(n / 0x1000000) as u8, ((n / 0x10000) % 0x100) as u8, ((n / 0x100) % 0x100) as u8, (n % 0x100) as u8]
}

/// Big-endian bytes of a 16-bit value.
pub open spec fn be16(n: u16) -> Seq<u8> {
    seq![(n / 0x100) as u8, (n % 0x100) as u8]
}

/// The 32-bit value whose big-endian bytes stand at `at` in `b`.
pub open spec fn read_be32(b: Seq<u8>, at: int) -> u32 {
    (b[at] as int * 0x1000000 + b[at + 1] as int * 0x10000 + b[at + 2] as int * 0x100 + b[at + 3] as int) as u32
}

/// The 16-bit value whose big-endian bytes stand at `at` in `b`.
pub open spec fn read_be16(b: Seq<u8>, at: int) -> u16 {
    (b[at] as int * 0x100 + b[at + 1] as int) as u16
}

pub proof fn lemma_be32_round_trip(n: u32, b: Seq<u8>, at: int)
    requires
        0 <= at,
        at + 4 <= b.len(),
        b.subrange(at, at + 4) == be32(n),
    ensures
        read_be32(b, at) == n,
{
    assert(b[at] == be32(n)[0]);
    assert(b[at + 1] == be32(n)[1]);
    assert(b[at + 2] == be32(n)[2]);
    assert(b[at + 3] == be32(n)[3]);
    let n = n as int;
    assert(n == (n / 0x1000000) * 0x1000000 + ((n / 0x10000) % 0x100) * 0x10000 + ((n / 0x100) % 0x100) * 0x100 + n % 0x100) by (nonlinear_arith)
        requires 0 <= n < 0x1_0000_0000;
}

pub proof fn lemma_be16_round_trip(n: u16, b: Seq<u8>, at: int)
    requires
        0 <= at,
        at + 2 <= b.len(),
        b.subrange(at, at + 2) == be16(n),
    ensures
        read_be16(b, at) == n,
{
    assert(b[at] == be16(n)[0]);
    assert(b[at + 1] == be16(n)[1]);
}

/// Appends `b` to `out`.
pub fn append(out: &mut Vec<u8>, b: &[u8])
    ensures
        final(out)@ == old(out)@ + b@,
{
    let ghost start = out@;
    let mut i: usize = 0;
    while i < b.len()
        invariant
            0 <= i <= b@.len(),
            out@ == start + b@.subrange(0, i as int),
        decreases b@.len() - i,
    {
        out.push(b[i]);
        i = i + 1;
        assert(out@ == start + b@.subrange(0, i as int));
    }
    assert(b@.subrange(0, b@.len() as int) == b@);
}

/// Appends the decimal digits of `n`.
pub fn push_decimal(out: &mut Vec<u8>, n: u64)
    ensures
        final(out)@ == old(out)@ + decimal(n as nat),
    decreases n,
{
    if n < 10 {
        out.push((48 + n) as u8);
    } else {
        push_decimal(out, n / 10);
        out.push((48 + n % 10) as u8);
    }
}

/// Appends the big-endian bytes of `n`.
pub fn push_be32(out: &mut Vec<u8>, n: u32)
    ensures
        final(out)@ == old(out)@ + be32(n),
{
    out.push((n / 0x1000000) as u8);
    out.push(((n / 0x10000) % 0x100) as u8);
    out.push(((n / 0x100) % 0x100) as u8);
    out.push((n % 0x100) as u8);
    assert(out@ =~= old(out)@ + be32(n));
}

/// Appends the big-endian bytes of `n`.
pub fn push_be16(out: &mut Vec<u8>, n: u16)
    ensures
        final(out)@ == old(out)@ + be16(n),
{
    out.push((n / 0x100) as u8);
    out.push((n % 0x100) as u8);
    assert(out@ =~= old(out)@ + be16(n));
}

/// The 32-bit value whose big-endian bytes stand at `at`.
pub fn get_be32(b: &[u8], at: usize) -> (r: u32)
    requires
        at + 4 <= b@.len(),
    ensures
        r == read_be32(b@, at as int),
{
    (b[at] as u32) * 0x1000000 + (b[at + 1] as u32) * 0x10000 + (b[at + 2] as u32) * 0x100 + (b[at + 3] as u32)
}

/// The 16-bit value whose big-endian bytes stand at `at`.
pub fn get_be16(b: &[u8], at: usize) -> (r: u16)
    requires
        at + 2 <= b@.len(),
    ensures
        r == read_be16(b@, at as int),
{
    (b[at] as u16) * 0x100 + (b[at + 1] as u16)
}

} // verus!
