use crate::oid::{sha1_digest, sha1_of};
use vstd::prelude::*;
use vstd::slice::slice_subrange;

verus! {

/// Length in bytes of the trailing digest.
pub const CHECKSUM_SIZE: usize = 20;

/// Why reading through the integrity stream failed.
#[derive(Debug, Clone, Copy, PartialEq, Eq, Structural)]
pub enum ChecksumError {
    /// Fewer bytes were left than were asked for.
    UnexpectedEndOfInput,
    /// The stored digest differs from the digest of what was read.
    ChecksumMismatch,
}

/// A byte stream with a running SHA-1 digest over everything read or
/// written so far.
///
/// Reading takes bytes from the front of `data`; writing appends to it.
/// `pos` marks the end of what the digest covers.
pub struct Checksum {
    data: Vec<u8>,
    pos: usize,
}

impl Checksum {
    /// The whole underlying byte stream.
    pub closed spec fn stream(&self) -> Seq<u8> {
        self.data@
    }

    /// How many bytes the digest covers so far.
    pub closed spec fn position(&self) -> nat {
        self.pos as nat
    }

    /// The bytes the digest covers so far.
    pub open spec fn covered(&self) -> Seq<u8> {
        self.stream().subrange(0, self.position() as int)
    }

    pub open spec fn wf(&self) -> bool {
        self.position() <= self.stream().len()
    }

    /// A stream over `data`, with nothing read yet.
    pub fn new(data: Vec<u8>) -> (r: Checksum)
        ensures
            r.wf(),
            r.stream() == data@,
            r.position() == 0,
    {
        Checksum { data, pos: 0 }
    }

    /// Reads exactly `size` bytes and folds them into the digest.
    pub fn read(&mut self, size: usize) -> (r: Result<Vec<u8>, ChecksumError>)
        requires
            old(self).wf(),
        ensures
            final(self).wf(),
            final(self).stream() == old(self).stream(),
            r is Ok <==> old(self).position() + size <= old(self).stream().len(),
            r matches Ok(v) ==> v@ == old(self).stream().subrange(
                old(self).position() as int,
                old(self).position() + size,
            ) && final(self).position() == old(self).position() + size,
            r is Err ==> r == Err::<Vec<u8>, ChecksumError>(ChecksumError::UnexpectedEndOfInput)
                && final(self).position() == old(self).position(),
    {
        if size > self.data.len() - self.pos {
            return Err(ChecksumError::UnexpectedEndOfInput);
        }
        let mut out: Vec<u8> = Vec::new();
        let mut i: usize = self.pos;
        let end: usize = self.pos + size;
        while i < end
            invariant
                self.pos <= i <= end <= self.data@.len(),
                out@ == self.data@.subrange(self.pos as int, i as int),
            decreases end - i,
        {
            out.push(self.data[i]);
            i = i + 1;
            assert(out@ =~= self.data@.subrange(self.pos as int, i as int));
        }
        self.pos = end;
        Ok(out)
    }

    /// Appends `bytes` to the stream and folds them into the digest, which
    /// then covers the whole stream.
    pub fn write(&mut self, bytes: &[u8])
        requires
            old(self).wf(),
        ensures
            final(self).wf(),
            final(self).stream() == old(self).stream() + bytes@,
            final(self).position() == final(self).stream().len(),
    {
        crate::bytes::append(&mut self.data, bytes);
        self.pos = self.data.len();
    }

    /// Appends the digest of what it covers so far.
    pub fn write_checksum(&mut self)
        requires
            old(self).wf(),
        ensures
            final(self).wf(),
            final(self).stream() == old(self).stream() + sha1_of(old(self).covered()),
            sha1_of(old(self).covered()).len() == CHECKSUM_SIZE,
            final(self).position() == old(self).position(),
    {
        let digest = sha1_digest(slice_subrange(self.data.as_slice(), 0, self.pos));
        crate::bytes::append(&mut self.data, digest.as_slice());
    }

    /// Reads the next digest-sized block and compares it with the digest of
    /// everything read before it.
    pub fn verify_checksum(&mut self) -> (r: Result<(), ChecksumError>)
        requires
            old(self).wf(),
        ensures
            final(self).wf(),
            final(self).stream() == old(self).stream(),
            old(self).position() + CHECKSUM_SIZE > old(self).stream().len() ==> r == Err::<
                (),
                ChecksumError,
            >(ChecksumError::UnexpectedEndOfInput),
            old(self).position() + CHECKSUM_SIZE <= old(self).stream().len() ==> (r is Ok
                <==> old(self).stream().subrange(
                old(self).position() as int,
                old(self).position() + CHECKSUM_SIZE,
            ) == sha1_of(old(self).covered())),
            old(self).position() + CHECKSUM_SIZE <= old(self).stream().len() && r is Err ==> r
                == Err::<(), ChecksumError>(ChecksumError::ChecksumMismatch),
    {
        let covered_end = self.pos;
        let computed = sha1_digest(slice_subrange(self.data.as_slice(), 0, covered_end));
        assert(self.data@.subrange(0, covered_end as int) == old(self).covered());
        let stored = self.read(CHECKSUM_SIZE)?;
        let mut i: usize = 0;
        while i < CHECKSUM_SIZE
            invariant
                self.wf(),
                self.data@ == old(self).data@,
                old(self).position() + CHECKSUM_SIZE <= old(self).stream().len(),
                stored@ == old(self).stream().subrange(
                    old(self).position() as int,
                    old(self).position() + CHECKSUM_SIZE,
                ),
                computed@ == sha1_of(old(self).covered()),
                stored@.len() == CHECKSUM_SIZE,
                computed@.len() == CHECKSUM_SIZE,
                0 <= i <= CHECKSUM_SIZE,
                forall|j: int| 0 <= j < i ==> stored@[j] == computed@[j],
            decreases CHECKSUM_SIZE - i,
        {
            if stored[i] != computed[i] {
                assert(stored@[i as int] != computed@[i as int]);
                return Err(ChecksumError::ChecksumMismatch);
            }
            i = i + 1;
        }
        assert(stored@ =~= computed@);
        Ok(())
    }

    /// The underlying byte stream.
    pub fn into_bytes(self) -> (r: Vec<u8>)
        ensures
            r@ == self.stream(),
    {
        self.data
    }
}

} // verus!
