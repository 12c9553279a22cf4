use crate::object::{frame, framed, object_id, Object, ObjectKind};
use crate::oid::{hex_chars, Oid};
use flate2::write::ZlibEncoder;
use flate2::Compression;
use std::io::Write;
use vstd::prelude::*;

verus! {

/// The zlib stream that flate2's encoder at the default level makes of `data`.
pub uninterp spec fn zlib_of(data: Seq<u8>) -> Seq<u8>;

#[verifier::external_type_specification]
#[verifier::external_body]
pub struct ExIoError(std::io::Error);

/// Relies on flate2::write::ZlibEncoder with Compression::default(): one
/// independent zlib stream holding `data`. Writing into a `Vec` meets no I/O
/// error, and the encoder is driven write-then-finish, so it succeeds.
#[verifier::external_body]
fn zlib_compress(data: &[u8]) -> (r: Result<Vec<u8>, std::io::Error>)
    ensures
        r is Ok,
        r matches Ok(v) ==> v@ == zlib_of(data@),
{
    let mut encoder = ZlibEncoder::new(Vec::new(), Compression::default());
    encoder.write_all(data)?;
    encoder.finish()
}

/// Why an object could not be prepared for storage.
#[derive(Debug, Clone, Copy, PartialEq, Eq, Structural)]
pub enum StoreError {
    /// The compressor failed.
    CompressionError,
}

/// An object ready to be written: its identifier, where it goes under the
/// objects directory (`<group>/<file>`), and its compressed canonical bytes.
#[derive(Debug, Clone)]
pub struct ObjectWrite {
    pub oid: Oid,
    pub group: String,
    pub file: String,
    pub data: Vec<u8>,
}

/// Where an object with identifier `id` lives, and what its file holds.
pub open spec fn object_write_of(w: ObjectWrite, k: ObjectKind, body: Seq<u8>) -> bool {
    &&& w.oid@ == object_id(k, body)
    &&& w.group@ == hex_chars(w.oid@.subrange(0, 1))
    &&& w.file@ == hex_chars(w.oid@.subrange(1, 20))
    &&& w.data@ == zlib_of(framed(k, body))
}

/// The content-addressable object store under a root control directory.
/// It decides what each object's file holds and where it goes; writing the
/// file (create-if-absent, then rename into place) is the caller's part.
pub struct Db {
    root: String,
}

impl Db {
    /// The store under `db_path`.
    pub fn new(db_path: String) -> (r: Db)
        ensures
            r.root_path() == db_path@,
    {
        Db { root: db_path }
    }

    pub closed spec fn root_path(&self) -> Seq<char> {
        self.root@
    }

    /// The root control directory.
    pub fn root(&self) -> (r: &String)
        ensures
            r@ == self.root_path(),
    {
        &self.root
    }

    /// Frames `body` as an object of kind `kind`, derives its identifier and
    /// compresses it. Storing the same kind and body again gives the same
    /// write, which finds its file already present.
    pub fn store(&self, kind: ObjectKind, body: &[u8]) -> (r: Result<ObjectWrite, StoreError>)
        ensures
            r is Ok,
            r matches Ok(w) ==> object_write_of(w, kind, body@),
    {
        let content = frame(kind, body);
        let oid = Oid::new(content.as_slice());
        let (group, file) = oid.fanout();
        match zlib_compress(content.as_slice()) {
            Ok(data) => Ok(ObjectWrite { oid, group, file, data }),
            Err(_) => Err(StoreError::CompressionError),
        }
    }

    /// Stores `object` as `store` does, and records the identifier in it.
    pub fn store_object<O: Object>(&self, object: &mut O) -> (r: Result<ObjectWrite, StoreError>)
        ensures
            r is Ok,
            r matches Ok(w) ==> object_write_of(w, old(object).kind_spec(), old(object).body())
                && final(object).recorded() == Some(w.oid),
            final(object).kind_spec() == old(object).kind_spec(),
            final(object).body() == old(object).body(),
    {
        let body = object.to_bytes();
        let kind = object.kind();
        let r = self.store(kind, body.as_slice());
        if let Ok(w) = &r {
            object.set_oid(w.oid);
        }
        r
    }
}

/// Storing the same kind and body twice yields one object: the same
/// identifier, the same file location, and the same file bytes, so the
/// second write finds the file present and leaves it as it is.
pub proof fn lemma_store_idempotent(
    k: ObjectKind,
    body: Seq<u8>,
    w1: ObjectWrite,
    w2: ObjectWrite,
)
    requires
        object_write_of(w1, k, body),
        object_write_of(w2, k, body),
    ensures
        w1.oid@ == w2.oid@,
        w1.group@ == w2.group@,
        w1.file@ == w2.file@,
        w1.data@ == w2.data@,
{
}

} // verus!
