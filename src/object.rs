use crate::bytes::{append, decimal, push_decimal};
use crate::oid::{sha1_of, Oid};
use vstd::prelude::*;

verus! {

/// The three kinds of stored payload.
#[derive(Debug, Clone, Copy, PartialEq, Eq, Structural)]
pub enum ObjectKind {
    Blob,
    Tree,
    Commit,
}

/// The ASCII token that names a kind in an object header.
pub open spec fn kind_token(k: ObjectKind) -> Seq<u8> {
    match k {
        // "blob"
        ObjectKind::Blob => seq![98u8, 108u8, 111u8, 98u8],
        // "tree"
        ObjectKind::Tree => seq![116u8, 114u8, 101u8, 101u8],
        // "commit"
        ObjectKind::Commit => seq![99u8, 111u8, 109u8, 109u8, 105u8, 116u8],
    }
}

/// The canonical bytes of an object: `<kind> <length>\0<body>`.
pub open spec fn framed(k: ObjectKind, body: Seq<u8>) -> Seq<u8> {
    kind_token(k) + seq![32u8] + decimal(body.len()) + seq![0u8] + body
}

/// The identifier of an object: the digest of its canonical bytes.
pub open spec fn object_id(k: ObjectKind, body: Seq<u8>) -> Seq<u8> {
    sha1_of(framed(k, body))
}

impl ObjectKind {
    /// The kind's header token.
    pub fn token(&self) -> (r: Vec<u8>)
        ensures
            r@ == kind_token(*self),
    {
        let r = match self {
            ObjectKind::Blob => vec![98u8, 108u8, 111u8, 98u8],
            ObjectKind::Tree => vec![116u8, 114u8, 101u8, 101u8],
            ObjectKind::Commit => vec![99u8, 111u8, 109u8, 109u8, 105u8, 116u8],
        };
        assert(r@ =~= kind_token(*self));
        r
    }
}

/// The canonical bytes of an object of kind `kind` with body `body`.
pub fn frame(kind: ObjectKind, body: &[u8]) -> (r: Vec<u8>)
    ensures
        r@ == framed(kind, body@),
{
    let mut content = kind.token();
    content.push(32u8);
    push_decimal(&mut content, body.len() as u64);
    content.push(0u8);
    append(&mut content, body);
    content
}

/// A payload that the object store can hold.
pub trait Object {
    /// The kind it is stored as.
    spec fn kind_spec(&self) -> ObjectKind;

    /// Its body bytes.
    spec fn body(&self) -> Seq<u8>;

    /// The identifier it was stored under, if any.
    spec fn recorded(&self) -> Option<Oid>;

    fn kind(&self) -> (r: ObjectKind)
        ensures
            r == self.kind_spec(),
    ;

    /// Records the identifier it was stored under.
    fn set_oid(&mut self, oid: Oid)
        ensures
            final(self).kind_spec() == old(self).kind_spec(),
            final(self).body() == old(self).body(),
            final(self).recorded() == Some(oid),
    ;

    fn to_bytes(&self) -> (r: Vec<u8>)
        ensures
            r@ == self.body(),
    ;
}

/// An opaque byte payload.
#[derive(Debug, Clone)]
pub struct Blob {
    oid: Option<Oid>,
    data: Vec<u8>,
}

impl Blob {
    /// The blob holding `data`, not yet stored.
    pub fn new(data: Vec<u8>) -> (r: Blob)
        ensures
            r.body() == data@,
            r.recorded() == None::<Oid>,
    {
        Blob { oid: None, data }
    }

    /// The identifier it was stored under, if any.
    pub fn oid(&self) -> (r: Option<Oid>)
        ensures
            r == self.recorded(),
    {
        self.oid
    }
}

impl Object for Blob {
    open spec fn kind_spec(&self) -> ObjectKind {
        ObjectKind::Blob
    }

    closed spec fn body(&self) -> Seq<u8> {
        self.data@
    }

    closed spec fn recorded(&self) -> Option<Oid> {
        self.oid
    }

    fn kind(&self) -> (r: ObjectKind) {
        ObjectKind::Blob
    }

    fn set_oid(&mut self, oid: Oid) {
        self.oid = Some(oid);
    }

    fn to_bytes(&self) -> (r: Vec<u8>) {
        let mut out: Vec<u8> = Vec::new();
        append(&mut out, self.data.as_slice());
        out
    }
}

} // verus!
