use crate::bytes::{append, decimal, push_decimal};
use crate::object::{Object, ObjectKind};
use crate::oid::{hex_text, Oid};
use vstd::prelude::*;
use vstd::utf8::encode_utf8;

verus! {

/// The largest magnitude of a fixed UTC offset, in seconds (exclusive).
pub const MAX_OFFSET_SECONDS: i32 = 86400;

/// Decimal digits of a signed value, with a leading '-' when negative.
pub open spec fn signed_decimal(n: int) -> Seq<u8> {
    if n < 0 {
        seq![45u8] + decimal((-n) as nat)
    } else {
        decimal(n as nat)
    }
}

/// Two decimal digits of a value below one hundred.
pub open spec fn two_digits(n: int) -> Seq<u8> {
    seq![(48 + n / 10) as u8, (48 + n % 10) as u8]
}

/// A UTC offset in seconds as `±HHMM`; leftover seconds are dropped.
pub open spec fn offset_text(secs: int) -> Seq<u8> {
    let a = if secs < 0 {
        -secs
    } else {
        secs
    };
    seq![if secs < 0 {
        45u8
    } else {
        43u8
    }] + two_digits(a / 3600) + two_digits((a % 3600) / 60)
}

/// An author: name, email, and the moment of authorship as seconds since
/// the Unix epoch together with the fixed UTC offset in force, in seconds.
#[derive(Debug)]
pub struct Author {
    name: String,
    email: String,
    timestamp: i64,
    offset: i32,
}

/// The identity line: `<name> <<email>> <seconds> <±HHMM>`.
pub open spec fn identity(name: Seq<char>, email: Seq<char>, ts: int, offset: int) -> Seq<u8> {
    encode_utf8(name) + seq![32u8, 60u8] + encode_utf8(email) + seq![62u8, 32u8] + signed_decimal(ts)
        + seq![32u8] + offset_text(offset)
}

impl Author {
    #[verifier::type_invariant]
    spec fn inv(&self) -> bool {
        -MAX_OFFSET_SECONDS < self.offset < MAX_OFFSET_SECONDS
    }

    pub closed spec fn line(&self) -> Seq<u8> {
        identity(self.name@, self.email@, self.timestamp as int, self.offset as int)
    }

    /// The author `name <email>` at `timestamp` seconds since the epoch,
    /// under a fixed UTC offset of `offset` seconds.
    pub fn new(name: String, email: String, timestamp: i64, offset: i32) -> (r: Author)
        requires
            -MAX_OFFSET_SECONDS < offset < MAX_OFFSET_SECONDS,
        ensures
            r.line() == identity(name@, email@, timestamp as int, offset as int),
    {
        Author { name, email, timestamp, offset }
    }

    /// The identity line, as UTF-8 bytes.
    pub fn string(&self) -> (r: Vec<u8>)
        ensures
            r@ == self.line(),
    {
        let mut out: Vec<u8> = Vec::new();
        append(&mut out, self.name.as_str().as_bytes());
        out.push(32u8);
        out.push(60u8);
        append(&mut out, self.email.as_str().as_bytes());
        out.push(62u8);
        out.push(32u8);
        push_signed(&mut out, self.timestamp);
        out.push(32u8);
        proof {
            use_type_invariant(self);
        }
        push_offset(&mut out, self.offset);
        assert(out@ =~= self.line());
        out
    }
}

/// Appends the decimal digits of `n`, with a '-' when negative.
fn push_signed(out: &mut Vec<u8>, n: i64)
    ensures
        final(out)@ == old(out)@ + signed_decimal(n as int),
{
    if n < 0 {
        out.push(45u8);
        push_decimal(out, (0i128 - n as i128) as u64);
    } else {
        push_decimal(out, n as u64);
    }
}

/// Appends a UTC offset as `±HHMM`.
fn push_offset(out: &mut Vec<u8>, offset: i32)
    requires
        -MAX_OFFSET_SECONDS < offset < MAX_OFFSET_SECONDS,
    ensures
        final(out)@ == old(out)@ + offset_text(offset as int),
{
    let a: i32 = if offset < 0 {
        0 - offset
    } else {
        offset
    };
    out.push(if offset < 0 {
        45u8
    } else {
        43u8
    });
    let hh: i32 = a / 3600;
    let mm: i32 = (a % 3600) / 60;
    out.push((48 + hh / 10) as u8);
    out.push((48 + hh % 10) as u8);
    out.push((48 + mm / 10) as u8);
    out.push((48 + mm % 10) as u8);
    assert(out@ =~= old(out)@ + offset_text(offset as int));
}

/// The body of a commit: `tree`, an optional `parent`, `author` and
/// `committer` lines with the same identity, a blank line, the message.
pub open spec fn commit_text(tree: Seq<u8>, parent: Option<Seq<u8>>, who: Seq<u8>, message: Seq<char>) -> Seq<u8> {
    // "tree "
    seq![116u8, 114u8, 101u8, 101u8, 32u8] + hex_text(tree) + seq![10u8] + match parent {
        // "parent "
        Some(p) => seq![112u8, 97u8, 114u8, 101u8, 110u8, 116u8, 32u8] + hex_text(p) + seq![10u8],
        None => Seq::empty(),
    // "author "
    } + seq![97u8, 117u8, 116u8, 104u8, 111u8, 114u8, 32u8] + who + seq![10u8]
    // "committer "
        + seq![99u8, 111u8, 109u8, 109u8, 105u8, 116u8, 116u8, 101u8, 114u8, 32u8] + who + seq![
        10u8,
        10u8,
    ] + encode_utf8(message)
}

/// A snapshot: its root tree, its parent commit unless it is the first, its
/// author and its message.
#[derive(Debug)]
pub struct Commit {
    oid: Option<Oid>,
    tree: Oid,
    parent: Option<Oid>,
    author: Author,
    message: String,
}

impl Commit {
    pub fn new(tree_oid: Oid, parent: Option<Oid>, author: Author, message: String) -> (r: Commit)
        ensures
            r.recorded() == None::<Oid>,
            r.body() == commit_text(
                tree_oid@,
                match parent {
                    Some(p) => Some(p@),
                    None => None,
                },
                author.line(),
                message@,
            ),
    {
        Commit { oid: None, tree: tree_oid, parent, author, message }
    }

    /// The identifier it was stored under, if any.
    pub fn oid(&self) -> (r: Option<Oid>)
        ensures
            r == self.recorded(),
    {
        self.oid
    }
}

impl Object for Commit {
    open spec fn kind_spec(&self) -> ObjectKind {
        ObjectKind::Commit
    }

    closed spec fn body(&self) -> Seq<u8> {
        commit_text(
            self.tree@,
            match self.parent {
                Some(p) => Some(p@),
                None => None,
            },
            self.author.line(),
            self.message@,
        )
    }

    closed spec fn recorded(&self) -> Option<Oid> {
        self.oid
    }

    fn kind(&self) -> (r: ObjectKind) {
        ObjectKind::Commit
    }

    fn set_oid(&mut self, oid: Oid) {
        self.oid = Some(oid);
    }

    fn to_bytes(&self) -> (r: Vec<u8>) {
        let who = self.author.string();
        let mut out: Vec<u8> = vec![116u8, 114u8, 101u8, 101u8, 32u8];
        append(&mut out, self.tree.hex_bytes().as_slice());
        out.push(10u8);
        let ghost head = out@;
        match &self.parent {
            Some(p) => {
                let mut line: Vec<u8> = vec![112u8, 97u8, 114u8, 101u8, 110u8, 116u8, 32u8];
                append(&mut line, p.hex_bytes().as_slice());
                line.push(10u8);
                append(&mut out, line.as_slice());
            },
            None => {},
        }
        let mut tail: Vec<u8> = vec![97u8, 117u8, 116u8, 104u8, 111u8, 114u8, 32u8];
        append(&mut tail, who.as_slice());
        tail.push(10u8);
        let committer: Vec<u8> = vec![99u8, 111u8, 109u8, 109u8, 105u8, 116u8, 116u8, 101u8, 114u8, 32u8];
        append(&mut tail, committer.as_slice());
        append(&mut tail, who.as_slice());
        tail.push(10u8);
        tail.push(10u8);
        append(&mut tail, self.message.as_str().as_bytes());
        append(&mut out, tail.as_slice());
        assert(out@ =~= self.body());
        out
    }
}

} // verus!
