use sha1::{Digest, Sha1};
use vstd::prelude::*;
use vstd::string::StrSliceExecFns;

verus! {

/// Length in bytes of a content identifier.
pub const OID_LEN: usize = 20;

/// The digest that SHA-1 gives for a byte sequence.
pub uninterp spec fn sha1_of(data: Seq<u8>) -> Seq<u8>;

/// The character for a value below sixteen, in lowercase hexadecimal.
pub open spec fn nibble_char(n: int) -> char {
    seq!['0', '1', '2', '3', '4', '5', '6', '7', '8', '9', 'a', 'b', 'c', 'd', 'e', 'f'][n]
}

/// Lowercase hexadecimal rendering: two characters per byte, high nibble first.
pub open spec fn hex_chars(b: Seq<u8>) -> Seq<char> {
    Seq::new(
        2 * b.len(),
        |i: int|
            if i % 2 == 0 {
                nibble_char(b[i / 2] as int / 16)
            } else {
                nibble_char(b[i / 2] as int % 16)
            },
    )
}

/// The lowercase hexadecimal rendering as ASCII bytes.
pub open spec fn hex_text(b: Seq<u8>) -> Seq<u8> {
    hex_chars(b).map_values(|c: char| c as u8)
}

proof fn lemma_hex_chars_ascii(b: Seq<u8>)
    ensures
        vstd::utf8::is_ascii_chars(hex_chars(b)),
{
    let digits = seq!['0', '1', '2', '3', '4', '5', '6', '7', '8', '9', 'a', 'b', 'c', 'd', 'e', 'f'];
    assert forall|n: int| 0 <= n < 16 implies '\0' <= #[trigger] nibble_char(n) <= '\u{7f}' by {
        assert(nibble_char(n) == digits[n]);
    }
    assert forall|i: int| 0 <= i < hex_chars(b).len() implies '\0' <= #[trigger] hex_chars(b)[i]
        <= '\u{7f}' by {
        let x = b[i / 2] as int;
        assert(0 <= x / 16 < 16);
        assert(0 <= x % 16 < 16);
    }
}

/// A hexadecimal digit, in either case.
pub open spec fn is_hex_char(c: char) -> bool {
    ('0' <= c <= '9') || ('a' <= c <= 'f') || ('A' <= c <= 'F')
}

/// The value of a hexadecimal digit.
pub open spec fn hex_value(c: char) -> int {
    if '0' <= c <= '9' {
        c as int - '0' as int
    } else if 'a' <= c <= 'f' {
        c as int - 'a' as int + 10
    } else {
        c as int - 'A' as int + 10
    }
}

/// A text that decodes as hexadecimal: an even number of hex digits.
pub open spec fn is_hex_text(s: Seq<char>) -> bool {
    s.len() % 2 == 0 && forall|i: int| 0 <= i < s.len() ==> is_hex_char(#[trigger] s[i])
}

/// The bytes that a hexadecimal text stands for.
pub open spec fn hex_decoded(s: Seq<char>) -> Seq<u8> {
    Seq::new(s.len() / 2, |i: int| (hex_value(s[2 * i]) * 16 + hex_value(s[2 * i + 1])) as u8)
}

/// Relies on sha1's `Sha1` hasher: the 20-byte digest of `data`.
#[verifier::external_body]
pub(crate) fn sha1_digest(data: &[u8]) -> (r: [u8; 20])
    ensures
        r@ == sha1_of(data@),
{
    let mut hasher = Sha1::new();
    hasher.update(data);
    hasher.finalize().into()
}

/// Relies on base16ct::lower::encode_string: lowercase hex, two digits per byte.
#[verifier::external_body]
fn lower_hex(b: &[u8]) -> (r: String)
    requires
        b@.len() <= usize::MAX / 2,
    ensures
        r@ == hex_chars(b@),
{
    base16ct::lower::encode_string(b)
}

/// Relies on hex::decode: succeeds exactly on an even number of hex digits
/// of either case, and then gives the bytes they stand for.
#[verifier::external_body]
fn hex_decode(s: &str) -> (r: Result<Vec<u8>, hex::FromHexError>)
    ensures
        r is Ok <==> is_hex_text(s@),
        r matches Ok(v) ==> v@ == hex_decoded(s@),
{
    hex::decode(s)
}

#[verifier::external_type_specification]
#[verifier::external_body]
pub struct ExFromHexError(hex::FromHexError);

/// A whitespace character, as `char::is_whitespace` (Unicode White_Space)
/// defines it.
pub open spec fn is_ws(c: char) -> bool {
    ('\u{9}' <= c <= '\u{d}') || c == ' ' || c == '\u{85}' || c == '\u{a0}' || c == '\u{1680}'
        || ('\u{2000}' <= c <= '\u{200a}') || c == '\u{2028}' || c == '\u{2029}' || c
        == '\u{202f}' || c == '\u{205f}' || c == '\u{3000}'
}

/// The index of the first non-whitespace character from `i` on.
pub open spec fn lead_end(s: Seq<char>, i: int) -> int
    decreases s.len() - i,
{
    if 0 <= i < s.len() && is_ws(s[i]) {
        lead_end(s, i + 1)
    } else {
        i
    }
}

/// The end of `s` once the whitespace before `j` and after `lo` is dropped.
pub open spec fn trail_start(s: Seq<char>, j: int, lo: int) -> int
    decreases j,
{
    if 0 < j && lo < j <= s.len() && is_ws(s[j - 1]) {
        trail_start(s, j - 1, lo)
    } else {
        j
    }
}

/// `s` without leading and trailing whitespace.
pub open spec fn trimmed(s: Seq<char>) -> Seq<char> {
    let a = lead_end(s, 0);
    s.subrange(a, trail_start(s, s.len() as int, a))
}

fn is_ws_char(c: char) -> (r: bool)
    ensures
        r == is_ws(c),
{
    ('\u{9}' <= c && c <= '\u{d}') || c == ' ' || c == '\u{85}' || c == '\u{a0}' || c == '\u{1680}'
        || ('\u{2000}' <= c && c <= '\u{200a}') || c == '\u{2028}' || c == '\u{2029}' || c
        == '\u{202f}' || c == '\u{205f}' || c == '\u{3000}'
}

/// `s` without leading and trailing whitespace.
pub fn trim_text(s: &str) -> (r: &str)
    ensures
        r@ == trimmed(s@),
{
    let n = s.unicode_len();
    let mut a: usize = 0;
    while a < n && is_ws_char(s.get_char(a))
        invariant
            n == s@.len(),
            0 <= a <= n,
            lead_end(s@, 0) == lead_end(s@, a as int),
        decreases n - a,
    {
        a = a + 1;
    }
    let mut b: usize = n;
    while b > a && is_ws_char(s.get_char(b - 1))
        invariant
            n == s@.len(),
            a <= b <= n,
            a == lead_end(s@, 0),
            trail_start(s@, n as int, a as int) == trail_start(s@, b as int, a as int),
        decreases b,
    {
        b = b - 1;
    }
    s.substring_char(a, b)
}

/// Why a text or a byte slice is not a content identifier.
#[derive(Debug, Clone, Copy, PartialEq, Eq, Structural)]
pub enum OidError {
    /// Not hexadecimal, or not 40 digits, or not 20 bytes.
    MalformedIdentifier,
}

/// A content identifier: the 20-byte SHA-1 digest of an object's canonical bytes.
#[derive(Debug, Clone, Copy, PartialEq, Eq)]
pub struct Oid {
    hash: [u8; 20],
}

impl View for Oid {
    type V = Seq<u8>;

    closed spec fn view(&self) -> Seq<u8> {
        self.hash@
    }
}

impl Oid {
    /// The identifier of `data`: its SHA-1 digest.
    pub fn new(data: &[u8]) -> (r: Oid)
        ensures
            r@ == sha1_of(data@),
    {
        Oid { hash: sha1_digest(data) }
    }

    /// The raw 20 bytes.
    pub fn as_bytes(&self) -> (r: &[u8; 20])
        ensures
            r@ == self@,
            r@.len() == OID_LEN,
    {
        &self.hash
    }

    /// The identifier made of exactly 20 raw bytes.
    pub fn from_bytes(b: &[u8]) -> (r: Result<Oid, OidError>)
        ensures
            r is Ok <==> b@.len() == OID_LEN,
            r matches Ok(o) ==> o@ == b@,
    {
        if b.len() != OID_LEN {
            return Err(OidError::MalformedIdentifier);
        }
        let mut hash = [0u8; 20];
        let mut i: usize = 0;
        while i < OID_LEN
            invariant
                b@.len() == OID_LEN,
                0 <= i <= OID_LEN,
                hash@.len() == OID_LEN,
                forall|j: int| 0 <= j < i ==> hash@[j] == b@[j],
            decreases OID_LEN - i,
        {
            hash[i] = b[i];
            i = i + 1;
        }
        assert(hash@ == b@);
        Ok(Oid { hash })
    }

    /// The identifier written as 40 hexadecimal digits (either case), with
    /// nothing around them.
    pub fn from_hex(s: &str) -> (r: Result<Oid, OidError>)
        ensures
            r is Ok <==> is_hex_text(s@) && s@.len() == 2 * OID_LEN,
            r matches Ok(o) ==> o@ == hex_decoded(s@),
    {
        match hex_decode(s) {
            Ok(v) => Oid::from_bytes(v.as_slice()),
            Err(_) => Err(OidError::MalformedIdentifier),
        }
    }

    /// The identifier written in hexadecimal, once surrounding whitespace
    /// is trimmed off.
    pub fn parse(s: &str) -> (r: Result<Oid, OidError>)
        ensures
            r is Ok <==> is_hex_text(trimmed(s@)) && trimmed(s@).len() == 2 * OID_LEN,
            r matches Ok(o) ==> o@ == hex_decoded(trimmed(s@)),
    {
        Oid::from_hex(trim_text(s))
    }

    /// The 40 lowercase hexadecimal digits, as ASCII bytes.
    pub fn hex_bytes(&self) -> (r: Vec<u8>)
        ensures
            r@ == hex_text(self@),
    {
        let s = lower_hex(self.hash.as_slice());
        let b = s.as_str().as_bytes();
        proof {
            lemma_hex_chars_ascii(self@);
            vstd::utf8::is_ascii_chars_encode_utf8(s@);
        }
        let mut out: Vec<u8> = Vec::new();
        crate::bytes::append(&mut out, b);
        assert(out@ =~= hex_text(self@));
        out
    }

    /// The object file location: the first byte's two hex digits name the
    /// directory, the other 19 bytes' 38 digits name the file.
    pub fn fanout(&self) -> (r: (String, String))
        ensures
            r.0@ == hex_chars(self@.subrange(0, 1)),
            r.1@ == hex_chars(self@.subrange(1, 20)),
            r.0@ + r.1@ == hex_chars(self@),
            r.0@.len() == 2,
    {
        let group = lower_hex(vstd::slice::slice_subrange(self.hash.as_slice(), 0, 1));
        let rest = lower_hex(vstd::slice::slice_subrange(self.hash.as_slice(), 1, 20));
        assert(group@ + rest@ =~= hex_chars(self@));
        (group, rest)
    }

    /// The identifier is 20 bytes long.
    pub proof fn lemma_len(&self)
        ensures
            self@.len() == OID_LEN,
    {
    }

    /// The 40 lowercase hexadecimal digits.
    pub fn to_hex(&self) -> (r: String)
        ensures
            r@ == hex_chars(self@),
    {
        lower_hex(self.hash.as_slice())
    }
}

} // verus!
