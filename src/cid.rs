//! Content identifiers: CIDv1, raw codec, SHA-256, in binary and base32 text.
use vstd::prelude::*;
use vstd::string::*;
use vstd::utf8::encode_utf8;
use crate::form::{ascii_text, push_char};

verus! {

/// The version byte of a CIDv1.
pub const CID_VERSION: u8 = 0x01;

/// The multicodec code of the raw codec.
pub const MULTICODEC_RAW: u8 = 0x55;

/// The multihash code of SHA-256.
pub const MULTIHASH_SHA256: u8 = 0x12;

/// The digest length that the multihash announces.
pub const DIGEST_LEN: u8 = 0x20;

/// The longest text after the multibase prefix that parsing hands to the
/// base32 decoder, in characters; a CID text has 58.
pub const MAX_BODY_CHARS: usize = 1024;

/// The SHA-256 digest of a byte string.
pub uninterp spec fn sha256(data: Seq<u8>) -> Seq<u8>;

/// The unpadded RFC 4648 base32 encoding of a byte string, in upper case.
pub uninterp spec fn base32_upper(data: Seq<u8>) -> Seq<u8>;

/// What case-insensitive unpadded base32 decoding makes of a text.
pub uninterp spec fn base32_decoded(text: Seq<char>) -> Option<Seq<u8>>;

/// The four bytes that precede the digest in the binary form.
pub open spec fn cid_prefix() -> Seq<u8> {
    seq![CID_VERSION, MULTICODEC_RAW, MULTIHASH_SHA256, DIGEST_LEN]
}

/// The binary form of the CID of a digest.
pub open spec fn cid_binary(digest: Seq<u8>) -> Seq<u8> {
    cid_prefix() + digest
}

pub open spec fn lower_byte(b: u8) -> u8 {
    if 65 <= b <= 90 { (b + 32) as u8 } else { b }
}

pub open spec fn upper_char(c: char) -> char {
    if 'a' <= c <= 'z' { ((c as u8) - 32) as u8 as char } else { c }
}

/// A text with its ASCII lower-case letters made upper-case.
pub open spec fn upper_chars(s: Seq<char>) -> Seq<char> {
    s.map_values(|c: char| upper_char(c))
}

pub open spec fn lower_bytes(s: Seq<u8>) -> Seq<u8> {
    s.map_values(|b: u8| lower_byte(b))
}

/// The text form of the CID of a digest: `b`, then the lower-case base32 of the binary form.
pub open spec fn cid_text(digest: Seq<u8>) -> Seq<char> {
    seq!['b'] + ascii_text(lower_bytes(base32_upper(cid_binary(digest))))
}

/// Equal byte strings have equal CIDs, in both forms. (The converse, that
/// different byte strings have different CIDs, rests on the collision
/// resistance of SHA-256 and is not a theorem.)
pub proof fn lemma_cid_deterministic(a: Seq<u8>, b: Seq<u8>)
    requires
        a == b,
    ensures
        cid_text(sha256(a)) == cid_text(sha256(b)),
        cid_binary(sha256(a)) == cid_binary(sha256(b)),
{
}

/// A character takes at most four bytes of UTF-8.
proof fn lemma_utf8_len_bound(s: Seq<char>)
    ensures
        encode_utf8(s).len() <= 4 * s.len(),
    decreases s.len(),
{
    if s.len() > 0 {
        lemma_utf8_len_bound(s.drop_first());
    }
}

/// The four ways in which a CID can be malformed.
#[derive(Debug, Clone, Copy, PartialEq, Eq, Structural)]
pub enum CidErrorKind {
    /// The binary form does not begin with `01 55 12 20`.
    WrongPrefix,
    /// The binary form is not 36 bytes long.
    WrongLength,
    /// The text after the multibase prefix is not valid base32.
    BadBase32,
    /// The text does not begin with the multibase prefix `b`.
    MissingMultibase,
}

/// The outcome of reading a binary CID, as a digest or the reason it was refused.
pub open spec fn parse_bytes_spec(b: Seq<u8>) -> Result<Seq<u8>, CidErrorKind> {
    if b.len() != 36 {
        Err(CidErrorKind::WrongLength)
    } else if b.subrange(0, 4) != cid_prefix() {
        Err(CidErrorKind::WrongPrefix)
    } else {
        Ok(b.subrange(4, 36))
    }
}

/// The outcome of reading a text CID, as a digest or the reason it was refused.
pub open spec fn parse_text_spec(t: Seq<char>) -> Result<Seq<u8>, CidErrorKind> {
    if t.len() == 0 || t[0] != 'b' {
        Err(CidErrorKind::MissingMultibase)
    } else if t.len() - 1 > MAX_BODY_CHARS {
        Err(CidErrorKind::WrongLength)
    } else {
        match base32_decoded(t.drop_first()) {
            None => Err(CidErrorKind::BadBase32),
            Some(b) => parse_bytes_spec(b),
        }
    }
}

/// A refused CID.
#[derive(Debug, Clone, Copy, PartialEq, Eq, Structural)]
pub struct CidError {
    pub kind: CidErrorKind,
}

impl CidError {
    pub fn new(kind: CidErrorKind) -> (r: CidError)
        ensures
            r.kind == kind,
    {
        CidError { kind }
    }

    /// A short description of the error.
    pub fn message(&self) -> (r: &'static str) {
        match self.kind {
            CidErrorKind::WrongPrefix => "Invalid CID format",
            CidErrorKind::WrongLength => "Invalid CID length",
            CidErrorKind::BadBase32 => "Invalid base32 in CID",
            CidErrorKind::MissingMultibase =>
                "Invalid CID. CID must be multicodec base32 lowercase encoded (starts with 'b')",
        }
    }
}

/// Relies on `sha2::Sha256::digest`: the SHA-256 digest of the input.
#[verifier::external_body]
fn sha256_digest(data: &[u8]) -> (r: [u8; 32])
    ensures
        r@ == sha256(data@),
{
    <sha2::Sha256 as sha2::Digest>::digest(data).into()
}

/// Relies on `data_encoding::BASE32_NOPAD.encode`: eight symbols out of
/// `A-Z2-7` for each five bytes, no padding, the last group cut short. Its
/// length computation asserts on inputs beyond 8388607 bytes.
#[verifier::external_body]
fn base32_encode(data: &[u8]) -> (r: Vec<u8>)
    requires
        data@.len() <= 8388607,
    ensures
        r@ == base32_upper(data@),
        r@.len() == (8 * data@.len() + 4) / 5,
{
    data_encoding::BASE32_NOPAD.encode(data).into_bytes()
}

/// Relies on `data_encoding::BASE32_NOPAD_NOCASE.decode`: it reads lower-case
/// letters as upper-case ones and gives back the data that was encoded. Its
/// length computation asserts on inputs beyond `usize::MAX / 8` bytes.
#[verifier::external_body]
fn base32_decode(text: &str) -> (r: Option<Vec<u8>>)
    requires
        encode_utf8(text@).len() <= 4 * MAX_BODY_CHARS,
    ensures
        r is Some <==> base32_decoded(text@) is Some,
        r is Some ==> r->Some_0@ == base32_decoded(text@)->Some_0,
        forall|data: Seq<u8>|
            #[trigger] upper_chars(ascii_text(base32_upper(data))) == upper_chars(text@) ==> r
                is Some && r->Some_0@ == data,
{
    data_encoding::BASE32_NOPAD_NOCASE.decode(text.as_bytes()).ok()
}

/// A CIDv1 (raw codec, SHA-256), held as its 32-byte digest.
#[derive(Debug, Clone, Copy, PartialEq, Eq, Hash)]
pub struct Cid(pub [u8; 32]);

impl Cid {
    /// The text form of this CID.
    pub open spec fn text(self) -> Seq<char> {
        cid_text(self.0@)
    }

    /// The binary form of this CID.
    pub open spec fn bytes(self) -> Seq<u8> {
        cid_binary(self.0@)
    }

    /// Reads a CID from its 36-byte binary form.
    pub fn parse_bytes(cid_bytes: Vec<u8>) -> (r: Result<Cid, CidError>)
        ensures
            match parse_bytes_spec(cid_bytes@) {
                Ok(d) => r is Ok && r->Ok_0.0@ == d,
                Err(k) => r is Err && r->Err_0.kind == k,
            },
            forall|d: Seq<u8>|
                d.len() == 32 && cid_bytes@ == #[trigger] cid_binary(d) ==> r is Ok && r->Ok_0.0@
                    == d,
    {
        proof {
            assert forall|d: Seq<u8>| d.len() == 32 && cid_bytes@ == #[trigger] cid_binary(
                d,
            ) implies parse_bytes_spec(cid_bytes@) == Ok::<Seq<u8>, CidErrorKind>(d) by {
                assert(cid_binary(d).subrange(0, 4) =~= cid_prefix());
                assert(cid_binary(d).subrange(4, 36) =~= d);
            }
        }
        if cid_bytes.len() != 36 {
            return Err(CidError::new(CidErrorKind::WrongLength));
        }
        if cid_bytes[0] != CID_VERSION || cid_bytes[1] != MULTICODEC_RAW || cid_bytes[2]
            != MULTIHASH_SHA256 || cid_bytes[3] != DIGEST_LEN {
            assert(cid_bytes@.subrange(0, 4) != cid_prefix()) by {
                assert(cid_bytes@.subrange(0, 4)[0] == cid_bytes@[0]);
                assert(cid_bytes@.subrange(0, 4)[1] == cid_bytes@[1]);
                assert(cid_bytes@.subrange(0, 4)[2] == cid_bytes@[2]);
                assert(cid_bytes@.subrange(0, 4)[3] == cid_bytes@[3]);
            }
            return Err(CidError::new(CidErrorKind::WrongPrefix));
        }
        assert(cid_bytes@.subrange(0, 4) =~= cid_prefix());
        let mut hash = [0u8; 32];
        let mut i: usize = 0;
        while i < 32
            invariant
                cid_bytes@.len() == 36,
                i <= 32,
                forall|j: int| 0 <= j < i ==> hash@[j] == cid_bytes@[j + 4],
            decreases 32 - i,
        {
            hash[i] = cid_bytes[i + 4];
            i = i + 1;
        }
        assert(hash@ =~= cid_bytes@.subrange(4, 36));
        Ok(Cid(hash))
    }

    /// Whether two CIDs name the same digest.
    pub fn same_as(&self, other: &Cid) -> (r: bool)
        ensures
            r == (self.0@ == other.0@),
    {
        let mut i: usize = 0;
        while i < 32
            invariant
                i <= 32,
                forall|j: int| 0 <= j < i ==> self.0@[j] == other.0@[j],
            decreases 32 - i,
        {
            if self.0[i] != other.0[i] {
                return false;
            }
            i = i + 1;
        }
        assert(self.0@ =~= other.0@);
        true
    }

    /// The CID of a byte string.
    pub fn of(bytes: &[u8]) -> (r: Cid)
        ensures
            r.0@ == sha256(bytes@),
    {
        Cid(sha256_digest(bytes))
    }

    /// The 36-byte binary form: `01 55 12 20` and the digest.
    pub fn to_bytes(&self) -> (r: Vec<u8>)
        ensures
            r@ == self.bytes(),
            r@.len() == 36,
            r@.subrange(0, 4) == cid_prefix(),
    {
        let mut out: Vec<u8> = Vec::with_capacity(36);
        out.push(CID_VERSION);
        out.push(MULTICODEC_RAW);
        out.push(MULTIHASH_SHA256);
        out.push(DIGEST_LEN);
        let mut i: usize = 0;
        while i < 32
            invariant
                i <= 32,
                out@.len() == 4 + i,
                out@.subrange(0, 4) == cid_prefix(),
                forall|j: int| 0 <= j < i ==> out@[j + 4] == self.0@[j],
            decreases 32 - i,
        {
            out.push(self.0[i]);
            i = i + 1;
            assert(out@.subrange(0, 4) =~= cid_prefix());
        }
        assert(out@ =~= self.bytes());
        out
    }

    /// The text form: `b` and the lower-case unpadded base32 of the binary form.
    pub fn to_string(&self) -> (r: String)
        ensures
            r@ == self.text(),
            r@.len() == 59,
            r@[0] == 'b',
    {
        let bytes = self.to_bytes();
        let encoded = base32_encode(bytes.as_slice());
        let mut out = String::from_str("b");
        proof {
            reveal_strlit("b");
        }
        let mut i: usize = 0;
        while i < encoded.len()
            invariant
                i <= encoded@.len(),
                out@ == seq!['b'] + ascii_text(lower_bytes(encoded@.subrange(0, i as int))),
            decreases encoded@.len() - i,
        {
            let b = encoded[i];
            let l: u8 = if 65 <= b && b <= 90 { b + 32 } else { b };
            push_char(&mut out, l as char);
            proof {
                assert(ascii_text(lower_bytes(encoded@.subrange(0, i + 1))) =~= ascii_text(
                    lower_bytes(encoded@.subrange(0, i as int)),
                ).push(l as char));
            }
            i = i + 1;
        }
        assert(encoded@.subrange(0, encoded@.len() as int) =~= encoded@);
        out
    }

    /// Reads a CID from its text form; lower- and upper-case base32 are both accepted.
    pub fn parse(text: &str) -> (r: Result<Cid, CidError>)
        ensures
            match parse_text_spec(text@) {
                Ok(d) => r is Ok && r->Ok_0.0@ == d,
                Err(k) => r is Err && r->Err_0.kind == k,
            },
            forall|d: Seq<u8>|
                d.len() == 32 && text@.len() == 59 && text@ == #[trigger] cid_text(d) ==> r is Ok
                    && r->Ok_0.0@ == d,
    {
        let n = text.unicode_len();
        if n == 0 || text.get_char(0) != 'b' {
            return Err(CidError::new(CidErrorKind::MissingMultibase));
        }
        let body = text.substring_char(1, n);
        assert(body@ =~= text@.drop_first());
        if n - 1 > MAX_BODY_CHARS {
            return Err(CidError::new(CidErrorKind::WrongLength));
        }
        proof {
            lemma_utf8_len_bound(body@);
        }
        let decoded = base32_decode(body);
        proof {
            assert forall|d: Seq<u8>| d.len() == 32 && text@.len() == 59 && text@ == #[trigger] cid_text(d) implies decoded
                is Some && decoded->Some_0@ == cid_binary(d) by {
                let enc = base32_upper(cid_binary(d));
                assert(body@ =~= ascii_text(lower_bytes(enc)));
                assert forall|j: int| 0 <= j < enc.len() implies #[trigger] upper_char(
                    lower_byte(enc[j]) as char,
                ) == upper_char(enc[j] as char) by {
                    let b = enc[j];
                    if 65 <= b <= 90 {
                        assert(((b + 32) as u8 as char) as u8 == (b + 32) as u8);
                    }
                }
                assert(upper_chars(body@) =~= upper_chars(ascii_text(enc)));
            }
        }
        match decoded {
            None => Err(CidError::new(CidErrorKind::BadBase32)),
            Some(b) => Cid::parse_bytes(b),
        }
    }
}

} // verus!
