//! Content hashes.
use vstd::prelude::*;
use vstd::string::*;

use crate::text::{decimal, decimal_text, join2, starts_with, strip_prefix};

verus! {

/// A SHA-256 digest.
#[derive(Clone, Copy, Debug, PartialEq, Eq, PartialOrd, Ord, Hash)]
pub struct ContentHash {
    bytes: [u8; 32],
}

/// The SHA-256 digest of some bytes.
pub uninterp spec fn sha256(bytes: Seq<u8>) -> Seq<u8>;

/// `sha2::Sha256::digest`: the SHA-256 digest of the bytes.
#[verifier::external_body]
fn digest(bytes: &[u8]) -> (r: [u8; 32])
    ensures
        r@ == sha256(bytes@),
{
    <sha2::Sha256 as sha2::Digest>::digest(bytes).into()
}

/// A hexadecimal digit, in lower case.
pub open spec fn hex_digit(n: int) -> char {
    if n < 10 {
        (48 + n) as char
    } else {
        (87 + n) as char
    }
}

/// Two digits for each byte, the high one first.
pub open spec fn hex_text(bytes: Seq<u8>) -> Seq<char>
    decreases bytes.len(),
{
    if bytes.len() == 0 {
        Seq::empty()
    } else {
        hex_text(bytes.drop_last()).push(hex_digit(bytes.last() as int / 16)).push(
            hex_digit(bytes.last() as int % 16),
        )
    }
}

/// The value of a hexadecimal digit of either case; 16 for another character.
pub open spec fn hex_value(c: char) -> int {
    if '0' <= c <= '9' {
        c as int - 48
    } else if 'a' <= c <= 'f' {
        c as int - 87
    } else if 'A' <= c <= 'F' {
        c as int - 55
    } else {
        16
    }
}

/// Whether a text is made of pairs of hexadecimal digits.
pub open spec fn is_hex(s: Seq<char>) -> bool {
    s.len() % 2 == 0 && forall|i: int| 0 <= i < s.len() ==> hex_value(#[trigger] s[i]) < 16
}

/// The bytes that pairs of hexadecimal digits stand for.
pub open spec fn hex_bytes(s: Seq<char>) -> Seq<u8> {
    Seq::new(
        (s.len() / 2) as nat,
        |i: int| (16 * hex_value(s[2 * i]) + hex_value(s[2 * i + 1])) as u8,
    )
}

/// The text of the error of `hex::decode` on a text that it refuses.
pub uninterp spec fn hex_fault(s: Seq<char>) -> Seq<char>;

/// `hex::encode`: two digits in lower case for each byte.
#[verifier::external_body]
pub(crate) fn hex_encode(bytes: &[u8]) -> (r: String)
    ensures
        r@ == hex_text(bytes@),
{
    hex::encode(bytes)
}

/// `hex::decode`: the bytes that pairs of digits of either case stand for. It fails exactly on a
/// text of odd length or with another character in it.
#[verifier::external_body]
pub(crate) fn hex_decode(s: &str) -> (r: Result<Vec<u8>, String>)
    ensures
        r is Ok <==> is_hex(s@),
        r matches Ok(bytes) ==> bytes@ == hex_bytes(s@),
        r matches Err(e) ==> e@ == hex_fault(s@),
{
    hex::decode(s).map_err(|e| e.to_string())
}

/// The prefix of a digest's text.
pub open spec fn hash_prefix() -> Seq<char> {
    seq!['s', 'h', 'a', '2', '5', '6', ':']
}

/// The text of a digest.
pub open spec fn hash_text(bytes: Seq<u8>) -> Seq<char> {
    hash_prefix() + hex_text(bytes)
}

/// Whether a text is the text of a digest, in digits of either case.
pub open spec fn is_hash_text(s: Seq<char>) -> bool {
    starts_with(s, hash_prefix()) && s.len() == 71 && is_hex(s.skip(7))
}

/// Why a text is no digest.
#[derive(Clone, Debug, PartialEq, Eq)]
pub enum HashParseError {
    /// The prefix `sha256:` is missing.
    MissingPrefix,
    /// What follows the prefix is not hexadecimal.
    InvalidHex(String),
    /// The number of bytes is not that of a digest.
    InvalidLength(usize),
}

impl HashParseError {
    /// A sentence that says what is wrong.
    pub fn message(&self) -> (r: String)
        ensures
            r@ == self.text(),
    {
        match self {
            HashParseError::MissingPrefix => "missing sha256: prefix".to_owned(),
            HashParseError::InvalidHex(e) => join2("invalid hex: ", e.as_str()),
            HashParseError::InvalidLength(n) => join2(
                "expected 32 bytes, got ",
                decimal_text(*n as u64).as_str(),
            ),
        }
    }

    pub open spec fn text(self) -> Seq<char> {
        match self {
            HashParseError::MissingPrefix => "missing sha256: prefix"@,
            HashParseError::InvalidHex(e) => "invalid hex: "@ + e@,
            HashParseError::InvalidLength(n) => "expected 32 bytes, got "@ + decimal(n as nat),
        }
    }
}

impl View for ContentHash {
    type V = Seq<u8>;

    closed spec fn view(&self) -> Seq<u8> {
        self.bytes@
    }
}

/// The error that a text without a digest gives, by its text.
pub open spec fn hash_fault(s: Seq<char>) -> Seq<char>
    recommends
        !is_hash_text(s),
{
    if !starts_with(s, hash_prefix()) {
        "missing sha256: prefix"@
    } else if !is_hex(s.skip(7)) {
        "invalid hex: "@ + hex_fault(s.skip(7))
    } else {
        "expected 32 bytes, got "@ + decimal((s.skip(7).len() / 2) as nat)
    }
}

impl ContentHash {
    /// A digest is 32 bytes long.
    pub broadcast proof fn lemma_len(h: ContentHash)
        ensures
            (#[trigger] h@).len() == 32,
    {
    }

    /// The digest of `bytes`.
    pub fn of_bytes(bytes: &[u8]) -> (r: Self)
        ensures
            r@ == sha256(bytes@),
    {
        ContentHash { bytes: digest(bytes) }
    }

    /// The digest made of these bytes.
    pub fn from_array(bytes: [u8; 32]) -> (r: Self)
        ensures
            r@ == bytes@,
    {
        ContentHash { bytes }
    }

    /// The digest made of these bytes, or their number where it is not 32.
    pub fn from_bytes(bytes: &[u8]) -> (r: Result<Self, usize>)
        ensures
            match r {
                Ok(h) => h@ == bytes@,
                Err(n) => n == bytes@.len() && n != 32,
            },
    {
        if bytes.len() != 32 {
            return Err(bytes.len());
        }
        let mut out: [u8; 32] = [0u8; 32];
        let mut i: usize = 0;
        while i < 32
            invariant
                i <= 32,
                bytes@.len() == 32,
                forall|k: int| 0 <= k < i ==> out@[k] == bytes@[k],
            decreases 32 - i,
        {
            out[i] = bytes[i];
            i += 1;
        }
        assert(out@ =~= bytes@);
        Ok(ContentHash { bytes: out })
    }

    pub fn as_bytes(&self) -> (r: &[u8; 32])
        ensures
            r@ == self@,
    {
        &self.bytes
    }

    /// The digest's text.
    pub fn to_hex(&self) -> (r: String)
        ensures
            r@ == hash_text(self@),
    {
        proof {
            reveal_strlit("sha256:");
            assert("sha256:"@ =~= hash_prefix());
        }
        join2("sha256:", hex_encode(&self.bytes).as_str())
    }

    /// Reads the text of a digest.
    pub fn from_hex_str(s: &str) -> (r: Result<Self, HashParseError>)
        ensures
            r is Ok <==> is_hash_text(s@),
            r matches Ok(h) ==> h@ == hex_bytes(s@.skip(7)),
            r matches Err(e) ==> e.text() == hash_fault(s@),
    {
        proof {
            reveal_strlit("sha256:");
            assert("sha256:"@ =~= hash_prefix());
        }
        let rest = match strip_prefix(s, "sha256:") {
            None => {
                return Err(HashParseError::MissingPrefix);
            },
            Some(rest) => rest,
        };
        assert(rest@ == s@.skip(7) && s@.len() == 7 + rest@.len());
        match hex_decode(rest) {
            Err(e) => Err(HashParseError::InvalidHex(e)),
            Ok(bytes) => match ContentHash::from_bytes(bytes.as_slice()) {
                Ok(h) => {
                    proof {
                        ContentHash::lemma_len(h);
                        assert(bytes@.len() == rest@.len() / 2);
                    }
                    Ok(h)
                },
                Err(n) => Err(HashParseError::InvalidLength(n)),
            },
        }
    }
}

/// The text of a digest reads back as that digest.
pub proof fn lemma_hash_text_reads_back(bytes: Seq<u8>)
    requires
        bytes.len() == 32,
    ensures
        is_hash_text(hash_text(bytes)),
        hex_bytes(hash_text(bytes).skip(7)) == bytes,
{
    lemma_hex_text(bytes);
    assert(hash_text(bytes).skip(7) =~= hex_text(bytes));
    assert(hash_text(bytes).take(7) =~= hash_prefix());
}

/// Encoding bytes and decoding the text gives the bytes back.
pub proof fn lemma_hex_text(bytes: Seq<u8>)
    ensures
        hex_text(bytes).len() == 2 * bytes.len(),
        is_hex(hex_text(bytes)),
        hex_bytes(hex_text(bytes)) == bytes,
    decreases bytes.len(),
{
    let s = hex_text(bytes);
    if bytes.len() > 0 {
        let front = bytes.drop_last();
        lemma_hex_text(front);
        let hi = bytes.last() as int / 16;
        let lo = bytes.last() as int % 16;
        assert(hex_value(hex_digit(hi)) == hi);
        assert(hex_value(hex_digit(lo)) == lo);
        assert forall|i: int| 0 <= i < s.len() implies hex_value(#[trigger] s[i]) < 16 by {
            if i < hex_text(front).len() {
                assert(s[i] == hex_text(front)[i]);
            }
        }
        assert forall|i: int| 0 <= i < bytes.len() implies hex_bytes(s)[i] == bytes[i] by {
            if i < front.len() {
                assert(hex_bytes(hex_text(front))[i] == front[i]);
                assert(s[2 * i] == hex_text(front)[2 * i]);
                assert(s[2 * i + 1] == hex_text(front)[2 * i + 1]);
            } else {
                assert(s[2 * i] == hex_digit(hi));
                assert(s[2 * i + 1] == hex_digit(lo));
            }
        }
    }
    assert(hex_bytes(s) =~= bytes);
}

/// A reference to content by the text of its digest.
#[derive(Debug, PartialEq, Eq)]
pub struct HashRef {
    text: String,
}

impl View for HashRef {
    type V = Seq<char>;

    closed spec fn view(&self) -> Seq<char> {
        self.text@
    }
}

impl HashRef {
    #[verifier::type_invariant]
    spec fn wf(&self) -> bool {
        is_hash_text(self.text@)
    }

    /// Accepts exactly the text of a digest.
    pub fn new(text: String) -> (r: Result<Self, HashParseError>)
        ensures
            r is Ok <==> is_hash_text(text@),
            r matches Ok(h) ==> h@ == text@,
            r matches Err(e) ==> e.text() == hash_fault(text@),
    {
        match ContentHash::from_hex_str(text.as_str()) {
            Ok(_) => Ok(HashRef { text }),
            Err(e) => Err(e),
        }
    }

    /// The reference to the content with digest `h`.
    pub fn of_hash(h: &ContentHash) -> (r: Self)
        ensures
            r@ == hash_text(h@),
    {
        let text = h.to_hex();
        proof {
            ContentHash::lemma_len(*h);
            lemma_hash_text_reads_back(h@);
        }
        HashRef { text }
    }

    pub fn as_str(&self) -> (r: &str)
        ensures
            r@ == self@,
            is_hash_text(r@),
    {
        proof {
            use_type_invariant(self);
        }
        self.text.as_str()
    }

}

impl Clone for HashRef {
    fn clone(&self) -> (r: Self)
        ensures
            r == *self,
    {
        proof {
            use_type_invariant(self);
        }
        HashRef { text: self.text.clone() }
    }
}

} // verus!
