//! Hashes of file contents and of paths.

use vstd::prelude::*;
use vstd::string::*;
use vstd::utf8::encode_utf8;

use crate::text::same_text;

verus! {

/// A lowercase hexadecimal digit.
pub open spec fn is_hex_digit(c: char) -> bool {
    '0' <= c <= '9' || 'a' <= c <= 'f'
}

/// The BLAKE3 hash of `bytes`, in hexadecimal.
pub uninterp spec fn blake3_hex(bytes: Seq<u8>) -> Seq<char>;

/// `blake3::hash` of `bytes`, written with `to_hex`: 64 lowercase hexadecimal
/// digits.
#[verifier::external_body]
pub(crate) fn hex_digest(bytes: &[u8]) -> (hex: String)
    ensures
        hex@ == blake3_hex(bytes@),
        hex@.len() == 64,
        forall|i: int| 0 <= i < hex@.len() ==> is_hex_digit(#[trigger] hex@[i]),
{
    blake3::hash(bytes).to_hex().to_string()
}

/// The hash of a file's contents.
#[derive(Debug)]
pub struct Blake3FileHash {
    hex: String,
}

impl View for Blake3FileHash {
    type V = Seq<char>;

    closed spec fn view(&self) -> Seq<char> {
        self.hex@
    }
}

impl Blake3FileHash {
    /// The hash of contents that were read as bytes.
    pub fn from_bytes(contents: &[u8]) -> (hash: Self)
        ensures
            hash@ == blake3_hex(contents@),
            hash@.len() == 64,
    {
        Blake3FileHash { hex: hex_digest(contents) }
    }

    /// The hash of contents that were read as text.
    pub fn from(content: &str) -> (hash: Self)
        ensures
            hash@ == blake3_hex(encode_utf8(content@)),
            hash@.len() == 64,
    {
        Blake3FileHash { hex: hex_digest(content.as_bytes()) }
    }

    /// The hash in hexadecimal.
    pub fn to_text(&self) -> (text: String)
        ensures
            text@ == self@,
    {
        self.hex.clone()
    }

    /// Whether both hashes are the same.
    pub fn same(&self, other: &Self) -> (same: bool)
        ensures
            same == (self@ == other@),
    {
        same_text(self.hex.as_str(), other.hex.as_str())
    }
}

/// The hash of a path's text. Two spellings of one path have two hashes, so
/// paths are made canonical before.
#[derive(Debug)]
pub struct Blake3PathHash {
    hex: String,
}

impl View for Blake3PathHash {
    type V = Seq<char>;

    closed spec fn view(&self) -> Seq<char> {
        self.hex@
    }
}

impl Blake3PathHash {
    #[verifier::type_invariant]
    spec fn is_digest(self) -> bool {
        &&& self.hex@.len() == 64
        &&& forall|i: int| 0 <= i < self.hex@.len() ==> is_hex_digit(#[trigger] self.hex@[i])
    }

    /// The hash of the path written as `path`.
    pub fn from(path: &str) -> (hash: Self)
        ensures
            hash@ == blake3_hex(encode_utf8(path@)),
    {
        Blake3PathHash { hex: hex_digest(path.as_bytes()) }
    }

    /// The hash in hexadecimal, fit for a file name.
    pub fn as_str(&self) -> (text: &str)
        ensures
            text@ == self@,
            text@.len() == 64,
            forall|i: int| 0 <= i < text@.len() ==> is_hex_digit(#[trigger] text@[i]),
    {
        proof {
            use_type_invariant(self);
        }
        self.hex.as_str()
    }

    /// Whether both hashes are the same.
    pub fn same(&self, other: &Self) -> (same: bool)
        ensures
            same == (self@ == other@),
    {
        same_text(self.hex.as_str(), other.hex.as_str())
    }
}

} // verus!
