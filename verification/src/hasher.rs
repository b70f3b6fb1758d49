//! The normalising hasher sink, and how a digest is presented.
//!
//! SHA-256 itself, and the two text encodings of a digest, are the work of
//! other crates. What is stated of them here is believed, not proved; each
//! such item says so.

use vstd::prelude::*;
use sha2::{Digest, Sha256};

verus! {

/// A byte sink that feeds what it is given into a SHA-256 digest. Writing
/// never fails and never takes less than it is given; `finalize` uses the sink
/// up and hands out the digest.
///
/// Trusted: the field is a `sha2::Sha256`, which Verus does not look into.
#[verifier::external_body]
pub struct AsyncSha256Hasher {
    hasher: Sha256,
}

/// The bytes that a hasher has taken in since it was made, in order.
pub uninterp spec fn absorbed(hasher: AsyncSha256Hasher) -> Seq<u8>;

/// The SHA-256 digest of `data`, as `sha2` computes it.
pub uninterp spec fn sha256(data: Seq<u8>) -> Seq<u8>;

/// The text that `nix_base32::to_nix_base32` gives for `data`.
pub uninterp spec fn nix_base32(data: Seq<u8>) -> Seq<char>;

/// The lower-case hexadecimal digit for `v < 16`.
pub open spec fn hex_digit(v: int) -> char {
    seq!['0', '1', '2', '3', '4', '5', '6', '7', '8', '9', 'a', 'b', 'c', 'd', 'e', 'f'][v]
}

/// `data` in lower-case hexadecimal: two digits for each byte, the high
/// half first.
pub open spec fn hex_lower(data: Seq<u8>) -> Seq<char> {
    Seq::new(
        2 * data.len(),
        |i: int|
            if i % 2 == 0 {
                hex_digit(data[i / 2] as int / 16)
            } else {
                hex_digit(data[i / 2] as int % 16)
            },
    )
}

/// How a digest is put into text.
#[derive(Clone, Copy, Debug, PartialEq, Eq, Structural)]
pub enum Presentation {
    /// Lower-case hexadecimal, 64 characters.
    Hex,
    /// The base 32 of the Nix store, with its own alphabet and digit order.
    NixBase32,
}

impl AsyncSha256Hasher {
    /// A sink that has taken in nothing.
    ///
    /// Trusted: calls `sha2::Sha256::new`, which starts an empty message.
    #[verifier::external_body]
    pub fn new() -> (hasher: Self)
        ensures
            absorbed(hasher) == Seq::<u8>::empty(),
    {
        Self { hasher: Sha256::new() }
    }

    /// Uses the sink up and hands out the digest of all it has taken in.
    ///
    /// Trusted: calls `sha2::Sha256::finalize`, which gives the SHA-256
    /// digest of the message so far, 32 bytes.
    #[verifier::external_body]
    pub fn finalize(self) -> (digest: [u8; 32])
        ensures
            digest@ == sha256(absorbed(self)),
    {
        self.hasher.finalize().into()
    }

    /// Trusted: calls `sha2::Sha256::update`, which appends `buf` to the
    /// message.
    #[verifier::external_body]
    fn absorb(&mut self, buf: &[u8])
        ensures
            absorbed(*final(self)) == absorbed(*old(self)) + buf@,
    {
        self.hasher.update(buf);
    }

    /// Takes in all of `buf` and says how many bytes that was.
    pub fn write(&mut self, buf: &[u8]) -> (taken: usize)
        ensures
            taken == buf.len(),
            absorbed(*final(self)) == absorbed(*old(self)) + buf@,
    {
        self.absorb(buf);
        buf.len()
    }
}

/// Trusted: calls `hex::encode`, which writes each byte as two lower-case
/// hexadecimal digits.
#[verifier::external_body]
fn hex_encode(data: &[u8]) -> (text: String)
    ensures
        text@ == hex_lower(data@),
{
    hex::encode(data)
}

/// Trusted: calls `nix_base32::to_nix_base32`. Of its result only the name is
/// stated. The call fails on an empty slice, hence the fixed length.
#[verifier::external_body]
fn nix_base32_encode(data: &[u8; 32]) -> (text: String)
    ensures
        text@ == nix_base32(data@),
{
    nix_base32::to_nix_base32(data)
}

/// Puts a digest into text.
pub fn present(digest: &[u8; 32], how: Presentation) -> (text: String)
    ensures
        text@ == match how {
            Presentation::Hex => hex_lower(digest@),
            Presentation::NixBase32 => nix_base32(digest@),
        },
{
    match how {
        Presentation::Hex => hex_encode(digest.as_slice()),
        Presentation::NixBase32 => nix_base32_encode(digest),
    }
}

} // verus!
