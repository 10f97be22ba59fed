//! Digest/key module: the content-addressing hash.
//!
//! A key is the double SHA-256 of a payload; a node digest is the double
//! SHA-256 of the concatenation of its two child digests.  The double hash
//! keeps a leaf's raw bytes and a node's concatenated children from being
//! confused with one another.

use vstd::prelude::*;
use vstd::string::StrSliceExecFns;
use vstd::string::StringSliceAdditionalSpecFns;

verus! {

/// A digest: the fixed-width output of the hash function, used both as a
/// content identifier and as a map key.
pub type Key = Vec<u8>;

/// The SHA-256 digest of a byte sequence, named but not written out: the
/// function is given by the outside implementation, and all that matters
/// here is that equal inputs give equal digests.
pub uninterp spec fn sha256_of(bytes: Seq<u8>) -> Seq<u8>;

/// The digest of a payload: SHA-256 applied twice.
pub open spec fn hash_of(bytes: Seq<u8>) -> Seq<u8> {
    sha256_of(sha256_of(bytes))
}

/// The digest of an internal node whose concatenated children are `a ++ b`.
pub open spec fn hash_pair_of(a: Seq<u8>, b: Seq<u8>) -> Seq<u8> {
    hash_of(a + b)
}

/// Relies on `crypto::sha2::Sha256` (through `crypto::digest::Digest`): the
/// 32-byte SHA-256 digest of the input, a value depending on the input bytes
/// alone.
#[verifier::external_body]
fn sha256(bytes: &Vec<u8>) -> (r: Vec<u8>)
    ensures
        r@ == sha256_of(bytes@),
        r@.len() == 32,
{
    let mut sha = crypto::sha2::Sha256::new();
    crypto::digest::Digest::input(&mut sha, bytes.as_slice());
    let mut out: Vec<u8> = vec![0u8; 32];
    crypto::digest::Digest::result(&mut sha, out.as_mut_slice());
    out
}

/// The digest of a payload: `H(H(bytes))`.
pub fn hash(bytes: &Vec<u8>) -> (r: Key)
    ensures
        r@ == hash_of(bytes@),
        r@.len() == 32,
{
    let inner = sha256(bytes);
    sha256(&inner)
}

/// The digest of a payload given as text.
pub fn hash_str(text: &str) -> (r: Key)
    ensures
        r@ == hash_of(text.spec_bytes()),
        r@.len() == 32,
{
    let bytes = text.as_bytes_vec();
    hash(&bytes)
}

/// The digest of an internal node: `H(H(left ++ right))`.
pub fn hash_two(left: &Vec<u8>, right: &Vec<u8>) -> (r: Key)
    ensures
        r@ == hash_pair_of(left@, right@),
        r@.len() == 32,
{
    let mut buffer: Vec<u8> = Vec::new();
    let mut i: usize = 0;
    while i < left.len()
        invariant
            i <= left@.len(),
            buffer@ == left@.take(i as int),
        decreases left@.len() - i,
    {
        proof {
            assert(left@.take(i + 1) == left@.take(i as int).push(left@[i as int]));
        }
        buffer.push(left[i]);
        i = i + 1;
    }
    assert(buffer@ == left@);
    let mut j: usize = 0;
    while j < right.len()
        invariant
            j <= right@.len(),
            buffer@ == left@ + right@.take(j as int),
        decreases right@.len() - j,
    {
        proof {
            assert((left@ + right@.take(j + 1)) == (left@ + right@.take(j as int)).push(
                right@[j as int],
            ));
        }
        buffer.push(right[j]);
        j = j + 1;
    }
    assert(buffer@ == left@ + right@);
    hash(&buffer)
}

} // verus!
