//! Readable renderings of entropy: an English-like word generator driven by
//! a bit-level reader over a byte source and precomputed transition tables,
//! and a syllable rendering of a SHA-256 digest.

pub mod traits;
pub mod bit_reader;
pub mod model;
pub mod english_word;
pub mod laws;
pub mod syllables;

use vstd::prelude::*;
use vstd::string::StrSliceExecFns;
use vstd::string::StringExecFns;
use vstd::string::StringSliceAdditionalSpecFns;
use crate::syllables::{spec_syllable, syllable};

verus! {

/// What SHA-256 returns for a byte sequence: a pure function of the bytes.
pub uninterp spec fn sha256_of(bytes: Seq<u8>) -> Seq<u8>;

/// Relies on sha2::Sha256 (through its Digest trait): the digest depends on
/// the input bytes alone and is 32 bytes long.
#[verifier::external_body]
fn sha256_digest(input: &[u8]) -> (r: Vec<u8>)
    ensures
        r@ == sha256_of(input@),
        r@.len() == 32,
{
    let digest = <sha2::Sha256 as sha2::Digest>::digest(input);
    digest.to_vec()
}

/// The readable rendering of a digest: its bytes' syllables, concatenated in
/// order.
pub open spec fn spec_readable(digest: Seq<u8>) -> Seq<char>
    decreases digest.len(),
{
    if digest.len() == 0 {
        Seq::empty()
    } else {
        spec_readable(digest.drop_last()) + spec_syllable(digest.last())
    }
}

/// Hash the input with SHA-256 and render the digest as a syllable string.
pub fn readable_hash(input: &str) -> (r: String)
    ensures
        r@ == spec_readable(sha256_of(input.spec_bytes())),
{
    let digest = sha256_digest(input.as_bytes());
    let mut result = String::new();
    proof {
        assert(digest@.take(0) =~= Seq::<u8>::empty());
    }
    let mut i: usize = 0;
    while i < digest.len()
        invariant
            i <= digest@.len(),
            result@ == spec_readable(digest@.take(i as int)),
        decreases digest@.len() - i,
    {
        let s = syllable(digest[i]);
        result.append(s);
        proof {
            assert(digest@.take(i + 1).drop_last() =~= digest@.take(i as int));
            assert(digest@.take(i + 1).last() == digest@[i as int]);
        }
        i = i + 1;
    }
    proof {
        assert(digest@.take(digest@.len() as int) =~= digest@);
    }
    result
}

} // verus!
