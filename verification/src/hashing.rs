//! The content key extractor's computational core: a streaming SHA-512
//! hasher, trusted wrappers around the `sha2` crate, and the checksum of
//! a fully given content.
//!
//! Reading a file is the caller's business; the hasher takes the content
//! in bounded-size chunks, so arbitrarily large files need never be held
//! in memory whole.

use vstd::prelude::*;
use vstd::slice::slice_subrange;

use crate::keys::Digest;

verus! {

/// The SHA-512 digest of a byte sequence.
///
/// The algorithm itself is not written out here: `sha512_of` names the
/// result of sha2's SHA-512 implementation, which is a function of the
/// input bytes alone — the same bytes give the same digest, within and
/// across runs.
pub uninterp spec fn sha512_of(bytes: Seq<u8>) -> Seq<u8>;

/// The bytes fed so far to a SHA-512 hasher state.
pub uninterp spec fn fed(h: sha2::Sha512) -> Seq<u8>;

#[verifier::external_type_specification]
#[verifier::external_body]
pub struct ExSha512(sha2::Sha512);

/// Relies on `sha2::Sha512`'s `Default`: a fresh hasher state with
/// nothing fed yet.
#[verifier::external_body]
fn sha512_new() -> (h: sha2::Sha512)
    ensures
        fed(h) == Seq::<u8>::empty(),
{
    sha2::Sha512::default()
}

/// Relies on `digest::Input::input` for `sha2::Sha512`: appends the
/// given bytes to the hashed stream.
#[verifier::external_body]
fn sha512_input(h: &mut sha2::Sha512, chunk: &[u8])
    ensures
        fed(*final(h)) == fed(*old(h)) + chunk@,
{
    sha2::digest::Input::input(h, chunk)
}

/// Relies on `digest::FixedOutput::fixed_result` for `sha2::Sha512`
/// (output size `U64`): the 64-byte SHA-512 digest of the fed bytes.
#[verifier::external_body]
fn sha512_result(h: sha2::Sha512) -> (d: Vec<u8>)
    ensures
        d@ == sha512_of(fed(h)),
        d@.len() == 64,
{
    sha2::digest::FixedOutput::fixed_result(h).as_slice().to_vec()
}

/// A streaming SHA-512 hasher.  Its mathematical value is the byte
/// sequence fed so far.
pub struct Hasher {
    inner: sha2::Sha512,
}

impl View for Hasher {
    type V = Seq<u8>;

    closed spec fn view(&self) -> Seq<u8> {
        fed(self.inner)
    }
}

impl Hasher {
    /// A fresh hasher with nothing fed yet.
    pub fn new() -> (h: Hasher)
        ensures
            h@ == Seq::<u8>::empty(),
    {
        Hasher { inner: sha512_new() }
    }

    /// Feed one chunk of content.
    pub fn update(&mut self, chunk: &[u8])
        ensures
            final(self)@ == old(self)@ + chunk@,
    {
        sha512_input(&mut self.inner, chunk)
    }

    /// Consume the hasher and take the digest of everything fed.
    pub fn finalize(self) -> (d: Digest)
        ensures
            d@ == sha512_of(self@),
            d@.len() == 64,
    {
        Digest::new(sha512_result(self.inner))
    }
}

/// How many bytes of content are fed to the hasher at a time.
pub const CHUNK_LEN: usize = 131072;

/// The SHA-512 checksum of a candidate's content, fed to the hasher in
/// bounded-size chunks.
pub fn checksum(content: &[u8]) -> (d: Digest)
    ensures
        d@ == sha512_of(content@),
        d@.len() == 64,
{
    let mut h = Hasher::new();
    let mut i: usize = 0;
    while i < content.len()
        invariant
            i <= content@.len(),
            h@ == content@.take(i as int),
        decreases content@.len() - i,
    {
        let end = if content.len() - i > CHUNK_LEN {
            i + CHUNK_LEN
        } else {
            content.len()
        };
        let chunk = slice_subrange(content, i, end);
        h.update(chunk);
        proof {
            assert(content@.take(i as int) + content@.subrange(i as int, end as int)
                =~= content@.take(end as int));
        }
        i = end;
    }
    proof {
        assert(content@.take(content@.len() as int) =~= content@);
    }
    h.finalize()
}

/// Hashing is deterministic: the digest is a function of the content
/// alone, so hashing equal content — in particular, re-reading an
/// unmodified file — yields an identical digest every time.
pub proof fn lemma_checksum_deterministic(b1: Seq<u8>, b2: Seq<u8>)
    requires
        b1 == b2,
    ensures
        sha512_of(b1) == sha512_of(b2),
{
}

} // verus!
