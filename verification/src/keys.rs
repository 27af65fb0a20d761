//! The concrete key kinds used by the pipeline — the file size and the
//! content digest — and the size key extractor's classification rule.

use vstd::prelude::*;

use crate::grouping::Key;
use crate::grouping::Outcome;

verus! {

/// A content key: the fixed-length byte sequence that the content hash
/// produces.  Its mathematical value is its byte sequence.
pub struct Digest {
    bytes: Vec<u8>,
}

impl View for Digest {
    type V = Seq<u8>;

    closed spec fn view(&self) -> Seq<u8> {
        self.bytes@
    }
}

impl Digest {
    /// Wrap a raw digest byte vector.
    pub fn new(bytes: Vec<u8>) -> (d: Digest)
        ensures
            d@ == bytes@,
    {
        Digest { bytes }
    }

    /// The digest's raw bytes.
    pub fn as_bytes(&self) -> (r: &Vec<u8>)
        ensures
            r@ == self@,
    {
        &self.bytes
    }
}

impl Key for Digest {
    fn key_eq(&self, other: &Self) -> (b: bool)
        ensures
            b == (self@ == other@),
    {
        if self.bytes.len() != other.bytes.len() {
            return false;
        }
        let mut i: usize = 0;
        while i < self.bytes.len()
            invariant
                i <= self.bytes@.len(),
                self.bytes@.len() == other.bytes@.len(),
                forall|n: int| 0 <= n < i ==> self.bytes@[n] == other.bytes@[n],
            decreases self.bytes@.len() - i,
        {
            if self.bytes[i] != other.bytes[i] {
                return false;
            }
            i = i + 1;
        }
        proof {
            assert(self.bytes@ =~= other.bytes@);
        }
        true
    }
}

/// What the size key extractor reads from one filesystem entry: the
/// entry's metadata — whether it is a regular file, and its byte length —
/// or the message of the error that prevented reading the metadata.
pub enum FileMeta {
    /// The metadata was read.
    Known { regular: bool, len: u64 },
    /// The metadata could not be read.
    Unreadable { message: String },
}

/// The size key of a candidate: its byte length if it is a regular file
/// whose metadata was read, `Skip` for any other kind of entry
/// (directory, symbolic link, device, ...), and `Fail` with the error's
/// message if the metadata could not be read.
pub fn filesize(meta: FileMeta) -> (r: Outcome<u64>)
    ensures
        r == (match meta {
            FileMeta::Known { regular, len } => if regular {
                Outcome::Found(len)
            } else {
                Outcome::<u64>::Skip
            },
            FileMeta::Unreadable { message } => Outcome::<u64>::Fail(message),
        }),
{
    match meta {
        FileMeta::Known { regular, len } => {
            if regular {
                Outcome::Found(len)
            } else {
                Outcome::Skip
            }
        },
        FileMeta::Unreadable { message } => Outcome::Fail(message),
    }
}

} // verus!
