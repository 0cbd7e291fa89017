//! RIPEMD-160 digests of data that comes piece by piece.
use vstd::prelude::*;
use ripemd::Digest;
use crate::text::hex_text;

verus! {

/// From this many bytes on, the length of a message in bits no longer fits in the 64 bits that the
/// hash function keeps for it.
pub const HASH_LIMIT: u64 = 0x2000_0000_0000_0000;

/// The RIPEMD-160 hasher of the `ripemd` crate.
#[verifier::external_type_specification]
#[verifier::external_body]
pub struct ExRipemd160(ripemd::Ripemd160);

/// The bytes that a hasher holds: all that it has processed since it was made.
pub uninterp spec fn absorbed(hasher: ripemd::Ripemd160) -> Seq<u8>;

/// The RIPEMD-160 digest of a byte string.
pub uninterp spec fn ripemd160(data: Seq<u8>) -> Seq<u8>;

/// Calls `ripemd::Digest::new`: the new hasher has processed nothing.
#[verifier::external_body]
fn hasher_new() -> (hasher: ripemd::Ripemd160)
    ensures
        absorbed(hasher) == Seq::<u8>::empty(),
{
    ripemd::Ripemd160::new()
}

/// Calls `ripemd::Digest::update`: `data` follows what the hasher has processed before.
#[verifier::external_body]
fn hasher_update(hasher: &mut ripemd::Ripemd160, data: &[u8])
    requires
        absorbed(*old(hasher)).len() + data@.len() < HASH_LIMIT,
    ensures
        absorbed(*final(hasher)) == absorbed(*old(hasher)) + data@,
{
    hasher.update(data)
}

/// Calls `ripemd::Digest::finalize` on a copy of the hasher: the digest of all that it has
/// processed. It depends on nothing else, so not on how the data was cut into pieces.
#[verifier::external_body]
fn hasher_finalize(hasher: &ripemd::Ripemd160) -> (digest: [u8; 20])
    requires
        absorbed(*hasher).len() < HASH_LIMIT,
    ensures
        digest@ == ripemd160(absorbed(*hasher)),
{
    hasher.clone().finalize().into()
}

/// Calls `hex::encode`: two lower-case hexadecimal digits for each byte.
#[verifier::external_body]
fn hex_encode(digest: &[u8; 20]) -> (hex: String)
    ensures
        hex@ == hex_text(digest@),
{
    hex::encode(digest)
}

/// A hasher that knows how much it has processed.
pub struct FileHasher {
    hasher: ripemd::Ripemd160,
    length: u64,
}

impl View for FileHasher {
    type V = Seq<u8>;

    /// What was processed so far.
    closed spec fn view(&self) -> Seq<u8> {
        absorbed(self.hasher)
    }
}

impl FileHasher {
    /// The length is that of what was processed, and the digest can be taken.
    pub closed spec fn wf(self) -> bool {
        &&& self.length == absorbed(self.hasher).len()
        &&& self.length < HASH_LIMIT
    }

    /// A hasher that has processed nothing.
    pub fn new() -> (hasher: FileHasher)
        ensures
            hasher.wf(),
            hasher@ == Seq::<u8>::empty(),
    {
        FileHasher { hasher: hasher_new(), length: 0 }
    }

    /// Whether `more` further bytes can be processed.
    pub fn has_room(&self, more: usize) -> (r: bool)
        requires
            self.wf(),
        ensures
            r == (self@.len() + more < HASH_LIMIT),
    {
        (more as u64) < HASH_LIMIT - self.length
    }

    /// Processes the next piece of the data.
    pub fn update(&mut self, data: &[u8])
        requires
            old(self).wf(),
            old(self)@.len() + data@.len() < HASH_LIMIT,
        ensures
            final(self).wf(),
            final(self)@ == old(self)@ + data@,
    {
        hasher_update(&mut self.hasher, data);
        self.length = self.length + data.len() as u64;
    }

    /// The digest of what was processed.
    pub fn digest(&self) -> (digest: [u8; 20])
        requires
            self.wf(),
        ensures
            digest@ == ripemd160(self@),
    {
        hasher_finalize(&self.hasher)
    }

    /// The digest of what was processed, in hexadecimal.
    pub fn hex_digest(&self) -> (hex: String)
        requires
            self.wf(),
        ensures
            hex@ == hex_text(ripemd160(self@)),
    {
        hex_encode(&self.digest())
    }
}

} // verus!
