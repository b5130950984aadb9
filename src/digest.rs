//! Content digests: the BLAKE3 hash of a file's bytes, fed in chunks so that
//! memory use does not depend on the file's size.
use vstd::prelude::*;

verus! {

#[verifier::external_type_specification]
#[verifier::external_body]
pub struct ExHasher(blake3::Hasher);

/// The bytes that a hasher has absorbed, in order.
pub uninterp spec fn absorbed(h: blake3::Hasher) -> Seq<u8>;

/// A lowercase hexadecimal digit.
pub open spec fn is_lower_hex(c: char) -> bool {
    ('0' <= c && c <= '9') || ('a' <= c && c <= 'f')
}

/// 64 lowercase hexadecimal digits.
pub open spec fn is_hex_digest(s: Seq<char>) -> bool {
    s.len() == 64 && forall|i: int| 0 <= i < s.len() ==> is_lower_hex(#[trigger] s[i])
}

/// The lowercase hex BLAKE3 digest of a byte sequence.
pub uninterp spec fn blake3_hex(data: Seq<u8>) -> Seq<char>;

/// Relies on `blake3::Hasher::new`: a hasher that has absorbed nothing.
#[verifier::external_body]
fn hasher_new() -> (h: blake3::Hasher)
    ensures
        absorbed(h) == Seq::<u8>::empty(),
{
    blake3::Hasher::new()
}

/// Relies on `blake3::Hasher::update`: the input is appended to what the
/// hasher has absorbed.
#[verifier::external_body]
fn hasher_update(h: &mut blake3::Hasher, data: &[u8])
    ensures
        absorbed(*final(h)) == absorbed(*old(h)) + data@,
{
    h.update(data);
}

/// Relies on `blake3::Hasher::finalize` and `blake3::Hash::to_hex`: the digest
/// of everything absorbed, as 64 digits from `0-9a-f`; the hasher is unchanged.
#[verifier::external_body]
fn hasher_hex(h: &blake3::Hasher) -> (r: String)
    ensures
        r@ == blake3_hex(absorbed(*h)),
        is_hex_digest(r@),
{
    h.finalize().to_hex().to_string()
}

/// A digest in progress over the bytes fed to it so far.
pub struct ContentHasher {
    inner: blake3::Hasher,
}

impl View for ContentHasher {
    type V = Seq<u8>;

    closed spec fn view(&self) -> Seq<u8> {
        absorbed(self.inner)
    }
}

impl ContentHasher {
    /// A digest over no bytes yet.
    pub fn new() -> (r: ContentHasher)
        ensures
            r@ == Seq::<u8>::empty(),
    {
        ContentHasher { inner: hasher_new() }
    }

    /// Feeds the next chunk of content.
    pub fn update(&mut self, chunk: &[u8])
        ensures
            final(self)@ == old(self)@ + chunk@,
    {
        hasher_update(&mut self.inner, chunk);
    }

    /// The hex digest of all bytes fed so far.
    pub fn hex_digest(&self) -> (r: String)
        ensures
            r@ == blake3_hex(self@),
            is_hex_digest(r@),
    {
        hasher_hex(&self.inner)
    }
}

/// The hex digest of `data`, fed as one chunk.
pub fn digest_hex(data: &[u8]) -> (r: String)
    ensures
        r@ == blake3_hex(data@),
        is_hex_digest(r@),
{
    let mut h = ContentHasher::new();
    h.update(data);
    proof {
        assert(Seq::<u8>::empty() + data@ =~= data@);
    }
    h.hex_digest()
}

} // verus!
