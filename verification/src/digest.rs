//! BLAKE3 digests of byte strings that come in pieces.
use vstd::prelude::*;

verus! {

/// The state of a digest that is being computed.
#[verifier::external_type_specification]
#[verifier::external_body]
pub struct ExHasher(blake3::Hasher);

/// The bytes that a hasher has taken in.
pub uninterp spec fn absorbed(hasher: blake3::Hasher) -> Seq<u8>;

/// The BLAKE3 digest of a byte string, in lowercase hexadecimal.
pub uninterp spec fn blake3_hex(bytes: Seq<u8>) -> Seq<char>;

pub open spec fn is_hex_digit(character: char) -> bool {
    '0' <= character <= '9' || 'a' <= character <= 'f'
}

/// Whether a text is a digest in lowercase hexadecimal.
pub open spec fn is_digest_text(text: Seq<char>) -> bool {
    &&& text.len() == 64
    &&& forall|i: int| 0 <= i < text.len() ==> is_hex_digit(#[trigger] text[i])
}

/// `Hasher::new`: nothing has been taken in.
#[verifier::external_body]
fn new_hasher() -> (hasher: blake3::Hasher)
    ensures
        absorbed(hasher).len() == 0,
{
    blake3::Hasher::new()
}

/// `Hasher::update` takes in bytes behind those it has. The digest is defined
/// for inputs whose length fits in 64 bits.
#[verifier::external_body]
fn absorb(hasher: &mut blake3::Hasher, bytes: &[u8])
    requires
        absorbed(*old(hasher)).len() + bytes@.len() <= u64::MAX,
    ensures
        absorbed(*final(hasher)) == absorbed(*old(hasher)) + bytes@,
{
    hasher.update(bytes);
}

/// `Hasher::finalize`, as text by `Hash::to_hex`: the digest of all that was
/// taken in, in 64 digits, each of them from `0` to `9` or from `a` to `f`.
#[verifier::external_body]
fn digest_text(hasher: &blake3::Hasher) -> (digest: String)
    ensures
        digest@ == blake3_hex(absorbed(*hasher)),
        is_digest_text(digest@),
{
    hasher.finalize().to_hex().to_string()
}

/// A digest of bytes that come in pieces.
pub struct Digest {
    hasher: blake3::Hasher,
    count: u64,
}

impl View for Digest {
    type V = Seq<u8>;

    closed spec fn view(&self) -> Seq<u8> {
        absorbed(self.hasher)
    }
}

impl Digest {
    pub closed spec fn wf(self) -> bool {
        self.count == self@.len()
    }

    /// Nothing has been taken in.
    pub fn new() -> (digest: Self)
        ensures
            digest.wf(),
            digest@ == Seq::<u8>::empty(),
    {
        let digest = Digest { hasher: new_hasher(), count: 0 };
        assert(digest@ =~= Seq::empty());
        digest
    }

    /// Takes in more bytes, unless the whole would be too long to count.
    pub fn update(&mut self, bytes: &[u8]) -> (taken: bool)
        requires
            old(self).wf(),
        ensures
            final(self).wf(),
            taken == (old(self)@.len() + bytes@.len() <= u64::MAX),
            final(self)@ == (if taken {
                old(self)@ + bytes@
            } else {
                old(self)@
            }),
    {
        let more: u64 = bytes.len() as u64;
        match self.count.checked_add(more) {
            Some(count) => {
                absorb(&mut self.hasher, bytes);
                self.count = count;
                true
            },
            None => false,
        }
    }

    /// The digest of all that was taken in.
    pub fn finish(&self) -> (digest: String)
        ensures
            digest@ == blake3_hex(self@),
            is_digest_text(digest@),
    {
        digest_text(&self.hasher)
    }
}

} // verus!
