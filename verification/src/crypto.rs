//! The cryptographic primitives the store is built on.
//!
//! Each function here hands its arguments to an outside crate. What comes back
//! is named by a spec function, and the contracts of the store are stated over
//! those names.

use rand::Rng;
use sha2::Digest;
use vstd::prelude::*;
use zeroize::Zeroize;

verus! {

/// The SHA-256 digest of a message.
pub uninterp spec fn sha256_of(message: Seq<u8>) -> Seq<u8>;

/// Calls `sha2::Sha256::digest`: the digest is a function of the message alone.
#[verifier::external_body]
pub(crate) fn sha256(message: &[u8]) -> (digest: [u8; 32])
    ensures
        digest@ == sha256_of(message@),
{
    sha2::Sha256::digest(message).into()
}

/// The first 32 bytes of HKDF-SHA256 output for a salt, input key and info.
pub uninterp spec fn hkdf_of(salt: Option<Seq<u8>>, ikm: Seq<u8>, info: Seq<u8>) -> Seq<u8>;

/// Calls `hkdf::Hkdf::<Sha256>::new` and expands 32 bytes from it: a function
/// of the salt, the input key and the info. Expansion is refused only past 255
/// blocks of 32 bytes, and one is asked for here.
#[verifier::external_body]
pub(crate) fn hkdf32(salt: Option<&[u8]>, ikm: &[u8], info: &[u8]) -> (okm: [u8; 32])
    ensures
        okm@ == hkdf_of(
            match salt {
                Some(s) => Some(s@),
                None => None,
            },
            ikm@,
            info@,
        ),
{
    let mut okm = [0u8; 32];
    hkdf::Hkdf::<sha2::Sha256>::new(salt, ikm).expand(info, &mut okm).unwrap();
    okm
}

/// Ciphertext and tag that AEGIS-256 gives for a key, nonce, associated data
/// and message.
pub uninterp spec fn aegis_sealed(
    key: Seq<u8>,
    nonce: Seq<u8>,
    adata: Seq<u8>,
    message: Seq<u8>,
) -> (Seq<u8>, Seq<u8>);

/// Message that AEGIS-256 gives back for a ciphertext and tag: the one that they
/// are the ciphertext and tag of, or `None` where there is none.
pub open spec fn aegis_opened(
    key: Seq<u8>,
    nonce: Seq<u8>,
    adata: Seq<u8>,
    ciphertext: Seq<u8>,
    tag: Seq<u8>,
) -> Option<Seq<u8>> {
    if exists|m: Seq<u8>| #[trigger] aegis_sealed(key, nonce, adata, m) == (ciphertext, tag) {
        Some(choose|m: Seq<u8>| #[trigger] aegis_sealed(key, nonce, adata, m) == (ciphertext, tag))
    } else {
        None
    }
}

/// A ciphertext that only one message has opens to that message.
pub proof fn lemma_opens_to(
    key: Seq<u8>,
    nonce: Seq<u8>,
    adata: Seq<u8>,
    message: Seq<u8>,
    ciphertext: Seq<u8>,
    tag: Seq<u8>,
)
    requires
        aegis_sealed(key, nonce, adata, message) == (ciphertext, tag),
        forall|m: Seq<u8>| #[trigger]
            aegis_sealed(key, nonce, adata, m).0 == ciphertext ==> m == message,
    ensures
        aegis_opened(key, nonce, adata, ciphertext, tag) == Some(message),
{
    let m = choose|m: Seq<u8>| #[trigger]
        aegis_sealed(key, nonce, adata, m) == (ciphertext, tag);
    assert(aegis_sealed(key, nonce, adata, m).0 == ciphertext);
}

/// Calls `aegis::aegis256::Aegis256::<32>::encrypt_in_place`: the buffer then
/// holds the ciphertext, as long as the message was. Each block of it is the
/// block of the message combined with a stream that the key, nonce, associated
/// data and earlier blocks fix, so no other message has the same ciphertext.
#[verifier::external_body]
pub(crate) fn aegis_seal(
    key: &[u8; 32],
    nonce: &[u8; 32],
    adata: &[u8],
    data: &mut [u8],
) -> (tag: [u8; 32])
    ensures
        (final(data)@, tag@) == aegis_sealed(key@, nonce@, adata@, old(data)@),
        final(data)@.len() == old(data)@.len(),
        forall|m: Seq<u8>| #[trigger]
            aegis_sealed(key@, nonce@, adata@, m).0 == final(data)@ ==> m == old(data)@,
{
    aegis::aegis256::Aegis256::<32>::new(key, nonce).encrypt_in_place(data, adata)
}

/// Calls `aegis::aegis256::Aegis256::<32>::decrypt_in_place`: the buffer is
/// deciphered to the only message that it can be the ciphertext of, and the tag
/// of that message is compared with the one given. Where they are the same the
/// buffer then holds the message, and where they are not it keeps its length and
/// its contents are erased.
#[verifier::external_body]
pub(crate) fn aegis_open(
    key: &[u8; 32],
    nonce: &[u8; 32],
    adata: &[u8],
    data: &mut [u8],
    tag: &[u8; 32],
) -> (opened: bool)
    ensures
        final(data)@.len() == old(data)@.len(),
        opened ==> aegis_sealed(key@, nonce@, adata@, final(data)@) == (old(data)@, tag@),
        opened ==> forall|m: Seq<u8>| #[trigger]
            aegis_sealed(key@, nonce@, adata@, m).0 == old(data)@ ==> m == final(data)@,
        !opened ==> forall|m: Seq<u8>| #[trigger]
            aegis_sealed(key@, nonce@, adata@, m) != (old(data)@, tag@),
{
    aegis::aegis256::Aegis256::<32>::new(key, nonce).decrypt_in_place(data, tag, adata).is_ok()
}

/// Calls `rand::rng().fill_bytes`: nothing is known of the bytes drawn.
#[verifier::external_body]
fn random32() -> (bytes: [u8; 32]) {
    let mut bytes = [0u8; 32];
    rand::rng().fill_bytes(&mut bytes);
    bytes
}

/// Are these bytes that the random number generator gave? Any bytes can be, but
/// only a draw shows that some are.
pub closed spec fn drawn(bytes: [u8; 32]) -> bool {
    call_ensures(random32, (), bytes)
}

/// Draw 32 bytes at random.
pub fn draw32() -> (bytes: [u8; 32])
    ensures
        drawn(bytes),
{
    random32()
}

/// Calls `zeroize::Zeroize::zeroize` on an array of bytes: every byte of it is
/// zero afterwards.
#[verifier::external_body]
pub(crate) fn wipe<const N: usize>(bytes: &mut [u8; N])
    ensures
        forall|i: int| 0 <= i < N ==> final(bytes)@[i] == 0,
{
    bytes.zeroize();
}

} // verus!
