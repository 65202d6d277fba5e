//! The split of the master key.

use vstd::prelude::*;
use vstd::utf8::*;

use crate::crypto;

verus! {

/// Domain separation label of the database key.
pub const INFO_SQLITE: &'static str = "v-m.io sqlite key v1";

/// Domain separation label of the blob key.
pub const INFO_BLOB: &'static str = "v-m.io blob root key v1";

/// Independent sub keys derived from the caller's master key.
///
/// The master key is never handed to a cryptosystem directly. Each consumer
/// gets its own sub key, so the database's key derivation and the blob key
/// schedule share no key material and cannot interact.
pub struct RootKeys {
    /// database key
    pub sqlite: [u8; 32],
    /// input key of the per chunk blob key schedule
    pub blob: [u8; 32],
}

impl RootKeys {
    /// Split a master key into its per consumer sub keys.
    ///
    /// No salt is used: the master is already a uniform key, and the labels are
    /// what separate the outputs.
    pub fn derive(master: &[u8; 32]) -> (keys: Self)
        ensures
            keys.sqlite@ == crypto::hkdf_of(None, master@, encode_utf8(INFO_SQLITE@)),
            keys.blob@ == crypto::hkdf_of(None, master@, encode_utf8(INFO_BLOB@)),
    {
        RootKeys {
            sqlite: crypto::hkdf32(None, master.as_slice(), INFO_SQLITE.as_bytes()),
            blob: crypto::hkdf32(None, master.as_slice(), INFO_BLOB.as_bytes()),
        }
    }

    /// Leave nothing of the keys in memory.
    pub fn wipe(&mut self)
        ensures
            forall|i: int| 0 <= i < 32 ==> final(self).sqlite@[i] == 0,
            forall|i: int| 0 <= i < 32 ==> final(self).blob@[i] == 0,
    {
        crypto::wipe(&mut self.sqlite);
        crypto::wipe(&mut self.blob);
    }
}

/// No two consumers are given the same label.
pub proof fn lemma_labels_distinct()
    ensures
        encode_utf8(INFO_SQLITE@) != encode_utf8(INFO_BLOB@),
{
    reveal_strlit("v-m.io sqlite key v1");
    reveal_strlit("v-m.io blob root key v1");
    crate::text::lemma_utf8_injective(INFO_SQLITE@, INFO_BLOB@);
    assert(INFO_SQLITE@.len() != INFO_BLOB@.len());
}

} // verus!
