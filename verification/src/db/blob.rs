//! Blob files: their identifiers, their place below the root directory, and
//! the encryption of the entry file chunks they hold.

use vstd::bytes::*;
use vstd::prelude::*;
use vstd::slice::*;
use vstd::string::*;
use vstd::utf8::*;

use crate::crypto;
use crate::hexa;
use crate::text;

verus! {

/// Count of shard directory levels between the root and a blob file.
pub const SHARD_DEPTH: usize = 3;

/// Length of a single shard directory name.
pub const SHARD_LEN: usize = 4;

/// Count of times a blob file is written before giving up on its shard
/// directory staying in place.
pub const WRITE_ATTEMPTS: u32 = 2;

/// Failures of the blob layer.
pub enum BlobError {
    /// The tag does not match the data, key, nonce or identity of the chunk.
    InvalidTag,
    /// The shard directory was removed each time the blob was to be written.
    ShardRemoved,
    /// The file system refused, for the given reason.
    Io(String),
}

impl BlobError {
    /// What `message` gives for the error.
    pub open spec fn text(&self) -> Seq<char> {
        match self {
            BlobError::InvalidTag => "Invalid tag"@,
            BlobError::ShardRemoved => "blob shard removed during write"@,
            BlobError::Io(reason) => reason@,
        }
    }

    /// The error in words.
    pub fn message(&self) -> (out: String)
        ensures
            out@ == self.text(),
    {
        match self {
            BlobError::InvalidTag => "Invalid tag".to_owned(),
            BlobError::ShardRemoved => "blob shard removed during write".to_owned(),
            BlobError::Io(reason) => reason.clone(),
        }
    }
}

/// The eight bytes of a chunk index, least significant first.
pub open spec fn idx_bytes(idx: i64) -> Seq<u8> {
    spec_u64_to_le_bytes(idx as u64)
}

/// What the identifier of a blob file is the digest of.
pub open spec fn id_message(class: Seq<char>, key: Seq<char>, idx: i64, hash: Seq<u8>) -> Seq<u8> {
    encode_utf8(class) + encode_utf8(key) + idx_bytes(idx) + hash
}

/// Identifier of the blob file backing a single entry file chunk.
pub fn gen_id(class: &str, key: &str, idx: i64, hash: &[u8; 32]) -> (id: [u8; 32])
    ensures
        id@ == crypto::sha256_of(id_message(class@, key@, idx, hash@)),
{
    let mut message: Vec<u8> = Vec::new();
    message.extend_from_slice(class.as_bytes());
    message.extend_from_slice(key.as_bytes());
    let le = u64_to_le_bytes(idx as u64);
    message.extend_from_slice(le.as_slice());
    message.extend_from_slice(hash.as_slice());
    assert(message@ =~= id_message(class@, key@, idx, hash@));
    crypto::sha256(message.as_slice())
}

/// Components of a blob file's path below the root directory: the shard
/// directories from the leading digits of the identifier, then a file name made
/// of all of its digits.
pub open spec fn blob_path(id: Seq<u8>) -> Seq<Seq<char>> {
    let hex = hexa::hex_lower(id);
    seq![hex.subrange(0, 4), hex.subrange(4, 8), hex.subrange(8, 12), hex]
}

/// The texts of a list of path components.
pub open spec fn path_text(path: Seq<String>) -> Seq<Seq<char>> {
    path.map_values(|s: String| s@)
}

/// Path of the blob file with the given id, component by component below the
/// root directory.
pub fn id_path(id: &[u8; 32]) -> (path: Vec<String>)
    ensures
        path_text(path@) == blob_path(id@),
{
    let hex = hexa::hex_encode(id.as_slice());
    let mut path: Vec<String> = Vec::new();
    path.push(hex.as_str().substring_char(0, SHARD_LEN).to_owned());
    path.push(hex.as_str().substring_char(SHARD_LEN, SHARD_LEN * 2).to_owned());
    path.push(hex.as_str().substring_char(SHARD_LEN * 2, SHARD_LEN * 3).to_owned());
    path.push(hex);
    assert(path_text(path@) =~= blob_path(id@));
    path
}

/// Path of the blob file of the chunk with the given class, key, index and
/// content hash.
pub fn gen_path(class: &str, key: &str, idx: i64, hash: &[u8; 32]) -> (path: Vec<String>)
    ensures
        path_text(path@) == blob_path(crypto::sha256_of(id_message(class@, key@, idx, hash@))),
{
    id_path(&gen_id(class, key, idx, hash))
}

/// Names of shard directories: four hexadecimal digits.
pub open spec fn shard_name(name: Seq<char>) -> bool {
    name.len() == 4 && hexa::all_hex(name)
}

/// Is this the name of a shard directory in the blob layout?
pub fn is_shard_name(name: &str) -> (res: bool)
    ensures
        res == shard_name(name@),
{
    let chars = text::chars_of(name);
    if chars.len() != SHARD_LEN {
        return false;
    }
    for i in 0..chars.len()
        invariant
            chars@ == name@,
            forall|j: int| 0 <= j < i ==> hexa::hex_value(#[trigger] chars@[j]) is Some,
    {
        if !hexa::is_hex(chars[i]) {
            return false;
        }
    }
    true
}

/// Parse a blob file name back into the blob id it encodes.
pub fn parse_name(name: &str) -> (id: Option<[u8; 32]>)
    ensures
        match hexa::hex_decoded32(name@) {
            Some(b) => id is Some && id->0@ == b,
            None => id is None,
        },
{
    hexa::hex_decode32(name)
}

/// Is `path`, below the root directory, where the blob with this id belongs?
pub fn is_own_path(id: &[u8; 32], path: &[String]) -> (res: bool)
    ensures
        res == (path_text(path@) == blob_path(id@)),
{
    let own = id_path(id);
    assert(path_text(own@).len() == own@.len());
    assert(path_text(path@).len() == path@.len());
    if path.len() != own.len() {
        return false;
    }
    for i in 0..own.len()
        invariant
            path_text(own@) == blob_path(id@),
            own@.len() == path@.len(),
            forall|j: int| 0 <= j < i ==> own@[j]@ == path@[j]@,
    {
        if !text::same_text(own[i].as_str(), path[i].as_str()) {
            assert(path_text(own@)[i as int] != path_text(path@)[i as int]);
            return false;
        }
    }
    assert(path_text(path@) =~= path_text(own@));
    true
}

/// Four digits out of many are the name of a shard directory.
proof fn lemma_shard_digits(hex: Seq<char>, from: int)
    requires
        hexa::all_hex(hex),
        0 <= from <= hex.len() - 4,
    ensures
        shard_name(hex.subrange(from, from + 4)),
{
    let name = hex.subrange(from, from + 4);
    assert forall|j: int| 0 <= j < 4 implies hexa::hex_value(#[trigger] name[j]) is Some by {
        assert(name[j] == hex[from + j]);
    }
}

/// The file name of a blob parses back into the id it was made from.
pub proof fn lemma_name_round_trip(id: Seq<u8>)
    requires
        id.len() == 32,
    ensures
        hexa::hex_decoded32(blob_path(id).last()) == Some(id),
        forall|i: int| 0 <= i < SHARD_DEPTH ==> shard_name(#[trigger] blob_path(id)[i]),
{
    hexa::lemma_hex_round_trip(id);
    let hex = hexa::hex_lower(id);
    let path = blob_path(id);
    assert(path.len() == 4 && path[3] == hex);
    lemma_shard_digits(hex, 0);
    lemma_shard_digits(hex, 4);
    lemma_shard_digits(hex, 8);
    assert(path[0] == hex.subrange(0, 4));
    assert(path[1] == hex.subrange(4, 8));
    assert(path[2] == hex.subrange(8, 12));
}

/// Blobs with different ids never share a path.
pub proof fn lemma_paths_distinct(a: Seq<u8>, b: Seq<u8>)
    requires
        a.len() == 32,
        b.len() == 32,
        blob_path(a) == blob_path(b),
    ensures
        a == b,
{
    assert(blob_path(a)[3] == hexa::hex_lower(a));
    assert(blob_path(b)[3] == hexa::hex_lower(b));
    hexa::lemma_hex_round_trip(a);
    hexa::lemma_hex_round_trip(b);
}

/// What came of one attempt at writing a blob file.
pub enum WriteOutcome {
    /// The file was written.
    Written,
    /// The shard directory was gone when the file was to be written.
    ShardMissing,
    /// The file system refused, for the given reason.
    Failed(String),
}

/// How writing a blob file goes on.
pub enum WriteStep {
    /// Create the shard directories again and write once more.
    Retry,
    /// The blob is written.
    Done,
    /// The write has failed.
    Fail(BlobError),
}

/// Decide how writing a blob goes on after `attempts` attempts, the last of
/// which had the given outcome.
///
/// The cleanup task removes empty shard directories, and can do so between
/// their creation and the write into them, so that one case is tried again.
pub fn after_write(attempts: u32, outcome: WriteOutcome) -> (step: WriteStep)
    ensures
        match outcome {
            WriteOutcome::Written => step is Done,
            WriteOutcome::Failed(reason) => step == WriteStep::Fail(BlobError::Io(reason)),
            WriteOutcome::ShardMissing => if attempts < WRITE_ATTEMPTS {
                step is Retry
            } else {
                step == WriteStep::Fail(BlobError::ShardRemoved)
            },
        },
{
    match outcome {
        WriteOutcome::Written => WriteStep::Done,
        WriteOutcome::Failed(reason) => WriteStep::Fail(BlobError::Io(reason)),
        WriteOutcome::ShardMissing => if attempts < WRITE_ATTEMPTS {
            WriteStep::Retry
        } else {
            WriteStep::Fail(BlobError::ShardRemoved)
        },
    }
}

/// A truth value in words.
pub open spec fn bool_text(b: bool) -> Seq<char> {
    if b {
        "true"@
    } else {
        "false"@
    }
}

/// Four fields, each closed by a zero byte, and what follows them.
pub open spec fn four_fields(a: Seq<u8>, b: Seq<u8>, c: Seq<u8>, d: Seq<u8>, rest: Seq<u8>) -> Seq<
    u8,
> {
    a + seq![0u8] + b + seq![0u8] + c + seq![0u8] + d + seq![0u8] + rest
}

/// Associated data of a chunk: class, key, index and finality in words, each
/// closed by a zero byte, then the content hash.
pub open spec fn adata_of(
    class: Seq<char>,
    key: Seq<char>,
    idx: i64,
    hash: Seq<u8>,
    is_final: bool,
) -> Seq<u8> {
    four_fields(
        encode_utf8(class),
        encode_utf8(key),
        encode_utf8(text::dec_int(idx as int)),
        encode_utf8(bool_text(is_final)),
        hash,
    )
}

/// Build the associated data of a chunk.
pub fn make_adata(class: &str, key: &str, idx: i64, hash: &[u8; 32], is_final: bool) -> (adata: Vec<
    u8,
>)
    ensures
        adata@ == adata_of(class@, key@, idx, hash@, is_final),
{
    let mut adata: Vec<u8> = Vec::new();
    adata.extend_from_slice(class.as_bytes());
    adata.push(0);
    adata.extend_from_slice(key.as_bytes());
    adata.push(0);
    let mut idx_text = String::new();
    text::push_dec_signed(&mut idx_text, idx);
    adata.extend_from_slice(idx_text.as_str().as_bytes());
    adata.push(0);
    let final_text: &str = if is_final { "true" } else { "false" };
    adata.extend_from_slice(final_text.as_bytes());
    adata.push(0);
    adata.extend_from_slice(hash.as_slice());
    assert(adata@ =~= adata_of(class@, key@, idx, hash@, is_final));
    adata
}

/// Fields that a zero byte closes can be told apart.
proof fn lemma_four_fields(
    a: Seq<u8>,
    b: Seq<u8>,
    c: Seq<u8>,
    d: Seq<u8>,
    rest: Seq<u8>,
    a2: Seq<u8>,
    b2: Seq<u8>,
    c2: Seq<u8>,
    d2: Seq<u8>,
    rest2: Seq<u8>,
)
    requires
        !a.contains(0u8) && !b.contains(0u8) && !c.contains(0u8) && !d.contains(0u8),
        !a2.contains(0u8) && !b2.contains(0u8) && !c2.contains(0u8) && !d2.contains(0u8),
        four_fields(a, b, c, d, rest) == four_fields(a2, b2, c2, d2, rest2),
    ensures
        a == a2 && b == b2 && c == c2 && d == d2 && rest == rest2,
{
    let z = seq![0u8];
    let (h1, h2) = (d + z + rest, d2 + z + rest2);
    let (g1, g2) = (c + z + h1, c2 + z + h2);
    let (e1, e2) = (b + z + g1, b2 + z + g2);
    assert(four_fields(a, b, c, d, rest) =~= a + z + e1);
    assert(four_fields(a2, b2, c2, d2, rest2) =~= a2 + z + e2);
    text::lemma_zero_closes(a, e1, a2, e2);
    text::lemma_zero_closes(b, g1, b2, g2);
    text::lemma_zero_closes(c, h1, c2, h2);
    text::lemma_zero_closes(d, rest, d2, rest2);
}

/// A truth value in words holds no zero character, and the two differ.
proof fn lemma_bool_text(b: bool, b2: bool)
    ensures
        !bool_text(b).contains('\0'),
        bool_text(b) == bool_text(b2) ==> b == b2,
{
    reveal_strlit("true");
    reveal_strlit("false");
    assert("true"@.len() != "false"@.len());
}

/// The associated data binds a chunk to its place: two chunks that differ in
/// class, key, index, content hash or finality differ in it, as long as neither
/// class nor key holds a zero character.
pub proof fn lemma_adata_binds(
    class: Seq<char>,
    key: Seq<char>,
    idx: i64,
    hash: Seq<u8>,
    is_final: bool,
    class2: Seq<char>,
    key2: Seq<char>,
    idx2: i64,
    hash2: Seq<u8>,
    is_final2: bool,
)
    requires
        !class.contains('\0'),
        !key.contains('\0'),
        !class2.contains('\0'),
        !key2.contains('\0'),
        adata_of(class, key, idx, hash, is_final) == adata_of(class2, key2, idx2, hash2, is_final2),
    ensures
        class == class2,
        key == key2,
        idx == idx2,
        hash == hash2,
        is_final == is_final2,
{
    let (i1, i2) = (text::dec_int(idx as int), text::dec_int(idx2 as int));
    let (f1, f2) = (bool_text(is_final), bool_text(is_final2));
    lemma_bool_text(is_final, is_final2);
    lemma_bool_text(is_final2, is_final);
    text::lemma_dec_int_no_nul(idx as int);
    text::lemma_dec_int_no_nul(idx2 as int);
    text::lemma_utf8_no_zero(class);
    text::lemma_utf8_no_zero(class2);
    text::lemma_utf8_no_zero(key);
    text::lemma_utf8_no_zero(key2);
    text::lemma_utf8_no_zero(i1);
    text::lemma_utf8_no_zero(i2);
    text::lemma_utf8_no_zero(f1);
    text::lemma_utf8_no_zero(f2);
    lemma_four_fields(
        encode_utf8(class),
        encode_utf8(key),
        encode_utf8(i1),
        encode_utf8(f1),
        hash,
        encode_utf8(class2),
        encode_utf8(key2),
        encode_utf8(i2),
        encode_utf8(f2),
        hash2,
    );
    text::lemma_utf8_injective(class, class2);
    text::lemma_utf8_injective(key, key2);
    text::lemma_utf8_injective(i1, i2);
    text::lemma_utf8_injective(f1, f2);
    text::lemma_dec_int_injective(idx as int, idx2 as int);
}

/// Key that a chunk is encrypted under.
pub open spec fn sub_key_of(idx: i64, hash: Seq<u8>, encryption_key: Seq<u8>) -> Seq<u8> {
    crypto::hkdf_of(Some(idx_bytes(idx)), encryption_key, hash)
}

/// Derive the key that a chunk is encrypted under.
pub fn derive_sub_key(idx: i64, hash: &[u8; 32], encryption_key: &[u8; 32]) -> (sub_key: [u8; 32])
    ensures
        sub_key@ == sub_key_of(idx, hash@, encryption_key@),
{
    let salt = u64_to_le_bytes(idx as u64);
    crypto::hkdf32(Some(salt.as_slice()), encryption_key.as_slice(), hash.as_slice())
}

/// What encrypting a chunk leaves beside the ciphertext.
pub struct EncryptResult {
    /// nonce the chunk was encrypted with
    pub nonce: [u8; 32],
    /// tag that authenticates the chunk
    pub tag: [u8; 32],
}

/// Ciphertext and tag of a chunk for a given nonce.
pub open spec fn chunk_sealed(
    class: Seq<char>,
    key: Seq<char>,
    idx: i64,
    data: Seq<u8>,
    hash: Seq<u8>,
    encryption_key: Seq<u8>,
    is_final: bool,
    nonce: Seq<u8>,
) -> (Seq<u8>, Seq<u8>) {
    crypto::aegis_sealed(
        sub_key_of(idx, hash, encryption_key),
        nonce,
        adata_of(class, key, idx, hash, is_final),
        data,
    )
}

/// Contents of a chunk: those that the data and the tag are what sealing gives
/// for, or `None` where there are none.
pub open spec fn chunk_opened(
    class: Seq<char>,
    key: Seq<char>,
    idx: i64,
    data: Seq<u8>,
    hash: Seq<u8>,
    encryption_key: Seq<u8>,
    is_final: bool,
    nonce: Seq<u8>,
    tag: Seq<u8>,
) -> Option<Seq<u8>> {
    crypto::aegis_opened(
        sub_key_of(idx, hash, encryption_key),
        nonce,
        adata_of(class, key, idx, hash, is_final),
        data,
        tag,
    )
}

/// Encrypt a chunk in place with a given nonce.
///
/// Opening what is left behind, with the same identity and key, gives the
/// contents back.
pub fn encrypt_chunk_with(
    class: &str,
    key: &str,
    idx: i64,
    data: &mut [u8],
    hash: &[u8; 32],
    encryption_key: &[u8; 32],
    is_final: bool,
    nonce: &[u8; 32],
) -> (tag: [u8; 32])
    ensures
        (final(data)@, tag@) == chunk_sealed(
            class@,
            key@,
            idx,
            old(data)@,
            hash@,
            encryption_key@,
            is_final,
            nonce@,
        ),
        final(data)@.len() == old(data)@.len(),
        chunk_opened(
            class@,
            key@,
            idx,
            final(data)@,
            hash@,
            encryption_key@,
            is_final,
            nonce@,
            tag@,
        ) == Some(old(data)@),
{
    let sub_key = derive_sub_key(idx, hash, encryption_key);
    let adata = make_adata(class, key, idx, hash, is_final);
    let ghost contents = data@;
    let tag = crypto::aegis_seal(&sub_key, nonce, adata.as_slice(), data);
    proof {
        crypto::lemma_opens_to(sub_key@, nonce@, adata@, contents, data@, tag@);
    }
    tag
}

/// Encrypt a chunk in place with a nonce drawn at random.
pub fn encrypt_chunk(
    class: &str,
    key: &str,
    idx: i64,
    data: &mut [u8],
    hash: &[u8; 32],
    encryption_key: &[u8; 32],
    is_final: bool,
) -> (res: Result<EncryptResult, BlobError>)
    ensures
        res is Ok,
        crypto::drawn(res->Ok_0.nonce),
        (final(data)@, res->Ok_0.tag@) == chunk_sealed(
            class@,
            key@,
            idx,
            old(data)@,
            hash@,
            encryption_key@,
            is_final,
            res->Ok_0.nonce@,
        ),
        final(data)@.len() == old(data)@.len(),
        chunk_opened(
            class@,
            key@,
            idx,
            final(data)@,
            hash@,
            encryption_key@,
            is_final,
            res->Ok_0.nonce@,
            res->Ok_0.tag@,
        ) == Some(old(data)@),
{
    let nonce = crypto::draw32();
    let tag = encrypt_chunk_with(class, key, idx, data, hash, encryption_key, is_final, &nonce);
    Ok(EncryptResult { nonce, tag })
}

/// What opens was sealed: data and tag that a chunk opens from are those that
/// sealing its contents gives, under the same identity, key and nonce.
pub proof fn lemma_opened_was_sealed(
    class: Seq<char>,
    key: Seq<char>,
    idx: i64,
    data: Seq<u8>,
    hash: Seq<u8>,
    encryption_key: Seq<u8>,
    is_final: bool,
    nonce: Seq<u8>,
    tag: Seq<u8>,
)
    ensures
        match chunk_opened(class, key, idx, data, hash, encryption_key, is_final, nonce, tag) {
            Some(contents) => chunk_sealed(
                class,
                key,
                idx,
                contents,
                hash,
                encryption_key,
                is_final,
                nonce,
            ) == (data, tag),
            None => forall|contents: Seq<u8>| #[trigger]
                chunk_sealed(
                    class,
                    key,
                    idx,
                    contents,
                    hash,
                    encryption_key,
                    is_final,
                    nonce,
                ) != (data, tag),
        },
{
}

/// Decrypt a chunk in place, checking its tag.
///
/// What sealing never gave is refused: where this succeeds, the data and the tag
/// are those of the contents that come out, under the identity, key and nonce
/// presented. A tag other than the one that came with the data is refused in any
/// case. That nobody can make up data and tag that sealing gives without the key
/// is the strength of the cipher, and is not stated here.
pub fn decrypt_chunk(
    class: &str,
    key: &str,
    idx: i64,
    data: &mut [u8],
    hash: &[u8; 32],
    encryption_key: &[u8; 32],
    is_final: bool,
    nonce: &[u8; 32],
    tag: &[u8; 32],
) -> (res: Result<(), BlobError>)
    ensures
        final(data)@.len() == old(data)@.len(),
        match chunk_opened(
            class@,
            key@,
            idx,
            old(data)@,
            hash@,
            encryption_key@,
            is_final,
            nonce@,
            tag@,
        ) {
            Some(contents) => res is Ok && final(data)@ == contents,
            None => res == Err::<(), BlobError>(BlobError::InvalidTag),
        },
        res is Ok ==> chunk_sealed(
            class@,
            key@,
            idx,
            final(data)@,
            hash@,
            encryption_key@,
            is_final,
            nonce@,
        ) == (old(data)@, tag@),
        forall|contents: Seq<u8>|
            #![trigger chunk_sealed(class@, key@, idx, contents, hash@, encryption_key@, is_final, nonce@)]
            {
                let sealed = chunk_sealed(
                    class@,
                    key@,
                    idx,
                    contents,
                    hash@,
                    encryption_key@,
                    is_final,
                    nonce@,
                );
                sealed.0 == old(data)@ && sealed.1 != tag@ ==> res is Err
            },
{
    let sub_key = derive_sub_key(idx, hash, encryption_key);
    let adata = make_adata(class, key, idx, hash, is_final);
    let ghost before = data@;
    let opened = crypto::aegis_open(&sub_key, nonce, adata.as_slice(), data, tag);
    proof {
        lemma_opened_was_sealed(
            class@,
            key@,
            idx,
            before,
            hash@,
            encryption_key@,
            is_final,
            nonce@,
            tag@,
        );
        if opened {
            crypto::lemma_opens_to(sub_key@, nonce@, adata@, data@, before, tag@);
        }
    }
    if opened {
        Ok(())
    } else {
        Err(BlobError::InvalidTag)
    }
}

/// Where a blob file lies: its name is the hexadecimal notation of its identifier,
/// below three directories that are named by the first twelve digits, four to each.
pub proof fn lemma_path_of_id(id: &[u8; 32], path: Vec<String>, i: int)
    requires
        call_ensures(id_path, (id,), path),
        0 <= i < 32,
    ensures
        path@.len() == 4,
        path@[0]@.len() == 4 && path@[1]@.len() == 4 && path@[2]@.len() == 4,
        path@[3]@.len() == 64,
        path@[0]@ + path@[1]@ + path@[2]@ == path@[3]@.take(12),
        path@[3]@[2 * i] as int == (if id@[i] / 16 < 10 {
            48 + id@[i] / 16
        } else {
            87 + id@[i] / 16
        }),
        path@[3]@[2 * i + 1] as int == (if id@[i] % 16 < 10 {
            48 + id@[i] % 16
        } else {
            87 + id@[i] % 16
        }),
{
    let texts = path_text(path@);
    assert(texts.len() == path@.len());
    assert(texts[0] == path@[0]@ && texts[1] == path@[1]@ && texts[2] == path@[2]@ && texts[3]
        == path@[3]@);
    hexa::lemma_hex_digits(id@, i);
    assert(path@[0]@ + path@[1]@ + path@[2]@ =~= path@[3]@.take(12));
}

/// The name of a blob file tells its identifier, and two blobs share a path only
/// where they are the same.
pub proof fn lemma_path_tells_id(
    id: &[u8; 32],
    path: Vec<String>,
    name: &str,
    parsed: Option<[u8; 32]>,
    other: &[u8; 32],
    own: bool,
    slice: &[String],
)
    requires
        call_ensures(id_path, (id,), path),
        path@.len() > 0 ==> name@ == path@.last()@,
        call_ensures(parse_name, (name,), parsed),
        slice@ == path@,
        call_ensures(is_own_path, (other, slice), own),
    ensures
        parsed is Some && parsed->0@ == id@,
        own <==> other@ == id@,
{
    let texts = path_text(path@);
    assert(texts.len() == path@.len());
    assert(texts[3] == path@[3]@);
    lemma_name_round_trip(id@);
    if own {
        lemma_paths_distinct(other@, id@);
    }
}

/// A name is that of a blob exactly where it is made of 64 hexadecimal digits, and
/// each byte of the identifier is then made of two of them.
pub proof fn lemma_name_parsed(name: &str, parsed: Option<[u8; 32]>, i: int)
    requires
        call_ensures(parse_name, (name,), parsed),
        0 <= i < 32,
    ensures
        parsed is Some ==> name@.len() == 64,
        parsed is Some ==> {
            &&& hexa::hex_value(name@[2 * i]) is Some && hexa::hex_value(name@[2 * i + 1]) is Some
            &&& parsed->0@[i] == 16 * hexa::hex_value(name@[2 * i])->0 + hexa::hex_value(
                name@[2 * i + 1],
            )->0
        },
        parsed is None ==> name@.len() != 64 || exists|j: int|
            0 <= j < name@.len() && hexa::hex_value(#[trigger] name@[j]) is None,
{
    if parsed is Some {
        assert(hexa::hex_value(name@[2 * i]) is Some && hexa::hex_value(name@[2 * i + 1]) is Some);
    }
}

/// A shard directory has a name of four hexadecimal digits.
pub proof fn lemma_shard_named(name: &str, res: bool)
    requires
        call_ensures(is_shard_name, (name,), res),
    ensures
        res <==> name@.len() == 4 && forall|i: int|
            0 <= i < 4 ==> ('0' <= #[trigger] name@[i] <= '9' || 'a' <= name@[i] <= 'f' || 'A'
                <= name@[i] <= 'F'),
{
    if name@.len() == 4 {
        if forall|i: int|
            0 <= i < 4 ==> ('0' <= #[trigger] name@[i] <= '9' || 'a' <= name@[i] <= 'f' || 'A'
                <= name@[i] <= 'F') {
            assert forall|i: int| 0 <= i < name@.len() implies hexa::hex_value(
                #[trigger] name@[i],
            ) is Some by {}
        }
        if res {
            assert forall|i: int| 0 <= i < 4 implies ('0' <= #[trigger] name@[i] <= '9' || 'a'
                <= name@[i] <= 'f' || 'A' <= name@[i] <= 'F') by {
                assert(hexa::hex_value(name@[i]) is Some);
            }
        }
    }
}

/// A blob is written twice at most: only a missing shard directory has it written
/// again, and only after the first time. Any other failure ends the writing with its
/// reason.
pub proof fn lemma_blob_written(attempts: u32, outcome: WriteOutcome, step: WriteStep)
    requires
        call_ensures(after_write, (attempts, outcome), step),
    ensures
        step is Done <==> outcome is Written,
        step is Retry <==> outcome is ShardMissing && attempts < 2,
        outcome is Failed ==> step is Fail && step->Fail_0 is Io && step->Fail_0->Io_0@
            == outcome->Failed_0@,
        outcome is ShardMissing && attempts >= 2 ==> step is Fail && step->Fail_0 is ShardRemoved,
{
}

/// The associated data binds a chunk within its entry too, whatever characters the
/// class and the key hold.
pub proof fn lemma_adata_binds_within(
    class: Seq<char>,
    key: Seq<char>,
    idx: i64,
    hash: Seq<u8>,
    is_final: bool,
    idx2: i64,
    hash2: Seq<u8>,
    is_final2: bool,
)
    requires
        adata_of(class, key, idx, hash, is_final) == adata_of(class, key, idx2, hash2, is_final2),
    ensures
        idx == idx2,
        hash == hash2,
        is_final == is_final2,
{
    let (i1, i2) = (text::dec_int(idx as int), text::dec_int(idx2 as int));
    let (f1, f2) = (bool_text(is_final), bool_text(is_final2));
    lemma_bool_text(is_final, is_final2);
    lemma_bool_text(is_final2, is_final);
    text::lemma_dec_int_no_nul(idx as int);
    text::lemma_dec_int_no_nul(idx2 as int);
    text::lemma_utf8_no_zero(i1);
    text::lemma_utf8_no_zero(i2);
    text::lemma_utf8_no_zero(f1);
    text::lemma_utf8_no_zero(f2);
    let z = seq![0u8];
    let head = encode_utf8(class) + z + encode_utf8(key) + z;
    let (c1, c2) = (encode_utf8(i1), encode_utf8(i2));
    let (d1, d2) = (encode_utf8(f1), encode_utf8(f2));
    let (x, y) = (d1 + z + hash, d2 + z + hash2);
    let (a, b) = (
        adata_of(class, key, idx, hash, is_final),
        adata_of(class, key, idx2, hash2, is_final2),
    );
    assert(a =~= head + (c1 + z + x));
    assert(b =~= head + (c2 + z + y));
    assert(a.skip(head.len() as int) =~= c1 + z + x);
    assert(b.skip(head.len() as int) =~= c2 + z + y);
    text::lemma_zero_closes(c1, x, c2, y);
    text::lemma_zero_closes(d1, hash, d2, hash2);
    text::lemma_utf8_injective(i1, i2);
    text::lemma_utf8_injective(f1, f2);
    text::lemma_dec_int_injective(idx as int, idx2 as int);
}

/// The associated data of two chunks is the same exactly where they agree in class,
/// key, index, content hash and finality. A zero character in a class or a key could
/// be taken for the end of it, so chunks of different entries are told apart where
/// there is none.
pub proof fn lemma_adata_tells(
    class: &str,
    key: &str,
    idx: i64,
    hash: &[u8; 32],
    is_final: bool,
    adata: Vec<u8>,
    class2: &str,
    key2: &str,
    idx2: i64,
    hash2: &[u8; 32],
    is_final2: bool,
    adata2: Vec<u8>,
)
    requires
        call_ensures(make_adata, (class, key, idx, hash, is_final), adata),
        call_ensures(make_adata, (class2, key2, idx2, hash2, is_final2), adata2),
        (class@ == class2@ && key@ == key2@) || (!class@.contains('\0') && !key@.contains('\0')
            && !class2@.contains('\0') && !key2@.contains('\0')),
    ensures
        adata@ == adata2@ <==> {
            &&& class@ == class2@
            &&& key@ == key2@
            &&& idx == idx2
            &&& hash@ == hash2@
            &&& is_final == is_final2
        },
{
    if adata@ == adata2@ {
        if class@ == class2@ && key@ == key2@ {
            lemma_adata_binds_within(
                class@,
                key@,
                idx,
                hash@,
                is_final,
                idx2,
                hash2@,
                is_final2,
            );
        } else {
            lemma_adata_binds(
                class@,
                key@,
                idx,
                hash@,
                is_final,
                class2@,
                key2@,
                idx2,
                hash2@,
                is_final2,
            );
        }
    }
}

/// The key that a chunk is encrypted under is derived from the encryption key, with
/// a salt and a label that differ wherever two chunks differ in index or contents.
pub proof fn lemma_sub_keys_apart(
    idx: i64,
    hash: &[u8; 32],
    key: &[u8; 32],
    sub_key: [u8; 32],
    idx2: i64,
    hash2: &[u8; 32],
    key2: &[u8; 32],
    sub_key2: [u8; 32],
) -> (inputs: ((Seq<u8>, Seq<u8>), (Seq<u8>, Seq<u8>)))
    requires
        call_ensures(derive_sub_key, (idx, hash, key), sub_key),
        call_ensures(derive_sub_key, (idx2, hash2, key2), sub_key2),
    ensures
        sub_key@ == crypto::hkdf_of(Some(inputs.0.0), key@, inputs.0.1),
        sub_key2@ == crypto::hkdf_of(Some(inputs.1.0), key2@, inputs.1.1),
        inputs.0.0 == inputs.1.0 <==> idx == idx2,
        inputs.0.1 == inputs.1.1 <==> hash@ == hash2@,
{
    lemma_auto_spec_u64_to_from_le_bytes();
    let (a, b) = (idx_bytes(idx), idx_bytes(idx2));
    if a == b {
        assert(idx as u64 == idx2 as u64);
        assert(idx as u64 == idx2 as u64 ==> idx == idx2) by (bit_vector);
    }
    ((a, hash@), (b, hash2@))
}

/// The words of each failure.
pub proof fn lemma_failure_words(err: &BlobError, words: String)
    requires
        call_ensures(BlobError::message, (err,), words),
    ensures
        match *err {
            BlobError::InvalidTag => words@ == "Invalid tag"@,
            BlobError::ShardRemoved => words@ == "blob shard removed during write"@,
            BlobError::Io(reason) => words@ == reason@,
        },
{
}

/// The digest that names a blob is one of the class, the key, the index in eight
/// bytes and the content hash, so within an entry another index or other contents
/// are another message. Its path is the one of that identifier.
pub proof fn lemma_digest_names(
    class: &str,
    key: &str,
    idx: i64,
    hash: &[u8; 32],
    id: [u8; 32],
    idx2: i64,
    hash2: &[u8; 32],
    id2: [u8; 32],
    path: Vec<String>,
    own: bool,
    slice: &[String],
) -> (messages: (Seq<u8>, Seq<u8>))
    requires
        call_ensures(gen_id, (class, key, idx, hash), id),
        call_ensures(gen_id, (class, key, idx2, hash2), id2),
        call_ensures(gen_path, (class, key, idx, hash), path),
        slice@ == path@,
        call_ensures(is_own_path, (&id, slice), own),
    ensures
        own,
        id@ == crypto::sha256_of(messages.0),
        id2@ == crypto::sha256_of(messages.1),
        messages.0 == messages.1 <==> idx == idx2 && hash@ == hash2@,
        messages.0.take(encode_utf8(class@).len() as int) == encode_utf8(class@),
        messages.0.skip(encode_utf8(class@).len() as int).take(encode_utf8(key@).len() as int)
            == encode_utf8(key@),
        messages.0.skip(messages.0.len() - 32) == hash@,
{
    lemma_auto_spec_u64_to_from_le_bytes();
    let (m, n) = (
        id_message(class@, key@, idx, hash@),
        id_message(class@, key@, idx2, hash2@),
    );
    let (c, k) = (encode_utf8(class@), encode_utf8(key@));
    let at = (c.len() + k.len()) as int;
    let (a, b) = (idx_bytes(idx), idx_bytes(idx2));
    assert(m.subrange(at, at + 8) =~= a && n.subrange(at, at + 8) =~= b);
    assert(m.skip(at + 8) =~= hash@ && n.skip(at + 8) =~= hash2@);
    if m == n {
        assert(idx as u64 == idx2 as u64);
        assert(idx as u64 == idx2 as u64 ==> idx == idx2) by (bit_vector);
    }
    assert(m.take(c.len() as int) =~= c);
    assert(m.skip(c.len() as int).take(k.len() as int) =~= k);
    (m, n)
}

/// A chunk is sealed by AEGIS-256 under the key derived for it, with the nonce given
/// or drawn and its identity as associated data.
pub proof fn lemma_chunk_encrypted(
    class: &str,
    key: &str,
    idx: i64,
    data: &mut [u8],
    hash: &[u8; 32],
    encryption_key: &[u8; 32],
    is_final: bool,
    nonce: &[u8; 32],
    tag: [u8; 32],
    res: Result<EncryptResult, BlobError>,
    sub_key: [u8; 32],
    adata: Vec<u8>,
)
    requires
        call_ensures(
            encrypt_chunk_with,
            (class, key, idx, data, hash, encryption_key, is_final, nonce),
            tag,
        ) || (call_ensures(
            encrypt_chunk,
            (class, key, idx, data, hash, encryption_key, is_final),
            res,
        ) && (res is Ok ==> res->Ok_0.nonce@ == nonce@ && res->Ok_0.tag@ == tag@)),
        call_ensures(derive_sub_key, (idx, hash, encryption_key), sub_key),
        call_ensures(make_adata, (class, key, idx, hash, is_final), adata),
    ensures
        (final(data)@, tag@) == crypto::aegis_sealed(sub_key@, nonce@, adata@, old(data)@),
{
}

/// A chunk opens exactly where AEGIS-256 seals some contents to its data and tag,
/// under the key derived for it and with its identity as associated data, and it opens
/// to contents that are so sealed.
pub proof fn lemma_chunk_decrypted(
    class: &str,
    key: &str,
    idx: i64,
    data: &mut [u8],
    hash: &[u8; 32],
    encryption_key: &[u8; 32],
    is_final: bool,
    nonce: &[u8; 32],
    tag: &[u8; 32],
    res: Result<(), BlobError>,
    sub_key: [u8; 32],
    adata: Vec<u8>,
    contents: Seq<u8>,
)
    requires
        call_ensures(
            decrypt_chunk,
            (class, key, idx, data, hash, encryption_key, is_final, nonce, tag),
            res,
        ),
        call_ensures(derive_sub_key, (idx, hash, encryption_key), sub_key),
        call_ensures(make_adata, (class, key, idx, hash, is_final), adata),
    ensures
        res is Ok ==> crypto::aegis_sealed(sub_key@, nonce@, adata@, final(data)@) == (
            old(data)@,
            tag@,
        ),
        crypto::aegis_sealed(sub_key@, nonce@, adata@, contents) == (old(data)@, tag@) ==> res is Ok,
        res is Err ==> res->Err_0 is InvalidTag,
{
}

/// A path is that of a blob exactly where it has the same components as the one made
/// for that blob.
pub proof fn lemma_own_path(id: &[u8; 32], path: &[String], own: bool, made: Vec<String>)
    requires
        call_ensures(is_own_path, (id, path), own),
        call_ensures(id_path, (id,), made),
    ensures
        own <==> path@.len() == made@.len() && forall|i: int|
            0 <= i < made@.len() ==> (#[trigger] path@[i])@ == made@[i]@,
{
    let (a, b) = (path_text(path@), path_text(made@));
    assert(a.len() == path@.len() && b.len() == made@.len());
    if own {
        assert forall|i: int| 0 <= i < made@.len() implies (#[trigger] path@[i])@ == made@[i]@ by {
            assert(a[i] == b[i]);
        }
    } else if path@.len() == made@.len() && forall|i: int|
        0 <= i < made@.len() ==> (#[trigger] path@[i])@ == made@[i]@ {
        assert(a =~= b);
    }
}

} // verus!
