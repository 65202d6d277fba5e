//! The runtime database of all services.

use vstd::prelude::*;
use vstd::string::*;
use vstd::utf8::*;

use crate::crypto;
use crate::text;

pub mod blob;
pub mod key;
pub mod sql;
pub mod store;
pub mod upkeep;

verus! {

/// Database entry.
pub struct VmIoDbEntry {
    /// entry class identifier
    pub class: String,
    /// entry key identifier
    pub key: String,
    /// entry modified at unix epoch timestamp in microseconds
    pub modified_at_micros: i64,
    /// if specified, entry will be pruned after this unix epoch timestamp in
    /// microseconds
    ///
    /// Pruning is periodic, so an entry remains readable for up to a minute
    /// past this timestamp.
    pub expires_at_micros: Option<i64>,
    /// optional metadata associated with entry
    pub metadata: Option<Vec<u8>>,
    /// chunk count for file data (0 for no file)
    pub chunk_count: i64,
}

/// One end of a range of timestamps.
#[derive(Clone, Copy, Debug, PartialEq, Eq, Structural)]
pub enum MicrosBound {
    /// the range goes on without end
    Unbounded,
    /// the range ends at this timestamp and holds it
    Included(i64),
    /// the range ends at this timestamp and does not hold it
    Excluded(i64),
}

/// Specify how the list should be filtered.
pub enum VmIoDbListFilter {
    /// Do not filter, get all items.
    All,
    /// Filter by key prefix.
    KeyPrefix(String),
    /// Filter by modified_at_micros range.
    ModifiedAtMicrosRange {
        /// start of filter range.
        start: MicrosBound,
        /// end of filter range.
        end: MicrosBound,
    },
}

/// Specify how the list should be sorted.
#[derive(Clone, Copy, Debug, PartialEq, Eq, Structural)]
pub enum VmIoDbListSort {
    /// default sorting by key ascending
    KeyAsc,
    /// default sorting by key descending
    KeyDesc,
    /// by modified_at_micros ascending
    ModifiedAtMicrosAsc,
    /// by modified_at_micros descending
    ModifiedAtMicrosDesc,
}

/// Longest class, in bytes.
pub const CLASS_MAX: usize = 256;

/// Longest key, in bytes.
pub const KEY_MAX: usize = 1024;

/// Longest metadata, in bytes.
pub const METADATA_MAX: usize = 4096;

/// Size of every chunk of an entry file but the last, which may be smaller.
pub const CHUNK_SIZE: usize = 5242880;

/// Seconds between two passes over expired entries.
pub const PRUNE_INTERVAL_SECS: u64 = 60;

/// Maximum count of entries pruned in a single transaction.
///
/// Pruning holds the exclusive write transaction, so a large backlog of
/// expirations is worked through in batches rather than stalling writers behind
/// one long delete.
pub const PRUNE_BATCH: i64 = 256;

/// Seconds between two passes over the blob files.
pub const CLEANUP_INTERVAL_SECS: u64 = 600;

/// Blob files and shard directories are only removed once they have gone
/// untouched for at least this many seconds.
///
/// A blob file is written before the row that references it is committed, so a
/// recently written file without a row may well be a write in flight. The grace
/// period has to comfortably exceed the gap between those two steps.
pub const CLEANUP_GRACE_SECS: u64 = 300;

/// Failures of the database.
pub enum DbError {
    /// The class is too long.
    ClassTooLong,
    /// The key is too long.
    KeyTooLong,
    /// The metadata is too long.
    MetadataTooLong,
    /// A chunk that is not the last has another size than a full chunk.
    ChunkNotFull,
    /// A last chunk is larger than a full chunk.
    ChunkTooLarge,
    /// A chunk is the last of its file and was not asked for as such, or the
    /// other way round.
    FinalityMismatch,
    /// A blob file has another size than its row says.
    CorruptedChunk,
    /// The blob layer failed.
    Blob(blob::BlobError),
    /// The database refused, for the given reason.
    Sql(String),
}

impl DbError {
    /// What `message` gives for the error.
    pub open spec fn text(&self) -> Seq<char> {
        match self {
            DbError::ClassTooLong => "class cannot be > 256 bytes"@,
            DbError::KeyTooLong => "key cannot be > 1024 bytes"@,
            DbError::MetadataTooLong => "metadata cannot be > 4096 bytes"@,
            DbError::ChunkNotFull => "non-final chunks must be 5 MiB"@,
            DbError::ChunkTooLarge => "final chunks cannot be > 5 MiB"@,
            DbError::FinalityMismatch => "chunk finality mismatch"@,
            DbError::CorruptedChunk => "corrupted chunk"@,
            DbError::Blob(err) => err.text(),
            DbError::Sql(reason) => reason@,
        }
    }

    /// The error in words.
    pub fn message(&self) -> (out: String)
        ensures
            out@ == self.text(),
    {
        match self {
            DbError::ClassTooLong => "class cannot be > 256 bytes".to_owned(),
            DbError::KeyTooLong => "key cannot be > 1024 bytes".to_owned(),
            DbError::MetadataTooLong => "metadata cannot be > 4096 bytes".to_owned(),
            DbError::ChunkNotFull => "non-final chunks must be 5 MiB".to_owned(),
            DbError::ChunkTooLarge => "final chunks cannot be > 5 MiB".to_owned(),
            DbError::FinalityMismatch => "chunk finality mismatch".to_owned(),
            DbError::CorruptedChunk => "corrupted chunk".to_owned(),
            DbError::Blob(err) => err.message(),
            DbError::Sql(reason) => reason.clone(),
        }
    }
}

/// Identity of the contents of one chunk.
pub struct ChunkId<'a> {
    /// entry class
    pub class: &'a str,
    /// entry key
    pub key: &'a str,
    /// chunk index
    pub idx: i64,
    /// sha256 hash of the contents
    pub hash: &'a [u8; 32],
    /// is this the last chunk of the file?
    pub is_final: bool,
}

/// Identifier of the blob file of a chunk, under a blob key. It serves as the
/// nonce of the chunk too, so that what a blob file holds is a function of the
/// path it lives at.
pub open spec fn blob_id(
    class: Seq<char>,
    key: Seq<char>,
    idx: i64,
    hash: Seq<u8>,
    is_final: bool,
    blob_key: Seq<u8>,
) -> Seq<u8> {
    crypto::hkdf_of(None, blob_key, blob::adata_of(class, key, idx, hash, is_final))
}

/// Derive the identifier of the blob file of a chunk.
pub fn gen_id(chunk: &ChunkId, blob_key: &[u8; 32]) -> (id: [u8; 32])
    ensures
        id@ == blob_id(chunk.class@, chunk.key@, chunk.idx, chunk.hash@, chunk.is_final, blob_key@),
{
    let adata = blob::make_adata(chunk.class, chunk.key, chunk.idx, chunk.hash, chunk.is_final);
    crypto::hkdf32(None, blob_key.as_slice(), adata.as_slice())
}

/// An entry within the limits of the database, ready to be written.
pub struct EntryRow {
    /// entry class
    pub class: String,
    /// entry key
    pub key: String,
    /// timestamp of the write
    pub modified_at_micros: i64,
    /// timestamp past which the entry is pruned
    pub expires_at_micros: Option<i64>,
    /// metadata of the entry
    pub metadata: Option<Vec<u8>>,
}

/// Which limit of the database an entry exceeds, if any.
pub open spec fn entry_limit(
    class: Seq<char>,
    key: Seq<char>,
    metadata: Option<Vec<u8>>,
) -> Option<DbError> {
    if encode_utf8(class).len() > CLASS_MAX {
        Some(DbError::ClassTooLong)
    } else if encode_utf8(key).len() > KEY_MAX {
        Some(DbError::KeyTooLong)
    } else if metadata is Some && metadata->0@.len() > METADATA_MAX {
        Some(DbError::MetadataTooLong)
    } else {
        None
    }
}

/// A sealed chunk: the blob file to be put in place, and the row that is to
/// reference it.
pub struct ChunkUpload {
    /// path of the blob file below the root directory
    pub path: Vec<String>,
    /// contents of the blob file
    pub data: Vec<u8>,
    /// row of the chunk
    pub row: sql::Chunk,
}

/// How the upload of a chunk ends.
pub struct UploadEnd {
    /// blob file to be removed, as far as that succeeds
    pub remove: Option<Vec<String>>,
    /// what the upload comes to
    pub result: Result<(), DbError>,
}

/// Is the chunk of the wrong size, given whether it is the last?
pub open spec fn size_error(len: nat, is_final: bool) -> Option<DbError> {
    if !is_final && len != CHUNK_SIZE {
        Some(DbError::ChunkNotFull)
    } else if is_final && len > CHUNK_SIZE {
        Some(DbError::ChunkTooLarge)
    } else {
        None
    }
}

/// What reading a chunk gives for its row and the contents of its blob file.
pub open spec fn chunk_read(
    class: Seq<char>,
    key: Seq<char>,
    idx: i64,
    is_final: bool,
    blob_key: Seq<u8>,
    row: sql::Chunk,
    data: Seq<u8>,
) -> Result<Seq<u8>, DbError> {
    if is_final != row.is_final {
        Err(DbError::FinalityMismatch)
    } else if data.len() != row.size {
        Err(DbError::CorruptedChunk)
    } else {
        match blob::chunk_opened(
            class,
            key,
            idx,
            data,
            row.hash@,
            blob_key,
            is_final,
            blob_id(class, key, idx, row.hash@, is_final, blob_key),
            row.tag@,
        ) {
            Some(contents) => Ok(contents),
            None => Err(DbError::Blob(blob::BlobError::InvalidTag)),
        }
    }
}

/// What reading a chunk index gives, for what is found under it: nothing where
/// it has no row, and otherwise the contents of the chunk, or why they cannot be
/// had.
pub open spec fn chunk_got(
    class: Seq<char>,
    key: Seq<char>,
    idx: i64,
    is_final: bool,
    blob_key: Seq<u8>,
    found: Option<(sql::Chunk, Seq<u8>)>,
) -> Result<Option<Seq<u8>>, DbError> {
    match found {
        None => Ok(None),
        Some((row, data)) => match chunk_read(class, key, idx, is_final, blob_key, row, data) {
            Ok(contents) => Ok(Some(contents)),
            Err(err) => Err(err),
        },
    }
}

impl ChunkUpload {
    /// Does this hold what is written for the chunk with the given identity and
    /// contents?
    pub open spec fn seals(
        &self,
        class: Seq<char>,
        key: Seq<char>,
        idx: i64,
        contents: Seq<u8>,
        is_final: bool,
        blob_key: Seq<u8>,
    ) -> bool {
        let hash = crypto::sha256_of(contents);
        let id = blob_id(class, key, idx, hash, is_final, blob_key);
        &&& blob::path_text(self.path@) == blob::blob_path(id)
        &&& self.row.idx == idx
        &&& self.row.hash@ == hash
        &&& self.row.nonce@ == id
        &&& (self.data@, self.row.tag@) == blob::chunk_sealed(
            class,
            key,
            idx,
            contents,
            hash,
            blob_key,
            is_final,
            id,
        )
        &&& self.row.size == contents.len()
        &&& self.row.is_final == is_final
    }

    /// Must the blob file be written, where a file of the given length, if any,
    /// is already at its path?
    ///
    /// What a blob file holds is a function of its path, so a file that is there
    /// at full length is what would be written. Leaving it alone keeps blobs
    /// write once: a file that a committed row depends on is never truncated.
    pub fn must_write(&self, found: Option<u64>) -> (res: bool)
        ensures
            res == (found is None || found->0 != self.data@.len()),
    {
        match found {
            Some(len) => len != self.data.len() as u64,
            None => true,
        }
    }

    /// End the upload, after its row was written or refused. `wrote` tells
    /// whether this upload put the blob file in place, and the row that was
    /// written tells which other blob, if any, its index pointed at before.
    ///
    /// Where the row is refused the blob file is removed, but only by the upload
    /// that put it there. Where it is accepted the blob that it replaced is
    /// unreferenced and removed.
    pub fn finish(
        &self,
        wrote: bool,
        row_written: Result<Option<[u8; 32]>, String>,
    ) -> (end: UploadEnd)
        ensures
            match row_written {
                Err(reason) => {
                    &&& end.result == Err::<(), DbError>(DbError::Sql(reason))
                    &&& end.remove is Some == wrote
                    &&& wrote ==> blob::path_text(end.remove->0@) == blob::path_text(self.path@)
                },
                Ok(prev) => {
                    &&& end.result is Ok
                    &&& end.remove is Some == (prev is Some)
                    &&& prev is Some ==> blob::path_text(end.remove->0@) == blob::blob_path(
                        prev->0@,
                    )
                },
            },
    {
        match row_written {
            Err(reason) => UploadEnd {
                remove: if wrote {
                    Some(clone_path(self.path.as_slice()))
                } else {
                    None
                },
                result: Err(DbError::Sql(reason)),
            },
            Ok(prev) => UploadEnd {
                remove: match prev {
                    Some(id) => Some(blob::id_path(&id)),
                    None => None,
                },
                result: Ok(()),
            },
        }
    }
}

/// The same path again.
pub(crate) fn clone_path(path: &[String]) -> (out: Vec<String>)
    ensures
        blob::path_text(out@) == blob::path_text(path@),
{
    let mut out: Vec<String> = Vec::new();
    for i in 0..path.len()
        invariant
            out@.len() == i,
            forall|j: int| 0 <= j < i ==> out@[j]@ == path@[j]@,
    {
        out.push(path[i].clone());
    }
    assert(blob::path_text(out@) =~= blob::path_text(path@));
    out
}

/// Which blob a chunk row pointed at before it was overwritten, where that is
/// another one than it points at now.
pub fn replaced_blob(before: Option<[u8; 32]>, now: &[u8; 32]) -> (prev: Option<[u8; 32]>)
    ensures
        prev == if before is Some && before->0@ == now@ {
            None
        } else {
            before
        },
{
    match before {
        Some(id) => if text::same_bytes(id.as_slice(), now.as_slice()) {
            None
        } else {
            Some(id)
        },
        None => None,
    }
}

/// The database of a service, as far as it computes: it holds the key that blobs
/// are sealed under.
pub struct VmIoDb {
    blob_key: [u8; 32],
}

impl VmIoDb {
    /// The key that blobs are sealed under.
    pub closed spec fn blob_key(&self) -> Seq<u8> {
        self.blob_key@
    }

    /// Split a master key into independent keys for the connections of the
    /// database and for the blobs. The master key itself is not retained.
    pub fn new(encryption_key: &[u8; 32]) -> (out: (Self, Vec<sql::ConnPlan>))
        ensures
            out.0.blob_key() == crypto::hkdf_of(
                None,
                encryption_key@,
                encode_utf8(key::INFO_BLOB@),
            ),
            out.1@.len() == 4,
            forall|i: int|
                0 <= i < 4 ==> sql::conn_plan(
                    #[trigger] out.1@[i],
                    i == 0,
                    crypto::hkdf_of(None, encryption_key@, encode_utf8(key::INFO_SQLITE@)),
                ),
    {
        let mut keys = key::RootKeys::derive(encryption_key);
        let plans = sql::conn_plans(&keys.sqlite);
        let db = VmIoDb { blob_key: keys.blob };
        keys.wipe();
        (db, plans)
    }

    /// Leave nothing of the blob key in memory, once the database is closed.
    pub fn wipe(&mut self)
        ensures
            final(self).blob_key().len() == 32,
            forall|i: int| 0 <= i < 32 ==> final(self).blob_key()[i] == 0,
    {
        crypto::wipe(&mut self.blob_key);
    }

    /// Upsert an entry: hold it to the limits of the database.
    pub fn upsert(
        &self,
        class: String,
        key: String,
        modified_at_micros: i64,
        expires_at_micros: Option<i64>,
        metadata: Option<Vec<u8>>,
    ) -> (res: Result<EntryRow, DbError>)
        ensures
            res == match entry_limit(class@, key@, metadata) {
                Some(err) => Err::<EntryRow, DbError>(err),
                None => Ok(
                    EntryRow { class, key, modified_at_micros, expires_at_micros, metadata },
                ),
            },
    {
        if text::byte_len(class.as_str()) > CLASS_MAX {
            return Err(DbError::ClassTooLong);
        }
        if text::byte_len(key.as_str()) > KEY_MAX {
            return Err(DbError::KeyTooLong);
        }
        let too_long: bool = match &metadata {
            Some(bytes) => bytes.len() > METADATA_MAX,
            None => false,
        };
        if too_long {
            return Err(DbError::MetadataTooLong);
        }
        Ok(EntryRow { class, key, modified_at_micros, expires_at_micros, metadata })
    }

    /// Remove an entry: the paths of the blob files that its chunk rows, removed
    /// with it, referenced. They are removed as far as that succeeds.
    pub fn rm(&self, rows: &[sql::Chunk]) -> (paths: Vec<Vec<String>>)
        ensures
            paths@.len() == rows@.len(),
            forall|i: int|
                0 <= i < rows@.len() ==> blob::path_text(#[trigger] paths@[i]@) == blob::blob_path(
                    rows@[i].nonce@,
                ),
    {
        let mut paths: Vec<Vec<String>> = Vec::new();
        for i in 0..rows.len()
            invariant
                paths@.len() == i,
                forall|j: int|
                    0 <= j < i ==> blob::path_text(#[trigger] paths@[j]@) == blob::blob_path(
                        rows@[j].nonce@,
                    ),
        {
            paths.push(blob::id_path(&rows[i].nonce));
        }
        paths
    }

    /// List entries: the statement to run.
    pub fn list(
        &self,
        class: String,
        filter: VmIoDbListFilter,
        sort: VmIoDbListSort,
        limit: i64,
    ) -> (query: sql::ListQuery)
        ensures
            query.sql@ == sql::list_sql(filter, sort),
            sql::param_vals(query.params@) == sql::list_vals(class@, filter, limit),
    {
        sql::list(class, filter, sort, limit)
    }

    /// Upsert a chunk: seal its contents.
    ///
    /// What comes out, read back under the same identity, gives the contents
    /// again.
    pub fn upsert_chunk(
        &self,
        class: &str,
        key: &str,
        idx: i64,
        data: Vec<u8>,
        is_final: bool,
    ) -> (res: Result<ChunkUpload, DbError>)
        ensures
            match size_error(data@.len(), is_final) {
                Some(err) => res == Err::<ChunkUpload, DbError>(err),
                None => {
                    &&& res is Ok
                    &&& res->Ok_0.seals(class@, key@, idx, data@, is_final, self.blob_key())
                    &&& chunk_read(
                        class@,
                        key@,
                        idx,
                        is_final,
                        self.blob_key(),
                        res->Ok_0.row,
                        res->Ok_0.data@,
                    ) == Ok::<Seq<u8>, DbError>(data@)
                },
            },
    {
        if !is_final && data.len() != CHUNK_SIZE {
            return Err(DbError::ChunkNotFull);
        } else if is_final && data.len() > CHUNK_SIZE {
            return Err(DbError::ChunkTooLarge);
        }
        let hash = crypto::sha256(data.as_slice());
        let id = gen_id(&ChunkId { class, key, idx, hash: &hash, is_final }, &self.blob_key);
        let mut data = data;
        let tag = blob::encrypt_chunk_with(
            class,
            key,
            idx,
            data.as_mut_slice(),
            &hash,
            &self.blob_key,
            is_final,
            &id,
        );
        let path = blob::id_path(&id);
        let size: i64 = data.len() as i64;
        Ok(ChunkUpload { path, data, row: sql::Chunk { idx, hash, nonce: id, tag, size, is_final } })
    }

    /// Where the blob file of a chunk lies, given the row that its index has, if
    /// any. Without a row there is no blob file.
    pub fn chunk_path(
        &self,
        class: &str,
        key: &str,
        idx: i64,
        is_final: bool,
        row: Option<&sql::Chunk>,
    ) -> (res: Result<Option<Vec<String>>, DbError>)
        ensures
            match row {
                None => res == Ok::<Option<Vec<String>>, DbError>(None),
                Some(row) => if is_final != row.is_final {
                    res == Err::<Option<Vec<String>>, DbError>(DbError::FinalityMismatch)
                } else {
                    res is Ok && res->Ok_0 is Some && blob::path_text(res->Ok_0->0@)
                        == blob::blob_path(
                        blob_id(class@, key@, idx, row.hash@, is_final, self.blob_key()),
                    )
                },
            },
    {
        let row = match row {
            Some(row) => row,
            None => {
                return Ok(None);
            },
        };
        if is_final != row.is_final {
            return Err(DbError::FinalityMismatch);
        }
        let id = gen_id(&ChunkId { class, key, idx, hash: &row.hash, is_final }, &self.blob_key);
        Ok(Some(blob::id_path(&id)))
    }

    /// Get an entry file chunk, given the row that its index has and what its blob
    /// file holds, or `None` where the index has no row.
    ///
    /// A tag other than the one that came with the data is refused.
    pub fn get_chunk(
        &self,
        class: &str,
        key: &str,
        idx: i64,
        is_final: bool,
        found: Option<(&sql::Chunk, Vec<u8>)>,
    ) -> (res: Result<Option<Vec<u8>>, DbError>)
        ensures
            match chunk_got(
                class@,
                key@,
                idx,
                is_final,
                self.blob_key(),
                match found {
                    Some((row, data)) => Some((*row, data@)),
                    None => None,
                },
            ) {
                Ok(None) => res == Ok::<Option<Vec<u8>>, DbError>(None),
                Ok(Some(contents)) => res is Ok && res->Ok_0 is Some && res->Ok_0->0@ == contents,
                Err(err) => res == Err::<Option<Vec<u8>>, DbError>(err),
            },
            match found {
                None => true,
                Some((row, data)) => forall|contents: Seq<u8>|
                    #![trigger blob::chunk_sealed(class@, key@, idx, contents, row.hash@, self.blob_key(), is_final, blob_id(class@, key@, idx, row.hash@, is_final, self.blob_key()))]
                    {
                        let sealed = blob::chunk_sealed(
                            class@,
                            key@,
                            idx,
                            contents,
                            row.hash@,
                            self.blob_key(),
                            is_final,
                            blob_id(class@, key@, idx, row.hash@, is_final, self.blob_key()),
                        );
                        sealed.0 == data@ && sealed.1 != row.tag@ ==> res is Err
                    },
            },
    {
        let (row, data) = match found {
            Some((row, data)) => (row, data),
            None => {
                return Ok(None);
            },
        };
        if is_final != row.is_final {
            return Err(DbError::FinalityMismatch);
        }
        if row.size < 0 || data.len() as u64 != row.size as u64 {
            return Err(DbError::CorruptedChunk);
        }
        let id = gen_id(&ChunkId { class, key, idx, hash: &row.hash, is_final }, &self.blob_key);
        let mut data = data;
        match blob::decrypt_chunk(
            class,
            key,
            idx,
            data.as_mut_slice(),
            &row.hash,
            &self.blob_key,
            is_final,
            &id,
            &row.tag,
        ) {
            Ok(()) => Ok(Some(data)),
            Err(err) => Err(DbError::Blob(err)),
        }
    }
}

/// What is read was written: contents that a row and a blob file read as are such
/// that sealing them, under the same identity and key, gives the contents of that
/// file and the tag of that row.
pub proof fn lemma_read_was_sealed(
    class: Seq<char>,
    key: Seq<char>,
    idx: i64,
    is_final: bool,
    blob_key: Seq<u8>,
    row: sql::Chunk,
    data: Seq<u8>,
)
    requires
        chunk_read(class, key, idx, is_final, blob_key, row, data) is Ok,
    ensures
        blob::chunk_sealed(
            class,
            key,
            idx,
            chunk_read(class, key, idx, is_final, blob_key, row, data)->Ok_0,
            row.hash@,
            blob_key,
            is_final,
            blob_id(class, key, idx, row.hash@, is_final, blob_key),
        ) == (data, row.tag@),
{
    blob::lemma_opened_was_sealed(
        class,
        key,
        idx,
        data,
        row.hash@,
        blob_key,
        is_final,
        blob_id(class, key, idx, row.hash@, is_final, blob_key),
        row.tag@,
    );
}

/// A chunk is read from the path that it was written to.
pub proof fn lemma_upload_found(
    upload: ChunkUpload,
    class: Seq<char>,
    key: Seq<char>,
    idx: i64,
    contents: Seq<u8>,
    is_final: bool,
    blob_key: Seq<u8>,
)
    requires
        upload.seals(class, key, idx, contents, is_final, blob_key),
    ensures
        blob::path_text(upload.path@) == blob::blob_path(
            blob_id(class, key, idx, upload.row.hash@, is_final, blob_key),
        ),
{
}

/// Blobs are write once: sealing the same chunk again gives the same path, the
/// same file contents and the same row.
pub proof fn lemma_upload_repeats(
    first: ChunkUpload,
    again: ChunkUpload,
    class: Seq<char>,
    key: Seq<char>,
    idx: i64,
    contents: Seq<u8>,
    is_final: bool,
    blob_key: Seq<u8>,
)
    requires
        first.seals(class, key, idx, contents, is_final, blob_key),
        again.seals(class, key, idx, contents, is_final, blob_key),
    ensures
        blob::path_text(first.path@) == blob::path_text(again.path@),
        first.data@ == again.data@,
        first.row.idx == again.row.idx,
        first.row.hash@ == again.row.hash@,
        first.row.nonce@ == again.row.nonce@,
        first.row.tag@ == again.row.tag@,
        first.row.size == again.row.size,
        first.row.is_final == again.row.is_final,
{
}

/// Two chunks have the same blob file exactly where they agree in class, key, index,
/// content hash and finality, as far as no two inputs of the key derivation give the
/// same output: for chunks that differ, the derivation is asked about two inputs that
/// differ, under the blob key.
///
/// A zero character in a class or a key could be taken for the end of it, so chunks
/// of different entries are told apart where there is none.
pub proof fn lemma_ids_tell_chunks(
    a: &ChunkId,
    b: &ChunkId,
    blob_key: &[u8; 32],
    id_a: [u8; 32],
    id_b: [u8; 32],
) -> (inputs: (Seq<u8>, Seq<u8>))
    requires
        call_ensures(gen_id, (a, blob_key), id_a),
        call_ensures(gen_id, (b, blob_key), id_b),
        (a.class@ == b.class@ && a.key@ == b.key@) || (!a.class@.contains('\0')
            && !a.key@.contains('\0') && !b.class@.contains('\0') && !b.key@.contains('\0')),
    ensures
        id_a@ == crypto::hkdf_of(None, blob_key@, inputs.0),
        id_b@ == crypto::hkdf_of(None, blob_key@, inputs.1),
        inputs.0 == inputs.1 <==> {
            &&& a.class@ == b.class@
            &&& a.key@ == b.key@
            &&& a.idx == b.idx
            &&& a.hash@ == b.hash@
            &&& a.is_final == b.is_final
        },
{
    lemma_inputs_tell(
        (a.class@, a.key@, a.idx, a.hash@, a.is_final),
        (b.class@, b.key@, b.idx, b.hash@, b.is_final),
    );
    (
        blob::adata_of(a.class@, a.key@, a.idx, a.hash@, a.is_final),
        blob::adata_of(b.class@, b.key@, b.idx, b.hash@, b.is_final),
    )
}

/// The inputs of the derivation of blob identifiers are the same exactly where all
/// that tells chunks apart is.
pub proof fn lemma_inputs_tell(
    a: (Seq<char>, Seq<char>, i64, Seq<u8>, bool),
    b: (Seq<char>, Seq<char>, i64, Seq<u8>, bool),
)
    requires
        (a.0 == b.0 && a.1 == b.1) || (!a.0.contains('\0') && !a.1.contains('\0')
            && !b.0.contains('\0') && !b.1.contains('\0')),
    ensures
        blob::adata_of(a.0, a.1, a.2, a.3, a.4) == blob::adata_of(b.0, b.1, b.2, b.3, b.4) <==> a
            == b,
{
    if blob::adata_of(a.0, a.1, a.2, a.3, a.4) == blob::adata_of(b.0, b.1, b.2, b.3, b.4) {
        if a.0 == b.0 && a.1 == b.1 {
            blob::lemma_adata_binds_within(a.0, a.1, a.2, a.3, a.4, b.2, b.3, b.4);
        } else {
            blob::lemma_adata_binds(a.0, a.1, a.2, a.3, a.4, b.0, b.1, b.2, b.3, b.4);
        }
    }
}

/// New contents get a blob file of their own: two uploads to one place that differ in
/// contents or finality are put at different paths, unless the digest or the key
/// derivation gives the same output for two inputs that differ.
pub proof fn lemma_new_contents_new_file(
    db: &VmIoDb,
    class: &str,
    key: &str,
    idx: i64,
    data: Vec<u8>,
    is_final: bool,
    first: Result<ChunkUpload, DbError>,
    data2: Vec<u8>,
    is_final2: bool,
    second: Result<ChunkUpload, DbError>,
) -> (inputs: (Seq<u8>, Seq<u8>))
    requires
        call_ensures(VmIoDb::upsert_chunk, (db, class, key, idx, data, is_final), first),
        call_ensures(VmIoDb::upsert_chunk, (db, class, key, idx, data2, is_final2), second),
        first is Ok && second is Ok,
        data@ != data2@ || is_final != is_final2,
        crypto::sha256_of(data@) == crypto::sha256_of(data2@) ==> data@ == data2@,
    ensures
        inputs.0 != inputs.1,
        first->Ok_0.row.nonce@ == crypto::hkdf_of(None, db.blob_key(), inputs.0),
        second->Ok_0.row.nonce@ == crypto::hkdf_of(None, db.blob_key(), inputs.1),
        crypto::hkdf_of(None, db.blob_key(), inputs.0) != crypto::hkdf_of(
            None,
            db.blob_key(),
            inputs.1,
        ) ==> blob::path_text(first->Ok_0.path@) != blob::path_text(second->Ok_0.path@),
{
    let (h, h2) = (crypto::sha256_of(data@), crypto::sha256_of(data2@));
    lemma_inputs_tell((class@, key@, idx, h, is_final), (class@, key@, idx, h2, is_final2));
    let (a, b) = (first->Ok_0.row.nonce@, second->Ok_0.row.nonce@);
    if blob::blob_path(a) == blob::blob_path(b) {
        blob::lemma_paths_distinct(a, b);
    }
    (
        blob::adata_of(class@, key@, idx, h, is_final),
        blob::adata_of(class@, key@, idx, h2, is_final2),
    )
}

/// A chunk is accepted exactly where it is of 5 MiB, or is the last one of its file
/// and of no more than that. Its row says what it is: its index, the digest of its
/// contents, their length, and whether it is the last. The blob file is as long as
/// the contents, and lies where its identifier belongs.
pub proof fn lemma_chunk_accepted(
    db: &VmIoDb,
    class: &str,
    key: &str,
    idx: i64,
    data: Vec<u8>,
    is_final: bool,
    res: Result<ChunkUpload, DbError>,
    own: bool,
    slice: &[String],
)
    requires
        call_ensures(VmIoDb::upsert_chunk, (db, class, key, idx, data, is_final), res),
        res is Ok ==> slice@ == res->Ok_0.path@,
        res is Ok ==> call_ensures(blob::is_own_path, (&res->Ok_0.row.nonce, slice), own),
    ensures
        res is Ok <==> data@.len() == 5 * 1024 * 1024 || (is_final && data@.len() < 5 * 1024
            * 1024),
        res is Err && !is_final ==> res->Err_0 is ChunkNotFull,
        res is Err && is_final ==> res->Err_0 is ChunkTooLarge,
        res is Ok ==> {
            let upload = res->Ok_0;
            &&& upload.row.idx == idx
            &&& upload.row.hash@ == crypto::sha256_of(data@)
            &&& upload.row.size == data@.len()
            &&& upload.row.is_final == is_final
            &&& upload.data@.len() == data@.len()
            &&& own
        },
{
}

/// What a chunk was uploaded with is what it reads as, at the path where its blob
/// file was put. Asked for with the wrong finality it is refused, a blob file of
/// another length is, and so is another tag. An index without a row has no path and
/// reads as nothing.
pub proof fn lemma_chunk_read_back(
    db: &VmIoDb,
    class: &str,
    key: &str,
    idx: i64,
    data: Vec<u8>,
    is_final: bool,
    upload: Result<ChunkUpload, DbError>,
    asked: bool,
    file: Vec<u8>,
    path: Result<Option<Vec<String>>, DbError>,
    got: Result<Option<Vec<u8>>, DbError>,
    no_path: Result<Option<Vec<String>>, DbError>,
    nothing: Result<Option<Vec<u8>>, DbError>,
)
    requires
        call_ensures(VmIoDb::upsert_chunk, (db, class, key, idx, data, is_final), upload),
        upload is Ok,
        call_ensures(
            VmIoDb::chunk_path,
            (db, class, key, idx, asked, Some(&upload->Ok_0.row)),
            path,
        ),
        call_ensures(
            VmIoDb::get_chunk,
            (db, class, key, idx, asked, Some((&upload->Ok_0.row, file))),
            got,
        ),
        call_ensures(VmIoDb::chunk_path, (db, class, key, idx, asked, None), no_path),
        call_ensures(VmIoDb::get_chunk, (db, class, key, idx, asked, None), nothing),
    ensures
        asked == is_final ==> {
            &&& path is Ok && path->Ok_0 is Some
            &&& path->Ok_0->0@.len() == upload->Ok_0.path@.len()
            &&& forall|i: int|
                0 <= i < upload->Ok_0.path@.len() ==> (#[trigger] path->Ok_0->0@[i])@
                    == upload->Ok_0.path@[i]@
        },
        asked == is_final && file@ == upload->Ok_0.data@ ==> got is Ok && got->Ok_0 is Some
            && got->Ok_0->0@ == data@,
        asked == is_final && file@.len() != data@.len() ==> got is Err && got->Err_0 is CorruptedChunk,
        asked != is_final ==> path is Err && path->Err_0 is FinalityMismatch,
        asked != is_final ==> got is Err && got->Err_0 is FinalityMismatch,
        no_path is Ok && no_path->Ok_0 is None,
        nothing is Ok && nothing->Ok_0 is None,
{
    if asked == is_final {
        let (a, b) = (path->Ok_0->0@, upload->Ok_0.path@);
        assert(blob::path_text(a) == blob::path_text(b));
        assert(blob::path_text(a).len() == a.len() && blob::path_text(b).len() == b.len());
        assert forall|i: int| 0 <= i < b.len() implies (#[trigger] a[i])@ == b[i]@ by {
            assert(blob::path_text(a)[i] == blob::path_text(b)[i]);
        }
    }
}

/// An entry is accepted exactly where its class takes at most 256 bytes, its key at
/// most 1024 and its metadata at most 4096, and then it is written as it was given.
/// The first limit that it exceeds is the one that is reported.
pub proof fn lemma_entry_accepted(
    db: &VmIoDb,
    class: String,
    key: String,
    modified: i64,
    expires: Option<i64>,
    metadata: Option<Vec<u8>>,
    res: Result<EntryRow, DbError>,
)
    requires
        call_ensures(VmIoDb::upsert, (db, class, key, modified, expires, metadata), res),
    ensures
        res is Ok <==> {
            &&& encode_utf8(class@).len() <= 256
            &&& encode_utf8(key@).len() <= 1024
            &&& metadata is Some ==> metadata->0@.len() <= 4096
        },
        res is Ok ==> res->Ok_0 == (EntryRow {
            class,
            key,
            modified_at_micros: modified,
            expires_at_micros: expires,
            metadata,
        }),
        encode_utf8(class@).len() > 256 ==> res->Err_0 is ClassTooLong,
        encode_utf8(class@).len() <= 256 && encode_utf8(key@).len() > 1024 ==> res->Err_0 is KeyTooLong,
        res is Err && encode_utf8(class@).len() <= 256 && encode_utf8(key@).len() <= 1024
            ==> res->Err_0 is MetadataTooLong,
{
}

/// Removing an entry removes the blob file of each of its chunks, and no other: the
/// paths are those where the identifiers in the rows belong.
pub proof fn lemma_files_removed(
    db: &VmIoDb,
    rows: &[sql::Chunk],
    paths: Vec<Vec<String>>,
    i: int,
    slice: &[String],
    own: bool,
)
    requires
        call_ensures(VmIoDb::rm, (db, rows), paths),
        0 <= i < rows@.len(),
        paths@.len() == rows@.len() ==> slice@ == paths@[i]@,
        call_ensures(blob::is_own_path, (&rows@[i].nonce, slice), own),
    ensures
        paths@.len() == rows@.len(),
        own,
{
}

/// An upload removes a blob file only where that is nothing that a row depends on. A
/// refused row takes along the file that this upload put in place, and an accepted
/// one the file that its index pointed at before, where that is another one.
pub proof fn lemma_upload_ends(
    upload: &ChunkUpload,
    found: Option<u64>,
    wrote: bool,
    before: Option<[u8; 32]>,
    prev: Option<[u8; 32]>,
    written: Result<(), String>,
    end: UploadEnd,
    slice: &[String],
    own: bool,
)
    requires
        call_ensures(ChunkUpload::must_write, (upload, found), wrote),
        call_ensures(replaced_blob, (before, &upload.row.nonce), prev),
        call_ensures(
            ChunkUpload::finish,
            (
                upload,
                wrote,
                match written {
                    Ok(()) => Ok::<Option<[u8; 32]>, String>(prev),
                    Err(reason) => Err(reason),
                },
            ),
            end,
        ),
        end.remove is Some ==> slice@ == end.remove->0@,
        prev is Some ==> call_ensures(blob::is_own_path, (&prev->0, slice), own),
    ensures
        wrote <==> found is None || found->0 != upload.data@.len(),
        prev is Some <==> before is Some && before->0@ != upload.row.nonce@,
        prev is Some ==> prev->0@ == before->0@,
        end.result is Ok <==> written is Ok,
        written is Err ==> end.result->Err_0 is Sql && end.result->Err_0->Sql_0@ == written->Err_0@,
        written is Ok ==> (end.remove is Some <==> prev is Some) && (prev is Some ==> own),
        written is Err ==> (end.remove is Some <==> wrote) && (wrote ==> blob::path_text(slice@)
            == blob::path_text(upload.path@)),
{
}

/// A database derives its two keys from the master key under different labels, and
/// opens four connections with the one for the database: the first writes and sets
/// the tables up, and the others only read.
pub proof fn lemma_keys_split(master: &[u8; 32], out: (VmIoDb, Vec<sql::ConnPlan>), i: int)
    requires
        call_ensures(VmIoDb::new, (master,), out),
        0 <= i < 4,
    ensures
        out.0.blob_key() == crypto::hkdf_of(
            None,
            master@,
            encode_utf8("v-m.io blob root key v1"@),
        ),
        encode_utf8("v-m.io blob root key v1"@) != encode_utf8("v-m.io sqlite key v1"@),
        out.1@.len() == 4,
        out.1@[i].writable <==> i == 0,
        out.1@[i].schema <==> i == 0,
        out.1@[i].pragma,
        out.1@[i].key@ == sql::ascii_bytes(
            sql::sqlite_key_text(
                crypto::hkdf_of(None, master@, encode_utf8("v-m.io sqlite key v1"@)),
            ),
        ),
{
    key::lemma_labels_distinct();
    assert(sql::conn_plan(
        out.1@[i],
        i == 0,
        crypto::hkdf_of(None, master@, encode_utf8(key::INFO_SQLITE@)),
    ));
}

/// The words of each failure.
pub proof fn lemma_failure_words(err: &DbError, words: String, inner: String)
    requires
        call_ensures(DbError::message, (err,), words),
        *err is Blob ==> call_ensures(blob::BlobError::message, (&(*err)->Blob_0,), inner),
    ensures
        match *err {
            DbError::ClassTooLong => words@ == "class cannot be > 256 bytes"@,
            DbError::KeyTooLong => words@ == "key cannot be > 1024 bytes"@,
            DbError::MetadataTooLong => words@ == "metadata cannot be > 4096 bytes"@,
            DbError::ChunkNotFull => words@ == "non-final chunks must be 5 MiB"@,
            DbError::ChunkTooLarge => words@ == "final chunks cannot be > 5 MiB"@,
            DbError::FinalityMismatch => words@ == "chunk finality mismatch"@,
            DbError::CorruptedChunk => words@ == "corrupted chunk"@,
            DbError::Blob(_) => words@ == inner@,
            DbError::Sql(reason) => words@ == reason@,
        },
{
}

/// What is written of a chunk is encrypted: AEGIS-256 seals its contents to the
/// contents of the blob file and the tag of the row, under the key derived from the
/// blob key.
pub proof fn lemma_chunk_sealed(
    db: &VmIoDb,
    class: &str,
    key: &str,
    idx: i64,
    data: Vec<u8>,
    is_final: bool,
    res: Result<ChunkUpload, DbError>,
    blob_key: &[u8; 32],
    sub_key: [u8; 32],
    adata: Vec<u8>,
)
    requires
        call_ensures(VmIoDb::upsert_chunk, (db, class, key, idx, data, is_final), res),
        res is Ok,
        blob_key@ == db.blob_key(),
        call_ensures(blob::derive_sub_key, (idx, &res->Ok_0.row.hash, blob_key), sub_key),
        call_ensures(
            blob::make_adata,
            (class, key, idx, &res->Ok_0.row.hash, is_final),
            adata,
        ),
    ensures
        (res->Ok_0.data@, res->Ok_0.row.tag@) == crypto::aegis_sealed(
            sub_key@,
            res->Ok_0.row.nonce@,
            adata@,
            data@,
        ),
        res->Ok_0.row.hash@ == crypto::sha256_of(data@),
{
}

/// A row and a blob file read as what AEGIS-256 seals to them, and where it seals
/// nothing to them they are refused.
pub proof fn lemma_chunk_opened(
    db: &VmIoDb,
    class: &str,
    key: &str,
    idx: i64,
    row: &sql::Chunk,
    file: Vec<u8>,
    got: Result<Option<Vec<u8>>, DbError>,
    blob_key: &[u8; 32],
    id: [u8; 32],
    sub_key: [u8; 32],
    adata: Vec<u8>,
    contents: Seq<u8>,
)
    requires
        call_ensures(VmIoDb::get_chunk, (db, class, key, idx, row.is_final, Some((row, file))), got),
        blob_key@ == db.blob_key(),
        call_ensures(
            gen_id,
            (&(ChunkId { class, key, idx, hash: &row.hash, is_final: row.is_final }), blob_key),
            id,
        ),
        call_ensures(blob::derive_sub_key, (idx, &row.hash, blob_key), sub_key),
        call_ensures(blob::make_adata, (class, key, idx, &row.hash, row.is_final), adata),
    ensures
        got is Ok ==> file@.len() == row.size && got->Ok_0 is Some && crypto::aegis_sealed(
            sub_key@,
            id@,
            adata@,
            got->Ok_0->0@,
        ) == (file@, row.tag@),
        file@.len() == row.size && crypto::aegis_sealed(sub_key@, id@, adata@, contents) == (
            file@,
            row.tag@,
        ) ==> got is Ok,
        file@.len() != row.size ==> got is Err && got->Err_0 is CorruptedChunk,
        file@.len() == row.size && got is Err ==> got->Err_0 is Blob
            && got->Err_0->Blob_0 is InvalidTag,
{
}

/// A chunk is looked for where the file of the blob lies that its row names, whatever
/// row that is.
pub proof fn lemma_chunk_found(
    db: &VmIoDb,
    class: &str,
    key: &str,
    idx: i64,
    row: &sql::Chunk,
    res: Result<Option<Vec<String>>, DbError>,
    blob_key: &[u8; 32],
    id: [u8; 32],
    path: Vec<String>,
    i: int,
)
    requires
        call_ensures(VmIoDb::chunk_path, (db, class, key, idx, row.is_final, Some(row)), res),
        blob_key@ == db.blob_key(),
        call_ensures(
            gen_id,
            (&(ChunkId { class, key, idx, hash: &row.hash, is_final: row.is_final }), blob_key),
            id,
        ),
        call_ensures(blob::id_path, (&id,), path),
        0 <= i < path@.len(),
    ensures
        res is Ok && res->Ok_0 is Some,
        res->Ok_0->0@.len() == path@.len(),
        res->Ok_0->0@[i]@ == path@[i]@,
{
    let (a, b) = (blob::path_text(res->Ok_0->0@), blob::path_text(path@));
    assert(a.len() == res->Ok_0->0@.len() && b.len() == path@.len());
    assert(a[i] == b[i]);
}

} // verus!
