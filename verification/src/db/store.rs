//! The store as a whole: what lies in its blob files and chunk rows, and that no
//! step of writing, removing or cleaning up loses a chunk that was committed.
//!
//! The steps are those of the database and its upkeep, one after another. That
//! they keep the store together rests on blob identifiers being apart for the
//! chunks in question, which is what their derivation is for: chunks that differ
//! have different inputs to it.

use vstd::prelude::*;

use super::blob;
use super::blob_id;
use super::chunk_got;
use super::chunk_read;
use super::sql;
use super::upkeep;
use super::ChunkUpload;
use super::DbError;
use super::UploadEnd;
use super::VmIoDb;
use crate::crypto;

verus! {

/// What a chunk row is found by.
pub struct RowName {
    /// entry class
    pub class: Seq<char>,
    /// entry key
    pub key: Seq<char>,
    /// chunk index
    pub idx: i64,
}

/// A chunk that was given to the store: its place in an entry, and its contents.
pub struct Given {
    /// what its row is found by
    pub name: RowName,
    /// its contents
    pub contents: Seq<u8>,
    /// is it the last of its file?
    pub is_final: bool,
}

impl Given {
    /// Identifier of its blob file.
    pub open spec fn id(self, blob_key: Seq<u8>) -> Seq<u8> {
        blob_id(
            self.name.class,
            self.name.key,
            self.name.idx,
            crypto::sha256_of(self.contents),
            self.is_final,
            blob_key,
        )
    }

    /// Path of its blob file.
    pub open spec fn path(self, blob_key: Seq<u8>) -> Seq<Seq<char>> {
        blob::blob_path(self.id(blob_key))
    }

    /// What its blob file holds.
    pub open spec fn sealed(self, blob_key: Seq<u8>) -> Seq<u8> {
        blob::chunk_sealed(
            self.name.class,
            self.name.key,
            self.name.idx,
            self.contents,
            crypto::sha256_of(self.contents),
            blob_key,
            self.is_final,
            self.id(blob_key),
        ).0
    }

    /// Is this its row, under which what its blob file holds reads as its
    /// contents?
    pub open spec fn has_row(self, row: sql::Chunk, blob_key: Seq<u8>) -> bool {
        &&& row.nonce@ == self.id(blob_key)
        &&& row.hash@ == crypto::sha256_of(self.contents)
        &&& row.is_final == self.is_final
        &&& chunk_read(
            self.name.class,
            self.name.key,
            self.name.idx,
            self.is_final,
            blob_key,
            row,
            self.sealed(blob_key),
        ) == Ok::<Seq<u8>, DbError>(self.contents)
    }

    /// Is this the upload that the database makes of it?
    pub open spec fn has_upload(self, upload: ChunkUpload, blob_key: Seq<u8>) -> bool {
        &&& upload.seals(
            self.name.class,
            self.name.key,
            self.name.idx,
            self.contents,
            self.is_final,
            blob_key,
        )
        &&& upload.data@.len() == self.contents.len()
        &&& self.has_row(upload.row, blob_key)
    }
}

/// The blob files and the chunk rows of a store. Each row is listed with the
/// chunk that it was written for.
pub struct Store {
    /// contents of the files below the root directory, by path
    pub files: Map<Seq<Seq<char>>, Seq<u8>>,
    /// rows, by what they are found by
    pub rows: Map<RowName, (Given, sql::Chunk)>,
}

/// Have no two of the chunks the same blob file?
pub open spec fn apart(given: Set<Given>, blob_key: Seq<u8>) -> bool {
    forall|a: Given, b: Given|
        given.contains(a) && given.contains(b) && #[trigger] a.path(blob_key) == #[trigger] b.path(
            blob_key,
        ) ==> a == b
}

impl Store {
    /// Every row was written for a chunk that was given, and its blob file is in
    /// place. And whatever else lies where the blob file of such a chunk belongs
    /// is either what the blob file holds, or of another length: a write that
    /// was cut short.
    pub open spec fn intact(self, given: Set<Given>, blob_key: Seq<u8>) -> bool {
        &&& forall|n: RowName| #[trigger]
            self.rows.contains_key(n) ==> {
                let (chunk, row) = self.rows[n];
                &&& chunk.name == n
                &&& given.contains(chunk)
                &&& chunk.has_row(row, blob_key)
                &&& self.files.contains_key(chunk.path(blob_key))
                &&& self.files[chunk.path(blob_key)] == chunk.sealed(blob_key)
            }
        &&& forall|chunk: Given| #[trigger]
            given.contains(chunk) && self.files.contains_key(chunk.path(blob_key))
                && self.files[chunk.path(blob_key)].len() == chunk.contents.len()
                ==> self.files[chunk.path(blob_key)] == chunk.sealed(blob_key)
    }

    /// Length of the file at a path, if there is one.
    pub open spec fn file_len(self, path: Seq<Seq<char>>) -> Option<nat> {
        if self.files.contains_key(path) {
            Some(self.files[path].len())
        } else {
            None
        }
    }

    /// The store after a file was written.
    pub open spec fn with_file(self, path: Seq<Seq<char>>, bytes: Seq<u8>) -> Store {
        Store { files: self.files.insert(path, bytes), rows: self.rows }
    }

    /// The store after a file was removed.
    pub open spec fn without_file(self, path: Seq<Seq<char>>) -> Store {
        Store { files: self.files.remove(path), rows: self.rows }
    }

    /// The store after a row was written.
    pub open spec fn with_row(self, chunk: Given, row: sql::Chunk) -> Store {
        Store { files: self.files, rows: self.rows.insert(chunk.name, (chunk, row)) }
    }

    /// The store after rows were removed.
    pub open spec fn without_rows(self, names: Set<RowName>) -> Store {
        Store { files: self.files, rows: self.rows.remove_keys(names) }
    }

    /// The store after files were removed.
    pub open spec fn without_files(self, paths: Set<Seq<Seq<char>>>) -> Store {
        Store { files: self.files.remove_keys(paths), rows: self.rows }
    }

    /// Does a row under one of these names lead to the blob file at this path?
    pub open spec fn leads(self, names: Set<RowName>, path: Seq<Seq<char>>) -> bool {
        exists|n: RowName| #[trigger]
            self.rows.contains_key(n) && names.contains(n) && path == blob::blob_path(
                self.rows[n].1.nonce@,
            )
    }

    /// Does a row hold this identifier?
    pub open spec fn references(self, id: Seq<u8>) -> bool {
        exists|n: RowName| #[trigger] self.rows.contains_key(n) && self.rows[n].1.nonce@ == id
    }

    /// Must an upload write the blob file of a chunk?
    pub open spec fn lacks(self, chunk: Given, blob_key: Seq<u8>) -> bool {
        let found = self.file_len(chunk.path(blob_key));
        found is None || found->0 != chunk.contents.len()
    }

    /// The store after an upload has seen to the blob file.
    pub open spec fn after_file(self, chunk: Given, upload: ChunkUpload, blob_key: Seq<u8>) -> Store {
        if self.lacks(chunk, blob_key) {
            self.with_file(blob::path_text(upload.path@), upload.data@)
        } else {
            self
        }
    }

    /// The store after an upload has ended, with the file removed that it asks
    /// for.
    pub open spec fn after_end(self, end: UploadEnd) -> Store {
        match end.remove {
            Some(path) => self.without_file(blob::path_text(path@)),
            None => self,
        }
    }
}

/// What the database makes of a chunk that it accepts is the upload of that
/// chunk.
pub proof fn lemma_upload_made(chunk: Given, upload: ChunkUpload, blob_key: Seq<u8>)
    requires
        upload.seals(
            chunk.name.class,
            chunk.name.key,
            chunk.name.idx,
            chunk.contents,
            chunk.is_final,
            blob_key,
        ),
        chunk_read(
            chunk.name.class,
            chunk.name.key,
            chunk.name.idx,
            chunk.is_final,
            blob_key,
            upload.row,
            upload.data@,
        ) == Ok::<Seq<u8>, DbError>(chunk.contents),
    ensures
        chunk.has_upload(upload, blob_key),
{
    assert(upload.data@ == chunk.sealed(blob_key));
}

/// What asking the store for a chunk gives: the row under its name, if any, leads
/// to a blob file, and both are what the contents are read from.
pub open spec fn store_read(
    store: Store,
    blob_key: Seq<u8>,
    name: RowName,
    is_final: bool,
) -> Result<Option<Seq<u8>>, DbError> {
    chunk_got(
        name.class,
        name.key,
        name.idx,
        is_final,
        blob_key,
        if store.rows.contains_key(name) {
            let row = store.rows[name].1;
            Some(
                (
                    row,
                    store.files[blob::blob_path(
                        blob_id(name.class, name.key, name.idx, row.hash@, is_final, blob_key),
                    )],
                ),
            )
        } else {
            None
        },
    )
}

/// A chunk that was committed reads back: its row leads to a blob file that is in
/// place, and what that holds opens to the contents that were given. Asked for
/// with the wrong finality it is refused, and an index that has no row reads as
/// nothing.
pub proof fn lemma_committed_reads(
    store: Store,
    given: Set<Given>,
    blob_key: Seq<u8>,
    name: RowName,
    is_final: bool,
)
    requires
        store.intact(given, blob_key),
    ensures
        !store.rows.contains_key(name) ==> store_read(store, blob_key, name, is_final) == Ok::<
            Option<Seq<u8>>,
            DbError,
        >(None),
        store.rows.contains_key(name) ==> {
            let (chunk, row) = store.rows[name];
            if is_final == chunk.is_final {
                &&& store.files.contains_key(
                    blob::blob_path(
                        blob_id(name.class, name.key, name.idx, row.hash@, is_final, blob_key),
                    ),
                )
                &&& store_read(store, blob_key, name, is_final) == Ok::<Option<Seq<u8>>, DbError>(
                    Some(chunk.contents),
                )
            } else {
                store_read(store, blob_key, name, is_final) == Err::<Option<Seq<u8>>, DbError>(
                    DbError::FinalityMismatch,
                )
            }
        },
{
}

/// Where a blob file must be written, no row leads to its path.
proof fn lemma_lacking_unreferenced(
    store: Store,
    given: Set<Given>,
    blob_key: Seq<u8>,
    chunk: Given,
    upload: ChunkUpload,
    name: RowName,
)
    requires
        store.intact(given, blob_key),
        apart(given, blob_key),
        given.contains(chunk),
        chunk.has_upload(upload, blob_key),
        store.lacks(chunk, blob_key),
        store.rows.contains_key(name),
    ensures
        store.rows[name].0.path(blob_key) != chunk.path(blob_key),
{
    let other = store.rows[name].0;
    if other.path(blob_key) == chunk.path(blob_key) {
        assert(other == chunk);
        assert(upload.data@ == chunk.sealed(blob_key));
    }
}

/// Seeing to the blob file of an upload keeps the store intact and puts the file
/// in place.
pub proof fn lemma_file_step(
    store: Store,
    given: Set<Given>,
    blob_key: Seq<u8>,
    chunk: Given,
    upload: ChunkUpload,
)
    requires
        store.intact(given, blob_key),
        apart(given, blob_key),
        given.contains(chunk),
        chunk.has_upload(upload, blob_key),
    ensures
        store.after_file(chunk, upload, blob_key).intact(given, blob_key),
        store.after_file(chunk, upload, blob_key).files.contains_key(chunk.path(blob_key)),
        store.after_file(chunk, upload, blob_key).files[chunk.path(blob_key)] == chunk.sealed(
            blob_key,
        ),
{
    let after = store.after_file(chunk, upload, blob_key);
    assert(blob::path_text(upload.path@) == chunk.path(blob_key));
    assert(upload.data@ == chunk.sealed(blob_key));
    if store.lacks(chunk, blob_key) {
        assert forall|n: RowName| #[trigger] after.rows.contains_key(n) implies {
            let (c, row) = after.rows[n];
            &&& c.name == n
            &&& given.contains(c)
            &&& c.has_row(row, blob_key)
            &&& after.files.contains_key(c.path(blob_key))
            &&& after.files[c.path(blob_key)] == c.sealed(blob_key)
        } by {
            assert(store.rows.contains_key(n));
            lemma_lacking_unreferenced(store, given, blob_key, chunk, upload, n);
        }
        assert forall|c: Given| #[trigger]
            given.contains(c) && after.files.contains_key(c.path(blob_key)) && after.files[c.path(
                blob_key,
            )].len() == c.contents.len() implies after.files[c.path(blob_key)] == c.sealed(
            blob_key,
        ) by {
            if c.path(blob_key) == chunk.path(blob_key) {
                assert(c == chunk);
            }
        }
    }
}

/// A write of a blob file that is cut short leaves the store intact: no row leads
/// to the file yet, and its length gives it away.
pub proof fn lemma_torn_write(
    store: Store,
    given: Set<Given>,
    blob_key: Seq<u8>,
    chunk: Given,
    upload: ChunkUpload,
    torn: Seq<u8>,
)
    requires
        store.intact(given, blob_key),
        apart(given, blob_key),
        given.contains(chunk),
        chunk.has_upload(upload, blob_key),
        store.lacks(chunk, blob_key),
        torn.len() != chunk.contents.len(),
    ensures
        store.with_file(blob::path_text(upload.path@), torn).intact(given, blob_key),
{
    let after = store.with_file(blob::path_text(upload.path@), torn);
    assert(blob::path_text(upload.path@) == chunk.path(blob_key));
    assert forall|n: RowName| #[trigger] after.rows.contains_key(n) implies {
        let (c, row) = after.rows[n];
        &&& c.name == n
        &&& given.contains(c)
        &&& c.has_row(row, blob_key)
        &&& after.files.contains_key(c.path(blob_key))
        &&& after.files[c.path(blob_key)] == c.sealed(blob_key)
    } by {
        assert(store.rows.contains_key(n));
        lemma_lacking_unreferenced(store, given, blob_key, chunk, upload, n);
    }
    assert forall|c: Given| #[trigger]
        given.contains(c) && after.files.contains_key(c.path(blob_key)) && after.files[c.path(
            blob_key,
        )].len() == c.contents.len() implies after.files[c.path(blob_key)] == c.sealed(blob_key) by {
        if c.path(blob_key) == chunk.path(blob_key) {
            assert(c == chunk);
        }
    }
}

/// Removing a file that no row leads to keeps the store intact.
pub proof fn lemma_unreferenced_removed(
    store: Store,
    given: Set<Given>,
    blob_key: Seq<u8>,
    path: Seq<Seq<char>>,
)
    requires
        store.intact(given, blob_key),
        forall|n: RowName| #[trigger]
            store.rows.contains_key(n) ==> store.rows[n].0.path(blob_key) != path,
    ensures
        store.without_file(path).intact(given, blob_key),
{
    let after = store.without_file(path);
    assert forall|n: RowName| #[trigger] after.rows.contains_key(n) implies {
        let (c, row) = after.rows[n];
        &&& c.name == n
        &&& given.contains(c)
        &&& c.has_row(row, blob_key)
        &&& after.files.contains_key(c.path(blob_key))
        &&& after.files[c.path(blob_key)] == c.sealed(blob_key)
    } by {
        assert(store.rows.contains_key(n));
    }
    assert forall|c: Given| #[trigger]
        given.contains(c) && after.files.contains_key(c.path(blob_key)) && after.files[c.path(
            blob_key,
        )].len() == c.contents.len() implies after.files[c.path(blob_key)] == c.sealed(blob_key) by {
        assert(store.files.contains_key(c.path(blob_key)));
    }
}

/// An upload whose row is refused leaves the store intact, with its rows as they
/// were: it takes along the blob file that it put in place, and no other.
pub proof fn lemma_refused_upload(
    store: Store,
    given: Set<Given>,
    blob_key: Seq<u8>,
    chunk: Given,
    upload: ChunkUpload,
    end: UploadEnd,
)
    requires
        store.intact(given, blob_key),
        apart(given, blob_key),
        given.contains(chunk),
        chunk.has_upload(upload, blob_key),
        end.remove is Some == store.lacks(chunk, blob_key),
        end.remove is Some ==> blob::path_text(end.remove->0@) == blob::path_text(upload.path@),
    ensures
        store.after_file(chunk, upload, blob_key).after_end(end).intact(given, blob_key),
        store.after_file(chunk, upload, blob_key).after_end(end).rows == store.rows,
{
    let mid = store.after_file(chunk, upload, blob_key);
    lemma_file_step(store, given, blob_key, chunk, upload);
    if store.lacks(chunk, blob_key) {
        assert forall|n: RowName| #[trigger] mid.rows.contains_key(n) implies mid.rows[n].0.path(
            blob_key,
        ) != chunk.path(blob_key) by {
            assert(store.rows.contains_key(n));
            lemma_lacking_unreferenced(store, given, blob_key, chunk, upload, n);
        }
        lemma_unreferenced_removed(mid, given, blob_key, chunk.path(blob_key));
    }
}

/// An upload whose row is accepted leaves the store intact: the chunk is
/// committed, and of the blob files only the one that its row led to before is
/// removed.
///
/// `prev` is the identifier that the row held before, where that is another one.
pub proof fn lemma_accepted_upload(
    store: Store,
    given: Set<Given>,
    blob_key: Seq<u8>,
    chunk: Given,
    upload: ChunkUpload,
    prev: Option<[u8; 32]>,
    end: UploadEnd,
)
    requires
        store.intact(given, blob_key),
        apart(given, blob_key),
        given.contains(chunk),
        chunk.has_upload(upload, blob_key),
        prev is Some ==> store.rows.contains_key(chunk.name) && prev->0@
            == store.rows[chunk.name].1.nonce@ && prev->0@ != upload.row.nonce@,
        end.remove is Some == (prev is Some),
        prev is Some ==> blob::path_text(end.remove->0@) == blob::blob_path(prev->0@),
    ensures
        ({
            let after = store.after_file(chunk, upload, blob_key).with_row(
                chunk,
                upload.row,
            ).after_end(end);
            &&& after.intact(given, blob_key)
            &&& after.rows == store.rows.insert(chunk.name, (chunk, upload.row))
        }),
{
    let mid = store.after_file(chunk, upload, blob_key);
    lemma_file_step(store, given, blob_key, chunk, upload);
    let committed = mid.with_row(chunk, upload.row);
    assert(committed.intact(given, blob_key)) by {
        assert forall|n: RowName| #[trigger] committed.rows.contains_key(n) implies {
            let (c, row) = committed.rows[n];
            &&& c.name == n
            &&& given.contains(c)
            &&& c.has_row(row, blob_key)
            &&& committed.files.contains_key(c.path(blob_key))
            &&& committed.files[c.path(blob_key)] == c.sealed(blob_key)
        } by {
            if n != chunk.name {
                assert(mid.rows.contains_key(n));
            }
        }
    }
    if prev is Some {
        let old_chunk = store.rows[chunk.name].0;
        assert(old_chunk.id(blob_key) == prev->0@);
        assert forall|n: RowName| #[trigger] committed.rows.contains_key(
            n,
        ) implies committed.rows[n].0.path(blob_key) != old_chunk.path(blob_key) by {
            let c = committed.rows[n].0;
            if c.path(blob_key) == old_chunk.path(blob_key) {
                assert(given.contains(c) && given.contains(old_chunk));
                assert(c == old_chunk);
                assert(n == chunk.name);
                assert(c == chunk);
            }
        }
        lemma_unreferenced_removed(committed, given, blob_key, old_chunk.path(blob_key));
    }
}

/// The cleanup task leaves the store intact, whatever it does about a file that it
/// checks: it removes the file only where no row holds the identifier that the
/// file is named by, and then no row leads to it.
pub proof fn lemma_cleanup_keeps(
    store: Store,
    given: Set<Given>,
    blob_key: Seq<u8>,
    dir: Seq<Seq<char>>,
    name: Seq<char>,
    is_stale: bool,
    step: upkeep::CleanupStep,
    referenced: Result<bool, String>,
)
    requires
        store.intact(given, blob_key),
        upkeep::cleanup_decides(dir, name, false, is_stale, step),
        step is Check,
        referenced is Ok ==> referenced->Ok_0 == store.references(step->Check_0@),
    ensures
        upkeep::lookup_decides(referenced) == Ok::<bool, String>(true) ==> store.without_file(
            dir.push(name),
        ).intact(given, blob_key) && forall|n: RowName| #[trigger]
            store.rows.contains_key(n) ==> store.rows[n].0.path(blob_key) != dir.push(name),
        upkeep::lookup_decides(referenced) == Ok::<bool, String>(false) ==> store.references(
            step->Check_0@,
        ),
        upkeep::lookup_decides(referenced) is Err <==> referenced is Err,
{
    let id = step->Check_0@;
    if upkeep::lookup_decides(referenced) == Ok::<bool, String>(true) {
        assert forall|n: RowName| #[trigger] store.rows.contains_key(
            n,
        ) implies store.rows[n].0.path(blob_key) != dir.push(name) by {
            let (chunk, row) = store.rows[n];
            assert(row.nonce@ == chunk.id(blob_key));
            assert(row.nonce@ != id);
            if chunk.path(blob_key) == blob::blob_path(id) {
                blob::lemma_paths_distinct(row.nonce@, id);
            }
        }
        lemma_unreferenced_removed(store, given, blob_key, dir.push(name));
    }
}

/// Removing rows, and after them blob files that they led to, leaves the store
/// intact: no other row led there. The removed chunks read as nothing, and every
/// other chunk reads as before.
///
/// That holds after any of the files: where the removal is cut short, the files
/// that are left are ones that no row leads to.
pub proof fn lemma_removed_rows(
    store: Store,
    given: Set<Given>,
    blob_key: Seq<u8>,
    names: Set<RowName>,
    gone: Set<Seq<Seq<char>>>,
)
    requires
        store.intact(given, blob_key),
        apart(given, blob_key),
        forall|path: Seq<Seq<char>>| #[trigger] gone.contains(path) ==> store.leads(names, path),
    ensures
        store.without_rows(names).without_files(gone).intact(given, blob_key),
        forall|n: RowName, is_final: bool|
            names.contains(n) ==> #[trigger] store_read(
                store.without_rows(names).without_files(gone),
                blob_key,
                n,
                is_final,
            ) == Ok::<Option<Seq<u8>>, DbError>(None),
        forall|n: RowName, is_final: bool|
            !names.contains(n) ==> #[trigger] store_read(
                store.without_rows(names).without_files(gone),
                blob_key,
                n,
                is_final,
            ) == store_read(store, blob_key, n, is_final),
{
    let after = store.without_rows(names).without_files(gone);
    assert forall|n: RowName| #[trigger] after.rows.contains_key(n) implies {
        let (c, row) = after.rows[n];
        &&& c.name == n
        &&& given.contains(c)
        &&& c.has_row(row, blob_key)
        &&& after.files.contains_key(c.path(blob_key))
        &&& after.files[c.path(blob_key)] == c.sealed(blob_key)
    } by {
        assert(store.rows.contains_key(n) && !names.contains(n));
        let c = store.rows[n].0;
        if gone.contains(c.path(blob_key)) {
            let m = choose|m: RowName| #[trigger]
                store.rows.contains_key(m) && names.contains(m) && c.path(blob_key)
                    == blob::blob_path(store.rows[m].1.nonce@);
            let other = store.rows[m].0;
            assert(other.path(blob_key) == c.path(blob_key));
            assert(given.contains(other) && given.contains(c));
            assert(other == c);
        }
    }
    assert forall|c: Given| #[trigger]
        given.contains(c) && after.files.contains_key(c.path(blob_key)) && after.files[c.path(
            blob_key,
        )].len() == c.contents.len() implies after.files[c.path(blob_key)] == c.sealed(blob_key) by {
        assert(store.files.contains_key(c.path(blob_key)));
    }
    assert forall|n: RowName, is_final: bool| !names.contains(n) implies #[trigger] store_read(
        after,
        blob_key,
        n,
        is_final,
    ) == store_read(store, blob_key, n, is_final) by {
        lemma_committed_reads(store, given, blob_key, n, is_final);
        lemma_committed_reads(after, given, blob_key, n, is_final);
        assert(after.rows.contains_key(n) == store.rows.contains_key(n));
    }
}

/// The names of the chunk rows of an entry.
pub open spec fn entry_names(class: Seq<char>, key: Seq<char>) -> Set<RowName> {
    Set::new(|n: RowName| n.class == class && n.key == key)
}

/// The first of a list of paths.
pub open spec fn first_paths(paths: Seq<Vec<String>>, count: int) -> Set<Seq<Seq<char>>> {
    Set::new(
        |path: Seq<Seq<char>>|
            exists|i: int|
                0 <= i < count && i < paths.len() && path == blob::path_text(
                    (#[trigger] paths[i])@,
                ),
    )
}

/// Removing an entry, that is all its chunk rows and after them the blob files
/// that the database names for those rows, leaves the store intact, however many
/// of the files are gone yet: the chunks of the entry read as nothing, and those
/// of every other entry read as before. In the end no blob file of the entry is
/// left.
pub proof fn lemma_removed_entry(
    store: Store,
    given: Set<Given>,
    blob_key: Seq<u8>,
    class: Seq<char>,
    key: Seq<char>,
    rows: Seq<sql::Chunk>,
    paths: Seq<Vec<String>>,
    count: int,
)
    requires
        store.intact(given, blob_key),
        apart(given, blob_key),
        forall|i: int|
            0 <= i < rows.len() ==> exists|n: RowName| #[trigger]
                store.rows.contains_key(n) && entry_names(class, key).contains(n)
                    && store.rows[n].1 == #[trigger] rows[i],
        forall|n: RowName| #[trigger]
            store.rows.contains_key(n) && entry_names(class, key).contains(n) ==> rows.contains(
                store.rows[n].1,
            ),
        paths.len() == rows.len(),
        forall|i: int|
            0 <= i < rows.len() ==> blob::path_text((#[trigger] paths[i])@) == blob::blob_path(
                rows[i].nonce@,
            ),
        0 <= count <= paths.len(),
    ensures
        ({
            let after = store.without_rows(entry_names(class, key)).without_files(
                first_paths(paths, count),
            );
            &&& after.intact(given, blob_key)
            &&& forall|n: RowName, is_final: bool|
                #![trigger store_read(after, blob_key, n, is_final)]
                store_read(after, blob_key, n, is_final) == if n.class == class && n.key == key {
                    Ok::<Option<Seq<u8>>, DbError>(None)
                } else {
                    store_read(store, blob_key, n, is_final)
                }
            &&& forall|n: RowName| #[trigger]
                store.rows.contains_key(n) && n.class == class && n.key == key && count
                    == paths.len() ==> !after.files.contains_key(store.rows[n].0.path(blob_key))
        }),
{
    let names = entry_names(class, key);
    let gone = first_paths(paths, count);
    assert forall|path: Seq<Seq<char>>| #[trigger] gone.contains(path) implies store.leads(
        names,
        path,
    ) by {
        let i = choose|i: int|
            0 <= i < count && i < paths.len() && path == blob::path_text((#[trigger] paths[i])@);
        let n = choose|n: RowName| #[trigger]
            store.rows.contains_key(n) && names.contains(n) && store.rows[n].1 == rows[i];
        assert(path == blob::blob_path(store.rows[n].1.nonce@));
    }
    lemma_removed_rows(store, given, blob_key, names, gone);
    let after = store.without_rows(names).without_files(gone);
    assert forall|n: RowName| #[trigger]
        store.rows.contains_key(n) && n.class == class && n.key == key && count
            == paths.len() implies !after.files.contains_key(store.rows[n].0.path(blob_key)) by {
        assert(names.contains(n));
        let i = choose|i: int| 0 <= i < rows.len() && rows[i] == store.rows[n].1;
        assert(blob::path_text(paths[i]@) == store.rows[n].0.path(blob_key));
        assert(gone.contains(store.rows[n].0.path(blob_key)));
    }
}

/// An empty store is intact.
pub proof fn lemma_empty_intact(given: Set<Given>, blob_key: Seq<u8>)
    ensures
        (Store { files: Map::empty(), rows: Map::empty() }).intact(given, blob_key),
{
}

/// Can the two chunks be told apart by class and key: are they of one entry, or does
/// neither hold a zero character, which could be taken for the end of a field?
pub open spec fn told_apart(a: Given, b: Given) -> bool {
    (a.name.class == b.name.class && a.name.key == b.name.key) || (!a.name.class.contains('\0')
        && !a.name.key.contains('\0') && !b.name.class.contains('\0')
        && !b.name.key.contains('\0'))
}

/// Do the digest and the key derivation give different outputs wherever they are
/// asked about different inputs for these chunks?
pub open spec fn no_collisions(given: Set<Given>, blob_key: Seq<u8>) -> bool {
    forall|a: Given, b: Given| #[trigger]
        given.contains(a) && #[trigger] given.contains(b) ==> {
            &&& told_apart(a, b)
            &&& crypto::sha256_of(a.contents) == crypto::sha256_of(b.contents) ==> a.contents
                == b.contents
            &&& crypto::hkdf_of(None, blob_key, a.input()) == crypto::hkdf_of(
                None,
                blob_key,
                b.input(),
            ) ==> a.input() == b.input()
        }
}

impl Given {
    /// What the identifier of its blob file is derived from.
    pub open spec fn input(self) -> Seq<u8> {
        blob::adata_of(
            self.name.class,
            self.name.key,
            self.name.idx,
            crypto::sha256_of(self.contents),
            self.is_final,
        )
    }
}

/// No two chunks that differ in class, key, index, contents or finality share a blob
/// file, as long as neither the digest nor the key derivation collides.
pub proof fn lemma_apart(given: Set<Given>, blob_key: Seq<u8>)
    requires
        no_collisions(given, blob_key),
    ensures
        apart(given, blob_key),
{
    assert forall|a: Given, b: Given|
        given.contains(a) && given.contains(b) && #[trigger] a.path(blob_key) == #[trigger] b.path(
            blob_key,
        ) implies a == b by {
        assert(a.path(blob_key)[3] == b.path(blob_key)[3]);
        crate::hexa::lemma_hex_injective(a.id(blob_key), b.id(blob_key));
        assert(a.id(blob_key) == crypto::hkdf_of(None, blob_key, a.input()));
        assert(b.id(blob_key) == crypto::hkdf_of(None, blob_key, b.input()));
        super::lemma_inputs_tell(
            (
                a.name.class,
                a.name.key,
                a.name.idx,
                crypto::sha256_of(a.contents),
                a.is_final,
            ),
            (
                b.name.class,
                b.name.key,
                b.name.idx,
                crypto::sha256_of(b.contents),
                b.is_final,
            ),
        );
    }
}

/// The name of the row of a chunk.
pub open spec fn name_of(class: &str, key: &str, idx: i64) -> RowName {
    RowName { class: class@, key: key@, idx }
}

/// Storing a chunk and reading it back, whatever was stored before, also under the
/// same index.
///
/// The upload is made, its blob file is written where it must be, its row is
/// accepted, and the file that it asks for is removed. Then the chunk reads as what
/// was uploaded last, from the file at the path that its row leads to, and every
/// other chunk reads as before. And the store is such that this holds of the next
/// upload too.
pub proof fn lemma_stored_reads(
    store: Store,
    given: Set<Given>,
    db: &VmIoDb,
    class: &str,
    key: &str,
    idx: i64,
    data: Vec<u8>,
    is_final: bool,
    made: Result<ChunkUpload, DbError>,
    found: Option<u64>,
    wrote: bool,
    before: Option<[u8; 32]>,
    prev: Option<[u8; 32]>,
    end: UploadEnd,
    path: Result<Option<Vec<String>>, DbError>,
    file: Vec<u8>,
    got: Result<Option<Vec<u8>>, DbError>,
) -> (after: Store)
    requires
        store.intact(given, db.blob_key()),
        no_collisions(given, db.blob_key()),
        given.contains(
            (Given { name: name_of(class, key, idx), contents: data@, is_final }),
        ),
        call_ensures(VmIoDb::upsert_chunk, (db, class, key, idx, data, is_final), made),
        made is Ok,
        match store.file_len(blob::path_text(made->Ok_0.path@)) {
            Some(len) => found is Some && found->0 == len,
            None => found is None,
        },
        call_ensures(ChunkUpload::must_write, (&made->Ok_0, found), wrote),
        before is Some <==> store.rows.contains_key(name_of(class, key, idx)),
        before is Some ==> before->0@ == store.rows[name_of(class, key, idx)].1.nonce@,
        call_ensures(super::replaced_blob, (before, &made->Ok_0.row.nonce), prev),
        call_ensures(
            ChunkUpload::finish,
            (&made->Ok_0, wrote, Ok::<Option<[u8; 32]>, String>(prev)),
            end,
        ),
        call_ensures(
            VmIoDb::chunk_path,
            (db, class, key, idx, is_final, Some(&made->Ok_0.row)),
            path,
        ),
        path is Ok && path->Ok_0 is Some ==> file@ == uploaded(
            store,
            made->Ok_0,
            (Given { name: name_of(class, key, idx), contents: data@, is_final }),
            wrote,
            end,
        ).files[blob::path_text(path->Ok_0->0@)],
        call_ensures(
            VmIoDb::get_chunk,
            (db, class, key, idx, is_final, Some((&made->Ok_0.row, file))),
            got,
        ),
    ensures
        after == uploaded(
            store,
            made->Ok_0,
            (Given { name: name_of(class, key, idx), contents: data@, is_final }),
            wrote,
            end,
        ),
        after.intact(given, db.blob_key()),
        end.result is Ok,
        path is Ok && path->Ok_0 is Some,
        after.files.contains_key(blob::path_text(path->Ok_0->0@)),
        got is Ok && got->Ok_0 is Some && got->Ok_0->0@ == data@,
        forall|n: RowName, asked: bool|
            n != name_of(class, key, idx) ==> #[trigger] store_read(
                after,
                db.blob_key(),
                n,
                asked,
            ) == store_read(store, db.blob_key(), n, asked),
{
    let name = name_of(class, key, idx);
    let chunk = Given { name, contents: data@, is_final };
    let upload = made->Ok_0;
    let blob_key = db.blob_key();
    lemma_apart(given, blob_key);
    lemma_upload_made(chunk, upload, blob_key);
    assert(blob::path_text(upload.path@) == chunk.path(blob_key));
    assert(wrote == store.lacks(chunk, blob_key));
    lemma_accepted_upload(store, given, blob_key, chunk, upload, prev, end);
    let after = uploaded(store, upload, chunk, wrote, end);
    assert(after == store.after_file(chunk, upload, blob_key).with_row(
        chunk,
        upload.row,
    ).after_end(end));
    assert(after.rows.contains_key(name) && after.rows[name] == (chunk, upload.row));
    lemma_committed_reads(after, given, blob_key, name, is_final);
    assert forall|n: RowName, asked: bool| n != name implies #[trigger] store_read(
        after,
        blob_key,
        n,
        asked,
    ) == store_read(store, blob_key, n, asked) by {
        lemma_committed_reads(store, given, blob_key, n, asked);
        lemma_committed_reads(after, given, blob_key, n, asked);
    }
    after
}

/// The store after an upload put its file in place, where it did, its row was
/// written, and the file that it asks for at its end was removed.
pub open spec fn uploaded(
    store: Store,
    upload: ChunkUpload,
    chunk: Given,
    wrote: bool,
    end: UploadEnd,
) -> Store {
    let filed = if wrote {
        store.with_file(blob::path_text(upload.path@), upload.data@)
    } else {
        store
    };
    filed.with_row(chunk, upload.row).after_end(end)
}

} // verus!
