//! The database: sealed chunks, statements, and upkeep.

use std::collections::HashMap;

use rusqlite::types::Value;
use rusqlite::Connection;
use v_m_io::db::blob::{
    after_write, decrypt_chunk, derive_sub_key, encrypt_chunk, gen_id, gen_path, id_path,
    is_own_path, is_shard_name, make_adata, parse_name, BlobError, WriteOutcome, WriteStep,
};
use v_m_io::db::key::RootKeys;
use v_m_io::db::sql::{
    collect_rows, conn_plans, list, sqlite_key, Chunk, RingPool, SqlParam, GET_ALL_CHUNKS,
    GET_CHUNK, GET_ENTRY, GET_EXPIRED, BLOB_ID_EXISTS, RM, SCHEMA, UPSERT, UPSERT_CHUNK,
};
use v_m_io::db::upkeep::{
    after_lookup, cleanup_step, prune_step, released_paths, unix_micros, CleanupStep, PruneEvent,
    PruneStep,
};
use v_m_io::db::{
    replaced_blob, DbError, MicrosBound, VmIoDb, VmIoDbEntry, VmIoDbListFilter, VmIoDbListSort,
    CHUNK_SIZE,
};

/// A database in memory, with its blob files in a map.
struct Store {
    conn: Connection,
    db: VmIoDb,
    files: HashMap<Vec<String>, Vec<u8>>,
}

fn blob32(row: &rusqlite::Row, at: usize) -> [u8; 32] {
    let bytes: Vec<u8> = row.get(at).unwrap();
    bytes.try_into().unwrap()
}

fn chunk_row(row: &rusqlite::Row) -> Chunk {
    Chunk {
        idx: row.get(0).unwrap(),
        hash: blob32(row, 1),
        nonce: blob32(row, 2),
        tag: blob32(row, 3),
        size: row.get(4).unwrap(),
        is_final: row.get(5).unwrap(),
    }
}

fn text(s: &str) -> Value {
    Value::Text(s.to_string())
}

impl Store {
    fn new() -> Store {
        let conn = Connection::open_in_memory().unwrap();
        conn.execute_batch("PRAGMA foreign_keys = ON;").unwrap();
        conn.execute_batch(SCHEMA).unwrap();
        let (db, _) = VmIoDb::new(&[0xdb; 32]);
        Store {
            conn,
            db,
            files: HashMap::new(),
        }
    }

    fn upsert(
        &self,
        class: &str,
        key: &str,
        modified_at_micros: i64,
        expires_at_micros: Option<i64>,
        metadata: Option<Vec<u8>>,
    ) -> Result<(), String> {
        let row = self
            .db
            .upsert(
                class.to_string(),
                key.to_string(),
                modified_at_micros,
                expires_at_micros,
                metadata,
            )
            .map_err(|err| err.message())?;
        let params = vec![
            Value::Text(row.class),
            Value::Text(row.key),
            Value::Integer(row.modified_at_micros),
            row.expires_at_micros.map_or(Value::Null, Value::Integer),
            row.metadata.map_or(Value::Null, Value::Blob),
        ];
        self.conn
            .execute(UPSERT, rusqlite::params_from_iter(params))
            .map(|_| ())
            .map_err(|err| err.to_string())
    }

    fn chunk(&self, class: &str, key: &str, idx: i64) -> Option<Chunk> {
        self.conn
            .query_row(
                GET_CHUNK,
                rusqlite::params_from_iter(vec![text(class), text(key), Value::Integer(idx)]),
                |row| Ok(chunk_row(row)),
            )
            .ok()
    }

    /// Returns whether the blob file was written.
    fn upsert_chunk(
        &mut self,
        class: &str,
        key: &str,
        idx: i64,
        data: Vec<u8>,
        is_final: bool,
    ) -> Result<bool, String> {
        let upload = self
            .db
            .upsert_chunk(class, key, idx, data, is_final)
            .map_err(|err| err.message())?;
        let found = self.files.get(&upload.path).map(|file| file.len() as u64);
        let wrote = upload.must_write(found);
        if wrote {
            self.files.insert(upload.path.clone(), upload.data.clone());
        }
        let before = self.chunk(class, key, idx).map(|chunk| chunk.nonce);
        let params = vec![
            text(class),
            text(key),
            Value::Integer(idx),
            Value::Blob(upload.row.hash.to_vec()),
            Value::Blob(upload.row.nonce.to_vec()),
            Value::Blob(upload.row.tag.to_vec()),
            Value::Integer(upload.row.size),
            Value::Integer(upload.row.is_final as i64),
        ];
        let written = self
            .conn
            .execute(UPSERT_CHUNK, rusqlite::params_from_iter(params))
            .map(|_| replaced_blob(before, &upload.row.nonce))
            .map_err(|err| err.to_string());
        let end = upload.finish(wrote, written);
        if let Some(path) = end.remove {
            self.files.remove(&path);
        }
        end.result.map_err(|err| err.message()).map(|()| wrote)
    }

    fn get(&self, class: &str, key: &str) -> Option<VmIoDbEntry> {
        self.conn
            .query_row(
                GET_ENTRY,
                rusqlite::params_from_iter(vec![text(class), text(key)]),
                |row| {
                    Ok(VmIoDbEntry {
                        class: class.to_string(),
                        key: key.to_string(),
                        modified_at_micros: row.get(0)?,
                        expires_at_micros: row.get(1)?,
                        metadata: row.get(2)?,
                        chunk_count: row.get(3)?,
                    })
                },
            )
            .ok()
    }

    fn get_chunk(
        &self,
        class: &str,
        key: &str,
        idx: i64,
        is_final: bool,
    ) -> Result<Option<Vec<u8>>, String> {
        let row = self.chunk(class, key, idx);
        let path = self
            .db
            .chunk_path(class, key, idx, is_final, row.as_ref())
            .map_err(|err| err.message())?;
        let found = match (&row, path) {
            (Some(row), Some(path)) => {
                let data = self.files.get(&path).ok_or("no such file".to_string())?;
                Some((row, data.clone()))
            }
            _ => None,
        };
        self.db
            .get_chunk(class, key, idx, is_final, found)
            .map_err(|err| err.message())
    }

    fn list(
        &self,
        class: &str,
        filter: VmIoDbListFilter,
        sort: VmIoDbListSort,
        limit: i64,
    ) -> Vec<VmIoDbEntry> {
        let query = self.db.list(class.to_string(), filter, sort, limit);
        let params: Vec<Value> = query
            .params
            .into_iter()
            .map(|param| match param {
                SqlParam::Text(text) => Value::Text(text),
                SqlParam::Int(n) => Value::Integer(n),
            })
            .collect();
        let mut statement = self.conn.prepare(&query.sql).unwrap();
        let rows: Vec<Result<VmIoDbEntry, String>> = statement
            .query_map(rusqlite::params_from_iter(params), |row| {
                Ok(VmIoDbEntry {
                    class: class.to_string(),
                    key: row.get(0)?,
                    modified_at_micros: row.get(1)?,
                    expires_at_micros: row.get(2)?,
                    metadata: row.get(3)?,
                    chunk_count: row.get(4)?,
                })
            })
            .unwrap()
            .map(|row| row.map_err(|err| err.to_string()))
            .collect();
        collect_rows(rows).unwrap()
    }

    fn keys(&self, filter: VmIoDbListFilter, sort: VmIoDbListSort, limit: i64) -> Vec<String> {
        self.list("c", filter, sort, limit)
            .into_iter()
            .map(|entry| entry.key)
            .collect()
    }

    fn rm(&mut self, class: &str, key: &str) {
        let names = vec![text(class), text(key)];
        let rows: Vec<Chunk> = {
            let mut statement = self.conn.prepare(GET_ALL_CHUNKS).unwrap();
            let rows = statement
                .query_map(rusqlite::params_from_iter(names.clone()), |row| {
                    Ok(chunk_row(row))
                })
                .unwrap()
                .map(|row| row.map_err(|err| err.to_string()))
                .collect();
            collect_rows(rows).unwrap()
        };
        self.conn
            .execute(RM, rusqlite::params_from_iter(names))
            .unwrap();
        for path in self.db.rm(&rows) {
            self.files.remove(&path);
        }
    }
}

#[test]
fn lib_sanity() {
    let mut db = Store::new();

    db.upsert("c", "k", 42, None, None).unwrap();

    let e = db.get("c", "k").unwrap();
    assert_eq!(42, e.modified_at_micros);
    assert_eq!(0, e.chunk_count);

    db.upsert_chunk("c", "k", 0, b"hello".to_vec(), true)
        .unwrap();

    let e = db.get("c", "k").unwrap();
    assert_eq!(1, e.chunk_count);

    let l = db.list(
        "c",
        VmIoDbListFilter::All,
        VmIoDbListSort::KeyAsc,
        i64::MAX,
    );
    assert_eq!(1, l.len());
    assert_eq!(1, l[0].chunk_count);

    let c = db.get_chunk("c", "k", 0, true).unwrap().unwrap();
    assert_eq!("hello", String::from_utf8_lossy(&c));

    db.rm("c", "k");
    assert!(db.get("c", "k").is_none());
    assert!(db.chunk("c", "k", 0).is_none());
    assert!(db.files.is_empty());
}

#[test]
fn chunk_is_sealed_on_disk() {
    let mut db = Store::new();
    db.upsert("c", "k", 1, None, None).unwrap();
    assert!(db
        .upsert_chunk("c", "k", 0, b"hello".to_vec(), true)
        .unwrap());
    let (path, file) = db.files.iter().next().unwrap();
    assert_eq!(
        "70e372144ae69ec8dbf8dc843a2f433196c53ee3f1c05a766fd2d133c79a59c3",
        path[3]
    );
    assert_eq!(5, file.len());
    assert_ne!(b"hello".to_vec(), *file);
    let row = db.chunk("c", "k", 0).unwrap();
    assert_eq!(path[3], hex::encode(row.nonce));
    assert_eq!(
        "2cf24dba5fb0a30e26e83b2ac5b9e29e1b161e5c1fa7425e73043362938b9824",
        hex::encode(row.hash)
    );
}

#[test]
fn blobs_are_write_once() {
    let mut db = Store::new();
    db.upsert("c", "k", 1, None, None).unwrap();
    assert!(db
        .upsert_chunk("c", "k", 0, b"same".to_vec(), true)
        .unwrap());
    let files = db.files.clone();
    // the same chunk again leaves the file alone
    assert!(!db
        .upsert_chunk("c", "k", 0, b"same".to_vec(), true)
        .unwrap());
    assert_eq!(files, db.files);
    // other contents take the place of the blob they replace
    assert!(db
        .upsert_chunk("c", "k", 0, b"other".to_vec(), true)
        .unwrap());
    assert_eq!(1, db.files.len());
    assert_ne!(files, db.files);
    assert_eq!(
        Some(b"other".to_vec()),
        db.get_chunk("c", "k", 0, true).unwrap()
    );
}

#[test]
fn refused_row_takes_its_own_file_along() {
    let mut db = Store::new();
    // no entry, so the row is refused
    assert!(db
        .upsert_chunk("c", "k", 0, b"data".to_vec(), true)
        .is_err());
    assert!(db.files.is_empty());

    // a file that was there before is not this upload's to remove
    let upload = match db.db.upsert_chunk("c", "k", 0, b"data".to_vec(), true) {
        Ok(upload) => upload,
        Err(_) => panic!("refused"),
    };
    db.files.insert(upload.path.clone(), upload.data.clone());
    assert!(db
        .upsert_chunk("c", "k", 0, b"data".to_vec(), true)
        .is_err());
    assert_eq!(1, db.files.len());
}

#[test]
fn chunk_sizes_are_checked() {
    let (db, _) = VmIoDb::new(&[1; 32]);
    let fails = |len: usize, is_final: bool| match db.upsert_chunk(
        "c",
        "k",
        0,
        vec![0; len],
        is_final,
    ) {
        Ok(_) => panic!("accepted"),
        Err(err) => err.message(),
    };
    assert_eq!(5 * 1024 * 1024, CHUNK_SIZE);
    assert_eq!("non-final chunks must be 5 MiB", fails(CHUNK_SIZE - 1, false));
    assert_eq!("non-final chunks must be 5 MiB", fails(CHUNK_SIZE + 1, false));
    assert_eq!("final chunks cannot be > 5 MiB", fails(CHUNK_SIZE + 1, true));
    assert!(db
        .upsert_chunk("c", "k", 0, vec![0; CHUNK_SIZE], false)
        .is_ok());
    assert!(db
        .upsert_chunk("c", "k", 0, vec![0; CHUNK_SIZE], true)
        .is_ok());
    assert!(db.upsert_chunk("c", "k", 0, Vec::new(), true).is_ok());
}

#[test]
fn reading_checks_the_chunk() {
    let mut db = Store::new();
    db.upsert("c", "k", 1, None, None).unwrap();
    db.upsert_chunk("c", "k", 0, b"hello".to_vec(), true)
        .unwrap();
    assert_eq!(None, db.get_chunk("c", "k", 1, true).unwrap());
    assert_eq!(
        "chunk finality mismatch",
        db.get_chunk("c", "k", 0, false).unwrap_err()
    );
    let row = db.chunk("c", "k", 0).unwrap();
    let data = db.files.values().next().unwrap().clone();
    let read = |class: &str, key: &str, idx: i64, data: Vec<u8>| {
        db.db
            .get_chunk(class, key, idx, true, Some((&row, data)))
            .map_err(|err| err.message())
    };
    assert_eq!(Ok(Some(b"hello".to_vec())), read("c", "k", 0, data.clone()));
    // bound to its place
    for (class, key, idx) in [("d", "k", 0), ("c", "l", 0), ("c", "k", 1)] {
        assert_eq!(
            Err("Invalid tag".to_string()),
            read(class, key, idx, data.clone())
        );
    }
    let mut changed = data.clone();
    changed[0] ^= 1;
    assert_eq!(Err("Invalid tag".to_string()), read("c", "k", 0, changed));
    assert_eq!(
        Err("corrupted chunk".to_string()),
        read("c", "k", 0, data[1..].to_vec())
    );
    let mut foreign = db.chunk("c", "k", 0).unwrap();
    foreign.tag[31] ^= 1;
    assert!(matches!(
        db.db.get_chunk("c", "k", 0, true, Some((&foreign, data.clone()))),
        Err(DbError::Blob(_))
    ));
    let mut negative = row;
    negative.size = -5;
    assert!(matches!(
        db.db.get_chunk("c", "k", 0, true, Some((&negative, data))),
        Err(DbError::CorruptedChunk)
    ));
}

#[test]
fn entry_limits() {
    let db = Store::new();
    let long = |n: usize| "x".repeat(n);
    assert!(db.upsert(&long(256), &long(1024), 1, None, Some(vec![0; 4096])).is_ok());
    assert_eq!(
        Err("class cannot be > 256 bytes".to_string()),
        db.upsert(&long(257), "k", 2, None, None)
    );
    assert_eq!(
        Err("key cannot be > 1024 bytes".to_string()),
        db.upsert("c", &long(1025), 2, None, None)
    );
    assert_eq!(
        Err("metadata cannot be > 4096 bytes".to_string()),
        db.upsert("c", "k", 2, None, Some(vec![0; 4097]))
    );
    // limits are in bytes
    assert!(db.upsert(&"é".repeat(129), "k", 2, None, None).is_err());
    // the first limit that is exceeded is reported
    assert_eq!(
        Err("class cannot be > 256 bytes".to_string()),
        db.upsert(&long(257), &long(1025), 2, None, None)
    );
}

#[test]
fn listing_filters_and_sorts() {
    let db = Store::new();
    db.upsert("c", "b/1", 30, None, None).unwrap();
    db.upsert("c", "a/2", 20, None, None).unwrap();
    db.upsert("c", "a/1", 10, None, Some(vec![1])).unwrap();
    db.upsert("c", "xa/1", 40, None, None).unwrap();
    db.upsert("other", "a/1", 50, None, None).unwrap();

    let all = |sort: VmIoDbListSort| db.keys(VmIoDbListFilter::All, sort, i64::MAX);
    assert_eq!(vec!["a/1", "a/2", "b/1", "xa/1"], all(VmIoDbListSort::KeyAsc));
    assert_eq!(vec!["xa/1", "b/1", "a/2", "a/1"], all(VmIoDbListSort::KeyDesc));
    assert_eq!(
        vec!["a/1", "a/2", "b/1", "xa/1"],
        all(VmIoDbListSort::ModifiedAtMicrosAsc)
    );
    assert_eq!(
        vec!["xa/1", "b/1", "a/2", "a/1"],
        all(VmIoDbListSort::ModifiedAtMicrosDesc)
    );

    let prefix = |p: &str| {
        db.keys(
            VmIoDbListFilter::KeyPrefix(p.to_string()),
            VmIoDbListSort::KeyAsc,
            i64::MAX,
        )
    };
    assert_eq!(vec!["a/1", "a/2"], prefix("a/"));
    assert_eq!(vec!["a/1", "a/2", "b/1", "xa/1"], prefix(""));
    assert!(prefix("%").is_empty());

    let range = |start: MicrosBound, end: MicrosBound| {
        db.keys(
            VmIoDbListFilter::ModifiedAtMicrosRange { start, end },
            VmIoDbListSort::ModifiedAtMicrosAsc,
            i64::MAX,
        )
    };
    assert_eq!(
        vec!["a/2", "b/1"],
        range(MicrosBound::Included(20), MicrosBound::Included(30))
    );
    assert_eq!(
        vec!["b/1"],
        range(MicrosBound::Excluded(20), MicrosBound::Excluded(40))
    );
    assert_eq!(
        vec!["a/1", "a/2"],
        range(MicrosBound::Unbounded, MicrosBound::Included(20))
    );
    assert_eq!(
        vec!["b/1", "xa/1"],
        range(MicrosBound::Included(30), MicrosBound::Unbounded)
    );

    assert_eq!(
        vec!["a/1", "a/2"],
        db.keys(VmIoDbListFilter::All, VmIoDbListSort::KeyAsc, 2)
    );
}

#[test]
fn open_range_leaves_nothing_out() {
    let db = Store::new();
    for (key, micros) in [("a", i64::MIN), ("b", -1), ("c", 0), ("d", i64::MAX)] {
        db.upsert("c", key, micros, None, None).unwrap();
    }
    let keys = |start: MicrosBound, end: MicrosBound| {
        db.list(
            "c",
            VmIoDbListFilter::ModifiedAtMicrosRange { start, end },
            VmIoDbListSort::KeyAsc,
            10,
        )
        .into_iter()
        .map(|entry| entry.key)
        .collect::<Vec<_>>()
    };
    assert_eq!(
        vec!["a", "b", "c", "d"],
        keys(MicrosBound::Unbounded, MicrosBound::Unbounded)
    );
    assert_eq!(
        vec!["a", "b"],
        keys(MicrosBound::Unbounded, MicrosBound::Excluded(0))
    );
    assert_eq!(
        vec!["c", "d"],
        keys(MicrosBound::Excluded(-1), MicrosBound::Unbounded)
    );
}

#[test]
fn removed_entry_takes_its_chunks_along() {
    let mut db = Store::new();
    for (key, micros) in [("k", 1), ("l", 2)] {
        db.upsert("c", key, micros, None, None).unwrap();
        for idx in 0..3 {
            let data = format!("{key} {idx}").into_bytes();
            db.upsert_chunk("c", key, idx, data, true).unwrap();
        }
    }
    assert_eq!(6, db.files.len());
    db.rm("c", "k");
    assert_eq!(3, db.files.len());
    for idx in 0..3 {
        assert_eq!(None, db.get_chunk("c", "k", idx, true).unwrap());
        assert_eq!(
            Some(format!("l {idx}").into_bytes()),
            db.get_chunk("c", "l", idx, true).unwrap()
        );
    }
}

#[test]
fn listing_statement_text() {
    let query = list(
        "c".to_string(),
        VmIoDbListFilter::ModifiedAtMicrosRange {
            start: MicrosBound::Unbounded,
            end: MicrosBound::Excluded(9),
        },
        VmIoDbListSort::KeyDesc,
        7,
    );
    assert!(query.sql.ends_with(
        "WHERE class = ?1 AND modified_at_micros >= ?2 AND modified_at_micros < ?3 \
         ORDER BY class DESC, key DESC LIMIT ?4"
    ));
    assert_eq!(4, query.params.len());
    assert!(matches!(&query.params[0], SqlParam::Text(class) if class == "c"));
    assert!(matches!(query.params[1], SqlParam::Int(i64::MIN)));
    assert!(matches!(query.params[2], SqlParam::Int(9)));
    assert!(matches!(query.params[3], SqlParam::Int(7)));
}

#[test]
fn timestamps_are_unique_across_entries() {
    let db = Store::new();
    db.upsert("c", "a", 1, None, None).unwrap();
    assert!(db.upsert("c", "b", 1, None, None).is_err());
    // overwriting an entry keeps one row
    db.upsert("c", "a", 2, Some(5), Some(vec![1])).unwrap();
    let e = db.get("c", "a").unwrap();
    assert_eq!(2, e.modified_at_micros);
    assert_eq!(Some(5), e.expires_at_micros);
    assert_eq!(Some(vec![1]), e.metadata);
}

#[test]
fn expired_entries_are_selected() {
    let db = Store::new();
    db.upsert("c", "never", 1, None, None).unwrap();
    db.upsert("c", "past", 2, Some(9), None).unwrap();
    db.upsert("c", "now", 3, Some(10), None).unwrap();
    db.upsert("c", "future", 4, Some(11), None).unwrap();
    let mut statement = db.conn.prepare(GET_EXPIRED).unwrap();
    let expired: Vec<String> = statement
        .query_map(
            rusqlite::params_from_iter(vec![Value::Integer(10), Value::Integer(256)]),
            |row| row.get(1),
        )
        .unwrap()
        .map(|key| key.unwrap())
        .collect();
    assert_eq!(vec!["past"], expired);
}

#[test]
fn blob_references_are_found() {
    let mut db = Store::new();
    db.upsert("c", "k", 1, None, None).unwrap();
    db.upsert_chunk("c", "k", 0, b"hello".to_vec(), true)
        .unwrap();
    let exists = |id: &[u8]| -> bool {
        db.conn
            .query_row(
                BLOB_ID_EXISTS,
                rusqlite::params_from_iter(vec![Value::Blob(id.to_vec())]),
                |row| row.get(0),
            )
            .unwrap()
    };
    assert!(exists(&db.chunk("c", "k", 0).unwrap().nonce));
    assert!(!exists(&[0; 32]));
}

#[test]
fn keys_are_split() {
    let keys = RootKeys::derive(&[0xdb; 32]);
    assert_eq!(
        "094d7b952a304344b7fb308feab6c2031144c635bbd8e0800880c6e310c1b941",
        hex::encode(keys.sqlite)
    );
    assert_eq!(
        "0d2e7c876e91a0b8a7c1a468213dc46ec4792671c1ac9af523bf1f3f2552872e",
        hex::encode(keys.blob)
    );
}

#[test]
fn sqlite_key_is_a_blob_literal() {
    let mut secret = [0u8; 32];
    secret[0] = 0x0f;
    secret[1] = 0xa9;
    secret[31] = 0xff;
    let key = String::from_utf8(sqlite_key(&secret).to_vec()).unwrap();
    assert_eq!(67, key.len());
    assert!(key.starts_with("x'0fa900"));
    assert!(key.ends_with("00ff'"));
}

#[test]
fn database_opens_with_its_key_alone() {
    let dir = tempfile::tempdir().unwrap();
    let path = dir.path().join("db.sqlite");
    let open = |secret: &[u8; 32]| {
        let conn = Connection::open(&path).unwrap();
        let key = String::from_utf8(sqlite_key(secret).to_vec()).unwrap();
        conn.pragma_update(None, "key", &key).unwrap();
        conn.execute_batch(SCHEMA).map_err(|err| err.to_string())
    };
    open(&[1; 32]).unwrap();
    open(&[1; 32]).unwrap();
    assert!(open(&[2; 32]).is_err());
}

#[test]
fn connections_are_planned() {
    let plans = conn_plans(&[3; 32]);
    assert_eq!(4, plans.len());
    for (i, plan) in plans.iter().enumerate() {
        assert_eq!(i == 0, plan.writable);
        assert_eq!(i == 0, plan.schema);
        assert!(plan.pragma);
        assert_eq!(sqlite_key(&[3; 32]), plan.key);
    }
    let (_, plans) = VmIoDb::new(&[0xdb; 32]);
    assert_eq!(sqlite_key(&RootKeys::derive(&[0xdb; 32]).sqlite), plans[0].key);
}

#[test]
fn blob_ids_and_paths() {
    let id = gen_id("c", "k", -2, &[7; 32]);
    let digits = "e91b8214c1ec6dff50f39fc9682f21a134d7197d2577c3ec2f5aad8be894c4a5";
    assert_eq!(digits, hex::encode(id));
    let path = vec!["e91b", "8214", "c1ec", digits];
    assert_eq!(path, id_path(&id));
    assert_eq!(path, gen_path("c", "k", -2, &[7; 32]));
    assert_eq!(Some(id), parse_name(digits));
    assert_eq!(Some(id), parse_name(&digits.to_uppercase()));
    assert_eq!(None, parse_name(&digits[1..]));
    assert_eq!(None, parse_name(&digits.replace('e', "g")));
    assert!(is_own_path(&id, &id_path(&id)));
    assert!(!is_own_path(&id, &id_path(&[0; 32])));
    assert!(!is_own_path(&id, &id_path(&id)[..3]));
}

#[test]
fn shard_names() {
    for name in ["0000", "abcd", "ABCD", "09fF"] {
        assert!(is_shard_name(name));
    }
    for name in ["", "abc", "abcde", "abcg", "ab.d", "é12"] {
        assert!(!is_shard_name(name));
    }
}

#[test]
fn associated_data_bytes() {
    let mut expected = b"c\0k\0-7\0true\0".to_vec();
    expected.extend([9; 32]);
    assert_eq!(expected, make_adata("c", "k", -7, &[9; 32], true));
    let adata = make_adata("c", "k", i64::MIN, &[9; 32], false);
    assert!(adata.starts_with(b"c\0k\0-9223372036854775808\0false\0"));
}

#[test]
fn sub_keys_are_derived() {
    assert_eq!(
        "4aa7e93f5ffe21482d364078e10f071cf054a87506934293499613efe35d66d8",
        hex::encode(derive_sub_key(3, &[2; 32], &[1; 32]))
    );
}

#[test]
fn encrypted_chunk_decrypts() {
    let mut data = b"some contents".to_vec();
    let sealed = match encrypt_chunk("c", "k", 4, &mut data, &[2; 32], &[1; 32], false) {
        Ok(sealed) => sealed,
        Err(_) => panic!("refused"),
    };
    assert_ne!(b"some contents".to_vec(), data);
    let open = |data: &mut Vec<u8>, key: &[u8; 32], is_final: bool| {
        decrypt_chunk(
            "c", "k", 4, data, &[2; 32], key, is_final, &sealed.nonce, &sealed.tag,
        )
    };
    assert!(matches!(
        open(&mut data.clone(), &[0; 32], false),
        Err(BlobError::InvalidTag)
    ));
    assert!(open(&mut data.clone(), &[1; 32], true).is_err());
    assert!(open(&mut data, &[1; 32], false).is_ok());
    assert_eq!(b"some contents".to_vec(), data);
}

#[test]
fn blob_write_is_tried_twice() {
    assert!(matches!(
        after_write(1, WriteOutcome::ShardMissing),
        WriteStep::Retry
    ));
    match after_write(2, WriteOutcome::ShardMissing) {
        WriteStep::Fail(err) => {
            assert_eq!("blob shard removed during write", err.message())
        }
        _ => panic!("not given up"),
    }
    assert!(matches!(
        after_write(2, WriteOutcome::Written),
        WriteStep::Done
    ));
    match after_write(1, WriteOutcome::Failed("disk full".to_string())) {
        WriteStep::Fail(err) => assert_eq!("disk full", err.message()),
        _ => panic!("not failed"),
    }
}

#[test]
fn pool_items_take_turns() {
    let mut pool = RingPool::new(1, 2, 3);
    let a = pool.get();
    let b = pool.get();
    assert_eq!(1, a.item);
    assert_eq!(2, b.item);
    assert!(pool.has_idle());
    pool.give_back(b);
    let c = pool.get();
    let d = pool.get();
    assert_eq!(3, c.item);
    assert_eq!(2, d.item);
    assert!(!pool.has_idle());
    pool.give_back(a);
    assert!(pool.has_idle());
    assert_eq!(1, pool.get().item);
    assert!(!pool.has_idle());
}

#[test]
fn pool_items_stay_the_three() {
    // each item counts its loans
    let mut pool = RingPool::new(("a", 0), ("b", 0), ("c", 0));
    for round in 1..=5 {
        let mut out: Vec<_> = (0..3).map(|_| pool.get()).collect();
        assert!(!pool.has_idle());
        let mut names: Vec<_> = out.iter().map(|guard| guard.item.0).collect();
        names.sort();
        assert_eq!(vec!["a", "b", "c"], names);
        for guard in &mut out {
            assert_eq!(round - 1, guard.item.1);
            guard.item.1 += 1;
        }
        // given back in another order
        out.rotate_left(round % 3);
        for guard in out {
            pool.give_back(guard);
        }
    }
}

#[test]
fn first_row_failure_is_reported() {
    assert_eq!(Ok(vec![1, 2]), collect_rows(vec![Ok(1), Ok(2)]));
    assert_eq!(
        Err("x".to_string()),
        collect_rows(vec![Ok(1), Err("x".to_string()), Ok(2), Err("y".to_string())])
    );
    assert_eq!(Ok(Vec::<u8>::new()), collect_rows(Vec::new()));
}

#[test]
fn clock_is_read_in_micros() {
    assert_eq!(Ok(1_700_000_000_000_000), unix_micros(Ok(1_700_000_000_000_000)));
    assert_eq!(Ok(-1), unix_micros(Ok(u64::MAX as u128)));
    assert_eq!(Err("before".to_string()), unix_micros(Err("before".to_string())));
}

#[test]
fn prune_drains_the_backlog() {
    assert!(matches!(
        prune_step(PruneEvent::Clock(Ok(7))),
        PruneStep::Batch { now: 7, limit: 256 }
    ));
    assert!(matches!(
        prune_step(PruneEvent::Clock(Err("no clock".to_string()))),
        PruneStep::Wait
    ));
    assert!(matches!(prune_step(PruneEvent::Failed), PruneStep::Wait));
    let id = [5u8; 32];
    match prune_step(PruneEvent::Pruned(256, vec![id])) {
        PruneStep::Remove { paths, again } => {
            assert_eq!(released_paths(&[id]), paths);
            assert_eq!(vec![id_path(&id)], paths);
            assert!(again);
        }
        _ => panic!("no removal"),
    }
    assert!(matches!(
        prune_step(PruneEvent::Pruned(255, Vec::new())),
        PruneStep::Remove { again: false, .. }
    ));
}

#[test]
fn only_unreferenced_files_are_removed() {
    assert_eq!(Ok(false), after_lookup(Ok(true)));
    assert_eq!(Ok(true), after_lookup(Ok(false)));
    assert_eq!(
        Err("locked".to_string()),
        after_lookup(Err("locked".to_string()))
    );
}

#[test]
fn cleanup_walks_only_its_own_layout() {
    let id = gen_id("c", "k", 0, &[7; 32]);
    let path = id_path(&id);
    let old = Some(10);
    let cutoff = 20;

    for level in 0..3 {
        assert!(matches!(
            cleanup_step(&path[..level], &path[level], true, old, cutoff),
            CleanupStep::Descend { remove_after: true }
        ));
        assert!(matches!(
            cleanup_step(&path[..level], &path[level], true, Some(21), cutoff),
            CleanupStep::Descend {
                remove_after: false
            }
        ));
        // a blob file too high up is not ours
        assert!(matches!(
            cleanup_step(&path[..level], &path[3], false, old, cutoff),
            CleanupStep::Skip
        ));
    }
    assert!(matches!(
        cleanup_step(&path[..3], &path[3], false, old, cutoff),
        CleanupStep::Check(found) if found == id
    ));
    assert!(matches!(
        cleanup_step(&path[..3], &path[3], false, Some(20), cutoff),
        CleanupStep::Check(_)
    ));
    // touched lately, or at an unknown time
    for modified in [Some(21), None] {
        assert!(matches!(
            cleanup_step(&path[..3], &path[3], false, modified, cutoff),
            CleanupStep::Skip
        ));
    }
    // too deep, wrong place, wrong name
    assert!(matches!(
        cleanup_step(&path[..3], "abcd", true, old, cutoff),
        CleanupStep::Skip
    ));
    let elsewhere = id_path(&[0; 32]);
    assert!(matches!(
        cleanup_step(&elsewhere[..3], &path[3], false, old, cutoff),
        CleanupStep::Skip
    ));
    for name in ["db.sqlite", "db.sqlite-wal", "db.sqlite-shm", "notes"] {
        for is_dir in [true, false] {
            assert!(matches!(
                cleanup_step(&[], name, is_dir, old, cutoff),
                CleanupStep::Skip
            ));
        }
    }
}
