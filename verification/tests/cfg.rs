//! The config server, joined to a database in memory.

use std::cell::{Cell, RefCell};

use rusqlite::types::Value;
use rusqlite::Connection;
use v_m_io::api::{encode, CfgPutReq};
use v_m_io::cfg::init::{parse_init, set_entry, write_init};
use v_m_io::cfg::key::{encode_encryption_key, key_from, parse_encryption_key};
use v_m_io::cfg::{
    all_values_query, announce_addrs, api_key_entry, auth_status, handle_get, handle_put,
    handler_table, next_micros, read_all, resolve_encryption_key, resolve_encryption_key_with,
    seed_test_key, unix_micros, CfgError, Config, RunMode, UpsertStep, ValueUpsert, CFG_CLASS,
};
use v_m_io::chan::cfg::{cfg_get_result, cfg_put_result, ChanCliCfgExt};
use v_m_io::chan::{
    authorized, begin, body_read, dispatch, handled, ChanCli, ChanError, ChanRequest,
    HandlerTable, HealthHandler, ReqStep, RequestHead,
};
use v_m_io::db::sql::{SqlParam, GET_ENTRY, SCHEMA, UPSERT};
use v_m_io::db::{EntryRow, VmIoDb, VmIoDbEntry};
use v_m_io::reply::{BodyRead, Reply};
use v_m_io::srv::ServerAddr;

/// The api key used to authorize the tests' config client.
const API_KEY: &str = "test-api-key-1234";

/// A config server without a network around it.
struct Server {
    conn: Connection,
    db: VmIoDb,
    table: HandlerTable,
    counter: RefCell<i64>,
    writes: Cell<usize>,
}

fn metadata_param(metadata: Option<Vec<u8>>) -> Value {
    metadata.map_or(Value::Null, Value::Blob)
}

impl Server {
    fn new(conn: Connection) -> Server {
        conn.execute_batch(SCHEMA).unwrap();
        let (db, _) = VmIoDb::new(&[7; 32]);
        Server {
            conn,
            db,
            table: handler_table().map_err(|err| err.message()).unwrap(),
            counter: RefCell::new(0),
            writes: Cell::new(0),
        }
    }

    /// A server whose database holds the tests' api key.
    fn with_api_key() -> Server {
        let srv = Server::new(Connection::open_in_memory().unwrap());
        srv.init(&[(&format!("cfg-api-key~{API_KEY}"), "")]);
        srv
    }

    fn init(&self, values: &[(&str, &str)]) {
        let pairs = values
            .iter()
            .map(|(k, v)| (k.to_string(), v.to_string()))
            .collect::<std::collections::BTreeMap<_, _>>();
        let config = config(Some(serde_json::to_string(&pairs).unwrap()));
        for (key, value) in ok(config.init_values()) {
            self.upsert_value(key, value, None).unwrap();
        }
    }

    fn write(&self, row: EntryRow) -> Result<(), String> {
        self.writes.set(self.writes.get() + 1);
        let row = self
            .db
            .upsert(
                row.class,
                row.key,
                row.modified_at_micros,
                row.expires_at_micros,
                row.metadata,
            )
            .map_err(|err| err.message())?;
        self.conn
            .execute(
                UPSERT,
                rusqlite::params_from_iter(vec![
                    Value::Text(row.class),
                    Value::Text(row.key),
                    Value::Integer(row.modified_at_micros),
                    row.expires_at_micros.map_or(Value::Null, Value::Integer),
                    metadata_param(row.metadata),
                ]),
            )
            .map(|_| ())
            .map_err(|err| err.to_string())
    }

    fn finish(&self, mut upsert: ValueUpsert) -> Result<(), CfgError> {
        // a clock that stands still
        let now = 1000;
        let mut counter = self.counter.borrow_mut();
        let mut row = upsert.next_row(&mut counter, now);
        loop {
            let outcome = self.write(row);
            match upsert.after_write(&mut counter, now, outcome) {
                UpsertStep::Write(next) => row = next,
                UpsertStep::Done => return Ok(()),
                UpsertStep::Fail(err) => return Err(err),
            }
        }
    }

    fn upsert_value(
        &self,
        key: String,
        value: String,
        expires_at_micros: Option<i64>,
    ) -> Result<(), String> {
        ValueUpsert::start(key, value, expires_at_micros)
            .and_then(|upsert| self.finish(upsert))
            .map_err(|err| err.message())
    }

    fn entry(&self, key: &str) -> Option<VmIoDbEntry> {
        self.conn
            .query_row(
                GET_ENTRY,
                rusqlite::params_from_iter(vec![
                    Value::Text(CFG_CLASS.to_string()),
                    Value::Text(key.to_string()),
                ]),
                |row| {
                    Ok(VmIoDbEntry {
                        class: CFG_CLASS.to_string(),
                        key: key.to_string(),
                        modified_at_micros: row.get(0)?,
                        expires_at_micros: row.get(1)?,
                        metadata: row.get(2)?,
                        chunk_count: row.get(3)?,
                    })
                },
            )
            .ok()
    }

    fn entries(&self) -> Vec<VmIoDbEntry> {
        let query = all_values_query();
        let params: Vec<Value> = query
            .params
            .into_iter()
            .map(|param| match param {
                SqlParam::Text(text) => Value::Text(text),
                SqlParam::Int(n) => Value::Integer(n),
            })
            .collect();
        let mut statement = self.conn.prepare(&query.sql).unwrap();
        let rows = statement
            .query_map(rusqlite::params_from_iter(params), |row| {
                Ok(VmIoDbEntry {
                    class: CFG_CLASS.to_string(),
                    key: row.get(0)?,
                    modified_at_micros: row.get(1)?,
                    expires_at_micros: row.get(2)?,
                    metadata: row.get(3)?,
                    chunk_count: row.get(4)?,
                })
            })
            .unwrap();
        rows.map(|row| row.unwrap()).collect()
    }

    fn serve(&self, head: &RequestHead, body: Vec<u8>) -> Reply {
        let value = match begin(head) {
            ReqStep::Authorize(value) => value,
            ReqStep::Answer(reply) => return reply,
            _ => unreachable!(),
        };
        let found = api_key_entry(&value).map(|key| Ok(self.entry(&key).is_some()));
        let handler = match authorized(&self.table, head, Ok(auth_status(found))) {
            ReqStep::ReadBody(handler) => handler,
            ReqStep::Answer(reply) => return reply,
            _ => unreachable!(),
        };
        match body_read(handler, BodyRead::Whole(body)) {
            ReqStep::Handle(0, body) => dispatch(&HealthHandler, body),
            ReqStep::Handle(1, _) => handled(Ok(handle_get(Ok(self.entries())))),
            ReqStep::Handle(2, body) => handled(
                handle_put(&body)
                    .and_then(|upsert| self.finish(upsert))
                    .map(|()| Vec::new())
                    .map_err(|err| ChanError::Other(err.message())),
            ),
            _ => unreachable!(),
        }
    }

    fn send(&self, sent: ChanRequest) -> Result<Vec<u8>, ChanError> {
        let head = RequestHead {
            authorization: Some(sent.authorization.into_bytes()),
            path: sent.url.strip_prefix("http://cfg").unwrap().to_string(),
            content_length: Some(sent.body.len().to_string().into_bytes()),
        };
        let reply = self.serve(&head, sent.body);
        ChanCli::response(reply.status, reply.body)
    }

    fn connect(&self, auth_header: &str) -> Result<ChanCli, ChanError> {
        let (cli, health) = ChanCli::connect("cfg", auth_header.to_string());
        self.send(health)?;
        Ok(cli)
    }

    /// Connect an authorized config client.
    fn client(&self) -> ChanCli {
        taken(self.connect(&format!("Bearer {API_KEY}")))
    }

    fn cfg_get(&self, cli: &ChanCli) -> Vec<(String, String)> {
        let payload = self.send(taken(cli.cfg_get(())));
        taken(cfg_get_result(payload)).unwrap()
    }

    fn cfg_put(&self, cli: &ChanCli, key: &str, value: &str) -> Result<(), ChanError> {
        let req = CfgPutReq::from((key.to_string(), value.to_string()));
        cfg_put_result(self.send(cli.cfg_put(req)?))
    }
}

fn taken<T>(res: Result<T, ChanError>) -> T {
    res.map_err(|err| err.message()).unwrap()
}

fn ok<T>(res: Result<T, CfgError>) -> T {
    res.map_err(|err| err.message()).unwrap()
}

fn failure<T>(res: Result<T, CfgError>) -> String {
    match res {
        Ok(_) => panic!("no failure"),
        Err(err) => err.message(),
    }
}

/// A valid base64-encoded 32 byte master key.
fn b64_key() -> String {
    encode_encryption_key(&[7; 32])
}

fn config(init: Option<String>) -> Config {
    Config {
        db_root_dir: "/somewhere".to_string(),
        addr: vec![ServerAddr::V4 {
            ip: 0x7f00_0001,
            port: 0,
        }],
        init,
        encryption_key: Some(b64_key()),
        test: false,
    }
}

fn pair(key: &str, value: &str) -> (String, String) {
    (key.to_string(), value.to_string())
}

/// The `(key, value)` entry under which the tests' seeded api key is stored.
fn seeded_entry() -> (String, String) {
    (format!("cfg-api-key~{API_KEY}"), String::new())
}

#[test]
fn put_get_roundtrip_and_overwrite() {
    let srv = Server::with_api_key();
    let cli = srv.client();

    assert_eq!(vec![seeded_entry()], srv.cfg_get(&cli));

    taken(srv.cfg_put(&cli, "alpha", "one"));
    taken(srv.cfg_put(&cli, "beta", "two"));

    assert_eq!(
        vec![pair("alpha", "one"), pair("beta", "two"), seeded_entry()],
        srv.cfg_get(&cli),
    );

    taken(srv.cfg_put(&cli, "alpha", "updated"));

    assert_eq!(
        vec![pair("alpha", "updated"), pair("beta", "two"), seeded_entry()],
        srv.cfg_get(&cli),
    );
}

#[test]
fn empty_and_unicode_values_roundtrip() {
    let srv = Server::with_api_key();
    let cli = srv.client();

    taken(srv.cfg_put(&cli, "empty", ""));
    taken(srv.cfg_put(&cli, "unicode", "héllo → 世界"));

    assert_eq!(
        vec![
            seeded_entry(),
            pair("empty", ""),
            pair("unicode", "héllo → 世界"),
        ],
        srv.cfg_get(&cli),
    );
}

#[test]
fn api_keys_are_returned() {
    let srv = Server::new(Connection::open_in_memory().unwrap());
    srv.init(&[
        (&format!("cfg-api-key~{API_KEY}"), ""),
        ("public", "value"),
    ]);
    let cli = srv.client();

    assert_eq!(
        vec![seeded_entry(), pair("public", "value")],
        srv.cfg_get(&cli),
    );
}

#[test]
fn unknown_api_key_is_rejected() {
    let srv = Server::with_api_key();

    // connecting runs the health check, which is itself subject to auth
    assert!(srv.connect("Bearer not-a-real-key").is_err());
}

#[test]
fn pushed_api_key_can_authenticate() {
    let srv = Server::with_api_key();
    let cli = srv.client();

    taken(srv.cfg_put(&cli, "cfg-api-key~second", ""));

    let cli2 = taken(srv.connect("Bearer second"));

    // the newly pushed api key is exposed by the getter alongside the seeded
    // one, both with empty values
    assert_eq!(
        vec![pair("cfg-api-key~second", ""), seeded_entry()],
        srv.cfg_get(&cli2),
    );
}

#[test]
fn init_overwrites_existing_values() {
    let srv = Server::with_api_key();
    let cli = srv.client();
    taken(srv.cfg_put(&cli, "k", "old"));

    srv.init(&[(&format!("cfg-api-key~{API_KEY}"), ""), ("k", "new")]);

    assert_eq!(
        vec![seeded_entry(), pair("k", "new")],
        srv.cfg_get(&srv.client()),
    );
}

#[test]
fn oversized_value_is_rejected() {
    let srv = Server::with_api_key();
    let cli = srv.client();

    let big = "x".repeat(4097);

    match srv.cfg_put(&cli, "big", &big) {
        Ok(()) => panic!("accepted"),
        Err(err) => assert_eq!(
            "request failed: 500 config value cannot be > 4096 bytes",
            err.message()
        ),
    }
    match srv.cfg_put(&cli, &"k".repeat(1025), "v") {
        Ok(()) => panic!("accepted"),
        Err(err) => assert_eq!(
            "request failed: 500 config key cannot be > 1024 bytes",
            err.message()
        ),
    }

    // the rejected writes must not have landed
    assert_eq!(vec![seeded_entry()], srv.cfg_get(&cli));

    // just within the limits
    taken(srv.cfg_put(&cli, &"k".repeat(1024), &"x".repeat(4096)));
    assert_eq!(2, srv.cfg_get(&cli).len());
}

#[test]
fn server_requires_auth() {
    let srv = Server::with_api_key();

    // a client that sends no Authorization header is rejected by the channel
    // layer before the auth callback runs
    let head = RequestHead {
        authorization: None,
        path: "/cfg-get".to_string(),
        content_length: None,
    };
    assert_eq!(401, srv.serve(&head, Vec::new()).status);
}

#[test]
fn announce_addrs_writes_empty_value_with_ttl() {
    let srv = Server::with_api_key();
    let now = 1_700_000_000_000_000;
    let entries = announce_addrs(now, &["127.0.0.1:1234".to_string()]);
    for (key, value, expires) in entries {
        srv.upsert_value(key, value, expires).unwrap();
    }
    let entry = srv.entry("cfg-addr~127.0.0.1:1234").unwrap();

    // empty value
    assert_eq!(Some(Vec::<u8>::new()), entry.metadata);

    // expires one TTL from the time it was written
    assert_eq!(Some(now + 120 * 1000 * 1000), entry.expires_at_micros);

    let late = announce_addrs(i64::MAX - 1, &["a".to_string(), "b".to_string()]);
    assert_eq!(2, late.len());
    assert_eq!(Some(i64::MAX), late[1].2);
    assert_eq!("cfg-addr~b", late[1].0);
}

#[test]
fn writes_get_past_timestamps_in_use() {
    let srv = Server::with_api_key();
    let before = srv.writes.get();
    // another writer has taken the next timestamps
    let next = *srv.counter.borrow();
    for taken_at in 1..=5 {
        srv.write(EntryRow {
            class: "elsewhere".to_string(),
            key: taken_at.to_string(),
            modified_at_micros: next + taken_at,
            expires_at_micros: None,
            metadata: None,
        })
        .unwrap();
    }
    srv.upsert_value("k".to_string(), "v".to_string(), Some(9)).unwrap();
    assert_eq!(before + 5 + 6, srv.writes.get());
    let entry = srv.entry("k").unwrap();
    assert_eq!(next + 6, entry.modified_at_micros);
    assert_eq!(Some(9), entry.expires_at_micros);
    assert_eq!(Some(b"v".to_vec()), entry.metadata);
}

#[test]
fn writes_are_given_up_after_enough_tries() {
    let mut upsert = ok(ValueUpsert::start("k".to_string(), "v".to_string(), None));
    let mut counter = 0;
    let mut row = upsert.next_row(&mut counter, 10);
    let mut seen = vec![row.modified_at_micros];
    for n in 1..64 {
        row = match upsert.after_write(&mut counter, 10, Err(format!("refused {n}"))) {
            UpsertStep::Write(row) => row,
            _ => panic!("given up after {n}"),
        };
        assert_eq!("cfg", row.class);
        assert_eq!("k", row.key);
        assert_eq!(Some(b"v".to_vec()), row.metadata);
        seen.push(row.modified_at_micros);
    }
    assert_eq!((10..74).collect::<Vec<i64>>(), seen);
    match upsert.after_write(&mut counter, 10, Err("refused 64".to_string())) {
        UpsertStep::Fail(err) => assert_eq!("refused 64", err.message()),
        _ => panic!("not given up"),
    }
    assert!(matches!(
        upsert.after_write(&mut counter, 10, Ok(())),
        UpsertStep::Done
    ));
}

#[test]
fn last_timestamp_can_be_written() {
    let mut upsert = ok(ValueUpsert::start("k".to_string(), "v".to_string(), None));
    let mut counter = i64::MAX - 1;
    let row = upsert.next_row(&mut counter, 10);
    assert_eq!(i64::MAX, row.modified_at_micros);
    assert!(!upsert.tries_again(&Ok(())));
    assert!(upsert.tries_again(&Err("refused".to_string())));
    assert!(matches!(
        upsert.after_write(&mut counter, 10, Ok(())),
        UpsertStep::Done
    ));
    assert_eq!(i64::MAX, counter);
}

#[test]
fn tried_again_under_the_next_timestamp() {
    let mut upsert = ok(ValueUpsert::start("k".to_string(), "v".to_string(), Some(9)));
    let mut counter = 0;
    upsert.next_row(&mut counter, 10);
    match upsert.after_write(&mut counter, 50, Err("refused".to_string())) {
        UpsertStep::Write(row) => assert_eq!(50, row.modified_at_micros),
        _ => panic!("not tried again"),
    }
    match upsert.after_write(&mut counter, 20, Err("refused".to_string())) {
        UpsertStep::Write(row) => {
            assert_eq!(51, row.modified_at_micros);
            assert_eq!(Some(9), row.expires_at_micros);
        }
        _ => panic!("not tried again"),
    }
    assert_eq!(51, counter);
}

#[test]
fn timestamps_increase() {
    let mut counter = 0;
    assert_eq!(5, next_micros(&mut counter, 5));
    assert_eq!(6, next_micros(&mut counter, 5));
    assert_eq!(7, next_micros(&mut counter, 3));
    assert_eq!(20, next_micros(&mut counter, 20));
    assert_eq!(20, counter);
    assert_eq!(0, unix_micros(None));
    assert_eq!(77, unix_micros(Some(77)));
}

#[test]
fn values_must_be_text() {
    let entry = |key: &str, metadata: Option<Vec<u8>>| VmIoDbEntry {
        class: "cfg".to_string(),
        key: key.to_string(),
        modified_at_micros: 1,
        expires_at_micros: None,
        metadata,
        chunk_count: 0,
    };
    assert_eq!(
        vec![pair("b", ""), pair("a", "x")],
        ok(read_all(vec![entry("b", None), entry("a", Some(b"x".to_vec()))]))
    );
    let bad = || vec![entry("a", Some(b"x".to_vec())), entry("b", Some(vec![0xff]))];
    assert_eq!("config value is not valid utf-8", failure(read_all(bad())));

    // a failure to read is part of the answer
    assert_eq!(
        Err("config value is not valid utf-8".to_string()),
        taken(cfg_get_result(Ok(handle_get(Ok(bad())))))
    );
    assert_eq!(
        Err("disk on fire".to_string()),
        taken(cfg_get_result(Ok(handle_get(Err("disk on fire".to_string())))))
    );
}

#[test]
fn put_payloads_are_checked() {
    assert!(handle_put(&[9]).is_err());
    let big = CfgPutReq::new("k".to_string(), "x".repeat(4097));
    assert_eq!(
        "config value cannot be > 4096 bytes",
        failure(handle_put(&encode(&big).unwrap()))
    );
}

#[test]
fn tokens_are_looked_up() {
    let key = |auth: &str| api_key_entry(auth);
    assert_eq!(Some("cfg-api-key~t".to_string()), key("Bearer t"));
    assert_eq!(Some("cfg-api-key~t".to_string()), key("t"));
    assert_eq!(Some("cfg-api-key~t u".to_string()), key("Bearer  t u \t"));
    assert_eq!(Some("cfg-api-key~bearer t".to_string()), key("bearer t"));
    assert_eq!(Some("cfg-api-key~Bearer".to_string()), key("Bearer"));
    assert_eq!(None, key("Bearer "));
    assert_eq!(None, key("Bearer \t "));
    assert_eq!(None, key(""));

    assert_eq!(200, auth_status(Some(Ok(true))));
    assert_eq!(401, auth_status(Some(Ok(false))));
    assert_eq!(401, auth_status(None));
    assert_eq!(500, auth_status(Some(Err("io".to_string()))));
}

#[test]
fn encryption_keys_round_trip() {
    let mut key = [0u8; 32];
    key[0] = 251;
    key[31] = 7;
    let text = encode_encryption_key(&key);
    assert_eq!(44, text.len());
    assert_eq!("+wAAAAAAAAAAAAAAAAAAAAAAAAAAAAAAAAAAAAAAAAc=", text);
    assert_eq!(key, ok(parse_encryption_key(&text)));
    assert_eq!(key, ok(parse_encryption_key(&format!("  {text}\n"))));
}

#[test]
fn encryption_keys_are_checked() {
    assert_eq!(
        "encryption key is not valid base64: Invalid symbol 33, offset 0.",
        failure(parse_encryption_key("!bad"))
    );
    assert_eq!(
        "encryption key must decode to exactly 32 bytes",
        failure(parse_encryption_key("AAAA"))
    );
    assert_eq!([9; 32], ok(key_from(Ok(vec![9; 32]))));
    assert_eq!(
        "encryption key must decode to exactly 32 bytes",
        failure(key_from(Ok(vec![9; 33])))
    );
}

#[test]
fn only_the_notation_of_a_key_is_read() {
    let text = encode_encryption_key(&[0xff; 32]);
    assert_eq!(44, text.len());
    // one symbol of each kind amiss: no padding, bits behind the last byte, white
    // space within, another alphabet
    let mut loose = text.clone();
    loose.replace_range(42..43, "9");
    let mut split = text.clone();
    split.insert(4, '\n');
    for bad in [text[..43].to_string(), loose, split, text.replace('/', "_")] {
        match parse_encryption_key(&bad) {
            Err(err) => {
                assert!(err.message().starts_with("encryption key is not valid base64: "));
                assert!(matches!(err, CfgError::KeyNotBase64(_)));
            }
            Ok(_) => panic!("read {bad}"),
        }
    }
}

#[test]
fn faults_of_the_input_are_told_apart() {
    let fault = |err: CfgError| err.is_invalid_input();
    match parse_encryption_key("AAAA") {
        Err(err) => assert!(fault(err)),
        Ok(_) => panic!("short key"),
    }
    match parse_encryption_key("!bad") {
        Err(err) => assert!(fault(err)),
        Ok(_) => panic!("no key"),
    }
    match parse_init("[]") {
        Err(err) => assert!(fault(err)),
        Ok(_) => panic!("no object"),
    }
    assert!(fault(CfgError::CfgKeyTooLong));
    assert!(fault(CfgError::CfgValueTooLong));
    assert!(!fault(CfgError::ValueNotUtf8));
    assert!(!fault(CfgError::Other("x".to_string())));
}

#[test]
fn keys_are_resolved() {
    let mut config = config(None);
    assert_eq!([7; 32], ok(resolve_encryption_key(&config)));
    assert_eq!([7; 32], ok(resolve_encryption_key_with(&config, [1; 32])));
    for missing in [None, Some(String::new())] {
        config.encryption_key = missing;
        assert_eq!([1; 32], ok(resolve_encryption_key_with(&config, [1; 32])));
        assert_ne!(
            ok(resolve_encryption_key(&config)),
            ok(resolve_encryption_key(&config))
        );
    }
    config.encryption_key = Some("?".to_string());
    assert!(resolve_encryption_key(&config).is_err());
}

#[test]
fn init_values_are_parsed() {
    let values = |init: Option<&str>| config(init.map(|s| s.to_string())).init_values();
    assert!(ok(values(None)).is_empty());
    assert!(ok(values(Some("{}"))).is_empty());
    assert_eq!(
        vec![pair("a", "1"), pair("b", "2"), pair("é", "3")],
        ok(values(Some(r#"{"é":"3","b":"2","a":"0","a":"1"}"#)))
    );
    for bad in ["", "[]", "{", r#"{"a":1}"#, r#"{"a":null}"#] {
        assert!(failure(values(Some(bad))).starts_with("invalid --init json: "));
    }
}

#[test]
fn init_values_are_written() {
    let pairs = || vec![pair("a", "x\"\\\u{1}é"), pair("b", "")];
    let text = write_init(pairs());
    assert_eq!("{\"a\":\"x\\\"\\\\\\u0001é\",\"b\":\"\"}", text);
    assert_eq!(pairs(), ok(parse_init(&text)));
}

#[test]
fn entries_are_set_in_place() {
    let set = |pairs: Vec<(String, String)>, key: &str| {
        set_entry(pairs, key.to_string(), "new".to_string())
    };
    let all = || vec![pair("b", "1"), pair("d", "2")];
    assert_eq!(vec![pair("a", "new")], set(Vec::new(), "a"));
    assert_eq!(
        vec![pair("a", "new"), pair("b", "1"), pair("d", "2")],
        set(all(), "a")
    );
    assert_eq!(vec![pair("b", "new"), pair("d", "2")], set(all(), "b"));
    assert_eq!(
        vec![pair("b", "1"), pair("c", "new"), pair("d", "2")],
        set(all(), "c")
    );
    assert_eq!(
        vec![pair("b", "1"), pair("bb", "new"), pair("d", "2")],
        set(all(), "bb")
    );
    assert_eq!(vec![pair("b", "1"), pair("d", "new")], set(all(), "d"));
    assert_eq!(
        vec![pair("b", "1"), pair("d", "2"), pair("é", "new")],
        set(all(), "é")
    );
    assert_eq!(
        vec![pair("cfg-api-key~test", ""), pair("d", "2")],
        seed_test_key(vec![pair("d", "2")])
    );
}

#[test]
fn test_defaults_are_applied() {
    let mut cfg = Config {
        db_root_dir: ".".to_string(),
        addr: Vec::new(),
        init: None,
        encryption_key: None,
        test: true,
    };
    assert_eq!(RunMode::Test, cfg.run_mode());
    ok(cfg.apply_test_defaults("/tmp/x".to_string()));
    assert_eq!("/tmp/x", cfg.db_root_dir);
    assert_eq!(
        vec![ServerAddr::V4 {
            ip: u32::from_be_bytes([127, 0, 0, 1]),
            port: 44332
        }],
        cfg.addr
    );
    assert_eq!(Some("{\"cfg-api-key~test\":\"\"}".to_string()), cfg.init);
    // initialization and serving use the same key
    let key = ok(resolve_encryption_key(&cfg));
    assert_eq!(key, ok(resolve_encryption_key(&cfg)));

    let mut cfg = config(Some(r#"{"z":"1","cfg-api-key~test":"old"}"#.to_string()));
    ok(cfg.apply_test_defaults_with("/r".to_string(), &[5; 32]));
    assert_eq!(
        Some("{\"cfg-api-key~test\":\"\",\"z\":\"1\"}".to_string()),
        cfg.init
    );
    assert_eq!(Some(b64_key()), cfg.encryption_key);
    assert_eq!(1, cfg.addr.len());

    let mut cfg = config(Some("nonsense".to_string()));
    cfg.encryption_key = Some(String::new());
    assert!(cfg.apply_test_defaults("/r".to_string()).is_err());
    assert_eq!("/r", cfg.db_root_dir);
    assert_eq!(Some("nonsense".to_string()), cfg.init);
    assert_eq!(Some(String::new()), cfg.encryption_key);

    cfg.init = None;
    ok(cfg.apply_test_defaults_with("/r".to_string(), &[5; 32]));
    assert_eq!(Some(encode_encryption_key(&[5; 32])), cfg.encryption_key);
}

#[test]
fn run_modes_and_binds() {
    let mut cfg = config(None);
    assert_eq!(RunMode::Serve, cfg.run_mode());
    assert_eq!(cfg.addr, cfg.bind_addrs());
    cfg.addr = Vec::new();
    assert_eq!(
        vec![ServerAddr::V4 { ip: 0, port: 0 }],
        cfg.bind_addrs()
    );
    cfg.init = Some("{}".to_string());
    assert_eq!(RunMode::Init, cfg.run_mode());
    cfg.test = true;
    assert_eq!(RunMode::Test, cfg.run_mode());
}

#[test]
fn pushed_values_may_expire() {
    let srv = Server::with_api_key();
    let cli = srv.client();
    let req = CfgPutReq {
        key: "k".to_string(),
        value: "v".to_string(),
        expires_at_micros: Some(123),
    };
    taken(cfg_put_result(srv.send(taken(cli.cfg_put(req)))));
    assert_eq!(Some(123), srv.entry("k").unwrap().expires_at_micros);
}
