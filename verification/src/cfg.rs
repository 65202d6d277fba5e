//! The config server.

use vstd::prelude::*;
use vstd::string::*;
use vstd::utf8::*;

use crate::api;
use crate::api::CfgGetRes;
use crate::api::CfgPutReq;
use crate::api::Payload;
use crate::crypto;
use crate::db;
use crate::db::sql;
use crate::db::EntryRow;
use crate::db::VmIoDbEntry;
use crate::db::VmIoDbListFilter;
use crate::db::VmIoDbListSort;
use crate::chan;
use crate::chan::cfg::CFG_GET_REQ;
use crate::chan::cfg::ChanCliCfgExt;
use crate::chan::cfg::CFG_PUT_REQ;
use crate::chan::ChanCli;
use crate::chan::ChanError;
use crate::chan::ChanRequest;
use crate::chan::HandlerTable;
use crate::reply;
use crate::reply::BEARER;
use crate::srv::ServerAddr;
use crate::text;

pub mod init;
pub mod key;

verus! {

/// Failures of the config server.
pub enum CfgError {
    /// The encryption key is no base64, for the given reason.
    KeyNotBase64(String),
    /// The encryption key has another length than 32 bytes.
    KeyLength,
    /// The initial values are no json object of texts, for the given reason.
    InvalidInit(String),
    /// A config key is too long.
    CfgKeyTooLong,
    /// A config value is too long.
    CfgValueTooLong,
    /// A stored config value is no text.
    ValueNotUtf8,
    /// Something else failed, for the given reason.
    Other(String),
}

/// What an error says.
pub enum CfgErrorView {
    /// the encryption key is no base64, for the given reason
    KeyNotBase64(Seq<char>),
    /// the encryption key has another length than 32 bytes
    KeyLength,
    /// the initial values are no json object of texts, for the given reason
    InvalidInit(Seq<char>),
    /// a config key is too long
    CfgKeyTooLong,
    /// a config value is too long
    CfgValueTooLong,
    /// a stored config value is no text
    ValueNotUtf8,
    /// something else failed, for the given reason
    Other(Seq<char>),
}

impl View for CfgError {
    type V = CfgErrorView;

    open spec fn view(&self) -> CfgErrorView {
        match self {
            CfgError::KeyNotBase64(reason) => CfgErrorView::KeyNotBase64(reason@),
            CfgError::KeyLength => CfgErrorView::KeyLength,
            CfgError::InvalidInit(reason) => CfgErrorView::InvalidInit(reason@),
            CfgError::CfgKeyTooLong => CfgErrorView::CfgKeyTooLong,
            CfgError::CfgValueTooLong => CfgErrorView::CfgValueTooLong,
            CfgError::ValueNotUtf8 => CfgErrorView::ValueNotUtf8,
            CfgError::Other(reason) => CfgErrorView::Other(reason@),
        }
    }
}

impl CfgErrorView {
    /// Is the fault in what was given to the server?
    pub open spec fn invalid_input(self) -> bool {
        !(self is ValueNotUtf8) && !(self is Other)
    }
}

impl CfgError {
    /// What `message` gives for the error.
    pub open spec fn text(&self) -> Seq<char> {
        match self@ {
            CfgErrorView::KeyNotBase64(reason) => "encryption key is not valid base64: "@ + reason,
            CfgErrorView::KeyLength => "encryption key must decode to exactly 32 bytes"@,
            CfgErrorView::InvalidInit(reason) => "invalid --init json: "@ + reason,
            CfgErrorView::CfgKeyTooLong => "config key cannot be > 1024 bytes"@,
            CfgErrorView::CfgValueTooLong => "config value cannot be > 4096 bytes"@,
            CfgErrorView::ValueNotUtf8 => "config value is not valid utf-8"@,
            CfgErrorView::Other(reason) => reason,
        }
    }

    /// Is the fault in what was given to the server, rather than in the server or
    /// what it works on?
    pub fn is_invalid_input(&self) -> (res: bool)
        ensures
            res == self@.invalid_input(),
    {
        match self {
            CfgError::ValueNotUtf8 => false,
            CfgError::Other(_) => false,
            _ => true,
        }
    }

    /// The error in words.
    pub fn message(&self) -> (out: String)
        ensures
            out@ == self.text(),
    {
        match self {
            CfgError::KeyNotBase64(reason) => {
                let mut out = "encryption key is not valid base64: ".to_owned();
                out.append(reason.as_str());
                out
            },
            CfgError::KeyLength => "encryption key must decode to exactly 32 bytes".to_owned(),
            CfgError::InvalidInit(reason) => {
                let mut out = "invalid --init json: ".to_owned();
                out.append(reason.as_str());
                out
            },
            CfgError::CfgKeyTooLong => "config key cannot be > 1024 bytes".to_owned(),
            CfgError::CfgValueTooLong => "config value cannot be > 4096 bytes".to_owned(),
            CfgError::ValueNotUtf8 => "config value is not valid utf-8".to_owned(),
            CfgError::Other(reason) => reason.clone(),
        }
    }
}

/// Configure how to run the config server.
pub struct Config {
    /// Select the root directory where data should be persisted.
    pub db_root_dir: String,
    /// List of local addresses to which we should bind the server.
    ///
    /// If empty, defaults to `0.0.0.0:0`, or `127.0.0.1:44332` when `test` is
    /// set.
    pub addr: Vec<ServerAddr>,
    /// A `{ [key: string]: string }` json object of config values with which to
    /// initialize the server. If this is set, the server will initialize (or
    /// overwrite) the database with these values, and serve nothing.
    pub init: Option<String>,
    /// Base64 encryption key (32 bytes) for at-rest db encryption.
    ///
    /// If not provided, a random ephemeral key is generated. Data persisted under
    /// a random key is not readable after a restart.
    pub encryption_key: Option<String>,
    /// Run in test mode.
    pub test: bool,
}

/// The db class under which all config entries are stored.
pub const CFG_CLASS: &'static str = "cfg";

/// Prefix marking a config entry as an api key rather than a regular config
/// value.
pub const CFG_API_KEY_PREFIX: &'static str = "cfg-api-key~";

/// Prefix marking a config entry as an advertised local bind address.
pub const CFG_ADDR_PREFIX: &'static str = "cfg-addr~";

/// How many seconds pass until the locally bound addresses are advertised again.
pub const CFG_ADDR_INTERVAL_SECS: u64 = 60;

/// How many microseconds an advertised bind address remains valid.
///
/// Twice the advertisement interval, so an entry stays valid across a single
/// missed refresh before the db prunes it.
pub const CFG_ADDR_TTL_MICROS: i64 = 120_000_000;

/// Maximum size of a config value, imposed by the entry metadata column.
pub const CFG_VALUE_MAX: usize = 4096;

/// Maximum length of a config key, imposed by the db.
pub const CFG_KEY_MAX: usize = 1024;

/// How many times a config value is written before giving up.
pub const WRITE_TRIES: u32 = 64;

/// The api key seeded into the kv store in test mode.
pub const TEST_API_KEY: &'static str = "test";

/// Key of the entry under which the api key of test mode is stored.
pub const TEST_API_ENTRY: &'static str = "cfg-api-key~test";

/// The bind address used when none is given: `0.0.0.0:0`.
pub open spec fn default_bind() -> ServerAddr {
    ServerAddr::V4 { ip: 0, port: 0 }
}

/// The bind address used in test mode when none is given: `127.0.0.1:44332`.
pub open spec fn test_bind() -> ServerAddr {
    ServerAddr::V4 { ip: 0x7f00_0001, port: 44332 }
}

/// Turn the time since the unix epoch, in microseconds, into a timestamp. A
/// clock set before the epoch counts as the epoch.
pub fn unix_micros(since_epoch: Option<u128>) -> (micros: i64)
    ensures
        micros == match since_epoch {
            Some(since) => since as i64,
            None => 0,
        },
{
    match since_epoch {
        Some(since) => #[verifier::truncate]
        (since as i64),
        None => 0,
    }
}

/// Allocate a strictly increasing microsecond timestamp.
///
/// The db requires `modified_at_micros` to be unique across all entries, but a
/// burst of writes can easily land within the same microsecond. The shared
/// counter bumps past any timestamp already handed out.
pub fn next_micros(counter: &mut i64, now: i64) -> (next: i64)
    requires
        *old(counter) < i64::MAX,
    ensures
        next == *final(counter),
        next == if *old(counter) >= now {
            *old(counter) + 1
        } else {
            now as int
        },
        next > *old(counter),
        next >= now,
{
    let prev: i64 = *counter;
    let next: i64 = if prev >= now { prev + 1 } else { now };
    *counter = next;
    next
}

/// Is a key configured? An empty one is none.
pub open spec fn configured(key: Option<String>) -> bool {
    key is Some && key->0@.len() > 0
}

/// Resolve the raw master key for `config`, given the key to use where none is
/// configured.
pub fn resolve_encryption_key_with(config: &Config, random: [u8; 32]) -> (res: Result<
    [u8; 32],
    CfgError,
>)
    ensures
        if configured(config.encryption_key) {
            match key::key_parsed(config.encryption_key->0@) {
                Ok(bytes) => res is Ok && res->Ok_0@ == bytes,
                Err(err) => res is Err && res->Err_0@ == err,
            }
        } else {
            res == Ok::<[u8; 32], CfgError>(random)
        },
        res is Err ==> res->Err_0@.invalid_input(),
{
    match &config.encryption_key {
        Some(words) => if words.as_str().is_empty() {
            Ok(random)
        } else {
            key::parse_encryption_key(words.as_str())
        },
        None => Ok(random),
    }
}

/// Resolve the raw master key for `config`.
///
/// If no key was configured, a random ephemeral key is generated. Data written
/// under a random key cannot be read after a restart, so a stable key is required
/// to persist data across runs.
pub fn resolve_encryption_key(config: &Config) -> (res: Result<[u8; 32], CfgError>)
    ensures
        if configured(config.encryption_key) {
            match key::key_parsed(config.encryption_key->0@) {
                Ok(bytes) => res is Ok && res->Ok_0@ == bytes,
                Err(err) => res is Err && res->Err_0@ == err,
            }
        } else {
            res is Ok && crypto::drawn(res->Ok_0)
        },
        res is Err ==> res->Err_0@.invalid_input(),
{
    resolve_encryption_key_with(config, key::random_encryption_key())
}

/// Initial values of a configuration: none where none are given.
pub open spec fn init_of(init: Option<String>) -> Result<
    Seq<(Seq<char>, Seq<char>)>,
    CfgErrorView,
> {
    match init {
        Some(words) => init::init_parsed(words@),
        None => Ok(Seq::empty()),
    }
}

impl Config {
    /// Is `after` this configuration with the defaults of test mode applied, `res`
    /// what applying them returns, and `key` the key to pin where none is
    /// configured? Where the initial values cannot be read, the root and the
    /// addresses are set all the same.
    pub open spec fn with_test_defaults(
        &self,
        after: &Config,
        root: Seq<char>,
        key: Seq<u8>,
        res: Result<(), CfgError>,
    ) -> bool {
        &&& after.test == self.test
        &&& after.db_root_dir@ == root
        &&& if self.addr@.len() == 0 {
            after.addr@ == seq![test_bind()]
        } else {
            after.addr == self.addr
        }
        &&& match init_of(self.init) {
            Err(err) => {
                &&& res is Err
                &&& res->Err_0@ == err
                &&& after.init == self.init
                &&& after.encryption_key == self.encryption_key
            },
            Ok(pairs) => {
                let seeded = init::with_entry(pairs, TEST_API_ENTRY@, Seq::empty());
                &&& res is Ok
                &&& after.init is Some
                &&& after.init->0@ == init::json_of(seeded)
                &&& init_of(after.init) is Ok
                &&& init_of(after.init)->Ok_0 == seeded
                &&& if configured(self.encryption_key) {
                    after.encryption_key == self.encryption_key
                } else {
                    &&& configured(after.encryption_key)
                    &&& after.encryption_key->0@ == key::base64_of(key)
                    &&& key::key_parsed(after.encryption_key->0@) is Ok
                    &&& key::key_parsed(after.encryption_key->0@)->Ok_0 == key
                }
            },
        }
    }

    /// Apply the convenience defaults of test mode in place, given the key to pin
    /// where none is configured.
    pub fn apply_test_defaults_with(&mut self, root: String, key: &[u8; 32]) -> (res: Result<
        (),
        CfgError,
    >)
        ensures
            old(self).with_test_defaults(final(self), root@, key@, res),
            res is Err ==> res->Err_0@.invalid_input(),
    {
        self.db_root_dir = root;
        if self.addr.len() == 0 {
            let mut addr: Vec<ServerAddr> = Vec::new();
            addr.push(ServerAddr::V4 { ip: 0x7f00_0001, port: 44332 });
            assert(addr@ =~= seq![test_bind()]);
            self.addr = addr;
        }
        let pairs: Vec<(String, String)> = match &self.init {
            Some(words) => match init::parse_init(words.as_str()) {
                Ok(pairs) => pairs,
                Err(err) => {
                    return Err(err);
                },
            },
            None => {
                let none: Vec<(String, String)> = Vec::new();
                assert(api::pairs_text(none@) =~= Seq::empty());
                none
            },
        };
        let seeded = seed_test_key(pairs);
        self.init = Some(init::write_init(seeded));
        let missing: bool = match &self.encryption_key {
            Some(words) => words.as_str().is_empty(),
            None => true,
        };
        if missing {
            self.encryption_key = Some(key::encode_encryption_key(key));
        }
        Ok(())
    }

    /// Apply the convenience defaults of test mode in place.
    ///
    /// `root` becomes the database root, the api key of test mode is merged into
    /// the initial values, and the server binds `127.0.0.1:44332` unless an
    /// explicit address was supplied. If no encryption key is configured, a random
    /// one is pinned so that initialization and serving use the same key.
    pub fn apply_test_defaults(&mut self, root: String) -> (res: Result<(), CfgError>)
        ensures
            exists|key: [u8; 32]| #[trigger]
                crypto::drawn(key) && old(self).with_test_defaults(final(self), root@, key@, res),
            res is Err ==> res->Err_0@.invalid_input(),
    {
        let key = key::random_encryption_key();
        let res = self.apply_test_defaults_with(root, &key);
        assert(crypto::drawn(key) && old(self).with_test_defaults(self, root@, key@, res));
        res
    }

    /// The addresses to bind: the configured ones, or else the wildcard.
    pub fn bind_addrs(&self) -> (addrs: Vec<ServerAddr>)
        ensures
            addrs@ == if self.addr@.len() == 0 {
                seq![default_bind()]
            } else {
                self.addr@
            },
    {
        let mut addrs: Vec<ServerAddr> = Vec::new();
        if self.addr.len() == 0 {
            addrs.push(ServerAddr::V4 { ip: 0, port: 0 });
        } else {
            for i in 0..self.addr.len()
                invariant
                    addrs@ == self.addr@.take(i as int),
            {
                addrs.push(self.addr[i]);
                assert(self.addr@.take(i + 1) =~= self.addr@.take(i as int).push(
                    self.addr@[i as int],
                ));
            }
        }
        assert(self.addr@.len() == 0 ==> addrs@ =~= seq![default_bind()]);
        assert(self.addr@.len() > 0 ==> addrs@ =~= self.addr@);
        addrs
    }

    /// Values to initialize the database with, by ascending key. Without any given
    /// there are none.
    pub fn init_values(&self) -> (res: Result<Vec<(String, String)>, CfgError>)
        ensures
            match init::init_parsed(
                match self.init {
                    Some(words) => words@,
                    None => "{}"@,
                },
            ) {
                Ok(pairs) => res is Ok && api::pairs_text(res->Ok_0@) == pairs,
                Err(err) => res is Err && res->Err_0@ == err,
            },
            res is Ok ==> init::keys_ascend(api::pairs_text(res->Ok_0@)),
            res is Err ==> res->Err_0@.invalid_input(),
    {
        match &self.init {
            Some(words) => init::parse_init(words.as_str()),
            None => init::parse_init("{}"),
        }
    }

    /// What running the config server comes to.
    pub fn run_mode(&self) -> (mode: RunMode)
        ensures
            mode == if self.test {
                RunMode::Test
            } else if self.init is Some {
                RunMode::Init
            } else {
                RunMode::Serve
            },
    {
        if self.test {
            RunMode::Test
        } else if self.init.is_some() {
            RunMode::Init
        } else {
            RunMode::Serve
        }
    }
}

/// What running the config server comes to.
#[derive(Clone, Copy, Debug, PartialEq, Eq, Structural)]
pub enum RunMode {
    /// Apply the defaults of test mode to a temporary directory, initialize the
    /// database there, and serve from it until the process is told to stop.
    Test,
    /// Initialize the database, and serve nothing.
    Init,
    /// Serve.
    Serve,
}

/// Add the api key of test mode to initial values.
pub fn seed_test_key(pairs: Vec<(String, String)>) -> (out: Vec<(String, String)>)
    requires
        init::keys_ascend(api::pairs_text(pairs@)),
    ensures
        api::pairs_text(out@) == init::with_entry(
            api::pairs_text(pairs@),
            TEST_API_ENTRY@,
            Seq::empty(),
        ),
        init::keys_ascend(api::pairs_text(out@)),
{
    proof {
        init::lemma_with_entry(api::pairs_text(pairs@), TEST_API_ENTRY@, Seq::empty());
    }
    let empty = String::new();
    assert(empty@ =~= Seq::empty());
    init::set_entry(pairs, TEST_API_ENTRY.to_owned(), empty)
}

/// Why a config value cannot be stored, if it cannot.
pub open spec fn value_refusal(key: Seq<char>, value: Seq<char>) -> Option<CfgError> {
    if encode_utf8(key).len() > CFG_KEY_MAX {
        Some(CfgError::CfgKeyTooLong)
    } else if encode_utf8(value).len() > CFG_VALUE_MAX {
        Some(CfgError::CfgValueTooLong)
    } else {
        None
    }
}

/// A config value that is being written.
pub struct ValueUpsert {
    key: String,
    metadata: Vec<u8>,
    expires_at_micros: Option<i64>,
    tries: u32,
}

/// What the writing of a config value does next.
pub enum UpsertStep {
    /// Write the row.
    Write(EntryRow),
    /// The value is written.
    Done,
    /// Writing has failed.
    Fail(CfgError),
}

impl ValueUpsert {
    /// Key of the entry.
    pub closed spec fn key(&self) -> Seq<char> {
        self.key@
    }

    /// What is stored for the value.
    pub closed spec fn metadata(&self) -> Seq<u8> {
        self.metadata@
    }

    /// Timestamp past which the entry expires.
    pub closed spec fn expires(&self) -> Option<i64> {
        self.expires_at_micros
    }

    /// How many times the row was handed out to be written.
    pub closed spec fn tries(&self) -> u32 {
        self.tries
    }

    /// Are the two the same but for the count of tries?
    pub open spec fn same_value(&self, other: &Self) -> bool {
        &&& self.key() == other.key()
        &&& self.metadata() == other.metadata()
        &&& self.expires() == other.expires()
    }

    /// Start writing a config value.
    pub fn start(key: String, value: String, expires_at_micros: Option<i64>) -> (res: Result<
        Self,
        CfgError,
    >)
        ensures
            match value_refusal(key@, value@) {
                Some(err) => res == Err::<Self, CfgError>(err),
                None => {
                    &&& res is Ok
                    &&& res->Ok_0.key() == key@
                    &&& res->Ok_0.metadata() == encode_utf8(value@)
                    &&& res->Ok_0.expires() == expires_at_micros
                    &&& res->Ok_0.tries() == 0
                },
            },
    {
        if text::byte_len(key.as_str()) > CFG_KEY_MAX {
            return Err(CfgError::CfgKeyTooLong);
        }
        let bytes = value.as_str().as_bytes();
        if bytes.len() > CFG_VALUE_MAX {
            return Err(CfgError::CfgValueTooLong);
        }
        let mut metadata: Vec<u8> = Vec::new();
        metadata.extend_from_slice(bytes);
        assert(metadata@ =~= encode_utf8(value@));
        Ok(ValueUpsert { key, metadata, expires_at_micros, tries: 0 })
    }

    /// Is this the row that writing the value at the given time tries?
    pub open spec fn row(&self, row: EntryRow, modified_at_micros: i64) -> bool {
        &&& row.class@ == CFG_CLASS@
        &&& row.key@ == self.key()
        &&& row.modified_at_micros == modified_at_micros
        &&& row.expires_at_micros == self.expires()
        &&& row.metadata is Some
        &&& row.metadata->0@ == self.metadata()
    }

    /// The row to write next, under a timestamp that was not handed out before.
    pub fn next_row(&mut self, counter: &mut i64, now: i64) -> (row: EntryRow)
        requires
            *old(counter) < i64::MAX,
            old(self).tries() < WRITE_TRIES,
        ensures
            final(self).same_value(old(self)),
            final(self).tries() == old(self).tries() + 1,
            *final(counter) > *old(counter),
            *final(counter) == if *old(counter) >= now {
                *old(counter) + 1
            } else {
                now as int
            },
            old(self).row(row, *final(counter)),
    {
        let modified_at_micros: i64 = next_micros(counter, now);
        self.tries = self.tries + 1;
        let mut metadata: Vec<u8> = Vec::new();
        metadata.extend_from_slice(self.metadata.as_slice());
        assert(metadata@ =~= self.metadata@);
        EntryRow {
            class: CFG_CLASS.to_owned(),
            key: self.key.clone(),
            modified_at_micros,
            expires_at_micros: self.expires_at_micros,
            metadata: Some(metadata),
        }
    }

    /// Is the row tried again after this outcome, which takes another timestamp?
    pub fn tries_again(&self, outcome: &Result<(), String>) -> (res: bool)
        ensures
            res == (outcome is Err && self.tries() < WRITE_TRIES),
    {
        match outcome {
            Ok(()) => false,
            Err(_) => self.tries < WRITE_TRIES,
        }
    }

    /// Decide how writing goes on after the last row was written or refused.
    ///
    /// The only expected refusal is that of a timestamp in use, which the next
    /// timestamp resolves, so the row is tried again. Where the last try is
    /// refused too, its reason is what the writing fails with.
    pub fn after_write(
        &mut self,
        counter: &mut i64,
        now: i64,
        outcome: Result<(), String>,
    ) -> (step: UpsertStep)
        requires
            outcome is Err && old(self).tries() < WRITE_TRIES ==> *old(counter) < i64::MAX,
        ensures
            final(self).same_value(old(self)),
            match outcome {
                Ok(()) => step is Done && *final(counter) == *old(counter) && final(self).tries()
                    == old(self).tries(),
                Err(reason) => if old(self).tries() < WRITE_TRIES {
                    &&& step is Write
                    &&& *final(counter) == if *old(counter) >= now {
                        *old(counter) + 1
                    } else {
                        now as int
                    }
                    &&& old(self).row(step->Write_0, *final(counter))
                    &&& final(self).tries() == old(self).tries() + 1
                } else {
                    &&& step == UpsertStep::Fail(CfgError::Other(reason))
                    &&& *final(counter) == *old(counter)
                    &&& final(self).tries() == old(self).tries()
                },
            },
    {
        match outcome {
            Ok(()) => UpsertStep::Done,
            Err(reason) => if self.tries < WRITE_TRIES {
                UpsertStep::Write(self.next_row(counter, now))
            } else {
                UpsertStep::Fail(CfgError::Other(reason))
            },
        }
    }
}

/// A config value that is accepted is within the limits of the database.
pub proof fn lemma_value_within_limits(key: Seq<char>, value: Seq<char>, metadata: Vec<u8>)
    requires
        value_refusal(key, value) is None,
        metadata@ == encode_utf8(value),
    ensures
        db::entry_limit(CFG_CLASS@, key, Some(metadata)) is None,
{
    reveal_strlit("cfg");
    text::lemma_ascii_len(CFG_CLASS@);
}

/// When entries advertised now expire.
pub open spec fn addr_expiry(now: i64) -> int {
    if now + CFG_ADDR_TTL_MICROS > i64::MAX {
        i64::MAX as int
    } else {
        now + CFG_ADDR_TTL_MICROS
    }
}

/// Start writing an entry, with an empty value, that advertises each of the given
/// addresses. All expire at the same time, a fixed while from now.
pub fn announce_addrs(now: i64, addrs: &[String]) -> (entries: Vec<(String, String, Option<i64>)>)
    ensures
        entries@.len() == addrs@.len(),
        forall|i: int|
            0 <= i < addrs@.len() ==> {
                &&& (#[trigger] entries@[i]).0@ == CFG_ADDR_PREFIX@ + addrs@[i]@
                &&& entries@[i].1@ == Seq::<char>::empty()
                &&& entries@[i].2 is Some
                &&& entries@[i].2->0 == addr_expiry(now)
            },
{
    let expires: i64 = if now > i64::MAX - CFG_ADDR_TTL_MICROS {
        i64::MAX
    } else {
        now + CFG_ADDR_TTL_MICROS
    };
    let mut entries: Vec<(String, String, Option<i64>)> = Vec::new();
    for i in 0..addrs.len()
        invariant
            expires == addr_expiry(now),
            entries@.len() == i,
            forall|j: int|
                0 <= j < i ==> {
                    &&& (#[trigger] entries@[j]).0@ == CFG_ADDR_PREFIX@ + addrs@[j]@
                    &&& entries@[j].1@ == Seq::<char>::empty()
                    &&& entries@[j].2 is Some
                    &&& entries@[j].2->0 == addr_expiry(now)
                },
    {
        let mut key = CFG_ADDR_PREFIX.to_owned();
        key.append(addrs[i].as_str());
        let value = String::new();
        assert(value@ =~= Seq::<char>::empty());
        entries.push((key, value, Some(expires)));
    }
    entries
}

/// The listing of all config values, by ascending key.
pub fn all_values_query() -> (query: sql::ListQuery)
    ensures
        query.sql@ == sql::list_sql(VmIoDbListFilter::All, VmIoDbListSort::KeyAsc),
        sql::param_vals(query.params@) == sql::list_vals(
            CFG_CLASS@,
            VmIoDbListFilter::All,
            i64::MAX,
        ),
{
    sql::list(CFG_CLASS.to_owned(), VmIoDbListFilter::All, VmIoDbListSort::KeyAsc, i64::MAX)
}

/// The value of a config entry: its metadata as text, and no text without any.
pub open spec fn entry_value(entry: VmIoDbEntry) -> Option<Seq<char>> {
    match entry.metadata {
        None => Some(Seq::empty()),
        Some(bytes) => if valid_utf8(bytes@) {
            Some(decode_utf8(bytes@))
        } else {
            None
        },
    }
}

/// Does every entry hold a text?
pub open spec fn all_text(entries: Seq<VmIoDbEntry>) -> bool {
    forall|i: int| 0 <= i < entries.len() ==> entry_value(#[trigger] entries[i]) is Some
}

/// The keys and values of config entries.
pub open spec fn entry_pairs(entries: Seq<VmIoDbEntry>) -> Seq<(Seq<char>, Seq<char>)> {
    entries.map_values(|e: VmIoDbEntry| (e.key@, entry_value(e)->0))
}

/// What reading config entries gives: all keys and values, in the order of the
/// entries, or a failure where one holds no text.
pub open spec fn values_text(entries: Seq<VmIoDbEntry>) -> api::GetResText {
    if all_text(entries) {
        Ok(entry_pairs(entries))
    } else {
        Err("config value is not valid utf-8"@)
    }
}

/// Read every config value out of the listed entries.
pub fn read_all(entries: Vec<VmIoDbEntry>) -> (res: Result<Vec<(String, String)>, CfgError>)
    ensures
        if all_text(entries@) {
            res is Ok && api::pairs_text(res->Ok_0@) == entry_pairs(entries@)
        } else {
            res == Err::<Vec<(String, String)>, CfgError>(CfgError::ValueNotUtf8)
        },
{
    let ghost all = entries@;
    let mut out: Vec<(String, String)> = Vec::new();
    for entry in it: entries
        invariant
            it.seq() == all,
            out@.len() == it.index(),
            forall|i: int|
                0 <= i < it.index() ==> entry_value(#[trigger] all[i]) is Some && out@[i].0@
                    == all[i].key@ && out@[i].1@ == entry_value(all[i])->0,
    {
        assert(entry == all[it.index()]);
        let value: String = match entry.metadata {
            Some(bytes) => match text::utf8_text(bytes) {
                Some(value) => value,
                None => {
                    assert(entry_value(all[it.index()]) is None);
                    return Err(CfgError::ValueNotUtf8);
                },
            },
            None => {
                let none = String::new();
                assert(none@ =~= Seq::empty());
                none
            },
        };
        out.push((entry.key, value));
    }
    assert(api::pairs_text(out@) =~= entry_pairs(all));
    Ok(out)
}

/// What the config getter answers, given what came of listing the entries.
pub open spec fn get_answer(listed: Result<Vec<VmIoDbEntry>, String>) -> api::GetResText {
    match listed {
        Ok(entries) => values_text(entries@),
        Err(words) => Err(words@),
    }
}

/// Answer a `cfg-get` request, given what came of listing the entries.
///
/// A failure is part of the answer, so the request itself succeeds.
pub fn handle_get(listed: Result<Vec<VmIoDbEntry>, String>) -> (out: Vec<u8>)
    ensures
        out@ == api::get_res_bytes(get_answer(listed)),
        api::get_res_decoded(out@) is Ok,
        api::get_res_decoded(out@)->Ok_0 == get_answer(listed),
{
    let res: CfgGetRes = match listed {
        Ok(entries) => match read_all(entries) {
            Ok(pairs) => Ok(pairs),
            Err(err) => Err(err.message()),
        },
        Err(words) => Err(words),
    };
    proof {
        assert(api::get_res_text(res) == get_answer(listed));
    }
    res.to_payload()
}

/// Start answering a `cfg-put` request: the config value to be written. Once it
/// is, the answer is empty.
///
/// Api keys may be pushed like any other config value.
pub fn handle_put(req: &[u8]) -> (res: Result<ValueUpsert, CfgError>)
    ensures
        match api::put_req_decoded(req@) {
            Err(words) => res is Err && res->Err_0@ == CfgErrorView::Other(words),
            Ok((key, value, expires)) => match value_refusal(key, value) {
                Some(err) => res == Err::<ValueUpsert, CfgError>(err),
                None => {
                    &&& res is Ok
                    &&& res->Ok_0.key() == key
                    &&& res->Ok_0.metadata() == encode_utf8(value)
                    &&& res->Ok_0.expires() == expires
                    &&& res->Ok_0.tries() == 0
                },
            },
        },
{
    let decoded: Result<CfgPutReq, String> = api::decode(req);
    match decoded {
        Err(words) => Err(CfgError::Other(words)),
        Ok(put) => ValueUpsert::start(put.key, put.value, put.expires_at_micros),
    }
}

/// A config value that was stored reads back as it was given.
pub proof fn lemma_value_round_trip(entry: VmIoDbEntry, value: Seq<char>)
    requires
        entry.metadata is Some,
        entry.metadata->0@ == encode_utf8(value),
    ensures
        entry_value(entry) == Some(value),
{
    encode_utf8_valid_utf8(value);
    encode_utf8_decode_utf8(value);
}

/// What a `cfg-put` request stored, a `cfg-get` request returns: an entry with
/// the key, and the bytes of the value for metadata, is listed as that key and
/// that value.
pub proof fn lemma_put_then_get(
    entries: Seq<VmIoDbEntry>,
    i: int,
    key: Seq<char>,
    value: Seq<char>,
)
    requires
        all_text(entries),
        0 <= i < entries.len(),
        entries[i].key@ == key,
        entries[i].metadata is Some,
        entries[i].metadata->0@ == encode_utf8(value),
    ensures
        values_text(entries) is Ok,
        values_text(entries)->Ok_0[i] == (key, value),
{
    lemma_value_round_trip(entries[i], value);
}

/// The token that an authorization header presents.
pub open spec fn token_of(auth: Seq<char>) -> Seq<char> {
    text::trimmed(text::without_prefix(auth, BEARER@))
}

/// Key of the entry that authorizes whoever presents a header, or `None` where it
/// holds no token.
pub fn api_key_entry(auth: &str) -> (key: Option<String>)
    ensures
        if token_of(auth@).len() == 0 {
            key is None
        } else {
            key is Some && key->0@ == CFG_API_KEY_PREFIX@ + token_of(auth@)
        },
{
    let chars = text::chars_of(auth);
    let bearer = text::chars_of(BEARER);
    let from: usize = if text::has_prefix(chars.as_slice(), bearer.as_slice()) {
        bearer.len()
    } else {
        0
    };
    let rest = vstd::slice::slice_subrange(chars.as_slice(), from, chars.len());
    assert(rest@ =~= text::without_prefix(auth@, BEARER@));
    let token = text::trim(rest);
    if token.len() == 0 {
        return None;
    }
    let mut key = CFG_API_KEY_PREFIX.to_owned();
    key.append(text::text_of(token.as_slice()).as_str());
    Some(key)
}

/// Status that a request is authorized or refused with, given what came of
/// looking the entry of its token up: whether there is one.
pub fn auth_status(found: Option<Result<bool, String>>) -> (status: u16)
    ensures
        status == match found {
            None => reply::UNAUTHORIZED,
            Some(Ok(true)) => reply::OK,
            Some(Ok(false)) => reply::UNAUTHORIZED,
            Some(Err(_)) => reply::INTERNAL_SERVER_ERROR,
        },
{
    match found {
        None => reply::UNAUTHORIZED,
        Some(Ok(there)) => if there {
            reply::OK
        } else {
            reply::UNAUTHORIZED
        },
        Some(Err(_)) => reply::INTERNAL_SERVER_ERROR,
    }
}

/// A token without white space at its ends is looked up as it is: an api key that
/// was pushed under `cfg-api-key~<token>` authorizes whoever presents
/// `Bearer <token>`.
pub proof fn lemma_pushed_key_authorizes(token: Seq<char>)
    requires
        token.len() > 0,
        !text::is_space(token.first()),
        !text::is_space(token.last()),
    ensures
        token_of(BEARER@ + token) == token,
{
    let auth = BEARER@ + token;
    let n = BEARER@.len() as int;
    assert(auth.take(n) =~= BEARER@);
    assert(auth.skip(n) =~= token);
    text::lemma_trim_fixed(token);
}

/// The api key of test mode authorizes whoever presents `Bearer test`.
pub proof fn lemma_test_key_authorizes()
    ensures
        CFG_API_KEY_PREFIX@ + token_of(BEARER@ + TEST_API_KEY@) == TEST_API_ENTRY@,
{
    reveal_strlit("test");
    reveal_strlit("cfg-api-key~");
    reveal_strlit("cfg-api-key~test");
    lemma_pushed_key_authorizes(TEST_API_KEY@);
    assert(CFG_API_KEY_PREFIX@ + TEST_API_KEY@ =~= TEST_API_ENTRY@);
}

/// The handlers of the config server: the getter, then the setter. Their names
/// are not in each other's way.
pub fn handler_table() -> (res: Result<HandlerTable, ChanError>)
    ensures
        res is Ok,
        res->Ok_0.inv(),
        res->Ok_0@ == chan::with_health(seq![CFG_GET_REQ@, CFG_PUT_REQ@]),
{
    let mut names: Vec<String> = Vec::new();
    names.push(CFG_GET_REQ.to_owned());
    names.push(CFG_PUT_REQ.to_owned());
    proof {
        reveal_strlit("cfg-get");
        reveal_strlit("cfg-put");
        reveal_strlit("__health");
        let all = chan::with_health(chan::names_text(names@));
        assert(chan::names_text(names@) =~= seq![CFG_GET_REQ@, CFG_PUT_REQ@]);
        assert(CFG_GET_REQ@[4] != CFG_PUT_REQ@[4]);
        assert(all.len() == 3 && all[0].len() == 8 && all[1].len() == 7 && all[2].len() == 7);
        assert(chan::all_distinct(all));
    }
    HandlerTable::new(names)
}

/// A config value is refused exactly where it must be: where its key takes more than
/// 1024 bytes, and otherwise where it takes more than 4096 bytes itself.
pub proof fn lemma_value_accepted(
    key: String,
    value: String,
    expires: Option<i64>,
    res: Result<ValueUpsert, CfgError>,
)
    requires
        call_ensures(ValueUpsert::start, (key, value, expires), res),
    ensures
        res is Ok <==> encode_utf8(key@).len() <= 1024 && encode_utf8(value@).len() <= 4096,
        encode_utf8(key@).len() > 1024 ==> res == Err::<ValueUpsert, CfgError>(
            CfgError::CfgKeyTooLong,
        ),
        encode_utf8(key@).len() <= 1024 && encode_utf8(value@).len() > 4096 ==> res == Err::<
            ValueUpsert,
            CfgError,
        >(CfgError::CfgValueTooLong),
{
}

/// The row that is written for a config value holds just that value: its key, its
/// bytes and its expiration, under the class of all config entries and a timestamp
/// that comes after all that were handed out, and is the present one where that is
/// so.
pub proof fn lemma_value_written(
    key: String,
    value: String,
    expires: Option<i64>,
    started: Result<ValueUpsert, CfgError>,
    upsert: &mut ValueUpsert,
    counter: &mut i64,
    now: i64,
    row: EntryRow,
)
    requires
        call_ensures(ValueUpsert::start, (key, value, expires), started),
        started is Ok,
        *old(upsert) == started->Ok_0,
        *old(counter) < i64::MAX,
        call_ensures(ValueUpsert::next_row, (upsert, counter, now), row),
    ensures
        row.class@ == "cfg"@,
        row.key@ == key@,
        row.metadata is Some && row.metadata->0@ == encode_utf8(value@),
        row.expires_at_micros == expires,
        row.modified_at_micros == *final(counter),
        *final(counter) == if *old(counter) < now {
            now as int
        } else {
            *old(counter) + 1
        },
        final(upsert).tries() == 1,
        final(upsert).same_value(old(upsert)),
{
}

/// Writing a config value goes on as long as its row is refused, each time with the
/// same row under the next timestamp, until it was tried 64 times. It then fails
/// with the reason of the last refusal. Once the row is written that is the end.
pub proof fn lemma_write_tried(
    upsert: &mut ValueUpsert,
    counter: &mut i64,
    now: i64,
    outcome: Result<(), String>,
    again: bool,
    step: UpsertStep,
)
    requires
        outcome is Err && old(upsert).tries() < 64 ==> *old(counter) < i64::MAX,
        call_ensures(ValueUpsert::tries_again, (&*old(upsert), &outcome), again),
        call_ensures(ValueUpsert::after_write, (upsert, counter, now, outcome), step),
    ensures
        again <==> outcome is Err && old(upsert).tries() < 64,
        step is Done <==> outcome is Ok,
        step is Write <==> again,
        step is Fail ==> step->Fail_0 is Other && step->Fail_0->Other_0@ == outcome->Err_0@,
        step is Write ==> {
            let row = step->Write_0;
            &&& row.class@ == "cfg"@
            &&& row.key@ == old(upsert).key()
            &&& row.metadata is Some && row.metadata->0@ == old(upsert).metadata()
            &&& row.expires_at_micros == old(upsert).expires()
            &&& row.modified_at_micros == *final(counter)
            &&& *final(counter) == if *old(counter) < now {
                now as int
            } else {
                *old(counter) + 1
            }
        },
        !again ==> *final(counter) == *old(counter),
        final(upsert).tries() == old(upsert).tries() + if again {
            1int
        } else {
            0int
        },
        final(upsert).key() == old(upsert).key(),
        final(upsert).metadata() == old(upsert).metadata(),
        final(upsert).expires() == old(upsert).expires(),
{
}

/// A `cfg-get` request is answered with the complete config. What a client reads out
/// of the answer has a pair for each entry, in the order of the entries: the key of
/// the entry, and the text whose bytes are its metadata, or no text without any.
///
/// Where some metadata is no text, or the entries could not be listed, the client
/// reads a failure instead.
pub proof fn lemma_get_complete(
    listed: Result<Vec<VmIoDbEntry>, String>,
    out: Vec<u8>,
    slice: &[u8],
    read: Result<CfgGetRes, String>,
)
    requires
        call_ensures(handle_get, (listed,), out),
        slice@ == out@,
        call_ensures(api::decode::<CfgGetRes>, (slice,), read),
    ensures
        read is Ok,
        match listed {
            Err(words) => read->Ok_0 is Err && read->Ok_0->Err_0@ == words@,
            Ok(entries) => {
                let texts = forall|i: int|
                    0 <= i < entries@.len() && (#[trigger] entries@[i]).metadata is Some
                        ==> valid_utf8(entries@[i].metadata->0@);
                &&& texts <==> read->Ok_0 is Ok
                &&& !texts ==> read->Ok_0->Err_0@ == "config value is not valid utf-8"@
                &&& texts ==> {
                    let pairs = read->Ok_0->Ok_0;
                    &&& pairs@.len() == entries@.len()
                    &&& forall|i: int|
                        0 <= i < entries@.len() ==> (#[trigger] pairs@[i]).0@ == entries@[i].key@
                    &&& forall|i: int|
                        0 <= i < entries@.len() ==> encode_utf8((#[trigger] pairs@[i]).1@) == (
                        match entries@[i].metadata {
                            Some(bytes) => bytes@,
                            None => Seq::empty(),
                        })
                }
            },
        },
{
    if listed is Ok {
        let entries = listed->Ok_0@;
        let texts = forall|i: int|
            0 <= i < entries.len() && (#[trigger] entries[i]).metadata is Some ==> valid_utf8(
                entries[i].metadata->0@,
            );
        if texts {
            assert forall|i: int| 0 <= i < entries.len() implies entry_value(
                #[trigger] entries[i],
            ) is Some by {}
            let pairs = read->Ok_0->Ok_0@;
            assert(api::pairs_text(pairs) == entry_pairs(entries));
            assert(api::pairs_text(pairs).len() == pairs.len());
            assert(entry_pairs(entries).len() == entries.len());
            assert forall|i: int| 0 <= i < entries.len() implies (#[trigger] pairs[i]).0@
                == entries[i].key@ by {
                assert(api::pairs_text(pairs)[i] == entry_pairs(entries)[i]);
            }
            assert forall|i: int| 0 <= i < entries.len() implies encode_utf8(
                (#[trigger] pairs[i]).1@,
            ) == (match entries[i].metadata {
                Some(bytes) => bytes@,
                None => Seq::empty(),
            }) by {
                assert(api::pairs_text(pairs)[i] == entry_pairs(entries)[i]);
                if entries[i].metadata is Some {
                    decode_utf8_encode_utf8(entries[i].metadata->0@);
                }
            }
        } else {
            let i = choose|i: int|
                0 <= i < entries.len() && (#[trigger] entries[i]).metadata is Some && !valid_utf8(
                    entries[i].metadata->0@,
                );
            assert(entry_value(entries[i]) is None);
        }
    }
}

/// A config value that was put is what is got, and unchanged: a client sends it, the
/// server takes it off the wire and writes a row, and once the entry of that row is
/// listed, a client that asks for the config reads the key and the value at the
/// place of that entry.
pub proof fn lemma_put_got(
    cli: &ChanCli,
    put: CfgPutReq,
    sent: Result<ChanRequest, ChanError>,
    wire: &[u8],
    taken: Result<ValueUpsert, CfgError>,
    upsert: &mut ValueUpsert,
    counter: &mut i64,
    now: i64,
    row: EntryRow,
    entries: Vec<VmIoDbEntry>,
    at: int,
    answer: Vec<u8>,
    read: Result<CfgGetRes, ChanError>,
)
    requires
        call_ensures(<ChanCli as ChanCliCfgExt>::cfg_put, (cli, put), sent),
        sent is Ok ==> wire@ == sent->Ok_0.body@,
        call_ensures(handle_put, (wire,), taken),
        taken is Ok ==> {
            &&& *old(upsert) == taken->Ok_0
            &&& *old(counter) < i64::MAX
            &&& call_ensures(ValueUpsert::next_row, (upsert, counter, now), row)
            &&& 0 <= at < entries@.len()
            &&& entries@[at].key@ == row.key@
            &&& entries@[at].metadata == row.metadata
            &&& call_ensures(handle_get, (Ok(entries),), answer)
            &&& call_ensures(chan::cfg::cfg_get_result, (Ok(answer),), read)
        },
    ensures
        sent is Ok,
        taken is Ok <==> encode_utf8(put.key@).len() <= 1024 && encode_utf8(put.value@).len()
            <= 4096,
        taken is Ok ==> row.expires_at_micros == put.expires_at_micros,
        taken is Ok && read is Ok && read->Ok_0 is Ok ==> {
            let pairs = read->Ok_0->Ok_0;
            pairs@[at].0@ == put.key@ && pairs@[at].1@ == put.value@
        },
{
    if taken is Ok && read is Ok && read->Ok_0 is Ok {
        let pairs = read->Ok_0->Ok_0@;
        assert(api::pairs_text(pairs) == entry_pairs(entries@));
        assert(api::pairs_text(pairs).len() == pairs.len());
        assert(api::pairs_text(pairs)[at] == (pairs[at].0@, pairs[at].1@));
        assert(entry_pairs(entries@)[at] == (entries@[at].key@, entry_value(entries@[at])->0));
        lemma_value_round_trip(entries@[at], put.value@);
    }
}

/// The token of a header is what stands behind `Bearer `, or all of the header where
/// it starts otherwise, without the white space around it. It is looked up under
/// `cfg-api-key~` and the token, and where there is no token nothing is.
pub proof fn lemma_token_looked_up(
    auth: &str,
    prefix: Seq<char>,
    before: Seq<char>,
    token: Seq<char>,
    after: Seq<char>,
    key: Option<String>,
)
    requires
        auth@ == prefix + before + token + after,
        prefix == "Bearer "@ || prefix.len() == 0 && !text::starts_with(auth@, "Bearer "@),
        forall|i: int| 0 <= i < before.len() ==> text::is_space(#[trigger] before[i]),
        forall|i: int| 0 <= i < after.len() ==> text::is_space(#[trigger] after[i]),
        token.len() > 0 ==> !text::is_space(token.first()) && !text::is_space(token.last()),
        call_ensures(api_key_entry, (auth,), key),
    ensures
        key is Some <==> token.len() > 0,
        key is Some ==> key->0@ == "cfg-api-key~"@ + token,
{
    let rest = before + token + after;
    let n = prefix.len() as int;
    assert(auth@ =~= prefix + rest);
    assert(auth@.take(n) =~= prefix);
    assert(auth@.skip(n) =~= rest);
    assert(text::without_prefix(auth@, "Bearer "@) == rest);
    if token.len() > 0 {
        text::lemma_trim_around(before, token, after);
    } else {
        let blank = before + after;
        assert(rest =~= blank);
        lemma_blank_trimmed(blank);
    }
}

/// Nothing but white space trims to nothing.
proof fn lemma_blank_trimmed(s: Seq<char>)
    requires
        forall|i: int| 0 <= i < s.len() ==> text::is_space(#[trigger] s[i]),
    ensures
        text::trimmed(s).len() == 0,
    decreases s.len(),
{
    if s.len() > 0 {
        let rest = s.drop_first();
        assert forall|i: int| 0 <= i < rest.len() implies text::is_space(#[trigger] rest[i]) by {
            assert(rest[i] == s[i + 1]);
        }
        lemma_blank_trimmed(rest);
        assert(text::is_space(s[0]));
    }
}

/// A request is authorized exactly where the entry of its token was looked up and is
/// there. Where looking it up failed the server is at fault, and otherwise the
/// request is.
pub proof fn lemma_entry_authorizes(found: Option<Result<bool, String>>, status: u16)
    requires
        call_ensures(auth_status, (found,), status),
    ensures
        status == 200 <==> found == Some(Ok::<bool, String>(true)),
        status == 500 <==> found is Some && found->0 is Err,
        status == 200 || status == 500 || status == 401,
{
}

/// Each address is advertised under `cfg-addr~` and the address, with no value, for
/// two minutes from now, or until the end of time where that comes first.
pub proof fn lemma_addrs_announced(
    now: i64,
    addrs: &[String],
    entries: Vec<(String, String, Option<i64>)>,
    i: int,
)
    requires
        call_ensures(announce_addrs, (now, addrs), entries),
        0 <= i < addrs@.len(),
    ensures
        entries@.len() == addrs@.len(),
        entries@[i].0@ == "cfg-addr~"@ + addrs@[i]@,
        entries@[i].1@.len() == 0,
        entries@[i].2 is Some,
        entries@[i].2->0 - now == 120 * 1_000_000 || (entries@[i].2->0 == i64::MAX && i64::MAX - now
            < 120 * 1_000_000),
{
}

/// The config is read by listing the whole class of config entries by ascending key.
pub proof fn lemma_all_listed(class: String, query: sql::ListQuery, same: sql::ListQuery)
    requires
        class@ == "cfg"@,
        call_ensures(all_values_query, (), query),
        call_ensures(
            sql::list,
            (class, VmIoDbListFilter::All, VmIoDbListSort::KeyAsc, i64::MAX),
            same,
        ),
    ensures
        query.sql@ == same.sql@,
        query.params@.len() == same.params@.len(),
        forall|i: int| 0 <= i < same.params@.len() ==> (#[trigger] query.params@[i])@
            == same.params@[i]@,
{
    assert(sql::param_vals(query.params@).len() == query.params@.len());
    assert(sql::param_vals(same.params@).len() == same.params@.len());
    assert forall|i: int| 0 <= i < same.params@.len() implies (#[trigger] query.params@[i])@
        == same.params@[i]@ by {
        assert(sql::param_vals(query.params@)[i] == sql::param_vals(same.params@)[i]);
    }
}

/// The server binds the addresses it was given, all of them and in their order, or
/// `0.0.0.0:0` where it was given none.
pub proof fn lemma_addrs_bound(config: &Config, addrs: Vec<ServerAddr>)
    requires
        call_ensures(Config::bind_addrs, (config,), addrs),
    ensures
        config.addr@.len() > 0 ==> addrs@ == config.addr@,
        config.addr@.len() == 0 ==> addrs@.len() == 1 && addrs@[0] == (ServerAddr::V4 {
            ip: 0,
            port: 0,
        }),
{
}

/// The key that is configured is the one that is used: whatever parsing it gives.
/// Without one, or with an empty one, the given random key is used.
pub proof fn lemma_key_used(
    config: &Config,
    random: [u8; 32],
    res: Result<[u8; 32], CfgError>,
    words: &str,
    parsed: Result<[u8; 32], CfgError>,
)
    requires
        call_ensures(resolve_encryption_key_with, (config, random), res),
        config.encryption_key is Some ==> words@ == config.encryption_key->0@,
        call_ensures(key::parse_encryption_key, (words,), parsed),
    ensures
        config.encryption_key is None || config.encryption_key->0@.len() == 0 ==> res == Ok::<
            [u8; 32],
            CfgError,
        >(random),
        config.encryption_key is Some && config.encryption_key->0@.len() > 0 ==> {
            &&& res is Ok == parsed is Ok
            &&& res is Ok ==> res->Ok_0@ == parsed->Ok_0@
            &&& res is Err ==> res->Err_0@ == parsed->Err_0@
        },
{
}

/// Test mode moves the database to the given root and pins a key where none is
/// configured. It binds `127.0.0.1:44332` where no address was given, and lets
/// whoever presents the api key `test` in: the initial values that it leaves hold an
/// entry for that key and all others that were there, and no more.
///
/// Initial values that cannot be parsed are refused and left alone, and so is the
/// key.
pub proof fn lemma_test_defaults(
    config: &mut Config,
    root: String,
    key: &[u8; 32],
    res: Result<(), CfgError>,
    given: &str,
    before: Result<Vec<(String, String)>, CfgError>,
    left: &str,
    after: Result<Vec<(String, String)>, CfgError>,
    pinned: &str,
    parsed: Result<[u8; 32], CfgError>,
)
    requires
        call_ensures(Config::apply_test_defaults_with, (config, root, key), res),
        old(config).init is Some ==> given@ == old(config).init->0@ && call_ensures(
            init::parse_init,
            (given,),
            before,
        ),
        final(config).init is Some ==> left@ == final(config).init->0@ && call_ensures(
            init::parse_init,
            (left,),
            after,
        ),
        final(config).encryption_key is Some ==> pinned@ == final(config).encryption_key->0@
            && call_ensures(key::parse_encryption_key, (pinned,), parsed),
    ensures
        final(config).test == old(config).test,
        final(config).db_root_dir@ == root@,
        old(config).addr@.len() > 0 ==> final(config).addr@ == old(config).addr@,
        old(config).addr@.len() == 0 ==> final(config).addr@ == seq![
            (ServerAddr::V4 { ip: 0x7f00_0001, port: 44332 }),
        ],
        res is Ok <==> old(config).init is None || before is Ok,
        res is Err ==> {
            &&& res->Err_0 is InvalidInit
            &&& final(config).init == old(config).init
            &&& final(config).encryption_key == old(config).encryption_key
        },
        res is Ok ==> {
            &&& final(config).init is Some && after is Ok
            &&& forall|k: Seq<char>, v: Seq<char>| #[trigger]
                pair_in(after->Ok_0@, k, v) <==> if k == "cfg-api-key~test"@ {
                    v.len() == 0
                } else {
                    old(config).init is Some && pair_in(before->Ok_0@, k, v)
                }
            &&& if old(config).encryption_key is Some && old(config).encryption_key->0@.len() > 0 {
                final(config).encryption_key == old(config).encryption_key
            } else {
                final(config).encryption_key is Some && parsed is Ok && parsed->Ok_0@ == key@
            }
        },
{
    if res is Ok {
        let old_pairs = if old(config).init is Some {
            api::pairs_text(before->Ok_0@)
        } else {
            Seq::empty()
        };
        let new_pairs = api::pairs_text(after->Ok_0@);
        let name = "cfg-api-key~test"@;
        init::lemma_with_entry(old_pairs, name, Seq::empty());
        assert(new_pairs == init::with_entry(old_pairs, name, Seq::empty()));
        assert forall|k: Seq<char>, v: Seq<char>| #[trigger]
            pair_in(after->Ok_0@, k, v) <==> if k == name {
                v.len() == 0
            } else {
                old(config).init is Some && pair_in(before->Ok_0@, k, v)
            } by {
            init::lemma_pair_in(after->Ok_0@, k, v);
            if old(config).init is Some {
                init::lemma_pair_in(before->Ok_0@, k, v);
            }
            if k == name {
                init::lemma_ascend_once(new_pairs, k, v, Seq::empty());
                if v.len() == 0 {
                    assert(v =~= Seq::empty());
                }
            }
        }
    }
}

/// Is there a pair of this key and this value?
pub open spec fn pair_in(pairs: Seq<(String, String)>, key: Seq<char>, value: Seq<char>) -> bool {
    exists|i: int|
        0 <= i < pairs.len() && (#[trigger] pairs[i]).0@ == key && pairs[i].1@ == value
}

/// The config server knows the health check, the getter and the setter, in this
/// order, and nothing else.
pub proof fn lemma_handlers_known(
    made: Result<HandlerTable, ChanError>,
    name: &str,
    found: Option<usize>,
)
    requires
        call_ensures(handler_table, (), made),
        made is Ok ==> call_ensures(HandlerTable::find, (&made->Ok_0, name), found),
    ensures
        made is Ok,
        found == Some(0usize) <==> name@ == "__health"@,
        found == Some(1usize) <==> name@ == "cfg-get"@,
        found == Some(2usize) <==> name@ == "cfg-put"@,
        found is Some ==> found->0 <= 2,
{
    let all = made->Ok_0@;
    reveal_strlit("cfg-get");
    reveal_strlit("cfg-put");
    reveal_strlit("__health");
    assert("cfg-get"@[4] != "cfg-put"@[4]);
    assert("__health"@.len() == 8 && "cfg-get"@.len() == 7);
    assert(all.len() == 3 && all[0] == "__health"@ && all[1] == "cfg-get"@ && all[2]
        == "cfg-put"@);
    if found is None {
        assert(all.contains(all[0]) && all.contains(all[1]) && all.contains(all[2]));
    }
}

/// The words of each failure, and whose fault it is.
pub proof fn lemma_failure_words(err: &CfgError, words: String, invalid: bool)
    requires
        call_ensures(CfgError::message, (err,), words),
        call_ensures(CfgError::is_invalid_input, (err,), invalid),
    ensures
        match *err {
            CfgError::KeyNotBase64(reason) => words@ == "encryption key is not valid base64: "@
                + reason@ && invalid,
            CfgError::KeyLength => words@ == "encryption key must decode to exactly 32 bytes"@
                && invalid,
            CfgError::InvalidInit(reason) => words@ == "invalid --init json: "@ + reason@
                && invalid,
            CfgError::CfgKeyTooLong => words@ == "config key cannot be > 1024 bytes"@ && invalid,
            CfgError::CfgValueTooLong => words@ == "config value cannot be > 4096 bytes"@
                && invalid,
            CfgError::ValueNotUtf8 => words@ == "config value is not valid utf-8"@ && !invalid,
            CfgError::Other(reason) => words@ == reason@ && !invalid,
        },
{
}

/// A `cfg-put` request is taken exactly where its payload decodes and the value in it
/// is accepted. A payload that does not decode fails with the words of that.
pub proof fn lemma_put_taken(
    wire: &[u8],
    decoded: Result<CfgPutReq, String>,
    res: Result<ValueUpsert, CfgError>,
    started: Result<ValueUpsert, CfgError>,
)
    requires
        call_ensures(handle_put, (wire,), res),
        call_ensures(api::decode::<CfgPutReq>, (wire,), decoded),
        decoded is Ok ==> call_ensures(
            ValueUpsert::start,
            (decoded->Ok_0.key, decoded->Ok_0.value, decoded->Ok_0.expires_at_micros),
            started,
        ),
    ensures
        decoded is Err ==> res is Err && res->Err_0 is Other && res->Err_0->Other_0@
            == decoded->Err_0@,
        decoded is Ok ==> match (res, started) {
            (Ok(a), Ok(b)) => {
                &&& a.key() == b.key() && a.metadata() == b.metadata()
                &&& a.expires() == b.expires() && a.tries() == b.tries()
            },
            (Err(a), Err(b)) => a == b,
            _ => false,
        },
{
}

/// The initial values of a configuration are those that parsing them gives, and those
/// of an empty object where none are given.
pub proof fn lemma_init_values(
    config: &Config,
    res: Result<Vec<(String, String)>, CfgError>,
    words: &str,
    parsed: Result<Vec<(String, String)>, CfgError>,
)
    requires
        call_ensures(Config::init_values, (config,), res),
        match config.init {
            Some(given) => words@ == given@,
            None => words@ == "{}"@,
        },
        call_ensures(init::parse_init, (words,), parsed),
    ensures
        res is Ok <==> parsed is Ok,
        res is Err ==> res->Err_0 is InvalidInit && res->Err_0->InvalidInit_0@
            == parsed->Err_0->InvalidInit_0@,
        res is Ok ==> res->Ok_0@.len() == parsed->Ok_0@.len() && forall|i: int|
            0 <= i < res->Ok_0@.len() ==> (#[trigger] res->Ok_0@[i]).0@ == parsed->Ok_0@[i].0@
                && res->Ok_0@[i].1@ == parsed->Ok_0@[i].1@,
{
    if res is Ok {
        let (a, b) = (res->Ok_0@, parsed->Ok_0@);
        assert(api::pairs_text(a).len() == a.len() && api::pairs_text(b).len() == b.len());
        assert forall|i: int| 0 <= i < a.len() implies (#[trigger] a[i]).0@ == b[i].0@ && a[i].1@
            == b[i].1@ by {
            assert(api::pairs_text(a)[i] == api::pairs_text(b)[i]);
        }
    }
}

/// Reading config entries gives all of them or fails, as the answer to a request does:
/// a pair for each entry in its order, with the text whose bytes are its metadata.
pub proof fn lemma_entries_read(
    entries: Vec<VmIoDbEntry>,
    res: Result<Vec<(String, String)>, CfgError>,
)
    requires
        call_ensures(read_all, (entries,), res),
    ensures
        res is Ok <==> forall|i: int|
            0 <= i < entries@.len() && (#[trigger] entries@[i]).metadata is Some ==> valid_utf8(
                entries@[i].metadata->0@,
            ),
        res is Err ==> res->Err_0 is ValueNotUtf8,
        res is Ok ==> res->Ok_0@.len() == entries@.len() && forall|i: int|
            0 <= i < entries@.len() ==> (#[trigger] res->Ok_0@[i]).0@ == entries@[i].key@
                && encode_utf8(res->Ok_0@[i].1@) == (match entries@[i].metadata {
                Some(bytes) => bytes@,
                None => Seq::empty(),
            }),
{
    let all = entries@;
    if forall|i: int|
        0 <= i < all.len() && (#[trigger] all[i]).metadata is Some ==> valid_utf8(
            all[i].metadata->0@,
        ) {
        assert forall|i: int| 0 <= i < all.len() implies entry_value(#[trigger] all[i]) is Some by {}
    }
    if all_text(all) {
        assert forall|i: int|
            0 <= i < all.len() && (#[trigger] all[i]).metadata is Some implies valid_utf8(
            all[i].metadata->0@,
        ) by {
            assert(entry_value(all[i]) is Some);
        }
        let out = res->Ok_0@;
        assert(api::pairs_text(out).len() == out.len());
        assert forall|i: int| 0 <= i < all.len() implies (#[trigger] out[i]).0@ == all[i].key@
            && encode_utf8(out[i].1@) == (match all[i].metadata {
            Some(bytes) => bytes@,
            None => Seq::empty(),
        }) by {
            assert(api::pairs_text(out)[i] == entry_pairs(all)[i]);
            assert(entry_value(all[i]) is Some);
            if all[i].metadata is Some {
                decode_utf8_encode_utf8(all[i].metadata->0@);
            }
        }
    }
}

/// Adding the api key of test mode adds that key, with no value, and leaves all other
/// pairs.
pub proof fn lemma_test_key_seeded(
    pairs: Vec<(String, String)>,
    out: Vec<(String, String)>,
    k: Seq<char>,
    v: Seq<char>,
)
    requires
        init::keys_ascend(api::pairs_text(pairs@)),
        call_ensures(seed_test_key, (pairs,), out),
    ensures
        init::keys_ascend(api::pairs_text(out@)),
        pair_in(out@, k, v) <==> if k == "cfg-api-key~test"@ {
            v.len() == 0
        } else {
            pair_in(pairs@, k, v)
        },
{
    let texts = api::pairs_text(pairs@);
    init::lemma_with_entry(texts, "cfg-api-key~test"@, Seq::empty());
    init::lemma_pair_in(out@, k, v);
    init::lemma_pair_in(pairs@, k, v);
    if k == "cfg-api-key~test"@ {
        init::lemma_ascend_once(api::pairs_text(out@), k, v, Seq::empty());
        if v.len() == 0 {
            assert(v =~= Seq::empty());
        }
    }
}

/// An advertised address outlives one missed refresh: it stays valid for twice the
/// time until the addresses are advertised again.
pub proof fn lemma_addrs_outlive()
    ensures
        CFG_ADDR_TTL_MICROS == 2 * CFG_ADDR_INTERVAL_SECS * 1_000_000,
        CFG_ADDR_INTERVAL_SECS == 60,
{
}

} // verus!
