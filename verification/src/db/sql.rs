//! What the database is asked: its key, its statements, and the pool of
//! connections it is read through.

use std::collections::VecDeque;

use vstd::multiset::Multiset;
use vstd::prelude::*;
use vstd::string::*;

use super::MicrosBound;
use super::VmIoDbListFilter;
use super::VmIoDbListSort;
use crate::crypto;
use crate::hexa;
use crate::text;

verus! {

/// Settings of every connection.
pub const PRAGMA: &'static str = "
PRAGMA journal_mode = WAL;
PRAGMA synchronous = NORMAL;
PRAGMA busy_timeout = 5000;
PRAGMA foreign_keys = ON;
";

/// Tables and indexes.
pub const SCHEMA: &'static str = "
CREATE TABLE IF NOT EXISTS entries (
  class TEXT NOT NULL,
  key TEXT NOT NULL,
  modified_at_micros INTEGER NOT NULL UNIQUE,
  expires_at_micros INTEGER,
  metadata BLOB,
  PRIMARY KEY (class, key)
);
CREATE INDEX IF NOT EXISTS entries_expires_idx
ON entries (expires_at_micros);
CREATE TABLE IF NOT EXISTS entry_file_chunks (
  class TEXT NOT NULL,
  key TEXT NOT NULL,
  idx INTEGER NOT NULL,
  hash BLOB NOT NULL,
  nonce BLOB NOT NULL,
  tag BLOB NOT NULL,
  size INTEGER NOT NULL,
  is_final INTEGER NOT NULL,
  PRIMARY KEY (class, key, idx),
  FOREIGN KEY (class, key) REFERENCES entries (class, key) ON DELETE CASCADE
);
CREATE INDEX IF NOT EXISTS entry_file_chunks_nonce_idx
ON entry_file_chunks (nonce);
";

/// Write an entry, or overwrite it.
pub const UPSERT: &'static str = "
INSERT INTO entries (
  class, key, modified_at_micros, expires_at_micros, metadata
) VALUES (?1, ?2, ?3, ?4, ?5)
ON CONFLICT (class, key) DO UPDATE SET
  modified_at_micros = excluded.modified_at_micros,
  expires_at_micros = excluded.expires_at_micros,
  metadata = excluded.metadata;
";

/// Write a chunk row, or overwrite it.
pub const UPSERT_CHUNK: &'static str = "
INSERT INTO entry_file_chunks (
  class, key, idx, hash, nonce, tag, size, is_final
) VALUES (?1, ?2, ?3, ?4, ?5, ?6, ?7, ?8)
ON CONFLICT (class, key, idx) DO UPDATE SET
  hash = excluded.hash,
  nonce = excluded.nonce,
  tag = excluded.tag,
  size = excluded.size,
  is_final = excluded.is_final;
";

/// Read one entry.
pub const GET_ENTRY: &'static str = "
SELECT
  modified_at_micros,
  expires_at_micros,
  metadata,
  (
    SELECT COUNT(idx)
    FROM entry_file_chunks
    WHERE class = entries.class AND key = entries.key
  ) AS chunk_count
FROM entries
WHERE class = ?1 AND key = ?2;
";

/// Read one chunk row.
pub const GET_CHUNK: &'static str = "
SELECT idx, hash, nonce, tag, size, is_final
FROM entry_file_chunks
WHERE class = ?1 AND key = ?2 AND idx = ?3;
";

/// Read all chunk rows of an entry.
pub const GET_ALL_CHUNKS: &'static str = "
SELECT idx, hash, nonce, tag, size, is_final
FROM entry_file_chunks
WHERE class = ?1 AND key = ?2;
";

/// Remove an entry, and by cascade its chunk rows.
pub const RM: &'static str = "
DELETE FROM entries
WHERE class = ?1 AND key = ?2;
";

/// Read the names of entries past their expiration, a batch at a time.
pub const GET_EXPIRED: &'static str = "
SELECT class, key
FROM entries
WHERE expires_at_micros < ?1
ORDER BY expires_at_micros ASC
LIMIT ?2;
";

/// Is a blob referenced by any chunk row?
pub const BLOB_ID_EXISTS: &'static str = "
SELECT EXISTS (SELECT 1 FROM entry_file_chunks WHERE nonce = ?1);
";

/// Start of the statement that lists the entries of a class.
pub const LIST_HEAD: &'static str = "
SELECT
  key,
  modified_at_micros,
  expires_at_micros,
  metadata,
  (
    SELECT COUNT(idx)
    FROM entry_file_chunks
    WHERE class = entries.class AND key = entries.key
  ) AS chunk_count
FROM entries
WHERE class = ?1";

/// A value bound to a placeholder of a statement.
pub enum SqlParam {
    /// a text
    Text(String),
    /// an integer
    Int(i64),
}

/// What a bound value is.
pub enum ParamVal {
    /// a text
    Text(Seq<char>),
    /// an integer
    Int(i64),
}

impl View for SqlParam {
    type V = ParamVal;

    open spec fn view(&self) -> ParamVal {
        match self {
            SqlParam::Text(s) => ParamVal::Text(s@),
            SqlParam::Int(n) => ParamVal::Int(*n),
        }
    }
}

/// What the bound values are, in order.
pub open spec fn param_vals(params: Seq<SqlParam>) -> Seq<ParamVal> {
    params.map_values(|p: SqlParam| p@)
}

/// A statement and the values bound to its placeholders.
pub struct ListQuery {
    /// the statement
    pub sql: String,
    /// the values of its placeholders, in the order of their numbers
    pub params: Vec<SqlParam>,
}

/// Comparison that keeps timestamps at or after the start of a range.
pub open spec fn start_op(start: MicrosBound) -> Seq<char> {
    match start {
        MicrosBound::Excluded(_) => " > ?"@,
        _ => " >= ?"@,
    }
}

/// Comparison that keeps timestamps at or before the end of a range.
pub open spec fn end_op(end: MicrosBound) -> Seq<char> {
    match end {
        MicrosBound::Excluded(_) => " < ?"@,
        _ => " <= ?"@,
    }
}

/// Timestamp that one end of a range is compared with.
pub open spec fn bound_value(bound: MicrosBound, unbounded: i64) -> i64 {
    match bound {
        MicrosBound::Unbounded => unbounded,
        MicrosBound::Included(t) => t,
        MicrosBound::Excluded(t) => t,
    }
}

/// Conditions that a filter adds to the listing.
pub open spec fn filter_sql(filter: VmIoDbListFilter) -> Seq<char> {
    match filter {
        VmIoDbListFilter::All => Seq::empty(),
        VmIoDbListFilter::KeyPrefix(_) => " AND instr(key, ?"@ + text::dec_nat(2) + ") = 1"@,
        VmIoDbListFilter::ModifiedAtMicrosRange { start, end } => " AND modified_at_micros"@
            + start_op(start) + text::dec_nat(2) + " AND modified_at_micros"@ + end_op(end)
            + text::dec_nat(3),
    }
}

/// Values that a filter compares with. An open end of a range is the least or the
/// greatest timestamp there is, so that none is left out on that side.
pub open spec fn filter_vals(filter: VmIoDbListFilter) -> Seq<ParamVal> {
    match filter {
        VmIoDbListFilter::All => Seq::empty(),
        VmIoDbListFilter::KeyPrefix(prefix) => seq![ParamVal::Text(prefix@)],
        VmIoDbListFilter::ModifiedAtMicrosRange { start, end } => seq![
            ParamVal::Int(bound_value(start, i64::MIN)),
            ParamVal::Int(bound_value(end, i64::MAX)),
        ],
    }
}

/// Order of the listing.
pub open spec fn sort_sql(sort: VmIoDbListSort) -> Seq<char> {
    match sort {
        VmIoDbListSort::KeyAsc => " ORDER BY class ASC, key ASC"@,
        VmIoDbListSort::KeyDesc => " ORDER BY class DESC, key DESC"@,
        VmIoDbListSort::ModifiedAtMicrosAsc => " ORDER BY modified_at_micros ASC"@,
        VmIoDbListSort::ModifiedAtMicrosDesc => " ORDER BY modified_at_micros DESC"@,
    }
}

/// Values bound in a listing: the class, what the filter compares with, and the
/// limit.
pub open spec fn list_vals(class: Seq<char>, filter: VmIoDbListFilter, limit: i64) -> Seq<
    ParamVal,
> {
    seq![ParamVal::Text(class)] + filter_vals(filter) + seq![ParamVal::Int(limit)]
}

/// The statement of a listing.
pub open spec fn list_sql(filter: VmIoDbListFilter, sort: VmIoDbListSort) -> Seq<char> {
    LIST_HEAD@ + filter_sql(filter) + sort_sql(sort) + " LIMIT ?"@ + text::dec_nat(
        filter_vals(filter).len() + 2,
    )
}

/// Bind one more value and append the number of its placeholder.
fn bind(sql: &mut String, params: &mut Vec<SqlParam>, value: SqlParam)
    ensures
        final(params)@ == old(params)@.push(value),
        final(sql)@ == old(sql)@ + text::dec_nat(old(params)@.len() + 1),
{
    params.push(value);
    text::push_dec(sql, params.len() as u64);
}

/// Build the listing of a class.
pub fn list(class: String, filter: VmIoDbListFilter, sort: VmIoDbListSort, limit: i64) -> (query:
    ListQuery)
    ensures
        query.sql@ == list_sql(filter, sort),
        param_vals(query.params@) == list_vals(class@, filter, limit),
{
    let ghost class_text = class@;
    let mut params: Vec<SqlParam> = Vec::new();
    params.push(SqlParam::Text(class));
    let mut sql = LIST_HEAD.to_owned();
    let ghost whole = filter;
    match filter {
        VmIoDbListFilter::All => {},
        VmIoDbListFilter::KeyPrefix(prefix) => {
            sql.append(" AND instr(key, ?");
            bind(&mut sql, &mut params, SqlParam::Text(prefix));
            sql.append(") = 1");
        },
        VmIoDbListFilter::ModifiedAtMicrosRange { start, end } => {
            sql.append(" AND modified_at_micros");
            let (op, from): (&str, i64) = match start {
                MicrosBound::Unbounded => (" >= ?", i64::MIN),
                MicrosBound::Included(t) => (" >= ?", t),
                MicrosBound::Excluded(t) => (" > ?", t),
            };
            sql.append(op);
            bind(&mut sql, &mut params, SqlParam::Int(from));
            sql.append(" AND modified_at_micros");
            let (op, to): (&str, i64) = match end {
                MicrosBound::Unbounded => (" <= ?", i64::MAX),
                MicrosBound::Included(t) => (" <= ?", t),
                MicrosBound::Excluded(t) => (" < ?", t),
            };
            sql.append(op);
            bind(&mut sql, &mut params, SqlParam::Int(to));
        },
    }
    assert(sql@ =~= LIST_HEAD@ + filter_sql(whole));
    assert(param_vals(params@) =~= seq![ParamVal::Text(class_text)] + filter_vals(whole));
    match sort {
        VmIoDbListSort::KeyAsc => sql.append(" ORDER BY class ASC, key ASC"),
        VmIoDbListSort::KeyDesc => sql.append(" ORDER BY class DESC, key DESC"),
        VmIoDbListSort::ModifiedAtMicrosAsc => sql.append(" ORDER BY modified_at_micros ASC"),
        VmIoDbListSort::ModifiedAtMicrosDesc => sql.append(" ORDER BY modified_at_micros DESC"),
    }
    sql.append(" LIMIT ?");
    assert(param_vals(params@).len() == params@.len());
    bind(&mut sql, &mut params, SqlParam::Int(limit));
    assert(param_vals(params@) =~= list_vals(class_text, whole, limit));
    ListQuery { sql, params }
}

/// Text that the database takes as a raw key: `x'..'` around the digits of the
/// secret.
pub open spec fn sqlite_key_text(secret: Seq<u8>) -> Seq<char> {
    seq!['x', '\''] + hexa::hex_lower(secret) + seq!['\'']
}

/// The bytes of a text of ASCII characters.
pub open spec fn ascii_bytes(s: Seq<char>) -> Seq<u8> {
    s.map_values(|c: char| c as u8)
}

/// The lower case hexadecimal digit with the given value.
fn hex_byte(v: u8) -> (b: u8)
    requires
        v < 16,
    ensures
        b == hexa::hex_digit(v as int) as u8,
{
    if v < 10 {
        v + 48
    } else {
        v + 87
    }
}

/// Write a secret in the form that the database takes as a raw key.
pub fn sqlite_key(secret: &[u8; 32]) -> (key: [u8; 67])
    ensures
        key@ == ascii_bytes(sqlite_key_text(secret@)),
{
    let mut key = [0u8; 67];
    key[0] = 120;
    key[1] = 39;
    key[66] = 39;
    for i in 0..32usize
        invariant
            key@.len() == 67,
            key@[0] == 120,
            key@[1] == 39,
            key@[66] == 39,
            forall|j: int|
                0 <= j < 2 * i ==> #[trigger] key@[j + 2] == hexa::hex_lower(secret@)[j] as u8,
    {
        let byte: u8 = secret[i];
        assert((2 * i) / 2 == i as int && (2 * i + 1) / 2 == i as int);
        key[i * 2 + 2] = hex_byte(byte / 16);
        key[i * 2 + 3] = hex_byte(byte % 16);
        assert(key@[2 * i + 2] == hexa::hex_lower(secret@)[2 * i] as u8);
        assert(key@[(2 * i + 1) + 2] == hexa::hex_lower(secret@)[2 * i + 1] as u8);
    }
    let ghost whole = ascii_bytes(sqlite_key_text(secret@));
    assert forall|k: int| 0 <= k < 67 implies key@[k] == whole[k] by {
        if 2 <= k < 66 {
            assert(key@[(k - 2) + 2] == hexa::hex_lower(secret@)[k - 2] as u8);
        }
    }
    assert(key@ =~= whole);
    key
}

/// Texts of hexadecimal digits that differ, differ in their bytes too.
proof fn lemma_hex_bytes_injective(x: Seq<char>, y: Seq<char>)
    requires
        hexa::all_hex(x),
        hexa::all_hex(y),
        ascii_bytes(x) == ascii_bytes(y),
    ensures
        x == y,
{
    assert(ascii_bytes(x).len() == x.len() && ascii_bytes(y).len() == y.len());
    assert forall|i: int| 0 <= i < x.len() implies x[i] == y[i] by {
        assert(ascii_bytes(x)[i] == x[i] as u8);
        assert(ascii_bytes(y)[i] == y[i] as u8);
        assert(hexa::hex_value(x[i]) is Some && hexa::hex_value(y[i]) is Some);
    }
    assert(x =~= y);
}

/// Different secrets give different raw keys.
pub proof fn lemma_sqlite_key_injective(a: Seq<u8>, b: Seq<u8>)
    requires
        a.len() == 32,
        b.len() == 32,
        ascii_bytes(sqlite_key_text(a)) == ascii_bytes(sqlite_key_text(b)),
    ensures
        a == b,
{
    hexa::lemma_hex_round_trip(a);
    hexa::lemma_hex_round_trip(b);
    let (x, y) = (hexa::hex_lower(a), hexa::hex_lower(b));
    assert(ascii_bytes(x) =~= ascii_bytes(sqlite_key_text(a)).subrange(2, 66));
    assert(ascii_bytes(y) =~= ascii_bytes(sqlite_key_text(b)).subrange(2, 66));
    lemma_hex_bytes_injective(x, y);
}

/// How one connection is opened.
pub struct ConnPlan {
    /// open for writing, creating the file where it is missing
    pub writable: bool,
    /// key to hand over before any other statement
    pub key: [u8; 67],
    /// run the settings of every connection
    pub pragma: bool,
    /// create tables and indexes
    pub schema: bool,
}

impl ConnPlan {
    /// Leave nothing of the key in memory.
    pub fn wipe(&mut self)
        ensures
            forall|i: int| 0 <= i < 67 ==> final(self).key@[i] == 0,
            final(self).writable == old(self).writable,
            final(self).pragma == old(self).pragma,
            final(self).schema == old(self).schema,
    {
        crypto::wipe(&mut self.key);
    }
}

/// Is this the plan of the writing, or of a reading, connection?
pub open spec fn conn_plan(plan: ConnPlan, writable: bool, secret: Seq<u8>) -> bool {
    &&& plan.writable == writable
    &&& plan.key@ == ascii_bytes(sqlite_key_text(secret))
    &&& plan.pragma
    &&& plan.schema == writable
}

/// Plan the connections of a database, in the order they are opened: one that
/// writes and sets the tables up, then three that only read. Each is given the
/// key.
pub fn conn_plans(secret: &[u8; 32]) -> (plans: Vec<ConnPlan>)
    ensures
        plans@.len() == 4,
        forall|i: int| 0 <= i < 4 ==> conn_plan(#[trigger] plans@[i], i == 0, secret@),
{
    let mut plans: Vec<ConnPlan> = Vec::new();
    for i in 0..4usize
        invariant
            plans@.len() == i,
            forall|j: int| 0 <= j < i ==> conn_plan(#[trigger] plans@[j], j == 0, secret@),
    {
        plans.push(
            ConnPlan { writable: i == 0, key: sqlite_key(secret), pragma: true, schema: i == 0 },
        );
    }
    plans
}

/// A database entry file chunk.
#[derive(Clone, Copy)]
pub struct Chunk {
    /// chunk index
    pub idx: i64,
    /// sha256 hash of chunk content
    pub hash: [u8; 32],
    /// aegis256 nonce, by which the blob file is named too
    pub nonce: [u8; 32],
    /// aegis256 tag
    pub tag: [u8; 32],
    /// content size
    pub size: i64,
    /// is this the last file chunk?
    pub is_final: bool,
}

/// What reading rows one after another comes to: all of them, or the first
/// failure.
pub open spec fn rows_read<T>(rows: Seq<Result<T, String>>) -> Result<Seq<T>, String>
    decreases rows.len(),
{
    if rows.len() == 0 {
        Ok(Seq::empty())
    } else {
        match rows_read(rows.drop_last()) {
            Err(err) => Err(err),
            Ok(out) => match rows.last() {
                Ok(row) => Ok(out.push(row)),
                Err(err) => Err(err),
            },
        }
    }
}

/// A failure stays the first one, whatever follows it.
proof fn lemma_rows_first<T>(rows: Seq<Result<T, String>>, n: int)
    requires
        0 <= n <= rows.len(),
        rows_read(rows.take(n)) is Err,
    ensures
        rows_read(rows) == rows_read(rows.take(n)),
    decreases rows.len(),
{
    if n < rows.len() {
        assert(rows.drop_last().take(n) =~= rows.take(n));
        lemma_rows_first(rows.drop_last(), n);
    } else {
        assert(rows.take(n) =~= rows);
    }
}

/// Collect rows, stopping at the first failure.
pub fn collect_rows<T>(rows: Vec<Result<T, String>>) -> (res: Result<Vec<T>, String>)
    ensures
        match rows_read(rows@) {
            Ok(out) => res is Ok && res->Ok_0@ == out,
            Err(err) => res == Err::<Vec<T>, String>(err),
        },
{
    let mut out: Vec<T> = Vec::new();
    let ghost all = rows@;
    for row in it: rows
        invariant
            it.seq() == all,
            rows_read(all.take(it.index())) == Ok::<Seq<T>, String>(out@),
    {
        assert(all.take(it.index() + 1).drop_last() =~= all.take(it.index()));
        match row {
            Ok(value) => out.push(value),
            Err(err) => {
                proof {
                    lemma_rows_first(all, it.index() + 1);
                }
                return Err(err);
            },
        }
    }
    assert(all.take(all.len() as int) =~= all);
    Ok(out)
}

/// A pool of three items, handed out in turn.
pub struct RingPool<T> {
    idle: VecDeque<T>,
}

/// An item on loan from a pool.
pub struct PoolGuard<T> {
    /// the item
    pub item: T,
}

impl<T> RingPool<T> {
    /// The items that are not on loan, the next to be handed out first.
    pub closed spec fn view(&self) -> Seq<T> {
        self.idle@
    }

    /// A pool of the given items.
    pub fn new(a: T, b: T, c: T) -> (pool: Self)
        ensures
            pool@ == seq![a, b, c],
    {
        let mut idle: VecDeque<T> = VecDeque::new();
        idle.push_back(a);
        idle.push_back(b);
        idle.push_back(c);
        assert(idle@ =~= seq![a, b, c]);
        RingPool { idle }
    }

    /// Is there an item to be handed out? Where all are on loan, who asks for one
    /// waits until one comes back.
    pub fn has_idle(&self) -> (res: bool)
        ensures
            res == (self@.len() > 0),
    {
        self.idle.len() > 0
    }

    /// Take the item that has been idle longest.
    pub fn get(&mut self) -> (guard: PoolGuard<T>)
        requires
            old(self)@.len() > 0,
        ensures
            guard.item == old(self)@[0],
            final(self)@ == old(self)@.remove(0),
    {
        let item = self.idle.pop_front().unwrap();
        assert(self@ =~= old(self)@.remove(0));
        PoolGuard { item }
    }

    /// Take back an item on loan: it is handed out again after all that are
    /// idle now.
    pub fn give_back(&mut self, guard: PoolGuard<T>)
        ensures
            final(self)@ == old(self)@.push(guard.item),
    {
        self.idle.push_back(guard.item);
    }
}

/// What a pool holds after its next item went out and came back.
pub open spec fn turned<T>(idle: Seq<T>) -> Seq<T> {
    idle.remove(0).push(idle[0])
}

/// The items of a pool take turns: after as many turns as there are items, each
/// was handed out once and the pool is as it was.
pub proof fn lemma_ring_turns<T>(a: T, b: T, c: T)
    ensures
        turned(seq![a, b, c]) == seq![b, c, a],
        turned(turned(seq![a, b, c])) == seq![c, a, b],
        turned(turned(turned(seq![a, b, c]))) == seq![a, b, c],
{
    assert(turned(seq![a, b, c]) =~= seq![b, c, a]);
    assert(turned(seq![b, c, a]) =~= seq![c, a, b]);
    assert(turned(seq![c, a, b]) =~= seq![a, b, c]);
}

/// A pool and its loans.
pub struct PoolState<T> {
    /// what is idle, the next to be handed out first
    pub idle: Seq<T>,
    /// what is on loan, in the order in which it was taken
    pub lent: Seq<T>,
}

/// What happens to a pool.
#[verifier::reject_recursive_types(T)]
pub enum PoolStep<T> {
    /// an item is taken
    Get,
    /// the item of a loan is changed by who holds it
    Use(int, spec_fn(T) -> T),
    /// a loan ends
    GiveBack(int),
}

impl<T> PoolState<T> {
    /// The pool after a step. One that names no loan changes nothing, and neither
    /// does asking for an item where none is idle, which waits.
    pub open spec fn after(self, step: PoolStep<T>) -> Self {
        match step {
            PoolStep::Get => if self.idle.len() > 0 {
                PoolState { idle: self.idle.remove(0), lent: self.lent.push(self.idle[0]) }
            } else {
                self
            },
            PoolStep::Use(loan, change) => if 0 <= loan < self.lent.len() {
                PoolState { lent: self.lent.update(loan, change(self.lent[loan])), ..self }
            } else {
                self
            },
            PoolStep::GiveBack(loan) => if 0 <= loan < self.lent.len() {
                PoolState {
                    idle: self.idle.push(self.lent[loan]),
                    lent: self.lent.remove(loan),
                }
            } else {
                self
            },
        }
    }

    /// The pool after a run of steps.
    pub open spec fn after_all(self, steps: Seq<PoolStep<T>>) -> Self
        decreases steps.len(),
    {
        if steps.len() == 0 {
            self
        } else {
            self.after_all(steps.drop_last()).after(steps.last())
        }
    }

    /// The items, idle or on loan, by what they are told apart by.
    pub open spec fn ids(self, id: spec_fn(T) -> int) -> Multiset<int> {
        self.idle.map_values(id).to_multiset().add(self.lent.map_values(id).to_multiset())
    }
}

/// Does using an item leave what it is told apart by as it is?
pub open spec fn use_keeps<T>(id: spec_fn(T) -> int, step: PoolStep<T>) -> bool {
    match step {
        PoolStep::Use(_, change) => forall|item: T| id(#[trigger] change(item)) == id(item),
        _ => true,
    }
}

/// No step makes an item or loses one.
proof fn lemma_pool_step<T>(state: PoolState<T>, step: PoolStep<T>, id: spec_fn(T) -> int)
    requires
        use_keeps(id, step),
    ensures
        state.after(step).ids(id) == state.ids(id),
{
    broadcast use vstd::seq_lib::group_to_multiset_ensures;

    let idle = state.idle.map_values(id);
    let lent = state.lent.map_values(id);
    let after = state.after(step);
    match step {
        PoolStep::Get => {
            if state.idle.len() > 0 {
                assert(after.idle.map_values(id) =~= idle.remove(0));
                assert(after.lent.map_values(id) =~= lent.push(idle[0]));
                assert(idle.contains(idle[0]));
                assert(after.ids(id) =~= state.ids(id));
            }
        },
        PoolStep::Use(loan, change) => {
            if 0 <= loan < state.lent.len() {
                assert(after.lent.map_values(id) =~= lent);
            }
        },
        PoolStep::GiveBack(loan) => {
            if 0 <= loan < state.lent.len() {
                assert(after.idle.map_values(id) =~= idle.push(lent[loan]));
                assert(after.lent.map_values(id) =~= lent.remove(loan));
                assert(lent.contains(lent[loan]));
                assert(after.ids(id) =~= state.ids(id));
            }
        },
    }
}

/// The items of a pool that are idle and those on loan are always the three that
/// it was made of: at most three loans are out at a time, no two of them on one
/// item, and who asks for an item waits only where all three are on loan.
pub proof fn lemma_pool_keeps_items<T>(
    a: T,
    b: T,
    c: T,
    id: spec_fn(T) -> int,
    steps: Seq<PoolStep<T>>,
)
    requires
        id(a) != id(b),
        id(b) != id(c),
        id(a) != id(c),
        forall|i: int| 0 <= i < steps.len() ==> use_keeps(id, #[trigger] steps[i]),
    ensures
        ({
            let state = (PoolState { idle: seq![a, b, c], lent: seq![] }).after_all(steps);
            let items = (state.idle + state.lent).map_values(id);
            &&& state.idle.len() + state.lent.len() == 3
            &&& items.no_duplicates()
            &&& state.idle.len() == 0 <==> state.lent.len() == 3
            &&& items.contains(id(a)) && items.contains(id(b)) && items.contains(id(c))
        }),
{
    broadcast use vstd::seq_lib::group_to_multiset_ensures;

    let start = PoolState { idle: seq![a, b, c], lent: seq![] };
    lemma_pool_run(start, id, steps);
    let state = start.after_all(steps);
    let ids = seq![id(a), id(b), id(c)];
    assert(start.idle.map_values(id) =~= ids);
    assert(start.lent.map_values(id) =~= seq![]);
    assert(start.ids(id) =~= ids.to_multiset());
    assert(ids.no_duplicates());
    ids.lemma_multiset_has_no_duplicates();
    let idle = state.idle.map_values(id);
    let lent = state.lent.map_values(id);
    vstd::seq_lib::lemma_multiset_commutative(idle, lent);
    let items = (state.idle + state.lent).map_values(id);
    assert(items =~= idle + lent);
    assert(items.to_multiset() == ids.to_multiset());
    items.lemma_multiset_has_no_duplicates_conv();
    assert(items.len() == items.to_multiset().len());
    assert(ids.contains(ids[0]) && ids.contains(ids[1]) && ids.contains(ids[2]));
    assert(items.to_multiset().count(id(a)) > 0);
    assert(items.to_multiset().count(id(b)) > 0);
    assert(items.to_multiset().count(id(c)) > 0);
}

/// No run of steps makes an item or loses one.
proof fn lemma_pool_run<T>(state: PoolState<T>, id: spec_fn(T) -> int, steps: Seq<PoolStep<T>>)
    requires
        forall|i: int| 0 <= i < steps.len() ==> use_keeps(id, #[trigger] steps[i]),
    ensures
        state.after_all(steps).ids(id) == state.ids(id),
    decreases steps.len(),
{
    if steps.len() > 0 {
        let before = steps.drop_last();
        assert forall|i: int| 0 <= i < before.len() implies use_keeps(id, #[trigger] before[i]) by {
            assert(before[i] == steps[i]);
        }
        lemma_pool_run(state, id, before);
        assert(use_keeps(id, steps[steps.len() - 1]));
        lemma_pool_step(state.after_all(before), steps.last(), id);
    }
}

/// What the holder of a loan does to its item is there when the item is handed
/// out again: an item given back keeps its changes, behind all that are idle.
pub proof fn lemma_pool_keeps_changes<T>(state: PoolState<T>, loan: int, change: spec_fn(T) -> T)
    requires
        0 <= loan < state.lent.len(),
    ensures
        state.after(PoolStep::Use(loan, change)).after(PoolStep::GiveBack(loan)).idle
            == state.idle.push(change(state.lent[loan])),
        state.after(PoolStep::Use(loan, change)).after(PoolStep::GiveBack(loan)).lent
            == state.lent.remove(loan),
{
    assert(state.lent.update(loan, change(state.lent[loan])).remove(loan) =~= state.lent.remove(
        loan,
    ));
}

/// A listing binds the class first and the limit last, whatever the filter, and
/// as many values as it has placeholders.
pub proof fn lemma_list_vals(class: Seq<char>, filter: VmIoDbListFilter, limit: i64)
    ensures
        list_vals(class, filter, limit).first() == ParamVal::Text(class),
        list_vals(class, filter, limit).last() == ParamVal::Int(limit),
        list_vals(class, filter, limit).len() == filter_vals(filter).len() + 2,
{
}

/// A row of the listing of a class, as far as it is filtered and sorted.
pub struct ListedRow {
    /// entry key
    pub key: Seq<char>,
    /// timestamp of the last write
    pub modified_at_micros: i64,
}

/// Does the row match the filter?
pub open spec fn matches_filter(filter: VmIoDbListFilter, row: ListedRow) -> bool {
    match filter {
        VmIoDbListFilter::All => true,
        VmIoDbListFilter::KeyPrefix(prefix) => prefix@.is_prefix_of(row.key),
        VmIoDbListFilter::ModifiedAtMicrosRange { start, end } => {
            &&& match start {
                MicrosBound::Unbounded => true,
                MicrosBound::Included(t) => row.modified_at_micros >= t,
                MicrosBound::Excluded(t) => row.modified_at_micros > t,
            }
            &&& match end {
                MicrosBound::Unbounded => true,
                MicrosBound::Included(t) => row.modified_at_micros <= t,
                MicrosBound::Excluded(t) => row.modified_at_micros < t,
            }
        },
    }
}

/// Does `a` come before `b`, as the sort says, given the order of keys?
pub open spec fn sorts_before(
    sort: VmIoDbListSort,
    key_before: spec_fn(Seq<char>, Seq<char>) -> bool,
    a: ListedRow,
    b: ListedRow,
) -> bool {
    match sort {
        VmIoDbListSort::KeyAsc => key_before(a.key, b.key),
        VmIoDbListSort::KeyDesc => key_before(b.key, a.key),
        VmIoDbListSort::ModifiedAtMicrosAsc => a.modified_at_micros < b.modified_at_micros,
        VmIoDbListSort::ModifiedAtMicrosDesc => a.modified_at_micros > b.modified_at_micros,
    }
}

/// What a condition of a statement on one bound value says of a row. The value is
/// that of the placeholder that the condition names.
pub open spec fn condition_holds(
    condition: Seq<char>,
    number: nat,
    value: ParamVal,
    row: ListedRow,
) -> bool {
    let n = text::dec_nat(number);
    if condition == " AND instr(key, ?"@ + n + ") = 1"@ {
        value is Text && value->Text_0.is_prefix_of(row.key)
    } else if condition == " AND modified_at_micros >= ?"@ + n {
        value is Int && row.modified_at_micros >= value->Int_0
    } else if condition == " AND modified_at_micros > ?"@ + n {
        value is Int && row.modified_at_micros > value->Int_0
    } else if condition == " AND modified_at_micros <= ?"@ + n {
        value is Int && row.modified_at_micros <= value->Int_0
    } else if condition == " AND modified_at_micros < ?"@ + n {
        value is Int && row.modified_at_micros < value->Int_0
    } else {
        false
    }
}

/// What an ordering of a statement on one class says of two rows, given the order of
/// keys.
pub open spec fn ordering_puts(
    ordering: Seq<char>,
    key_before: spec_fn(Seq<char>, Seq<char>) -> bool,
    a: ListedRow,
    b: ListedRow,
) -> bool {
    if ordering == " ORDER BY class ASC, key ASC"@ {
        key_before(a.key, b.key)
    } else if ordering == " ORDER BY class DESC, key DESC"@ {
        key_before(b.key, a.key)
    } else if ordering == " ORDER BY modified_at_micros ASC"@ {
        a.modified_at_micros < b.modified_at_micros
    } else if ordering == " ORDER BY modified_at_micros DESC"@ {
        b.modified_at_micros < a.modified_at_micros
    } else {
        false
    }
}

/// A statement by its parts: the conditions, the number of the placeholder of the
/// first of them being two, the ordering, and the number of the placeholder of the
/// limit.
pub struct Clauses {
    /// the conditions, in their order
    pub conditions: Seq<Seq<char>>,
    /// the ordering
    pub ordering: Seq<char>,
}

impl Clauses {
    /// The text of the statement.
    pub open spec fn sql(self) -> Seq<char> {
        LIST_HEAD@ + joined(self.conditions) + self.ordering + " LIMIT ?"@ + text::dec_nat(
            self.conditions.len() + 2,
        )
    }

    /// Does the statement keep the row, with these values bound?
    pub open spec fn keeps(self, values: Seq<ParamVal>, row: ListedRow) -> bool {
        forall|i: int|
            0 <= i < self.conditions.len() ==> condition_holds(
                #[trigger] self.conditions[i],
                (i + 2) as nat,
                values[i + 1],
                row,
            )
    }
}

/// Texts one behind the other.
pub open spec fn joined(texts: Seq<Seq<char>>) -> Seq<char>
    decreases texts.len(),
{
    if texts.len() == 0 {
        Seq::empty()
    } else {
        joined(texts.drop_last()) + texts.last()
    }
}

/// Is `out` the first `limit` of the rows that are kept, in order? A negative limit
/// is none.
pub open spec fn first_of(
    rows: Set<ListedRow>,
    keeps: spec_fn(ListedRow) -> bool,
    before: spec_fn(ListedRow, ListedRow) -> bool,
    limit: i64,
    out: Seq<ListedRow>,
) -> bool {
    &&& out.no_duplicates()
    &&& forall|i: int| 0 <= i < out.len() ==> rows.contains(#[trigger] out[i]) && keeps(out[i])
    &&& forall|i: int, j: int| 0 <= i < j < out.len() ==> !before(out[j], out[i])
    &&& limit >= 0 ==> out.len() <= limit
    &&& forall|row: ListedRow|
        rows.contains(row) && #[trigger] keeps(row) && !out.contains(row) ==> limit >= 0
            && out.len() == limit && forall|i: int| 0 <= i < out.len() ==> !before(row, out[i])
}

/// A listing gives what it was asked for: of the rows that match the filter, whatever
/// it is, the first ones in the order that the sort names, up to the limit.
///
/// The statement falls into conditions and an ordering. A row is kept by the
/// conditions, with the values bound to their placeholders, exactly where it matches
/// the filter, and the ordering puts rows exactly as the sort does. The class is the
/// first value and the limit the last.
pub proof fn lemma_listing(
    class: String,
    filter: VmIoDbListFilter,
    sort: VmIoDbListSort,
    limit: i64,
    query: ListQuery,
) -> (clauses: Clauses)
    requires
        call_ensures(list, (class, filter, sort, limit), query),
    ensures
        query.sql@ == clauses.sql(),
        query.params@.len() == clauses.conditions.len() + 2,
        query.params@.first()@ == ParamVal::Text(class@),
        query.params@.last()@ == ParamVal::Int(limit),
        forall|row: ListedRow| #[trigger]
            clauses.keeps(param_vals(query.params@), row) <==> matches_filter(filter, row),
        forall|key_before: spec_fn(Seq<char>, Seq<char>) -> bool, a: ListedRow, b: ListedRow|
         #[trigger]
            ordering_puts(clauses.ordering, key_before, a, b) <==> sorts_before(
                sort,
                key_before,
                a,
                b,
            ),
        forall|
            rows: Set<ListedRow>,
            key_before: spec_fn(Seq<char>, Seq<char>) -> bool,
            out: Seq<ListedRow>,
        |
            first_of(
                rows,
                |row: ListedRow| clauses.keeps(param_vals(query.params@), row),
                |a: ListedRow, b: ListedRow| ordering_puts(clauses.ordering, key_before, a, b),
                limit,
                out,
            ) <==> #[trigger] listed(filter, sort, limit, rows, key_before, out),
{
    lemma_order_texts();
    let vals = param_vals(query.params@);
    assert(vals.len() == query.params@.len());
    assert(vals.first() == query.params@.first()@ && vals.last() == query.params@.last()@);
    let two = text::dec_nat(2);
    let three = text::dec_nat(3);
    let conditions = match filter {
        VmIoDbListFilter::All => Seq::<Seq<char>>::empty(),
        VmIoDbListFilter::KeyPrefix(_) => seq![" AND instr(key, ?"@ + two + ") = 1"@],
        VmIoDbListFilter::ModifiedAtMicrosRange { start, end } => seq![
            match start {
                MicrosBound::Excluded(_) => " AND modified_at_micros > ?"@ + two,
                _ => " AND modified_at_micros >= ?"@ + two,
            },
            match end {
                MicrosBound::Excluded(_) => " AND modified_at_micros < ?"@ + three,
                _ => " AND modified_at_micros <= ?"@ + three,
            },
        ],
    };
    let ordering = match sort {
        VmIoDbListSort::KeyAsc => " ORDER BY class ASC, key ASC"@,
        VmIoDbListSort::KeyDesc => " ORDER BY class DESC, key DESC"@,
        VmIoDbListSort::ModifiedAtMicrosAsc => " ORDER BY modified_at_micros ASC"@,
        VmIoDbListSort::ModifiedAtMicrosDesc => " ORDER BY modified_at_micros DESC"@,
    };
    let clauses = Clauses { conditions, ordering };
    lemma_condition_texts(two);
    lemma_condition_texts(three);
    lemma_joined(conditions);
    assert(query.sql@ =~= clauses.sql());
    assert forall|row: ListedRow| #[trigger] clauses.keeps(vals, row) <==> matches_filter(
        filter,
        row,
    ) by {
        match filter {
            VmIoDbListFilter::All => {},
            VmIoDbListFilter::KeyPrefix(prefix) => {
                assert(vals[1] == ParamVal::Text(prefix@));
                assert(clauses.conditions[0] == " AND instr(key, ?"@ + two + ") = 1"@);
                assert(condition_holds(clauses.conditions[0], 2, vals[1], row)
                    == prefix@.is_prefix_of(row.key));
            },
            VmIoDbListFilter::ModifiedAtMicrosRange { start, end } => {
                assert(vals[1] == ParamVal::Int(bound_value(start, i64::MIN)));
                assert(vals[2] == ParamVal::Int(bound_value(end, i64::MAX)));
                let (c, d) = (clauses.conditions[0], clauses.conditions[1]);
                assert(clauses.keeps(vals, row) <==> condition_holds(c, 2, vals[1], row)
                    && condition_holds(d, 3, vals[2], row));
            },
        }
    }
    assert forall|
        rows: Set<ListedRow>,
        key_before: spec_fn(Seq<char>, Seq<char>) -> bool,
        out: Seq<ListedRow>,
    |
        first_of(
            rows,
            |row: ListedRow| clauses.keeps(vals, row),
            |a: ListedRow, b: ListedRow| ordering_puts(clauses.ordering, key_before, a, b),
            limit,
            out,
        ) <==> #[trigger] listed(filter, sort, limit, rows, key_before, out) by {
        let (keeps, wanted) = (
            |row: ListedRow| clauses.keeps(vals, row),
            |row: ListedRow| matches_filter(filter, row),
        );
        let (puts, before) = (
            |a: ListedRow, b: ListedRow| ordering_puts(clauses.ordering, key_before, a, b),
            |a: ListedRow, b: ListedRow| sorts_before(sort, key_before, a, b),
        );
        assert(keeps =~= wanted);
        assert(puts =~= before);
    }
    clauses
}

/// Is `out` what a listing asks for: the first `limit` of the rows that match the
/// filter, ordered as the sort says?
pub open spec fn listed(
    filter: VmIoDbListFilter,
    sort: VmIoDbListSort,
    limit: i64,
    rows: Set<ListedRow>,
    key_before: spec_fn(Seq<char>, Seq<char>) -> bool,
    out: Seq<ListedRow>,
) -> bool {
    first_of(
        rows,
        |row: ListedRow| matches_filter(filter, row),
        |a: ListedRow, b: ListedRow| sorts_before(sort, key_before, a, b),
        limit,
        out,
    )
}

/// Two conditions at most are joined as they stand.
proof fn lemma_joined(texts: Seq<Seq<char>>)
    requires
        texts.len() <= 2,
    ensures
        texts.len() == 0 ==> joined(texts) == Seq::<char>::empty(),
        texts.len() == 1 ==> joined(texts) == texts[0],
        texts.len() == 2 ==> joined(texts) == texts[0] + texts[1],
{
    reveal_with_fuel(joined, 3);
    if texts.len() == 1 {
        assert(joined(texts) =~= texts[0]);
    } else if texts.len() == 2 {
        assert(texts.drop_last().last() == texts[0]);
        assert(joined(texts.drop_last()) =~= texts[0]);
    }
}

/// The orderings are different texts.
proof fn lemma_order_texts()
    ensures
        " ORDER BY class ASC, key ASC"@ != " ORDER BY class DESC, key DESC"@,
        " ORDER BY class ASC, key ASC"@ != " ORDER BY modified_at_micros ASC"@,
        " ORDER BY class ASC, key ASC"@ != " ORDER BY modified_at_micros DESC"@,
        " ORDER BY class DESC, key DESC"@ != " ORDER BY modified_at_micros ASC"@,
        " ORDER BY class DESC, key DESC"@ != " ORDER BY modified_at_micros DESC"@,
        " ORDER BY modified_at_micros ASC"@ != " ORDER BY modified_at_micros DESC"@,
{
    reveal_strlit(" ORDER BY class ASC, key ASC");
    reveal_strlit(" ORDER BY class DESC, key DESC");
    reveal_strlit(" ORDER BY modified_at_micros ASC");
    reveal_strlit(" ORDER BY modified_at_micros DESC");
    assert(" ORDER BY class ASC, key ASC"@[10] == 'c');
    assert(" ORDER BY class DESC, key DESC"@[10] == 'c');
    assert(" ORDER BY modified_at_micros ASC"@[10] == 'm');
    assert(" ORDER BY modified_at_micros DESC"@[10] == 'm');
    assert(" ORDER BY class ASC, key ASC"@[16] == 'A');
    assert(" ORDER BY class DESC, key DESC"@[16] == 'D');
    assert(" ORDER BY modified_at_micros ASC"@[29] == 'A');
    assert(" ORDER BY modified_at_micros DESC"@[29] == 'D');
}

/// The conditions on one placeholder are different texts, made of the parts that a
/// statement is put together from.
proof fn lemma_condition_texts(n: Seq<char>)
    ensures
        " AND modified_at_micros"@ + " > ?"@ + n == " AND modified_at_micros > ?"@ + n,
        " AND modified_at_micros"@ + " >= ?"@ + n == " AND modified_at_micros >= ?"@ + n,
        " AND modified_at_micros"@ + " < ?"@ + n == " AND modified_at_micros < ?"@ + n,
        " AND modified_at_micros"@ + " <= ?"@ + n == " AND modified_at_micros <= ?"@ + n,
        " AND modified_at_micros > ?"@ + n != " AND modified_at_micros >= ?"@ + n,
        " AND modified_at_micros > ?"@ + n != " AND modified_at_micros < ?"@ + n,
        " AND modified_at_micros > ?"@ + n != " AND modified_at_micros <= ?"@ + n,
        " AND modified_at_micros >= ?"@ + n != " AND modified_at_micros < ?"@ + n,
        " AND modified_at_micros >= ?"@ + n != " AND modified_at_micros <= ?"@ + n,
        " AND modified_at_micros < ?"@ + n != " AND modified_at_micros <= ?"@ + n,
        " AND instr(key, ?"@ + n + ") = 1"@ != " AND modified_at_micros > ?"@ + n,
        " AND instr(key, ?"@ + n + ") = 1"@ != " AND modified_at_micros >= ?"@ + n,
        " AND instr(key, ?"@ + n + ") = 1"@ != " AND modified_at_micros < ?"@ + n,
        " AND instr(key, ?"@ + n + ") = 1"@ != " AND modified_at_micros <= ?"@ + n,
{
    reveal_strlit(" AND modified_at_micros");
    reveal_strlit(" > ?");
    reveal_strlit(" >= ?");
    reveal_strlit(" < ?");
    reveal_strlit(" <= ?");
    reveal_strlit(" AND modified_at_micros > ?");
    reveal_strlit(" AND modified_at_micros >= ?");
    reveal_strlit(" AND modified_at_micros < ?");
    reveal_strlit(" AND modified_at_micros <= ?");
    reveal_strlit(" AND instr(key, ?");
    reveal_strlit(") = 1");
    let (gt, ge) = (" AND modified_at_micros > ?"@ + n, " AND modified_at_micros >= ?"@ + n);
    let (lt, le) = (" AND modified_at_micros < ?"@ + n, " AND modified_at_micros <= ?"@ + n);
    let key = " AND instr(key, ?"@ + n + ") = 1"@;
    assert(" AND modified_at_micros"@ + " > ?"@ + n =~= gt);
    assert(" AND modified_at_micros"@ + " >= ?"@ + n =~= ge);
    assert(" AND modified_at_micros"@ + " < ?"@ + n =~= lt);
    assert(" AND modified_at_micros"@ + " <= ?"@ + n =~= le);
    assert(gt[24] == '>' && ge[24] == '>' && lt[24] == '<' && le[24] == '<');
    assert(gt[25] == ' ' && ge[25] == '=' && lt[25] == ' ' && le[25] == '=');
    assert(key[5] == 'i' && gt[5] == 'm' && ge[5] == 'm' && lt[5] == 'm' && le[5] == 'm');
}

/// Rows are collected exactly where none of them failed, each in its place, and
/// otherwise the first failure is what it comes to.
pub proof fn lemma_rows_collected<T>(
    rows: Vec<Result<T, String>>,
    res: Result<Vec<T>, String>,
)
    requires
        call_ensures(collect_rows::<T>, (rows,), res),
    ensures
        res is Ok <==> forall|i: int| 0 <= i < rows@.len() ==> (#[trigger] rows@[i]) is Ok,
        res is Ok ==> res->Ok_0@.len() == rows@.len() && forall|i: int|
            0 <= i < rows@.len() ==> #[trigger] res->Ok_0@[i] == rows@[i]->Ok_0,
        res is Err ==> exists|n: int|
            0 <= n < rows@.len() && (#[trigger] rows@[n]) is Err && rows@[n]->Err_0 == res->Err_0
                && forall|i: int| 0 <= i < n ==> (#[trigger] rows@[i]) is Ok,
{
    lemma_rows_read(rows@);
}

proof fn lemma_rows_read<T>(rows: Seq<Result<T, String>>)
    ensures
        match rows_read(rows) {
            Ok(out) => out.len() == rows.len() && forall|i: int|
                0 <= i < rows.len() ==> (#[trigger] rows[i]) is Ok && out[i] == rows[i]->Ok_0,
            Err(err) => exists|n: int|
                0 <= n < rows.len() && (#[trigger] rows[n]) is Err && rows[n]->Err_0 == err
                    && forall|i: int| 0 <= i < n ==> (#[trigger] rows[i]) is Ok,
        },
    decreases rows.len(),
{
    if rows.len() > 0 {
        let front = rows.drop_last();
        lemma_rows_read(front);
        assert forall|i: int| 0 <= i < front.len() implies front[i] == #[trigger] rows[i] by {}
        match rows_read(front) {
            Ok(_) => {
                assert(rows[rows.len() - 1] == rows.last());
                assert forall|i: int| 0 <= i < front.len() implies (#[trigger] rows[i]) is Ok by {
                    assert(front[i] is Ok);
                }
            },
            Err(err) => {
                let n = choose|n: int|
                    0 <= n < front.len() && (#[trigger] front[n]) is Err && front[n]->Err_0 == err
                        && forall|i: int| 0 <= i < n ==> (#[trigger] front[i]) is Ok;
                assert(rows[n] == front[n]);
                assert forall|i: int| 0 <= i < n implies (#[trigger] rows[i]) is Ok by {
                    assert(front[i] is Ok);
                }
            },
        }
    }
}

/// The database is handed its key as `x'` and `'` around the two hexadecimal digits
/// of each byte of the secret.
pub proof fn lemma_key_handed_over(secret: &[u8; 32], key: [u8; 67], i: int)
    requires
        call_ensures(sqlite_key, (secret,), key),
        0 <= i < 32,
    ensures
        key@[0] == 120 && key@[1] == 39 && key@[66] == 39,
        key@[2 + 2 * i] == (if secret@[i] / 16 < 10 {
            48 + secret@[i] / 16
        } else {
            87 + secret@[i] / 16
        }),
        key@[3 + 2 * i] == (if secret@[i] % 16 < 10 {
            48 + secret@[i] % 16
        } else {
            87 + secret@[i] % 16
        }),
{
    hexa::lemma_hex_digits(secret@, i);
    let whole = sqlite_key_text(secret@);
    assert(whole[0] == 'x' && whole[1] == '\'' && whole[66] == '\'');
    assert(whole[2 + 2 * i] == hexa::hex_lower(secret@)[2 * i]);
    assert(whole[3 + 2 * i] == hexa::hex_lower(secret@)[2 * i + 1]);
}

} // verus!
