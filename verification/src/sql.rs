//! The cross-edge database: its statements, what it holds, and the calls into `rusqlite`.
//!
//! What a database holds is spoken of only for a private one: one whose tables are those below, and
//! which nothing but the calls below reads or changes. A new database in memory, behind a single
//! connection, is private. Of a database file nothing here can tell: it may have been made by
//! others and may be written by others between two calls, and nothing is claimed of its rows.

use crate::text::{decimal, push_decimal};
use rusqlite::types::Value;
use rusqlite::{Connection, Error as SqlError, OptionalExtension};
use vstd::prelude::*;

verus! {

/// A database connection, an opaque value.
#[verifier::external_type_specification]
#[verifier::external_body]
pub struct ExConnection(Connection);

/// A value of a column, carried as an opaque value.
#[verifier::external_type_specification]
#[verifier::external_body]
pub struct ExValue(Value);

/// Whether a value of a column is a real number.
pub uninterp spec fn is_real(value: Value) -> bool;

/// Tells the variant `Real` of `rusqlite::types::Value` from the others.
///
/// Claimed: a real number is handed back as it is, and nothing else is.
#[verifier::external_body]
fn as_real(value: Value) -> (out: Option<Value>)
    ensures
        out == if is_real(value) {
            Some(value)
        } else {
            None
        },
{
    match value {
        Value::Real(_) => Some(value),
        _ => None,
    }
}

/// The real number that is a whole number.
pub uninterp spec fn whole(n: u8) -> Value;

/// Whether a value is the real number negative zero, which compares equal to zero.
pub uninterp spec fn is_negative_zero(value: Value) -> bool;

/// Makes the variant `Real` of `rusqlite::types::Value` with a whole number.
///
/// Claimed: the result is a real number that depends on the whole number alone, and is not negative
/// zero.
#[verifier::external_body]
pub(crate) fn whole_value(n: u8) -> (out: Value)
    ensures
        out == whole(n),
        is_real(out),
        !is_negative_zero(out),
{
    Value::Real(n.into())
}

/// What a column of real numbers keeps of one: the number, except that negative zero becomes zero.
pub open spec fn kept(value: Value) -> Value {
    if is_negative_zero(value) {
        whole(0)
    } else {
        value
    }
}

/// `Clone::clone` of `rusqlite::types::Value`.
///
/// Claimed: the clone is the same value.
pub assume_specification[ <Value as Clone>::clone ](value: &Value) -> (out: Value)
    ensures
        out == *value,
;

/// The confidence of a cross-edge, as the database keeps it: a real number, which need not lie
/// between zero and one.
#[derive(Debug, PartialEq)]
pub struct Score {
    value: Value,
}

impl View for Score {
    type V = Value;

    closed spec fn view(&self) -> Value {
        self.value
    }
}

impl Score {
    #[verifier::type_invariant]
    spec fn is_a_number(self) -> bool {
        is_real(self.value)
    }

    /// A score with this value; none if the value is not a real number.
    pub fn new(value: Value) -> (out: Option<Self>)
        ensures
            match out {
                Some(score) => is_real(value) && score@ == value,
                None => !is_real(value),
            },
    {
        match as_real(value) {
            Some(value) => Some(Score { value }),
            None => None,
        }
    }

    /// The score as the database keeps it.
    pub closed spec fn kept(self) -> Score {
        Score { value: kept(self.value) }
    }

    /// A score is kept as it is, unless it is negative zero.
    pub(crate) proof fn lemma_kept(self)
        ensures
            self.kept()@ == kept(self@),
            !is_negative_zero(self@) ==> self.kept() == self,
    {
    }

    pub(crate) fn of_real(value: Value) -> (out: Self)
        requires
            is_real(value),
        ensures
            out@ == value,
    {
        Score { value }
    }

    /// The number.
    pub fn value(&self) -> (out: &Value)
        ensures
            *out == self@,
            is_real(*out),
    {
        proof {
            use_type_invariant(self);
        }
        &self.value
    }
}

impl Clone for Score {
    fn clone(&self) -> (out: Self)
        ensures
            out == *self,
    {
        proof {
            use_type_invariant(self);
        }
        Score { value: self.value.clone() }
    }
}

/// Creates the tables and their indexes, where they are missing.
pub const SCHEMA_SQL: &'static str = "PRAGMA journal_mode=WAL;
CREATE TABLE IF NOT EXISTS meta (
    key   TEXT PRIMARY KEY,
    value TEXT NOT NULL
);
CREATE TABLE IF NOT EXISTS xedges (
    src_engine TEXT    NOT NULL,
    src_id     TEXT    NOT NULL,
    src_epoch  INTEGER NOT NULL,
    tgt_engine TEXT    NOT NULL,
    tgt_id     TEXT    NOT NULL,
    tgt_epoch  INTEGER NOT NULL,
    rel        TEXT    NOT NULL,
    confidence REAL    NOT NULL,
    provenance TEXT    NOT NULL,
    PRIMARY KEY (src_engine, src_id, src_epoch, tgt_engine, tgt_id, tgt_epoch, rel)
);
CREATE INDEX IF NOT EXISTS idx_xedges_tgt ON xedges (tgt_engine, tgt_id, rel);
CREATE INDEX IF NOT EXISTS idx_xedges_src ON xedges (src_engine, src_id, rel);";

/// Records the schema version, unless one is on record.
pub const STAMP_SQL: &'static str = "INSERT INTO meta (key, value)
VALUES ('XEDGE_SCHEMA_VERSION', ?1)
ON CONFLICT(key) DO NOTHING";

/// Reads the schema version.
pub const VERSION_SQL: &'static str = "SELECT value FROM meta WHERE key = 'XEDGE_SCHEMA_VERSION'";

/// The key of the schema version in the table `meta`.
pub const VERSION_KEY: &'static str = "XEDGE_SCHEMA_VERSION";

/// Writes one cross-edge, in place of the one with the same key.
pub const UPSERT_SQL: &'static str = "INSERT INTO xedges
    (src_engine, src_id, src_epoch, tgt_engine, tgt_id, tgt_epoch, rel, confidence, provenance)
VALUES (?1, ?2, ?3, ?4, ?5, ?6, ?7, ?8, ?9)
ON CONFLICT (src_engine, src_id, src_epoch, tgt_engine, tgt_id, tgt_epoch, rel)
DO UPDATE SET confidence = excluded.confidence, provenance = excluded.provenance";

/// Counts the cross-edges.
pub const COUNT_SQL: &'static str = "SELECT COUNT(*) FROM xedges";

/// What every selection of cross-edges starts with.
pub const SELECT_SQL: &'static str = "SELECT src_engine, src_id, src_epoch, tgt_engine, tgt_id,
    tgt_epoch, rel, confidence, provenance
FROM xedges WHERE ";

/// Restricts a selection by its target.
pub const TARGET_SQL: &'static str = "tgt_engine = ?1 AND tgt_id = ?2";

/// Restricts a selection by its source.
pub const SOURCE_SQL: &'static str = "src_engine = ?1 AND src_id = ?2";

/// The end of a cross-edge that a selection goes by.
#[derive(Debug, Clone, Copy, PartialEq, Eq, Structural)]
pub enum EndpointSide {
    Source,
    Target,
}

/// A row of the table `xedges`.
#[derive(Debug, PartialEq)]
pub struct EdgeRow {
    pub src_engine: String,
    pub src_id: String,
    pub src_epoch: i64,
    pub tgt_engine: String,
    pub tgt_id: String,
    pub tgt_epoch: i64,
    pub rel: String,
    pub confidence: Score,
    pub provenance: String,
}

/// The primary key of a row.
pub struct RowKey {
    pub src_engine: Seq<char>,
    pub src_id: Seq<char>,
    pub src_epoch: i64,
    pub tgt_engine: Seq<char>,
    pub tgt_id: Seq<char>,
    pub tgt_epoch: i64,
    pub rel: Seq<char>,
}

/// The other columns of a row.
pub struct RowCell {
    pub confidence: Value,
    pub provenance: Seq<char>,
}

impl EdgeRow {
    /// The primary key.
    pub open spec fn key(self) -> RowKey {
        RowKey {
            src_engine: self.src_engine@,
            src_id: self.src_id@,
            src_epoch: self.src_epoch,
            tgt_engine: self.tgt_engine@,
            tgt_id: self.tgt_id@,
            tgt_epoch: self.tgt_epoch,
            rel: self.rel@,
        }
    }

    /// The other columns.
    pub open spec fn cell(self) -> RowCell {
        RowCell { confidence: self.confidence@, provenance: self.provenance@ }
    }

    /// The other columns, as the database keeps them.
    pub open spec fn kept_cell(self) -> RowCell {
        RowCell { confidence: kept(self.confidence@), provenance: self.provenance@ }
    }
}

/// Whether the database behind a connection is private to it.
pub uninterp spec fn is_private(conn: Connection) -> bool;

/// The rows of the table `xedges`, by primary key; none where there is no such table.
pub uninterp spec fn xedge_rows(conn: Connection) -> Map<RowKey, RowCell>;

/// The rows of the table `meta`, by key; none where there is no such table.
pub uninterp spec fn meta_rows(conn: Connection) -> Map<Seq<char>, Seq<char>>;

/// Whether the tables of the schema are there.
pub uninterp spec fn has_tables(conn: Connection) -> bool;

/// The path that a connection was opened with; none for one that was opened in memory.
pub uninterp spec fn opened_at(conn: Connection) -> Option<Seq<char>>;

/// Whether the selection by this end, engine and id, and by these relationship names, wants a row.
/// Without names, every relationship is wanted.
pub open spec fn wanted(
    key: RowKey,
    side: EndpointSide,
    engine: Seq<char>,
    id: Seq<char>,
    rels: Seq<Seq<char>>,
) -> bool {
    &&& match side {
        EndpointSide::Target => key.tgt_engine == engine && key.tgt_id == id,
        EndpointSide::Source => key.src_engine == engine && key.src_id == id,
    }
    &&& rels.len() == 0 || rels.contains(key.rel)
}

/// Whether `found` lists, in some order, exactly the wanted rows, each once.
pub open spec fn picks(
    rows: Map<RowKey, RowCell>,
    side: EndpointSide,
    engine: Seq<char>,
    id: Seq<char>,
    rels: Seq<Seq<char>>,
    found: Seq<(RowKey, RowCell)>,
) -> bool {
    &&& forall|i: int|
        0 <= i < found.len() ==> {
            &&& wanted((#[trigger] found[i]).0, side, engine, id, rels)
            &&& rows.contains_key(found[i].0)
            &&& rows[found[i].0] == found[i].1
        }
    &&& forall|k: RowKey| #[trigger]
        rows.contains_key(k) && wanted(k, side, engine, id, rels) ==> exists|i: int|
            0 <= i < found.len() && (#[trigger] found[i]).0 == k
    &&& forall|i: int, j: int|
        0 <= i < j < found.len() ==> (#[trigger] found[i]).0 != (#[trigger] found[j]).0
}

/// The parameter marks `?3` to `?(n + 2)`.
pub open spec fn marks(n: nat) -> Seq<char>
    decreases n,
{
    if n == 0 {
        Seq::empty()
    } else if n == 1 {
        "?"@ + decimal(3)
    } else {
        marks((n - 1) as nat) + ", "@ + "?"@ + decimal((n + 2) as nat)
    }
}

/// The statement that selects by one end and `rels` relationship names.
pub open spec fn select_text(side: EndpointSide, rels: nat) -> Seq<char> {
    let by_end = SELECT_SQL@ + match side {
        EndpointSide::Target => TARGET_SQL@,
        EndpointSide::Source => SOURCE_SQL@,
    };
    if rels == 0 {
        by_end
    } else {
        by_end + " AND rel IN ("@ + marks(rels) + ")"@
    }
}

/// Builds the statement that selects by one end and `rels` relationship names.
pub fn select_statement(side: EndpointSide, rels: usize) -> (out: String)
    ensures
        out@ == select_text(side, rels as nat),
{
    let mut sql: String = SELECT_SQL.to_string();
    match side {
        EndpointSide::Target => sql.append(TARGET_SQL),
        EndpointSide::Source => sql.append(SOURCE_SQL),
    }
    if rels > 0 {
        sql.append(" AND rel IN (");
        let ghost head = sql@;
        let mut i: usize = 0;
        assert(sql@ =~= head + marks(0));
        while i < rels
            invariant
                i <= rels,
                sql@ == head + marks(i as nat),
            decreases rels - i,
        {
            if i > 0 {
                sql.append(", ");
            }
            sql.append("?");
            push_decimal(&mut sql, i as u128 + 3);
            i += 1;
            assert(sql@ =~= head + marks(i as nat));
        }
        sql.append(")");
    }
    sql
}

/// Calls `rusqlite::Connection::open_in_memory`.
///
/// Claimed: the connection was opened with no path, and the database is private and has no rows.
/// Nothing is claimed of when the call succeeds.
#[verifier::external_body]
pub(crate) fn open_in_memory() -> (out: Result<Connection, SqlError>)
    ensures
        out matches Ok(conn) ==> {
            &&& opened_at(conn) is None
            &&& is_private(conn)
            &&& xedge_rows(conn) == Map::<RowKey, RowCell>::empty()
            &&& meta_rows(conn) == Map::<Seq<char>, Seq<char>>::empty()
        },
{
    Connection::open_in_memory()
}

/// Calls `rusqlite::Connection::open` on the file at `path`.
///
/// Claimed: the connection was opened with this path. Nothing is claimed of when the call succeeds,
/// nor of what is found there: both rest on the file system.
#[verifier::external_body]
pub(crate) fn open_file(path: &str) -> (out: Result<Connection, SqlError>)
    ensures
        out matches Ok(conn) ==> opened_at(conn) == Some(path@),
{
    Connection::open(path)
}

/// Calls `rusqlite::Connection::execute_batch` on the schema.
///
/// Claimed: the connection stays with its path; a private database stays private, and keeps its
/// rows whether or not the call succeeds. On success it has the tables.
#[verifier::external_body]
pub(crate) fn execute_batch(conn: &mut Connection, sql: &str) -> (out: Result<(), SqlError>)
    requires
        sql@ == SCHEMA_SQL@,
    ensures
        opened_at(*final(conn)) == opened_at(*old(conn)),
        is_private(*final(conn)) == is_private(*old(conn)),
        is_private(*old(conn)) ==> {
            &&& xedge_rows(*final(conn)) == xedge_rows(*old(conn))
            &&& meta_rows(*final(conn)) == meta_rows(*old(conn))
            &&& out is Ok ==> has_tables(*final(conn))
        },
{
    conn.execute_batch(sql)
}

/// Calls `rusqlite::Connection::execute` to record the schema version.
///
/// Claimed: the connection stays with its path and a private database stays private. Claimed of a
/// private database: on success the version is on record, an older record stays as it was, and the
/// tables and the cross-edges are untouched.
#[verifier::external_body]
pub(crate) fn execute_stamp(conn: &mut Connection, sql: &str, version: &str) -> (out: Result<
    usize,
    SqlError,
>)
    requires
        sql@ == STAMP_SQL@,
        is_private(*old(conn)) ==> has_tables(*old(conn)),
    ensures
        opened_at(*final(conn)) == opened_at(*old(conn)),
        is_private(*final(conn)) == is_private(*old(conn)),
        is_private(*old(conn)) ==> {
            &&& has_tables(*final(conn))
            &&& xedge_rows(*final(conn)) == xedge_rows(*old(conn))
        },
        is_private(*old(conn)) && out is Ok ==> meta_rows(*final(conn)) == if meta_rows(
            *old(conn),
        ).contains_key(VERSION_KEY@) {
            meta_rows(*old(conn))
        } else {
            meta_rows(*old(conn)).insert(VERSION_KEY@, version@)
        },
{
    conn.execute(sql, (version,))
}

/// Calls `rusqlite::Connection::execute` to write one cross-edge.
///
/// Claimed: the connection stays with its path and a private database stays private. Claimed of a
/// private database: the tables stay; on success the row with this key is as given, except that
/// negative zero is kept as zero, and every other row is untouched; a failed statement is undone
/// and leaves the rows as they were.
#[verifier::external_body]
pub(crate) fn execute_upsert(conn: &mut Connection, sql: &str, row: &EdgeRow) -> (out: Result<
    usize,
    SqlError,
>)
    requires
        sql@ == UPSERT_SQL@,
    ensures
        opened_at(*final(conn)) == opened_at(*old(conn)),
        is_private(*final(conn)) == is_private(*old(conn)),
        is_private(*old(conn)) ==> {
            &&& has_tables(*final(conn)) == has_tables(*old(conn))
            &&& meta_rows(*final(conn)) == meta_rows(*old(conn))
            &&& xedge_rows(*final(conn)) == if out is Ok {
                xedge_rows(*old(conn)).insert(row.key(), row.kept_cell())
            } else {
                xedge_rows(*old(conn))
            }
        },
{
    conn.execute(sql, (
        &row.src_engine, &row.src_id, row.src_epoch, &row.tgt_engine, &row.tgt_id, row.tgt_epoch,
        &row.rel, &row.confidence.value, &row.provenance,
    ))
}

/// Calls `rusqlite::Connection::query_row` for the recorded schema version.
///
/// Claimed of a private database: on success the result is what is on record, if anything is.
#[verifier::external_body]
pub(crate) fn query_version(conn: &Connection, sql: &str) -> (out: Result<Option<String>, SqlError>)
    requires
        sql@ == VERSION_SQL@,
    ensures
        is_private(*conn) && out is Ok ==> match out->Ok_0 {
            Some(text) => meta_rows(*conn).contains_key(VERSION_KEY@) && meta_rows(
                *conn,
            )[VERSION_KEY@] == text@,
            None => !meta_rows(*conn).contains_key(VERSION_KEY@),
        },
{
    conn.query_row(sql, [], |row| row.get(0)).optional()
}

/// Calls `rusqlite::Connection::query_row` for the number of cross-edges.
///
/// Claimed of a private database: it has finitely many rows and, on success, this many.
#[verifier::external_body]
pub(crate) fn query_count(conn: &Connection, sql: &str) -> (out: Result<i64, SqlError>)
    requires
        sql@ == COUNT_SQL@,
    ensures
        is_private(*conn) && out is Ok ==> xedge_rows(*conn).dom().finite() && out->Ok_0
            == xedge_rows(*conn).dom().len(),
{
    conn.query_row(sql, [], |row| row.get(0))
}

/// Calls `rusqlite::Connection::prepare` and `rusqlite::Statement::query_map` on a selection, with
/// the engine, the id and the relationship names as parameters.
///
/// Claimed of a private database: on success the result lists exactly the wanted rows, in an order
/// that is left open.
#[verifier::external_body]
pub(crate) fn query_edges(conn: &Connection, sql: &str, params: &Vec<String>) -> (out: Result<
    Vec<EdgeRow>,
    SqlError,
>)
    requires
        params@.len() >= 2,
        exists|side: EndpointSide| sql@ == #[trigger] select_text(side, (params@.len() - 2) as nat),
    ensures
        is_private(*conn) && out is Ok ==> forall|side: EndpointSide|
            sql@ == #[trigger] select_text(side, (params@.len() - 2) as nat) ==> picks(
                xedge_rows(*conn),
                side,
                params@[0]@,
                params@[1]@,
                Seq::new((params@.len() - 2) as nat, |i: int| params@[i + 2]@),
                Seq::new(out->Ok_0@.len(), |i: int| (out->Ok_0@[i].key(), out->Ok_0@[i].cell())),
            ),
{
    let mut statement = conn.prepare(sql)?;
    let rows = statement.query_map(rusqlite::params_from_iter(params), |row| Ok(EdgeRow {
        src_engine: row.get(0)?, src_id: row.get(1)?, src_epoch: row.get(2)?,
        tgt_engine: row.get(3)?, tgt_id: row.get(4)?, tgt_epoch: row.get(5)?,
        rel: row.get(6)?, provenance: row.get(8)?,
        confidence: Score { value: Value::Real(row.get(7)?) },
    }))?;
    rows.collect()
}

/// A selection asks for both parts of an end, and for one of the relationships where any are named:
/// each further name adds one parameter mark, with the next number, to the list in the brackets.
pub proof fn law_selection_has_a_mark_for_each_name(side: EndpointSide, n: nat)
    ensures
        select_text(side, 0) == SELECT_SQL@ + if side == EndpointSide::Target {
            "tgt_engine = ?1 AND tgt_id = ?2"@
        } else {
            "src_engine = ?1 AND src_id = ?2"@
        },
        select_text(side, 1) == select_text(side, 0) + " AND rel IN ("@ + ("?"@ + decimal(3)) + ")"@,
        n > 0 ==> select_text(side, n + 1).len() > 0 && select_text(side, n).len() > 0
            && select_text(side, n + 1).drop_last() == select_text(side, n).drop_last() + ", "@
            + "?"@ + decimal(n + 3),
        n > 0 ==> select_text(side, n).last() == ')',
{
    reveal_strlit(")");
    if n > 0 {
        let head = select_text(side, 0) + " AND rel IN ("@;
        let one = head + marks(n);
        let two = head + marks(n + 1);
        assert(select_text(side, n) =~= one + ")"@);
        assert(select_text(side, n + 1) =~= two + ")"@);
        assert(select_text(side, n).drop_last() =~= one);
        assert(select_text(side, n + 1).drop_last() =~= two);
        assert(marks(n + 1) =~= marks(n) + ", "@ + "?"@ + decimal((n + 1 + 2) as nat));
        assert(two =~= one + ", "@ + "?"@ + decimal(n + 3));
    }
}

} // verus!
