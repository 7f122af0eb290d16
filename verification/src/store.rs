//! The store of cross-edges: one writer, and readers that borrow it.

use crate::error::{map_err, Error};
use crate::sql::{
    execute_batch, execute_stamp, execute_upsert, has_tables, is_private, meta_rows, open_file,
    open_in_memory, opened_at, picks, query_count, query_edges, query_version, select_statement,
    select_text, xedge_rows, EdgeRow, EndpointSide, RowCell, RowKey, COUNT_SQL, SCHEMA_SQL,
    STAMP_SQL, UPSERT_SQL, VERSION_KEY, VERSION_SQL,
};
use crate::text::{decimal, i64_of, law_parse_undoes_decimal, parse_i64, push_decimal};
use crate::xedge::{Endpoint, XEdge, XEDGE_SCHEMA_VERSION};
use rusqlite::{Connection, Error as SqlError};
use vstd::prelude::*;

verus! {

/// The texts of a list of relationship names.
pub open spec fn texts(names: Seq<&str>) -> Seq<Seq<char>> {
    Seq::new(names.len(), |i: int| names[i]@)
}

/// The rows that a list of cross-edges stands for.
pub open spec fn as_rows(edges: Seq<XEdge>) -> Seq<(RowKey, RowCell)> {
    Seq::new(edges.len(), |i: int| (edges[i].key(), edges[i].cell()))
}

impl XEdge {
    /// The primary key of the edge's row. The epochs are part of it.
    pub open spec fn key(self) -> RowKey {
        RowKey {
            src_engine: self.source.engine@,
            src_id: self.source.stable_id@,
            src_epoch: self.source.epoch as i64,
            tgt_engine: self.target.engine@,
            tgt_id: self.target.stable_id@,
            tgt_epoch: self.target.epoch as i64,
            rel: self.rel@,
        }
    }

    /// The other columns of the edge's row.
    pub open spec fn cell(self) -> RowCell {
        RowCell { confidence: self.confidence@, provenance: self.provenance@ }
    }

    /// Whether a row has the edge in its columns. An epoch is stored as the signed number with the
    /// same bits.
    pub open spec fn has_row(self, row: EdgeRow) -> bool {
        &&& row.src_engine@ == self.source.engine@
        &&& row.src_id@ == self.source.stable_id@
        &&& row.src_epoch == self.source.epoch as i64
        &&& row.tgt_engine@ == self.target.engine@
        &&& row.tgt_id@ == self.target.stable_id@
        &&& row.tgt_epoch == self.target.epoch as i64
        &&& row.rel@ == self.rel@
        &&& row.confidence@ == self.confidence@
        &&& row.provenance@ == self.provenance@
    }

    /// The edge's row. An epoch is stored as the signed number with the same bits.
    pub fn to_row(&self) -> (out: EdgeRow)
        ensures
            out.key() == self.key(),
            out.cell() == self.cell(),
            out.src_engine@ == self.source.engine@,
            out.src_id@ == self.source.stable_id@,
            out.src_epoch == self.source.epoch as i64,
            out.tgt_engine@ == self.target.engine@,
            out.tgt_id@ == self.target.stable_id@,
            out.tgt_epoch == self.target.epoch as i64,
            out.rel@ == self.rel@,
            out.confidence@ == self.confidence@,
            out.provenance@ == self.provenance@,
    {
        EdgeRow {
            src_engine: self.source.engine.clone(),
            src_id: self.source.stable_id.clone(),
            src_epoch: #[verifier::truncate] (self.source.epoch as i64),
            tgt_engine: self.target.engine.clone(),
            tgt_id: self.target.stable_id.clone(),
            tgt_epoch: #[verifier::truncate] (self.target.epoch as i64),
            rel: self.rel.clone(),
            confidence: self.confidence.clone(),
            provenance: self.provenance.clone(),
        }
    }

    /// The edge that a row holds.
    pub fn from_row(row: EdgeRow) -> (out: Self)
        ensures
            out.key() == row.key(),
            out.cell() == row.cell(),
            out.has_row(row),
            out.source.engine@ == row.src_engine@,
            out.source.stable_id@ == row.src_id@,
            out.source.epoch == row.src_epoch as u64,
            out.target.engine@ == row.tgt_engine@,
            out.target.stable_id@ == row.tgt_id@,
            out.target.epoch == row.tgt_epoch as u64,
            out.rel@ == row.rel@,
            out.confidence@ == row.confidence@,
            out.provenance@ == row.provenance@,
    {
        let src_epoch: i64 = row.src_epoch;
        let tgt_epoch: i64 = row.tgt_epoch;
        proof {
            lemma_epoch_bits(src_epoch);
            lemma_epoch_bits(tgt_epoch);
        }
        XEdge {
            source: Endpoint::new(
                row.src_engine,
                row.src_id,
                #[verifier::truncate] (src_epoch as u64),
            ),
            target: Endpoint::new(
                row.tgt_engine,
                row.tgt_id,
                #[verifier::truncate] (tgt_epoch as u64),
            ),
            rel: row.rel,
            confidence: row.confidence,
            provenance: row.provenance,
        }
    }
}

proof fn lemma_epoch_bits(stored: i64)
    ensures
        (stored as u64) as i64 == stored,
{
    assert((stored as u64) as i64 == stored) by (bit_vector);
}

/// Whether opening the database file at `path` may have this outcome.
pub closed spec fn file_opened(path: &str, reply: Result<Connection, SqlError>) -> bool {
    call_ensures(open_file, (path,), reply)
}

/// Whether opening a database in memory may have this outcome.
pub closed spec fn memory_opened(reply: Result<Connection, SqlError>) -> bool {
    call_ensures(open_in_memory, (), reply)
}

/// Whether creating the tables on a connection may have this outcome.
pub closed spec fn tables_made(
    before: Connection,
    reply: Result<(), SqlError>,
) -> bool {
    exists|conn: &mut Connection|
        {
            &&& #[trigger] call_ensures(execute_batch, (conn, SCHEMA_SQL), reply)
            &&& *conn == before
        }
}

/// Whether recording this version on a connection may have this outcome.
pub closed spec fn version_stamped(
    before: Connection,
    version: Seq<char>,
    reply: Result<usize, SqlError>,
) -> bool {
    exists|conn: &mut Connection, text: &str|
        {
            &&& #[trigger] call_ensures(execute_stamp, (conn, STAMP_SQL, text), reply)
            &&& text@ == version
            &&& *conn == before
        }
}

/// Whether writing this row on a connection may have this outcome.
pub closed spec fn row_written(
    before: Connection,
    row: EdgeRow,
    reply: Result<usize, SqlError>,
) -> bool {
    exists|conn: &mut Connection|
        {
            &&& #[trigger] call_ensures(execute_upsert, (conn, UPSERT_SQL, &row), reply)
            &&& *conn == before
        }
}

/// Whether the question for the recorded version may be answered like this on a connection.
pub closed spec fn version_asked(
    conn: Connection,
    reply: Result<Option<String>, SqlError>,
) -> bool {
    call_ensures(query_version, (&conn, VERSION_SQL), reply)
}

/// Whether the question for the number of cross-edges may be answered like this on a connection.
pub closed spec fn count_asked(conn: Connection, reply: Result<i64, SqlError>) -> bool {
    call_ensures(query_count, (&conn, COUNT_SQL), reply)
}

/// Whether the question for one end and these relationship names may be answered like this on a
/// connection.
pub closed spec fn edges_asked(
    conn: Connection,
    side: EndpointSide,
    engine: Seq<char>,
    id: Seq<char>,
    rels: Seq<Seq<char>>,
    reply: Result<Vec<EdgeRow>, SqlError>,
) -> bool {
    exists|sql: &str, params: &Vec<String>|
        {
            &&& #[trigger] call_ensures(query_edges, (&conn, sql, params), reply)
            &&& sql@ == select_text(side, rels.len())
            &&& params@.len() == rels.len() + 2
            &&& params@[0]@ == engine
            &&& params@[1]@ == id
            &&& forall|i: int| 0 <= i < rels.len() ==> (#[trigger] params@[i + 2])@ == rels[i]
        }
}

/// What a statement's reply means to a caller who only asked for it to be done.
pub fn done_reply(reply: Result<usize, SqlError>) -> (out: Result<(), Error>)
    ensures
        match reply {
            Ok(_) => out is Ok,
            Err(e) => out is Err && out->Err_0.reports(e),
        },
{
    match reply {
        Ok(_) => Ok(()),
        Err(e) => Err(map_err(e)),
    }
}

/// The schema version in the reply of the version query: zero where none, or no integer, is on
/// record.
pub fn version_reply(reply: Result<Option<String>, SqlError>) -> (out: Result<i64, Error>)
    ensures
        match reply {
            Ok(Some(text)) => out is Ok && out->Ok_0 == match i64_of(text@) {
                Some(version) => version,
                None => 0i64,
            },
            Ok(None) => out is Ok && out->Ok_0 == 0,
            Err(e) => out is Err && out->Err_0.reports(e),
        },
{
    match reply {
        Ok(Some(text)) => match parse_i64(text.as_str()) {
            Some(version) => Ok(version),
            None => Ok(0),
        },
        Ok(None) => Ok(0),
        Err(e) => Err(map_err(e)),
    }
}

/// The number of cross-edges in the reply of the count query.
pub fn count_reply(reply: Result<i64, SqlError>) -> (out: Result<u64, Error>)
    ensures
        match reply {
            Ok(n) => out is Ok && out->Ok_0 == n as u64,
            Err(e) => out is Err && out->Err_0.reports(e),
        },
{
    match reply {
        Ok(n) => Ok(#[verifier::truncate] (n as u64)),
        Err(e) => Err(map_err(e)),
    }
}

/// The cross-edges in the reply of a selection, in the order of the rows.
pub fn edges_reply(reply: Result<Vec<EdgeRow>, SqlError>) -> (out: Result<Vec<XEdge>, Error>)
    ensures
        match reply {
            Ok(rows) => {
                &&& out is Ok
                &&& as_rows(out->Ok_0@) == Seq::new(
                    rows@.len(),
                    |i: int| (rows@[i].key(), rows@[i].cell()),
                )
                &&& out->Ok_0@.len() == rows@.len()
                &&& forall|i: int|
                    0 <= i < rows@.len() ==> (#[trigger] out->Ok_0@[i]).has_row(rows@[i])
            },
            Err(e) => out is Err && out->Err_0.reports(e),
        },
{
    match reply {
        Ok(rows) => {
            let ghost all = rows@;
            let mut out: Vec<XEdge> = Vec::new();
            for row in it: rows
                invariant
                    it.seq() == all,
                    out@.len() == it.index(),
                    forall|i: int|
                        0 <= i < out@.len() ==> (#[trigger] out@[i]).key() == all[i].key()
                            && out@[i].cell() == all[i].cell() && out@[i].has_row(all[i]),
            {
                out.push(XEdge::from_row(row));
            }
            assert(as_rows(out@) =~= Seq::new(all.len(), |i: int| (all[i].key(), all[i].cell())));
            Ok(out)
        },
        Err(e) => Err(map_err(e)),
    }
}

/// The store of cross-edges. It holds the one connection that writes them.
pub struct XedgeStore {
    conn: Connection,
}

impl XedgeStore {
    /// Whether nothing but this store reads or changes its database, as with a store in memory.
    pub closed spec fn is_private(&self) -> bool {
        is_private(self.conn)
    }

    /// The connection that the store holds.
    pub closed spec fn connection(&self) -> Connection {
        self.conn
    }

    /// The path that the store was opened with; none for a store in memory.
    pub closed spec fn path(&self) -> Option<Seq<char>> {
        opened_at(self.conn)
    }

    /// Whether the tables of the schema are there, in a private store.
    pub closed spec fn has_tables(&self) -> bool {
        has_tables(self.conn)
    }

    /// The rows of a private store.
    pub closed spec fn rows(&self) -> Map<RowKey, RowCell> {
        xedge_rows(self.conn)
    }

    /// The schema version on record in a private store, as text.
    pub closed spec fn version_text(&self) -> Option<Seq<char>> {
        meta_rows(self.conn).get(VERSION_KEY@)
    }

    /// The schema version that a recorded text stands for.
    pub open spec fn version_of(text: Option<Seq<char>>) -> i64 {
        match text {
            Some(t) => match i64_of(t) {
                Some(version) => version,
                None => 0,
            },
            None => 0,
        }
    }

    /// What writing `edge` does: the database is asked to write its row, and the outcome is the
    /// database's own. A write that succeeds sets the row of its key and no other, one that fails
    /// leaves every row as it was.
    pub open spec fn written(
        before: XedgeStore,
        edge: XEdge,
        out: Result<(), Error>,
        after: XedgeStore,
    ) -> bool {
        &&& exists|row: EdgeRow, reply: Result<usize, SqlError>|
            {
                &&& #[trigger] row_written(before.connection(), row, reply)
                &&& edge.has_row(row)
                &&& match reply {
                    Ok(_) => out is Ok,
                    Err(e) => out is Err && out->Err_0.reports(e),
                }
            }
        &&& after.path() == before.path()
        &&& after.is_private() == before.is_private()
        &&& before.is_private() ==> {
            &&& after.has_tables() == before.has_tables()
            &&& after.version_text() == before.version_text()
            &&& after.rows() == if out is Ok {
                before.rows().insert(edge.key(), edge.kept().cell())
            } else {
                before.rows()
            }
        }
    }

    /// Whether `store` is what becomes of a connection that was taken over: it stays with its path,
    /// a private database has the tables of the schema and keeps its cross-edges, and the schema
    /// version is on record there, the one that was or else the current one.
    pub open spec fn takes_over(conn: Connection, store: XedgeStore) -> bool {
        &&& store.path() == opened_at(conn)
        &&& store.is_private() == is_private(conn)
        &&& is_private(conn) ==> {
            &&& store.has_tables()
            &&& store.rows() == xedge_rows(conn)
            &&& store.version_text() == if meta_rows(conn).contains_key(VERSION_KEY@) {
                Some(meta_rows(conn)[VERSION_KEY@])
            } else {
                Some(decimal(XEDGE_SCHEMA_VERSION as nat))
            }
        }
    }

    /// Whether taking over a connection may fail like this: creating the tables failed, or they
    /// were created and recording the version failed.
    pub open spec fn setup_fails(conn: Connection, error: Error) -> bool {
        ||| exists|e: SqlError| #[trigger] tables_made(conn, Err(e)) && error.reports(e)
        ||| exists|reply: Result<(), SqlError>, made: Connection, e: SqlError|
            {
                &&& #[trigger] tables_made(conn, reply)
                &&& reply is Ok
                &&& opened_at(made) == opened_at(conn)
                &&& #[trigger] version_stamped(made, decimal(XEDGE_SCHEMA_VERSION as nat), Err(e))
                &&& error.reports(e)
            }
    }

    /// Whether `conn` may be the connection that opening the database file at `path` gives.
    pub closed spec fn opens(path: &str, conn: Connection) -> bool {
        file_opened(path, Ok::<Connection, SqlError>(conn))
    }

    /// Opens the database file at `path`, creating it where it is missing, and sees to the schema.
    pub fn open(path: &str) -> (out: Result<Self, Error>)
        ensures
            match out {
                Ok(store) => {
                    &&& store.path() == Some(path@)
                    &&& exists|conn: Connection|
                        {
                            &&& Self::opens(path, conn)
                            &&& opened_at(conn) == Some(path@)
                            &&& #[trigger] Self::takes_over(conn, store)
                        }
                },
                Err(error) => {
                    &&& error.of_database()
                    &&& {
                        ||| exists|e: SqlError| #[trigger]
                            file_opened(path, Err(e)) && error.reports(e)
                        ||| exists|conn: Connection| #[trigger]
                            Self::opens(path, conn) && Self::setup_fails(conn, error)
                    }
                },
            },
    {
        let opened: Result<Connection, SqlError> = open_file(path);
        assert(file_opened(path, opened));
        match opened {
            Ok(conn) => {
                assert(Self::opens(path, conn));
                Self::from_conn(conn)
            },
            Err(e) => Err(map_err(e)),
        }
    }

    /// A store that lives in memory. It is private, has the tables, is empty, and is of the current
    /// schema version.
    pub fn in_memory() -> (out: Result<Self, Error>)
        ensures
            match out {
                Ok(store) => {
                    &&& store.path() is None
                    &&& store.is_private()
                    &&& store.has_tables()
                    &&& store.rows() == Map::<RowKey, RowCell>::empty()
                    &&& Self::version_of(store.version_text()) == XEDGE_SCHEMA_VERSION
                },
                Err(error) => {
                    &&& error.of_database()
                    &&& {
                        ||| exists|e: SqlError| #[trigger]
                            memory_opened(Err(e)) && error.reports(e)
                        ||| exists|conn: Connection| #[trigger]
                            memory_opened(Ok(conn)) && Self::setup_fails(conn, error)
                    }
                },
            },
    {
        let opened: Result<Connection, SqlError> = open_in_memory();
        assert(memory_opened(opened));
        match opened {
            Ok(conn) => {
                let out = Self::from_conn(conn);
                proof {
                    law_parse_undoes_decimal(XEDGE_SCHEMA_VERSION as nat);
                }
                out
            },
            Err(e) => Err(map_err(e)),
        }
    }

    /// Takes over a connection: creates the tables where they are missing, and puts the schema
    /// version on record unless one is there.
    fn from_conn(conn: Connection) -> (out: Result<Self, Error>)
        ensures
            match out {
                Ok(store) => Self::takes_over(conn, store),
                Err(error) => error.of_database() && Self::setup_fails(conn, error),
            },
    {
        let ghost first = conn;
        let mut conn = conn;
        let made: Result<(), SqlError> = execute_batch(&mut conn, SCHEMA_SQL);
        assert(tables_made(first, made));
        let ghost second = conn;
        match made {
            Ok(_) => {},
            Err(e) => return Err(map_err(e)),
        }
        let mut version: String = String::new();
        push_decimal(&mut version, XEDGE_SCHEMA_VERSION as u128);
        assert(version@ =~= decimal(XEDGE_SCHEMA_VERSION as nat));
        let text: &str = version.as_str();
        let stamped: Result<usize, SqlError> = execute_stamp(&mut conn, STAMP_SQL, text);
        assert(version_stamped(second, decimal(XEDGE_SCHEMA_VERSION as nat), stamped));
        match stamped {
            Ok(_) => Ok(XedgeStore { conn }),
            Err(e) => Err(map_err(e)),
        }
    }

    /// The schema version on record: zero where none, or no integer, is on record.
    pub fn schema_version(&self) -> (out: Result<i64, Error>)
        ensures
            match out {
                Ok(version) => self.is_private() ==> version == Self::version_of(
                    self.version_text(),
                ),
                Err(error) => error.of_database(),
            },
            exists|reply: Result<Option<String>, SqlError>| #[trigger]
                version_asked(self.connection(), reply) && match reply {
                    Ok(Some(text)) => out is Ok && out->Ok_0 == Self::version_of(Some(text@)),
                    Ok(None) => out is Ok && out->Ok_0 == 0,
                    Err(e) => out is Err && out->Err_0.reports(e),
                },
    {
        let reply: Result<Option<String>, SqlError> = query_version(&self.conn, VERSION_SQL);
        assert(version_asked(self.connection(), reply));
        version_reply(reply)
    }

    /// Writes one cross-edge, in place of the one with the same ends, epochs and relationship.
    pub fn put_edge(&mut self, edge: &XEdge) -> (out: Result<(), Error>)
        ensures
            Self::written(*old(self), *edge, out, *final(self)),
            out is Err ==> out->Err_0.of_database(),
    {
        let row: EdgeRow = edge.to_row();
        proof {
            edge.confidence.lemma_kept();
        }
        let reply: Result<usize, SqlError> = execute_upsert(&mut self.conn, UPSERT_SQL, &row);
        assert(row_written(old(self).connection(), row, reply));
        done_reply(reply)
    }

    /// The number of cross-edges.
    pub fn len(&self) -> (out: Result<u64, Error>)
        ensures
            match out {
                Ok(n) => self.is_private() ==> self.rows().dom().finite() && n
                    == self.rows().dom().len(),
                Err(error) => error.of_database(),
            },
            exists|reply: Result<i64, SqlError>| #[trigger]
                count_asked(self.connection(), reply) && match reply {
                    Ok(n) => out is Ok && out->Ok_0 == n as u64,
                    Err(e) => out is Err && out->Err_0.reports(e),
                },
    {
        let reply: Result<i64, SqlError> = query_count(&self.conn, COUNT_SQL);
        assert(count_asked(self.connection(), reply));
        count_reply(reply)
    }

    /// Whether there is no cross-edge.
    pub fn is_empty(&self) -> (out: Result<bool, Error>)
        ensures
            match out {
                Ok(empty) => self.is_private() ==> empty == (self.rows() == Map::<
                    RowKey,
                    RowCell,
                >::empty()),
                Err(error) => error.of_database(),
            },
            exists|reply: Result<i64, SqlError>| #[trigger]
                count_asked(self.connection(), reply) && match reply {
                    Ok(n) => out is Ok && out->Ok_0 == (n as u64 == 0),
                    Err(e) => out is Err && out->Err_0.reports(e),
                },
    {
        match self.len() {
            Ok(n) => {
                proof {
                    if self.is_private() {
                        if n == 0 {
                            assert(self.rows().dom() =~= Set::<RowKey>::empty());
                            assert(self.rows() =~= Map::<RowKey, RowCell>::empty());
                        }
                    }
                }
                Ok(n == 0)
            },
            Err(e) => Err(e),
        }
    }

    /// A reader of this store.
    pub fn reader(&self) -> (out: XedgeReader<'_>)
        ensures
            out.is_private() == self.is_private(),
            out.rows() == self.rows(),
            out.connection() == self.connection(),
    {
        XedgeReader { store: self }
    }
}

/// A reader of the cross-edges. It borrows the store, so it sees every write made before it.
#[derive(Clone, Copy)]
pub struct XedgeReader<'s> {
    store: &'s XedgeStore,
}

impl<'s> XedgeReader<'s> {
    /// Whether the store behind the reader is private.
    pub closed spec fn is_private(&self) -> bool {
        self.store.is_private()
    }

    /// The connection of the store behind the reader.
    pub closed spec fn connection(&self) -> Connection {
        self.store.connection()
    }

    /// The rows of the private store behind the reader.
    pub closed spec fn rows(&self) -> Map<RowKey, RowCell> {
        self.store.rows()
    }

    /// Whether `out` is what a reply of the database to the question for one end makes: the rows as
    /// cross-edges, in the order of the reply, or its failure.
    pub open spec fn hands_on(
        &self,
        side: EndpointSide,
        engine: Seq<char>,
        id: Seq<char>,
        rels: Seq<Seq<char>>,
        out: Result<Vec<XEdge>, Error>,
    ) -> bool {
        exists|reply: Result<Vec<EdgeRow>, SqlError>| #[trigger]
            edges_asked(self.connection(), side, engine, id, rels, reply) && match reply {
                Ok(rows) => {
                    &&& out is Ok
                    &&& out->Ok_0@.len() == rows@.len()
                    &&& forall|i: int|
                        0 <= i < rows@.len() ==> (#[trigger] out->Ok_0@[i]).has_row(rows@[i])
                },
                Err(e) => out is Err && out->Err_0.reports(e),
            }
    }

    /// Whether `out` can be the answer to the question which cross-edges have this end and one of
    /// these relationships. A private store answers with exactly these, in some order.
    pub open spec fn answers(
        &self,
        side: EndpointSide,
        engine: Seq<char>,
        id: Seq<char>,
        rels: Seq<Seq<char>>,
        out: Result<Vec<XEdge>, Error>,
    ) -> bool {
        &&& self.hands_on(side, engine, id, rels, out)
        &&& match out {
            Ok(edges) => self.is_private() ==> picks(
                self.rows(),
                side,
                engine,
                id,
                rels,
                as_rows(edges@),
            ),
            Err(error) => error.of_database(),
        }
    }

    /// The cross-edges whose target is `id` of `engine` and whose relationship is in `rels`: what
    /// depends on it across the stores. Without `rels`, every relationship counts.
    pub fn in_edges(&self, engine: &str, id: &str, rels: &[&str]) -> (out: Result<
        Vec<XEdge>,
        Error,
    >)
        ensures
            self.answers(EndpointSide::Target, engine@, id@, texts(rels@), out),
    {
        self.query_by_endpoint(EndpointSide::Target, engine, id, rels)
    }

    /// The cross-edges whose source is `id` of `engine` and whose relationship is in `rels`: what
    /// it depends on across the stores. Without `rels`, every relationship counts.
    pub fn out_edges(&self, engine: &str, id: &str, rels: &[&str]) -> (out: Result<
        Vec<XEdge>,
        Error,
    >)
        ensures
            self.answers(EndpointSide::Source, engine@, id@, texts(rels@), out),
    {
        self.query_by_endpoint(EndpointSide::Source, engine, id, rels)
    }

    /// The cross-edges that have `id` of `engine` at one end and whose relationship is in `rels`.
    /// Without `rels`, every relationship counts.
    pub fn query_by_endpoint(
        &self,
        side: EndpointSide,
        engine: &str,
        id: &str,
        rels: &[&str],
    ) -> (out: Result<Vec<XEdge>, Error>)
        ensures
            self.answers(side, engine@, id@, texts(rels@), out),
    {
        let sql: String = select_statement(side, rels.len());
        let mut params: Vec<String> = Vec::new();
        params.push(engine.to_string());
        params.push(id.to_string());
        let mut i: usize = 0;
        while i < rels.len()
            invariant
                i <= rels@.len(),
                params@.len() == i + 2,
                params@[0]@ == engine@,
                params@[1]@ == id@,
                forall|j: int| 0 <= j < i ==> (#[trigger] params@[j + 2])@ == rels@[j]@,
            decreases rels@.len() - i,
        {
            params.push(rels[i].to_string());
            i += 1;
        }
        assert(Seq::new((params@.len() - 2) as nat, |j: int| params@[j + 2]@) =~= texts(rels@));
        assert(sql@ == select_text(side, (params@.len() - 2) as nat));
        let text: &str = sql.as_str();
        let reply: Result<Vec<EdgeRow>, SqlError> = query_edges(&self.store.conn, text, &params);
        proof {
            assert(call_ensures(query_edges, (&self.connection(), text, &params), reply));
            assert(edges_asked(self.connection(), side, engine@, id@, texts(rels@), reply));
        }
        edges_reply(reply)
    }
}

/// What the store says of a call into the database is what the call itself may do: each outcome is
/// one of that call, with these arguments.
pub(crate) proof fn law_outcomes_are_the_databases(
    conn: Connection,
    path: &str,
    opened: Result<Connection, SqlError>,
    row: EdgeRow,
    made: Result<(), SqlError>,
    stamp: Seq<char>,
    done: Result<usize, SqlError>,
    version: Result<Option<String>, SqlError>,
    count: Result<i64, SqlError>,
    side: EndpointSide,
    engine: Seq<char>,
    id: Seq<char>,
    rels: Seq<Seq<char>>,
    found: Result<Vec<EdgeRow>, SqlError>,
)
    ensures
        file_opened(path, opened) ==> call_ensures(open_file, (path,), opened),
        memory_opened(opened) ==> call_ensures(open_in_memory, (), opened),
        tables_made(conn, made) ==> exists|held: &mut Connection| #[trigger]
            call_ensures(execute_batch, (held, SCHEMA_SQL), made) && *held == conn,
        version_stamped(conn, stamp, done) ==> exists|held: &mut Connection, text: &str| #[trigger]
            call_ensures(execute_stamp, (held, STAMP_SQL, text), done) && text@ == stamp && *held
                == conn,
        row_written(conn, row, done) ==> exists|held: &mut Connection| #[trigger]
            call_ensures(execute_upsert, (held, UPSERT_SQL, &row), done) && *held == conn,
        version_asked(conn, version) ==> call_ensures(query_version, (&conn, VERSION_SQL), version),
        count_asked(conn, count) ==> call_ensures(query_count, (&conn, COUNT_SQL), count),
        edges_asked(conn, side, engine, id, rels, found) ==> exists|sql: &str, params: &Vec<String>|
            {
                &&& #[trigger] call_ensures(query_edges, (&conn, sql, params), found)
                &&& sql@ == select_text(side, rels.len())
                &&& params@.len() == rels.len() + 2
                &&& params@[0]@ == engine
                &&& params@[1]@ == id
                &&& forall|i: int| 0 <= i < rels.len() ==> (#[trigger] params@[i + 2])@ == rels[i]
            },
{
}

} // verus!
