//! What holds of the store of cross-edges as a whole: how writes and reads belong together.

use crate::bag::lemma_same_elements;
use crate::error::Error;
use crate::sql::{is_negative_zero, wanted, EdgeRow, EndpointSide, RowCell, RowKey};
use crate::store::{as_rows, edges_asked, row_written, XedgeReader, XedgeStore};
use crate::text::{decimal, i64_of, law_parse_reads_every_number};
use crate::xedge::{XEdge, ABOUT, ESTATE_ENGINE, MEMORY_ENGINE};
use rusqlite::Error as SqlError;
use vstd::prelude::*;

verus! {

impl XEdge {
    /// The engine and the id at one end.
    pub open spec fn end_at(self, side: EndpointSide) -> (Seq<char>, Seq<char>) {
        match side {
            EndpointSide::Source => (self.source.engine@, self.source.stable_id@),
            EndpointSide::Target => (self.target.engine@, self.target.stable_id@),
        }
    }
}

/// A row and a cross-edge determine each other. No part of an edge is lost where it is made into a
/// row and back, not even the top bit of an epoch.
pub proof fn law_row_is_the_edge(a: XEdge, b: XEdge)
    ensures
        a.key() == b.key() && a.cell() == b.cell() <==> a.same_as(b),
{
    lemma_epoch_injective(a.source.epoch, b.source.epoch);
    lemma_epoch_injective(a.target.epoch, b.target.epoch);
}

proof fn lemma_epoch_injective(a: u64, b: u64)
    ensures
        (a as i64) == (b as i64) <==> a == b,
{
    assert((a as i64) == (b as i64) <==> a == b) by (bit_vector);
}

/// The stamps are part of the key: two edges that differ in an epoch are two rows, whatever else
/// they share.
pub proof fn law_epoch_is_part_of_the_key(a: XEdge, b: XEdge)
    requires
        a.source.epoch != b.source.epoch || a.target.epoch != b.target.epoch,
    ensures
        a.key() != b.key(),
{
    lemma_epoch_injective(a.source.epoch, b.source.epoch);
    lemma_epoch_injective(a.target.epoch, b.target.epoch);
}

/// A write fails only if the database does, whatever the edge is. The database was asked to write
/// one row, with the edge in its columns, on the connection of the store; the write succeeds
/// exactly if it replied that this was done, and else the error reports its failure.
pub proof fn law_put_fails_only_if_the_database_does(
    before: XedgeStore,
    edge: XEdge,
    out: Result<(), Error>,
    after: XedgeStore,
)
    requires
        XedgeStore::written(before, edge, out, after),
    ensures
        exists|row: EdgeRow, reply: Result<usize, SqlError>|
            {
                &&& #[trigger] row_written(before.connection(), row, reply)
                &&& row.src_engine@ == edge.source.engine@
                &&& row.src_id@ == edge.source.stable_id@
                &&& row.src_epoch == edge.source.epoch as i64
                &&& row.tgt_engine@ == edge.target.engine@
                &&& row.tgt_id@ == edge.target.stable_id@
                &&& row.tgt_epoch == edge.target.epoch as i64
                &&& row.rel@ == edge.rel@
                &&& row.confidence@ == edge.confidence@
                &&& row.provenance@ == edge.provenance@
                &&& out is Ok <==> reply is Ok
                &&& out is Err ==> out->Err_0.reports(reply->Err_0)
            },
{
}

/// A read fails only if the database does, and hands on what the database replied: the rows of the
/// reply as cross-edges, in its order, each with its columns.
pub proof fn law_read_fails_only_if_the_database_does(
    reader: XedgeReader,
    side: EndpointSide,
    engine: Seq<char>,
    id: Seq<char>,
    rels: Seq<Seq<char>>,
    out: Result<Vec<XEdge>, Error>,
)
    requires
        reader.answers(side, engine, id, rels, out),
    ensures
        exists|reply: Result<Vec<EdgeRow>, SqlError>|
            {
                &&& #[trigger] edges_asked(reader.connection(), side, engine, id, rels, reply)
                &&& out is Ok <==> reply is Ok
                &&& out is Err ==> out->Err_0.reports(reply->Err_0)
                &&& out is Ok ==> {
                    &&& out->Ok_0@.len() == reply->Ok_0@.len()
                    &&& forall|i: int|
                        0 <= i < out->Ok_0@.len() ==> {
                            let row = reply->Ok_0@[i];
                            let edge = #[trigger] out->Ok_0@[i];
                            &&& edge.source.engine@ == row.src_engine@
                            &&& edge.source.stable_id@ == row.src_id@
                            &&& edge.source.epoch as i64 == row.src_epoch
                            &&& edge.target.engine@ == row.tgt_engine@
                            &&& edge.target.stable_id@ == row.tgt_id@
                            &&& edge.target.epoch as i64 == row.tgt_epoch
                            &&& edge.rel@ == row.rel@
                            &&& edge.confidence@ == row.confidence@
                            &&& edge.provenance@ == row.provenance@
                        }
                }
            },
{
}

/// A private store answers to the point: every edge of an answer has the asked engine and id at the
/// asked end, and one of the asked relationships where any were named. No two have the same ends,
/// stamps and relationship.
pub proof fn law_answer_is_to_the_point(
    reader: XedgeReader,
    side: EndpointSide,
    engine: Seq<char>,
    id: Seq<char>,
    rels: Seq<Seq<char>>,
    out: Vec<XEdge>,
)
    requires
        reader.is_private(),
        reader.answers(side, engine, id, rels, Ok(out)),
    ensures
        forall|i: int|
            0 <= i < out@.len() ==> {
                &&& side == EndpointSide::Target ==> (#[trigger] out@[i]).target.engine@ == engine
                    && out@[i].target.stable_id@ == id
                &&& side == EndpointSide::Source ==> out@[i].source.engine@ == engine
                    && out@[i].source.stable_id@ == id
                &&& rels.len() == 0 || rels.contains(out@[i].rel@)
            },
        forall|i: int, j: int|
            0 <= i < j < out@.len() ==> {
                ||| (#[trigger] out@[i]).source.engine@ != (#[trigger] out@[j]).source.engine@
                ||| out@[i].source.stable_id@ != out@[j].source.stable_id@
                ||| out@[i].source.epoch != out@[j].source.epoch
                ||| out@[i].target.engine@ != out@[j].target.engine@
                ||| out@[i].target.stable_id@ != out@[j].target.stable_id@
                ||| out@[i].target.epoch != out@[j].target.epoch
                ||| out@[i].rel@ != out@[j].rel@
            },
{
    let found = as_rows(out@);
    assert forall|i: int| 0 <= i < out@.len() implies {
        &&& side == EndpointSide::Target ==> (#[trigger] out@[i]).target.engine@ == engine
            && out@[i].target.stable_id@ == id
        &&& side == EndpointSide::Source ==> out@[i].source.engine@ == engine
            && out@[i].source.stable_id@ == id
        &&& rels.len() == 0 || rels.contains(out@[i].rel@)
    } by {
        assert(found[i] == (out@[i].key(), out@[i].cell()));
        assert(wanted(found[i].0, side, engine, id, rels));
    }
    assert forall|i: int, j: int| 0 <= i < j < out@.len() implies {
        ||| (#[trigger] out@[i]).source.engine@ != (#[trigger] out@[j]).source.engine@
        ||| out@[i].source.stable_id@ != out@[j].source.stable_id@
        ||| out@[i].source.epoch != out@[j].source.epoch
        ||| out@[i].target.engine@ != out@[j].target.engine@
        ||| out@[i].target.stable_id@ != out@[j].target.stable_id@
        ||| out@[i].target.epoch != out@[j].target.epoch
        ||| out@[i].rel@ != out@[j].rel@
    } by {
        assert(found[i].0 == out@[i].key() && found[j].0 == out@[j].key());
    }
}

/// Writes with different keys do not touch each other: both rows are there, in whichever order
/// they were written, and a store that was empty then has two.
pub proof fn law_puts_of_two_keys(
    s0: XedgeStore,
    a: XEdge,
    s1: XedgeStore,
    b: XEdge,
    s2: XedgeStore,
)
    requires
        s0.is_private(),
        a.key() != b.key(),
        XedgeStore::written(s0, a, Ok(()), s1),
        XedgeStore::written(s1, b, Ok(()), s2),
    ensures
        s2.rows() == s0.rows().insert(b.key(), b.kept().cell()).insert(a.key(), a.kept().cell()),
        s2.rows().contains_key(a.key()) && s2.rows()[a.key()] == a.kept().cell(),
        s2.rows().contains_key(b.key()) && s2.rows()[b.key()] == b.kept().cell(),
        s0.rows() == Map::<RowKey, RowCell>::empty() ==> s2.rows().dom().len() == 2,
{
    assert(s2.rows() =~= s0.rows().insert(b.key(), b.kept().cell()).insert(
        a.key(),
        a.kept().cell(),
    ));
    if s0.rows() == Map::<RowKey, RowCell>::empty() {
        let none = Set::<RowKey>::empty();
        assert(s0.rows().dom() =~= none);
        assert(s2.rows().dom() =~= none.insert(a.key()).insert(b.key()));
    }
}

/// A write takes the place of an earlier one with the same key, and of nothing else.
pub proof fn law_put_replaces(
    s0: XedgeStore,
    a: XEdge,
    s1: XedgeStore,
    b: XEdge,
    s2: XedgeStore,
)
    requires
        s0.is_private(),
        a.key() == b.key(),
        XedgeStore::written(s0, a, Ok(()), s1),
        XedgeStore::written(s1, b, Ok(()), s2),
    ensures
        s2.rows() == s0.rows().insert(b.key(), b.kept().cell()),
{
    assert(s2.rows() =~= s0.rows().insert(b.key(), b.kept().cell()));
}

/// A read gives back what was written: after a write, the question for either end of the edge, with
/// its relationship among those asked for or with none named, is answered with that edge, once. A
/// confidence of negative zero comes back as zero; every other edge comes back as it was.
pub proof fn law_put_then_read(
    before: XedgeStore,
    edge: XEdge,
    after: XedgeStore,
    reader: XedgeReader,
    side: EndpointSide,
    rels: Seq<Seq<char>>,
    out: Vec<XEdge>,
)
    requires
        before.is_private(),
        XedgeStore::written(before, edge, Ok(()), after),
        reader.is_private() == after.is_private(),
        reader.rows() == after.rows(),
        rels.len() == 0 || rels.contains(edge.rel@),
        reader.answers(side, edge.end_at(side).0, edge.end_at(side).1, rels, Ok(out)),
    ensures
        exists|i: int| 0 <= i < out@.len() && (#[trigger] out@[i]).same_as(edge.kept()),
        forall|i: int, j: int|
            0 <= i < j < out@.len() ==> !((#[trigger] out@[i]).same_as(edge.kept()) && (
            #[trigger] out@[j]).same_as(edge.kept())),
        !is_negative_zero(edge.confidence@) ==> edge.kept() == edge,
{
    edge.confidence.lemma_kept();
    let found = as_rows(out@);
    assert(reader.rows().contains_key(edge.key()));
    assert(wanted(edge.key(), side, edge.end_at(side).0, edge.end_at(side).1, rels));
    let i = choose|i: int| 0 <= i < found.len() && (#[trigger] found[i]).0 == edge.key();
    assert(found[i] == (out@[i].key(), out@[i].cell()));
    assert(found[i].1 == edge.kept().cell());
    law_row_is_the_edge(out@[i], edge.kept());
    assert(out@[i].same_as(edge.kept()));
    assert forall|i: int, j: int| 0 <= i < j < out@.len() implies !((#[trigger] out@[i]).same_as(
        edge.kept(),
    ) && (#[trigger] out@[j]).same_as(edge.kept())) by {
        law_row_is_the_edge(out@[i], edge.kept());
        law_row_is_the_edge(out@[j], edge.kept());
        assert(found[i].0 != found[j].0);
    }
}

/// A read gives back nothing else: what a reader finds after a write is the edge that was written,
/// or an edge whose row was there before.
pub proof fn law_read_finds_only_what_was_put(
    before: XedgeStore,
    edge: XEdge,
    after: XedgeStore,
    reader: XedgeReader,
    side: EndpointSide,
    engine: Seq<char>,
    id: Seq<char>,
    rels: Seq<Seq<char>>,
    out: Vec<XEdge>,
)
    requires
        before.is_private(),
        XedgeStore::written(before, edge, Ok(()), after),
        reader.is_private() == after.is_private(),
        reader.rows() == after.rows(),
        reader.answers(side, engine, id, rels, Ok(out)),
    ensures
        forall|i: int|
            0 <= i < out@.len() ==> {
                ||| (#[trigger] out@[i]).same_as(edge.kept())
                ||| before.rows().contains_key(out@[i].key()) && before.rows()[out@[i].key()]
                    == out@[i].cell()
            },
{
    let found = as_rows(out@);
    assert forall|i: int| 0 <= i < out@.len() implies {
        ||| (#[trigger] out@[i]).same_as(edge.kept())
        ||| before.rows().contains_key(out@[i].key()) && before.rows()[out@[i].key()]
            == out@[i].cell()
    } by {
        assert(found[i] == (out@[i].key(), out@[i].cell()));
        assert(reader.rows()[found[i].0] == found[i].1);
        law_row_is_the_edge(out@[i], edge.kept());
    }
}

/// Naming relationships narrows an answer to them: an edge is found under the names exactly if it
/// is found without any and has one of them.
pub proof fn law_names_narrow(
    reader: XedgeReader,
    side: EndpointSide,
    engine: Seq<char>,
    id: Seq<char>,
    rels: Seq<Seq<char>>,
    all: Vec<XEdge>,
    some: Vec<XEdge>,
    edge: XEdge,
)
    requires
        reader.is_private(),
        rels.len() > 0,
        reader.answers(side, engine, id, Seq::empty(), Ok(all)),
        reader.answers(side, engine, id, rels, Ok(some)),
    ensures
        (exists|i: int| 0 <= i < some@.len() && (#[trigger] some@[i]).same_as(edge)) <==> {
            &&& rels.contains(edge.rel@)
            &&& exists|i: int| 0 <= i < all@.len() && (#[trigger] all@[i]).same_as(edge)
        },
{
    lemma_found(reader, side, engine, id, Seq::empty(), all, edge);
    lemma_found(reader, side, engine, id, rels, some, edge);
}

proof fn lemma_found(
    reader: XedgeReader,
    side: EndpointSide,
    engine: Seq<char>,
    id: Seq<char>,
    rels: Seq<Seq<char>>,
    out: Vec<XEdge>,
    edge: XEdge,
)
    requires
        reader.is_private(),
        reader.answers(side, engine, id, rels, Ok(out)),
    ensures
        (exists|i: int| 0 <= i < out@.len() && (#[trigger] out@[i]).same_as(edge)) <==> {
            &&& wanted(edge.key(), side, engine, id, rels)
            &&& reader.rows().contains_key(edge.key())
            &&& reader.rows()[edge.key()] == edge.cell()
        },
{
    let found = as_rows(out@);
    if exists|i: int| 0 <= i < out@.len() && (#[trigger] out@[i]).same_as(edge) {
        let i = choose|i: int| 0 <= i < out@.len() && (#[trigger] out@[i]).same_as(edge);
        law_row_is_the_edge(out@[i], edge);
        assert(found[i] == (out@[i].key(), out@[i].cell()));
    }
    if wanted(edge.key(), side, engine, id, rels) && reader.rows().contains_key(edge.key())
        && reader.rows()[edge.key()] == edge.cell() {
        let i = choose|i: int| 0 <= i < found.len() && (#[trigger] found[i]).0 == edge.key();
        assert(found[i] == (out@[i].key(), out@[i].cell()));
        law_row_is_the_edge(out@[i], edge);
        assert(out@[i].same_as(edge));
    }
}

/// An `about` edge that was written is found from both of its ends: among what depends on the code
/// symbol, and among what the memory depends on.
pub proof fn law_about_is_found_from_both_ends(
    before: XedgeStore,
    edge: XEdge,
    mem_id: Seq<char>,
    code_id: Seq<char>,
    code_epoch: u64,
    after: XedgeStore,
    reader: XedgeReader,
    from_code: Vec<XEdge>,
    from_memory: Vec<XEdge>,
)
    requires
        before.is_private(),
        edge.is_about(mem_id, code_id, code_epoch),
        XedgeStore::written(before, edge, Ok(()), after),
        reader.is_private() == after.is_private(),
        reader.rows() == after.rows(),
        reader.answers(
            EndpointSide::Target,
            ESTATE_ENGINE@,
            code_id,
            seq![ABOUT@],
            Ok(from_code),
        ),
        reader.answers(
            EndpointSide::Source,
            MEMORY_ENGINE@,
            mem_id,
            seq![ABOUT@],
            Ok(from_memory),
        ),
    ensures
        exists|i: int| 0 <= i < from_code@.len() && (#[trigger] from_code@[i]).same_as(edge.kept()),
        exists|i: int|
            0 <= i < from_memory@.len() && (#[trigger] from_memory@[i]).same_as(edge.kept()),
{
    assert(seq![ABOUT@][0] == edge.rel@);
    law_put_then_read(before, edge, after, reader, EndpointSide::Target, seq![ABOUT@], from_code);
    law_put_then_read(before, edge, after, reader, EndpointSide::Source, seq![ABOUT@], from_memory);
}

/// Whether a list of cross-edges has this one.
pub open spec fn lists(edges: Seq<XEdge>, edge: XEdge) -> bool {
    exists|i: int| 0 <= i < edges.len() && (#[trigger] edges[i]).same_as(edge)
}

/// What an answer holds: the wanted rows of the private store, each once.
pub(crate) proof fn lemma_answer_rows(
    reader: XedgeReader,
    side: EndpointSide,
    engine: Seq<char>,
    id: Seq<char>,
    rels: Seq<Seq<char>>,
    out: Vec<XEdge>,
)
    requires
        reader.is_private(),
        reader.answers(side, engine, id, rels, Ok(out)),
    ensures
        as_rows(out@).no_duplicates(),
        forall|row: (RowKey, RowCell)| #[trigger]
            as_rows(out@).contains(row) <==> {
                &&& wanted(row.0, side, engine, id, rels)
                &&& reader.rows().contains_key(row.0)
                &&& reader.rows()[row.0] == row.1
            },
{
    let found = as_rows(out@);
    assert forall|row: (RowKey, RowCell)| #[trigger] found.contains(row) <==> {
        &&& wanted(row.0, side, engine, id, rels)
        &&& reader.rows().contains_key(row.0)
        &&& reader.rows()[row.0] == row.1
    } by {
        if found.contains(row) {
            let i = choose|i: int| 0 <= i < found.len() && found[i] == row;
            assert(wanted(found[i].0, side, engine, id, rels));
        }
        if wanted(row.0, side, engine, id, rels) && reader.rows().contains_key(row.0)
            && reader.rows()[row.0] == row.1 {
            let i = choose|i: int| 0 <= i < found.len() && (#[trigger] found[i]).0 == row.0;
            assert(found[i] == row);
        }
    }
}

/// The names of an answer are a set: two questions that name the same relationships, in whatever
/// order and however often, are answered with the same edges up to their order. With the same
/// names this says that an answer may vary in its order alone.
pub proof fn law_names_are_a_set(
    reader: XedgeReader,
    side: EndpointSide,
    engine: Seq<char>,
    id: Seq<char>,
    a: Seq<Seq<char>>,
    b: Seq<Seq<char>>,
    out_a: Vec<XEdge>,
    out_b: Vec<XEdge>,
)
    requires
        reader.is_private(),
        forall|name: Seq<char>| #[trigger] a.contains(name) <==> b.contains(name),
        reader.answers(side, engine, id, a, Ok(out_a)),
        reader.answers(side, engine, id, b, Ok(out_b)),
    ensures
        as_rows(out_a@).to_multiset() == as_rows(out_b@).to_multiset(),
{
    assert(a.len() == 0 <==> b.len() == 0) by {
        if a.len() > 0 {
            assert(a.contains(a[0]));
        }
        if b.len() > 0 {
            assert(b.contains(b[0]));
            assert(a.contains(b[0]));
        }
    }
    lemma_answer_rows(reader, side, engine, id, a, out_a);
    lemma_answer_rows(reader, side, engine, id, b, out_b);
    assert forall|row: (RowKey, RowCell)| #[trigger]
        as_rows(out_a@).contains(row) <==> as_rows(out_b@).contains(row) by {
        assert(a.contains(row.0.rel) <==> b.contains(row.0.rel));
    }
    lemma_same_elements(as_rows(out_a@), as_rows(out_b@));
}

/// The answer to two lists of names together is the union of the answers to each, with no edge
/// twice.
pub proof fn law_names_join(
    reader: XedgeReader,
    side: EndpointSide,
    engine: Seq<char>,
    id: Seq<char>,
    a: Seq<Seq<char>>,
    b: Seq<Seq<char>>,
    out_a: Vec<XEdge>,
    out_b: Vec<XEdge>,
    joint: Vec<XEdge>,
)
    requires
        reader.is_private(),
        a.len() > 0,
        b.len() > 0,
        reader.answers(side, engine, id, a, Ok(out_a)),
        reader.answers(side, engine, id, b, Ok(out_b)),
        reader.answers(side, engine, id, a + b, Ok(joint)),
    ensures
        forall|edge: XEdge| #[trigger]
            lists(joint@, edge) <==> lists(out_a@, edge) || lists(out_b@, edge),
        as_rows(joint@).no_duplicates(),
{
    lemma_answer_rows(reader, side, engine, id, a + b, joint);
    assert forall|edge: XEdge| #[trigger] lists(joint@, edge) <==> lists(out_a@, edge) || lists(
        out_b@,
        edge,
    ) by {
        lemma_found(reader, side, engine, id, a, out_a, edge);
        lemma_found(reader, side, engine, id, b, out_b, edge);
        lemma_found(reader, side, engine, id, a + b, joint, edge);
        let name = edge.rel@;
        if a.contains(name) {
            let i = choose|i: int| 0 <= i < a.len() && a[i] == name;
            assert((a + b)[i] == name);
        }
        if b.contains(name) {
            let i = choose|i: int| 0 <= i < b.len() && b[i] == name;
            assert((a + b)[a.len() + i] == name);
        }
        if (a + b).contains(name) {
            let i = choose|i: int| 0 <= i < (a + b).len() && (a + b)[i] == name;
            if i < a.len() {
                assert(a[i] == name);
            } else {
                assert(b[i - a.len()] == name);
            }
        }
    }
}

/// Whether each state of a store comes of the one before by a write, and no write that succeeded
/// had this key.
pub open spec fn writes_beside(
    states: Seq<XedgeStore>,
    edges: Seq<XEdge>,
    outs: Seq<Result<(), Error>>,
    key: RowKey,
) -> bool {
    &&& states.len() == edges.len() + 1
    &&& outs.len() == edges.len()
    &&& forall|i: int|
        0 <= i < edges.len() ==> {
            &&& XedgeStore::written(
                #[trigger] states[i],
                edges[i],
                outs[i],
                states[i + 1],
            )
            &&& outs[i] is Ok ==> edges[i].key() != key
        }
}

proof fn lemma_row_stays(
    states: Seq<XedgeStore>,
    edges: Seq<XEdge>,
    outs: Seq<Result<(), Error>>,
    edge: XEdge,
    n: int,
)
    requires
        writes_beside(states, edges, outs, edge.key()),
        0 <= n < states.len(),
        states[0].is_private(),
        states[0].rows().contains_key(edge.key()),
        states[0].rows()[edge.key()] == edge.cell(),
    ensures
        states[n].is_private(),
        states[n].rows().contains_key(edge.key()),
        states[n].rows()[edge.key()] == edge.cell(),
    decreases n,
{
    if n > 0 {
        lemma_row_stays(states, edges, outs, edge, n - 1);
        assert(XedgeStore::written(states[n - 1], edges[n - 1], outs[n - 1], states[n - 1 + 1]));
    }
}

/// An edge that was written stays until its key is written again: after any number of further
/// writes with other keys, or that fail, the question for either of its ends is answered with it,
/// every part as it was but for a confidence of negative zero, which comes back as zero.
pub proof fn law_put_then_later_read(
    before: XedgeStore,
    edge: XEdge,
    states: Seq<XedgeStore>,
    edges: Seq<XEdge>,
    outs: Seq<Result<(), Error>>,
    reader: XedgeReader,
    side: EndpointSide,
    rels: Seq<Seq<char>>,
    out: Vec<XEdge>,
)
    requires
        before.is_private(),
        writes_beside(states, edges, outs, edge.key()),
        XedgeStore::written(before, edge, Ok(()), states[0]),
        reader.is_private() == states.last().is_private(),
        reader.rows() == states.last().rows(),
        rels.len() == 0 || rels.contains(edge.rel@),
        reader.answers(side, edge.end_at(side).0, edge.end_at(side).1, rels, Ok(out)),
    ensures
        lists(out@, edge.kept()),
        !is_negative_zero(edge.confidence@) ==> edge.kept() == edge,
{
    edge.confidence.lemma_kept();
    lemma_row_stays(states, edges, outs, edge.kept(), states.len() - 1);
    lemma_found(reader, side, edge.end_at(side).0, edge.end_at(side).1, rels, out, edge.kept());
}

/// The schema version that a text on record stands for is the number that it writes. A record that
/// is missing, or writes none, stands for version zero.
pub proof fn law_version_is_the_number_on_record(n: nat, text: Seq<char>)
    ensures
        XedgeStore::version_of(None) == 0,
        i64_of(text) is None ==> XedgeStore::version_of(Some(text)) == 0,
        i64_of(text) is Some ==> XedgeStore::version_of(Some(text)) == i64_of(text)->Some_0,
        n <= 0x7fff_ffff_ffff_ffff ==> XedgeStore::version_of(Some(decimal(n))) == n,
{
    law_parse_reads_every_number(n, text);
}

} // verus!
