//! What listing the cross-store edges at an id gives, row by row: each row that was looked at left
//! an edge or a line in the log, the budget cuts the list and does not empty it, and a listing
//! fails only if an engine or the database did.

use crate::engine::{ForeignEngine, HomeEngine};
use crate::error::Error;
use crate::graph::{Direction, Edge, EdgeKind, Provenance, SymbolId};
use crate::neighbor_laws::{lemma_live_answer, lemma_live_rows_together, row_live};
use crate::overlay::{contents, OverlayReader};
use crate::overlay_laws::{
    law_check_fails_closed, lemma_end_live_as_same, lemma_unfold_both, lemma_unfold_cross,
    lemma_unfold_neighbors,
};
use crate::reply_laws::law_check_goes_by_the_replies;
use crate::sql::{wanted, EndpointSide, RowCell, RowKey};
use crate::store::as_rows;
use crate::xedge::{confidence_of, law_graph_edge_carries_the_cross_edge, XEdge};
use vstd::prelude::*;

verus! {

/// Whether a graph edge has the parts of this cross-edge.
pub open spec fn has_parts_of(edge: Edge, row: XEdge) -> bool {
    &&& edge.source.0@ == row.source.stable_id@
    &&& edge.target.0@ == row.target.stable_id@
    &&& edge.kind matches EdgeKind::Other(name) && name@ == row.rel@
    &&& edge.confidence == confidence_of(row.confidence@)
    &&& edge.provenance matches Provenance::Synthesizer(name) && name@ == row.provenance@
    &&& edge.resolved_by@ == "xedge:"@ + row.rel@
    &&& edge.origin is None
}

/// Whether a list of positions goes up and stays below `n`.
pub open spec fn goes_up(positions: Seq<int>, n: int) -> bool {
    &&& forall|i: int| 0 <= i < positions.len() ==> 0 <= #[trigger] positions[i] < n
    &&& forall|i: int, j: int|
        0 <= i < j < positions.len() ==> #[trigger] positions[i] < #[trigger] positions[j]
}

impl<'a, H: HomeEngine, F: ForeignEngine> OverlayReader<'a, H, F> {
    /// Whether a listing that starts with `edges` and `log` accounts for the rows: those at the
    /// positions `kept` are the edges it adds, those at the positions `dropped` are the lines it
    /// adds, both in order, and together they are the rows from the first on. It leaves rows out
    /// only once there are as many edges as the budget allows, and then at once.
    pub open spec fn accounts_for(
        &self,
        rows: Seq<XEdge>,
        edges: Seq<Edge>,
        log: Seq<Seq<char>>,
        end: (Seq<Edge>, Seq<Seq<char>>),
        kept: Seq<int>,
        dropped: Seq<int>,
    ) -> bool {
        let max = self.budget().max_cross_nodes;
        let seen = kept.len() + dropped.len();
        &&& end.0.len() == edges.len() + kept.len()
        &&& end.1.len() == log.len() + dropped.len()
        &&& edges.is_prefix_of(end.0)
        &&& log.is_prefix_of(end.1)
        &&& end.0.len() <= max
        &&& seen == rows.len() || seen < rows.len() && end.0.len() == max
        &&& end.0.len() == max && seen > 0 ==> kept.len() > 0 && kept.last() == seen - 1
        &&& goes_up(kept, seen as int)
        &&& goes_up(dropped, seen as int)
        &&& forall|i: int, j: int|
            0 <= i < kept.len() && 0 <= j < dropped.len() ==> #[trigger] kept[i]
                != #[trigger] dropped[j]
        &&& forall|i: int|
            0 <= i < kept.len() ==> #[trigger] self.keeps(
                rows[kept[i]],
                end.0[edges.len() + i],
            )
        &&& forall|i: int|
            0 <= i < dropped.len() ==> #[trigger] self.drops(
                rows[dropped[i]],
                end.1[log.len() + i],
            )
    }

    /// Whether a row may be kept, and the edge has its parts: both of its stamps may be live.
    pub open spec fn keeps(&self, row: XEdge, edge: Edge) -> bool {
        &&& has_parts_of(edge, row)
        &&& self.may_be_live(row.source)
        &&& self.may_be_live(row.target)
    }

    /// Whether a row may be dropped with this line: the line blames one of its ends, and the target
    /// only if the source may be live.
    pub open spec fn drops(&self, row: XEdge, line: Seq<char>) -> bool {
        ||| self.blames(row.source, line)
        ||| self.may_be_live(row.source) && self.blames(row.target, line)
    }
}

spec fn shifted(positions: Seq<int>) -> Seq<int> {
    Seq::new(positions.len(), |i: int| positions[i] + 1)
}

proof fn lemma_fold_accounts<'a, H: HomeEngine, F: ForeignEngine>(
    overlay: OverlayReader<'a, H, F>,
    rows: Seq<XEdge>,
    edges: Seq<Edge>,
    log: Seq<Seq<char>>,
    end: (Seq<Edge>, Seq<Seq<char>>),
) -> (parts: (Seq<int>, Seq<int>))
    requires
        overlay.fold_ends(rows, edges, log, end),
        edges.len() <= overlay.budget().max_cross_nodes,
    ensures
        overlay.accounts_for(rows, edges, log, end, parts.0, parts.1),
    decreases rows.len(),
{
    if rows.len() == 0 || edges.len() >= overlay.budget().max_cross_nodes {
        assert(edges =~= end.0.subrange(0, edges.len() as int));
        assert(log =~= end.1.subrange(0, log.len() as int));
        (Seq::empty(), Seq::empty())
    } else {
        let rest = rows.skip(1);
        let found = choose|found: Option<Seq<char>>| #[trigger]
            overlay.row_checked(rows[0], found) && match found {
                Some(line) => overlay.fold_ends(rest, edges, log.push(line), end),
                None => exists|edge: Edge| #[trigger]
                    rows[0].appears_as(edge) && overlay.fold_ends(
                        rest,
                        edges.push(edge),
                        log,
                        end,
                    ),
            };
        law_check_goes_by_the_replies(overlay, rows[0], found);
        match found {
            Some(line) => {
                let log1 = log.push(line);
                let (k, d) = lemma_fold_accounts(overlay, rest, edges, log1, end);
                let kept = shifted(k);
                let dropped = seq![0int] + shifted(d);
                assert(end.1[log.len() as int] == line) by {
                    assert(log1[log.len() as int] == line);
                }
                assert(log =~= end.1.subrange(0, log.len() as int)) by {
                    assert forall|i: int| 0 <= i < log.len() implies log[i] == end.1[i] by {
                        assert(log1[i] == end.1[i]);
                    }
                }
                assert forall|i: int| 0 <= i < kept.len() implies #[trigger] overlay.keeps(
                    rows[kept[i]],
                    end.0[edges.len() + i],
                ) by {
                    assert(overlay.keeps(rest[k[i]], end.0[edges.len() + i]));
                    assert(rest[k[i]] == rows[kept[i]]);
                }
                assert forall|i: int| 0 <= i < dropped.len() implies #[trigger] overlay.drops(
                    rows[dropped[i]],
                    end.1[log.len() + i],
                ) by {
                    if i > 0 {
                        assert(overlay.drops(rest[d[i - 1]], end.1[log1.len() + (i - 1)]));
                        assert(rest[d[i - 1]] == rows[dropped[i]]);
                    }
                }
                (kept, dropped)
            },
            None => {
                let edge = choose|edge: Edge| #[trigger]
                    rows[0].appears_as(edge) && overlay.fold_ends(
                        rest,
                        edges.push(edge),
                        log,
                        end,
                    );
                law_graph_edge_carries_the_cross_edge(rows[0], edge);
                let edges1 = edges.push(edge);
                let (k, d) = lemma_fold_accounts(overlay, rest, edges1, log, end);
                let kept = seq![0int] + shifted(k);
                let dropped = shifted(d);
                assert(end.0[edges.len() as int] == edge) by {
                    assert(edges1[edges.len() as int] == edge);
                }
                assert(edges =~= end.0.subrange(0, edges.len() as int)) by {
                    assert forall|i: int| 0 <= i < edges.len() implies edges[i] == end.0[i] by {
                        assert(edges1[i] == end.0[i]);
                    }
                }
                assert forall|i: int| 0 <= i < kept.len() implies #[trigger] overlay.keeps(
                    rows[kept[i]],
                    end.0[edges.len() + i],
                ) by {
                    if i > 0 {
                        assert(overlay.keeps(rest[k[i - 1]], end.0[edges1.len() + (i - 1)]));
                        assert(rest[k[i - 1]] == rows[kept[i]]);
                    }
                }
                assert forall|i: int| 0 <= i < dropped.len() implies #[trigger] overlay.drops(
                    rows[dropped[i]],
                    end.1[log.len() + i],
                ) by {
                    assert(overlay.drops(rest[d[i]], end.1[log.len() + i]));
                    assert(rest[d[i]] == rows[dropped[i]]);
                }
                (kept, dropped)
            },
        }
    }
}

/// Folding rows leaves an edge or a line for each row that it looks at, in their order: an edge
/// with the parts of the row, whose stamps may both be live, or the line that blames one of its
/// ends. It looks at the rows from the first on, and stops only at the last, or as soon as there
/// are as many edges as the budget allows.
pub proof fn law_fold_accounts_for_every_row<'a, H: HomeEngine, F: ForeignEngine>(
    overlay: OverlayReader<'a, H, F>,
    rows: Seq<XEdge>,
    log: Seq<Seq<char>>,
    edges: Seq<Edge>,
    log_after: Seq<Seq<char>>,
)
    requires
        overlay.fold_ends(rows, Seq::empty(), log, (edges, log_after)),
    ensures
        exists|kept: Seq<int>, dropped: Seq<int>| #[trigger]
            overlay.accounts_for(rows, Seq::empty(), log, (edges, log_after), kept, dropped),
{
    let (kept, dropped) = lemma_fold_accounts(
        overlay,
        rows,
        Seq::empty(),
        log,
        (edges, log_after),
    );
    assert(overlay.accounts_for(rows, Seq::empty(), log, (edges, log_after), kept, dropped));
}

impl<'a, H: HomeEngine, F: ForeignEngine> OverlayReader<'a, H, F> {
    /// Whether the store may answer the question for one end of the cross-edges at a home id, with
    /// the relationships that may cross, like this.
    pub open spec fn store_answers(
        &self,
        side: EndpointSide,
        id: Seq<char>,
        out: Result<Vec<XEdge>, Error>,
    ) -> bool {
        self.xedge().answers(side, self.home_engine(), id, self.kinds(), out)
    }

    /// Whether these may be the rows that the store answers with for a direction: those that point
    /// at the id, those that leave it, or the former and then the latter.
    pub open spec fn store_lists(&self, id: Seq<char>, dir: Direction, rows: Seq<XEdge>) -> bool {
        match dir {
            Direction::Dependents => exists|out: Vec<XEdge>| #[trigger]
                self.store_answers(EndpointSide::Target, id, Ok(out)) && rows == out@,
            Direction::Dependencies => exists|out: Vec<XEdge>| #[trigger]
                self.store_answers(EndpointSide::Source, id, Ok(out)) && rows == out@,
            Direction::Both => exists|first: Vec<XEdge>, second: Vec<XEdge>|
                {
                    &&& #[trigger] self.store_answers(EndpointSide::Target, id, Ok(first))
                    &&& #[trigger] self.store_answers(EndpointSide::Source, id, Ok(second))
                    &&& rows == first@ + second@
                },
        }
    }

    /// Whether the store may fail like this when it is asked for a direction.
    pub open spec fn store_fails(&self, id: Seq<char>, dir: Direction, e: Error) -> bool {
        ||| dir != Direction::Dependencies && self.store_answers(EndpointSide::Target, id, Err(e))
        ||| dir != Direction::Dependents && self.store_answers(EndpointSide::Source, id, Err(e))
    }

    /// Whether the listing of the rows of some answer of the store may end like this.
    pub open spec fn lists_an_answer(
        &self,
        id: Seq<char>,
        dir: Direction,
        log: Seq<Seq<char>>,
        end: (Seq<Edge>, Seq<Seq<char>>),
    ) -> bool {
        exists|rows: Seq<XEdge>, kept: Seq<int>, dropped: Seq<int>|
            {
                &&& #[trigger] self.store_lists(id, dir, rows)
                &&& #[trigger] self.accounts_for(rows, Seq::empty(), log, end, kept, dropped)
            }
    }
}

proof fn lemma_side_answer<'a, H: HomeEngine, F: ForeignEngine>(
    overlay: OverlayReader<'a, H, F>,
    side: EndpointSide,
    id: Seq<char>,
    rows: Result<Seq<XEdge>, Error>,
) -> (out: Result<Vec<XEdge>, Error>)
    requires
        overlay.side_reply(side, id, rows),
    ensures
        overlay.store_answers(side, id, out),
        rows == contents(out),
{
    choose|reply: Result<Vec<XEdge>, Error>| #[trigger]
        overlay.xedge().answers(side, overlay.home_engine(), id, overlay.kinds(), reply) && rows
            == contents(reply)
}

/// A listing of the cross-store edges at an id goes by what the store answers. With no relationship
/// armed nothing is asked and nothing is listed. Else it fails only if the store failed, with that
/// error and with nothing logged; and when it succeeds it accounts for the rows of the answer, one
/// by one.
pub proof fn law_listing_goes_by_the_answer<'a, H: HomeEngine, F: ForeignEngine>(
    overlay: OverlayReader<'a, H, F>,
    id: Seq<char>,
    dir: Direction,
    log: Seq<Seq<char>>,
    end: (Result<Seq<Edge>, Error>, Seq<Seq<char>>),
)
    requires
        overlay.cross_ends(id, dir, log, end),
    ensures
        overlay.kinds().len() == 0 ==> end.0 == Ok::<Seq<Edge>, Error>(Seq::empty()) && end.1
            == log,
        overlay.kinds().len() > 0 ==> match end.0 {
            Ok(edges) => overlay.lists_an_answer(id, dir, log, (edges, end.1)),
            Err(e) => end.1 == log && overlay.store_fails(id, dir, e),
        },
{
    if overlay.kinds().len() > 0 {
        match end.0 {
            Ok(edges) => {
                let rows = lemma_unfold_cross(overlay, id, dir, log, edges, end.1);
                let (kept, dropped) = lemma_fold_accounts(
                    overlay,
                    rows,
                    Seq::empty(),
                    log,
                    (edges, end.1),
                );
                match dir {
                    Direction::Dependents => {
                        let out = lemma_side_answer(overlay, EndpointSide::Target, id, Ok(rows));
                        assert(overlay.store_answers(EndpointSide::Target, id, Ok(out->Ok_0)));
                    },
                    Direction::Dependencies => {
                        let out = lemma_side_answer(overlay, EndpointSide::Source, id, Ok(rows));
                        assert(overlay.store_answers(EndpointSide::Source, id, Ok(out->Ok_0)));
                    },
                    Direction::Both => {
                        let (a, b) = lemma_unfold_both(overlay, id, rows);
                        let first = lemma_side_answer(overlay, EndpointSide::Target, id, Ok(a));
                        let second = lemma_side_answer(overlay, EndpointSide::Source, id, Ok(b));
                        assert(overlay.store_answers(EndpointSide::Target, id, Ok(first->Ok_0)));
                        assert(overlay.store_answers(EndpointSide::Source, id, Ok(second->Ok_0)));
                    },
                }
                assert(overlay.store_lists(id, dir, rows));
                assert(overlay.accounts_for(
                    rows,
                    Seq::empty(),
                    log,
                    (edges, end.1),
                    kept,
                    dropped,
                ));
            },
            Err(e) => {
                let rows = choose|rows: Result<Seq<XEdge>, Error>| #[trigger]
                    overlay.rows_reply(id, dir, rows) && match rows {
                        Err(e) => end == (Err::<Seq<Edge>, Error>(e), log),
                        Ok(found) => end.0 is Ok && overlay.fold_ends(
                            found,
                            Seq::empty(),
                            log,
                            (end.0->Ok_0, end.1),
                        ),
                    };
                assert(rows == Err::<Seq<XEdge>, Error>(e));
                lemma_store_failed(overlay, id, dir, e);
            },
        }
    }
}

proof fn lemma_store_failed<'a, H: HomeEngine, F: ForeignEngine>(
    overlay: OverlayReader<'a, H, F>,
    id: Seq<char>,
    dir: Direction,
    e: Error,
)
    requires
        overlay.rows_reply(id, dir, Err::<Seq<XEdge>, Error>(e)),
    ensures
        overlay.store_fails(id, dir, e),
{
    let failed = Err::<Seq<XEdge>, Error>(e);
    match dir {
        Direction::Dependents => {
            let out = lemma_side_answer(overlay, EndpointSide::Target, id, failed);
            assert(out == Err::<Vec<XEdge>, Error>(e));
        },
        Direction::Dependencies => {
            let out = lemma_side_answer(overlay, EndpointSide::Source, id, failed);
            assert(out == Err::<Vec<XEdge>, Error>(e));
        },
        Direction::Both => {
            let first = choose|first: Result<Seq<XEdge>, Error>| #[trigger]
                overlay.side_reply(EndpointSide::Target, id, first) && match first {
                    Err(_) => failed == first,
                    Ok(pointing) => exists|second: Result<Seq<XEdge>, Error>| #[trigger]
                        overlay.side_reply(EndpointSide::Source, id, second) && match second {
                            Err(_) => failed == second,
                            Ok(leaving) => failed == Ok::<Seq<XEdge>, Error>(pointing + leaving),
                        },
                };
            if first is Err {
                let out = lemma_side_answer(overlay, EndpointSide::Target, id, failed);
                assert(out == Err::<Vec<XEdge>, Error>(e));
            } else {
                let pointing = first->Ok_0;
                let second = choose|second: Result<Seq<XEdge>, Error>| #[trigger]
                    overlay.side_reply(EndpointSide::Source, id, second) && match second {
                        Err(_) => failed == second,
                        Ok(leaving) => failed == Ok::<Seq<XEdge>, Error>(pointing + leaving),
                    };
                let out = lemma_side_answer(overlay, EndpointSide::Source, id, failed);
                assert(out == Err::<Vec<XEdge>, Error>(e));
            }
        },
    }
}

/// The neighbors of an id are a reply of the home engine and then a listing of the cross-store
/// edges at that id. They fail only if the home engine failed, or the listing did, with that error;
/// and a failure leaves the log as it was.
pub proof fn law_neighbors_fail_only_if_a_read_does<'a, H: HomeEngine, F: ForeignEngine>(
    overlay: OverlayReader<'a, H, F>,
    id: SymbolId,
    dir: Direction,
    log: Seq<Seq<char>>,
    end: (Result<Seq<Edge>, Error>, Seq<Seq<char>>),
)
    requires
        overlay.neighbors_ends(id, dir, log, end),
    ensures
        match end.0 {
            Ok(edges) => exists|own: Vec<Edge>, more: Seq<Edge>|
                {
                    &&& #[trigger] call_ensures(
                        H::neighbors,
                        (overlay.home(), &id, dir),
                        Ok::<Vec<Edge>, Error>(own),
                    )
                    &&& edges == #[trigger] (own@ + more)
                    &&& overlay.cross_ends(id@, dir, log, (Ok::<Seq<Edge>, Error>(more), end.1))
                },
            Err(e) => end.1 == log && {
                ||| call_ensures(
                    H::neighbors,
                    (overlay.home(), &id, dir),
                    Err::<Vec<Edge>, Error>(e),
                )
                ||| overlay.kinds().len() > 0 && overlay.store_fails(id@, dir, e)
            },
        },
{
    match end.0 {
        Ok(edges) => {
            let (own, more) = lemma_unfold_neighbors(overlay, id, dir, log, edges, end.1);
            assert(edges == own@ + more);
        },
        Err(e) => {
            let home = choose|home: Result<Vec<Edge>, Error>| #[trigger]
                call_ensures(H::neighbors, (overlay.home(), &id, dir), home) && match home {
                    Err(e) => end == (Err::<Seq<Edge>, Error>(e), log),
                    Ok(own) => exists|cross: Result<Seq<Edge>, Error>| #[trigger]
                        overlay.cross_ends(id@, dir, log, (cross, end.1)) && match cross {
                            Err(_) => end.0 == cross,
                            Ok(more) => end.0 == Ok::<Seq<Edge>, Error>(own@ + more),
                        },
                };
            if home is Ok {
                let own = home->Ok_0;
                let cross = choose|cross: Result<Seq<Edge>, Error>| #[trigger]
                    overlay.cross_ends(id@, dir, log, (cross, end.1)) && match cross {
                        Err(_) => end.0 == cross,
                        Ok(more) => end.0 == Ok::<Seq<Edge>, Error>(own@ + more),
                    };
                law_listing_goes_by_the_answer(overlay, id@, dir, log, (cross, end.1));
            } else {
                assert(home == Err::<Vec<Edge>, Error>(e));
            }
        },
    }
}

/// Whether a row has this cross-edge's ends, stamps and relationship in its key. An epoch is the
/// signed number with the same bits.
pub open spec fn has_key(row: XEdge, key: RowKey) -> bool {
    &&& key.src_engine == row.source.engine@
    &&& key.src_id == row.source.stable_id@
    &&& key.src_epoch == row.source.epoch as i64
    &&& key.tgt_engine == row.target.engine@
    &&& key.tgt_id == row.target.stable_id@
    &&& key.tgt_epoch == row.target.epoch as i64
    &&& key.rel == row.rel@
}

impl<'a, H: HomeEngine, F: ForeignEngine> OverlayReader<'a, H, F> {
    /// The keys of the rows of a private store that have a home id at this end and a relationship
    /// that may cross.
    pub open spec fn held_at(&self, side: EndpointSide, id: Seq<char>) -> Set<RowKey> {
        Set::new(
            |key: RowKey|
                {
                    &&& self.xedge().rows().contains_key(key)
                    &&& self.kinds().contains(key.rel)
                    &&& side == EndpointSide::Target ==> key.tgt_engine == self.home_engine()
                        && key.tgt_id == id
                    &&& side == EndpointSide::Source ==> key.src_engine == self.home_engine()
                        && key.src_id == id
                },
        )
    }

    /// Whether both stamps of a key may be live.
    pub open spec fn key_may_be_live(&self, key: RowKey) -> bool {
        exists|row: XEdge|
            {
                &&& #[trigger] has_key(row, key)
                &&& self.may_be_live(row.source)
                &&& self.may_be_live(row.target)
            }
    }

    /// Those of the keys at a home id whose stamps may both be live.
    pub open spec fn live_at(&self, side: EndpointSide, id: Seq<char>) -> Set<RowKey> {
        Set::new(|key: RowKey| self.held_at(side, id).contains(key) && self.key_may_be_live(key))
    }
}

/// The smaller of two numbers.
pub open spec fn smaller(a: nat, b: nat) -> nat {
    if a <= b {
        a
    } else {
        b
    }
}

proof fn lemma_fold_count<'a, H: HomeEngine, F: ForeignEngine>(
    overlay: OverlayReader<'a, H, F>,
    rows: Seq<XEdge>,
    edges: Seq<Edge>,
    log: Seq<Seq<char>>,
    end: (Seq<Edge>, Seq<Seq<char>>),
)
    requires
        overlay.fold_ends(rows, edges, log, end),
        overlay.epochs_are_steady(),
        edges.len() <= overlay.budget().max_cross_nodes,
    ensures
        end.0.len() == smaller(
            overlay.budget().max_cross_nodes as nat,
            edges.len() + overlay.live_rows(rows).len(),
        ),
    decreases rows.len(),
{
    if rows.len() == 0 || edges.len() >= overlay.budget().max_cross_nodes {
    } else {
        let rest = rows.skip(1);
        let found = choose|found: Option<Seq<char>>| #[trigger]
            overlay.row_checked(rows[0], found) && match found {
                Some(line) => overlay.fold_ends(rest, edges, log.push(line), end),
                None => exists|edge: Edge| #[trigger]
                    rows[0].appears_as(edge) && overlay.fold_ends(
                        rest,
                        edges.push(edge),
                        log,
                        end,
                    ),
            };
        law_check_fails_closed(overlay, rows[0]);
        match found {
            Some(line) => {
                assert(!overlay.row_may_be_live(rows[0]));
                lemma_fold_count(overlay, rest, edges, log.push(line), end);
            },
            None => {
                let edge = choose|edge: Edge| #[trigger]
                    rows[0].appears_as(edge) && overlay.fold_ends(
                        rest,
                        edges.push(edge),
                        log,
                        end,
                    );
                assert(overlay.row_may_be_live(rows[0]));
                lemma_fold_count(overlay, rest, edges.push(edge), log, end);
            },
        }
    }
}

spec fn keys_of(rows: Seq<XEdge>) -> Seq<RowKey> {
    Seq::new(rows.len(), |i: int| rows[i].key())
}

proof fn lemma_held_keys<'a, H: HomeEngine, F: ForeignEngine>(
    overlay: OverlayReader<'a, H, F>,
    side: EndpointSide,
    id: Seq<char>,
    rows: Seq<XEdge>,
)
    requires
        overlay.crosses(),
        overlay.xedge().is_private(),
        overlay.side_reply(side, id, Ok::<Seq<XEdge>, Error>(rows)),
    ensures
        keys_of(rows).no_duplicates(),
        keys_of(rows).to_set() == overlay.held_at(side, id),
        overlay.held_at(side, id).finite(),
        overlay.held_at(side, id).len() == rows.len(),
        forall|i: int|
            0 <= i < rows.len() ==> overlay.held_at(side, id).contains((#[trigger] rows[i]).key())
                && overlay.xedge().rows()[rows[i].key()] == rows[i].cell(),
{
    let out = lemma_side_answer(overlay, side, id, Ok(rows));
    let found = as_rows(rows);
    let keys = keys_of(rows);
    let held = overlay.held_at(side, id);
    assert forall|i: int, j: int|
        0 <= i < keys.len() && 0 <= j < keys.len() && i != j implies keys[i] != keys[j] by {
        assert(found[i].0 == keys[i] && found[j].0 == keys[j]);
    }
    assert forall|i: int| 0 <= i < rows.len() implies held.contains((#[trigger] rows[i]).key())
        && overlay.xedge().rows()[rows[i].key()] == rows[i].cell() by {
        assert(found[i] == (rows[i].key(), rows[i].cell()));
        assert(wanted(found[i].0, side, overlay.home_engine(), id, overlay.kinds()));
    }
    assert forall|key: RowKey| #[trigger] keys.to_set().contains(key) <==> held.contains(key) by {
        if keys.contains(key) {
            let i = choose|i: int| 0 <= i < keys.len() && keys[i] == key;
            assert(rows[i].key() == key);
        }
        if held.contains(key) {
            assert(wanted(key, side, overlay.home_engine(), id, overlay.kinds()));
            let i = choose|i: int| 0 <= i < found.len() && (#[trigger] found[i]).0 == key;
            assert(keys[i] == key);
        }
    }
    assert(keys.to_set() =~= held);
    keys.unique_seq_to_set();
}

proof fn lemma_key_live_as_row<'a, H: HomeEngine, F: ForeignEngine>(
    overlay: OverlayReader<'a, H, F>,
    row: XEdge,
)
    ensures
        overlay.key_may_be_live(row.key()) == overlay.row_may_be_live(row),
{
    assert(has_key(row, row.key()));
    if overlay.key_may_be_live(row.key()) {
        let other = choose|other: XEdge|
            {
                &&& #[trigger] has_key(other, row.key())
                &&& overlay.may_be_live(other.source)
                &&& overlay.may_be_live(other.target)
            };
        lemma_same_stamp(other.source.epoch, row.source.epoch);
        lemma_same_stamp(other.target.epoch, row.target.epoch);
        lemma_end_live_as_same(overlay, other.source, row.source);
        lemma_end_live_as_same(overlay, other.target, row.target);
    }
}

proof fn lemma_same_stamp(a: u64, b: u64)
    ensures
        (a as i64) == (b as i64) ==> a == b,
{
    assert((a as i64) == (b as i64) ==> a == b) by (bit_vector);
}

proof fn lemma_live_keys<'a, H: HomeEngine, F: ForeignEngine>(
    overlay: OverlayReader<'a, H, F>,
    side: EndpointSide,
    id: Seq<char>,
    rows: Seq<XEdge>,
)
    requires
        overlay.crosses(),
        overlay.xedge().is_private(),
        overlay.side_reply(side, id, Ok::<Seq<XEdge>, Error>(rows)),
    ensures
        overlay.live_at(side, id).finite(),
        overlay.live_at(side, id).len() == overlay.live_rows(rows).len(),
{
    lemma_held_keys(overlay, side, id, rows);
    lemma_live_answer(overlay, side, id, rows);
    let live = overlay.live_rows(rows);
    let pairs = as_rows(live);
    let keys = keys_of(live);
    assert forall|i: int| 0 <= i < live.len() implies {
        &&& overlay.held_at(side, id).contains((#[trigger] live[i]).key())
        &&& overlay.xedge().rows()[live[i].key()] == live[i].cell()
        &&& overlay.key_may_be_live(live[i].key())
    } by {
        assert(pairs[i] == (live[i].key(), live[i].cell()));
        assert(pairs.contains(pairs[i]));
        let edge = choose|edge: XEdge| #[trigger]
            overlay.row_may_be_live(edge) && (edge.key(), edge.cell()) == pairs[i];
        lemma_key_live_as_row(overlay, edge);
    }
    assert forall|i: int, j: int|
        0 <= i < keys.len() && 0 <= j < keys.len() && i != j implies keys[i] != keys[j] by {
        assert(pairs[i] != pairs[j]);
        assert(overlay.xedge().rows()[live[i].key()] == live[i].cell());
        assert(overlay.xedge().rows()[live[j].key()] == live[j].cell());
    }
    assert forall|key: RowKey| #[trigger]
        keys.to_set().contains(key) <==> overlay.live_at(side, id).contains(key) by {
        if keys.contains(key) {
            let i = choose|i: int| 0 <= i < keys.len() && keys[i] == key;
            assert(live[i].key() == key);
        }
        if overlay.live_at(side, id).contains(key) {
            assert(keys_of(rows).to_set().contains(key));
            let m = choose|m: int| 0 <= m < rows.len() && keys_of(rows)[m] == key;
            assert(rows[m].key() == key);
            lemma_key_live_as_row(overlay, rows[m]);
            let pair = (key, rows[m].cell());
            assert(row_live(overlay, pair));
            assert(pairs.contains(pair));
            let i = choose|i: int| 0 <= i < pairs.len() && pairs[i] == pair;
            assert(keys[i] == key);
        }
    }
    assert(keys.to_set() =~= overlay.live_at(side, id));
    keys.unique_seq_to_set();
}

/// The budget cuts a listing and does not empty it. Over a private store and with engines that
/// answer steadily, there are as many cross-store edges at an id in a direction as there are rows
/// at that end with a relationship that may cross and both stamps live, or as many as the budget
/// allows, whichever is less. For both directions the two numbers are added first.
pub proof fn law_budget_cuts_and_does_not_empty<'a, H: HomeEngine, F: ForeignEngine>(
    overlay: OverlayReader<'a, H, F>,
    id: Seq<char>,
    dir: Direction,
    log: Seq<Seq<char>>,
    edges: Seq<Edge>,
    log_after: Seq<Seq<char>>,
)
    requires
        overlay.kinds().len() > 0,
        overlay.xedge().is_private(),
        overlay.epochs_are_steady(),
        overlay.cross_ends(id, dir, log, (Ok::<Seq<Edge>, Error>(edges), log_after)),
    ensures
        dir != Direction::Dependencies ==> overlay.live_at(EndpointSide::Target, id).finite(),
        dir != Direction::Dependents ==> overlay.live_at(EndpointSide::Source, id).finite(),
        edges.len() == smaller(
            overlay.budget().max_cross_nodes as nat,
            match dir {
                Direction::Dependents => overlay.live_at(EndpointSide::Target, id).len(),
                Direction::Dependencies => overlay.live_at(EndpointSide::Source, id).len(),
                Direction::Both => overlay.live_at(EndpointSide::Target, id).len()
                    + overlay.live_at(EndpointSide::Source, id).len(),
            },
        ),
{
    let rows = lemma_unfold_cross(overlay, id, dir, log, edges, log_after);
    lemma_fold_count(overlay, rows, Seq::empty(), log, (edges, log_after));
    match dir {
        Direction::Dependents => {
            lemma_live_keys(overlay, EndpointSide::Target, id, rows);
        },
        Direction::Dependencies => {
            lemma_live_keys(overlay, EndpointSide::Source, id, rows);
        },
        Direction::Both => {
            let (pointing, leaving) = lemma_unfold_both(overlay, id, rows);
            lemma_live_keys(overlay, EndpointSide::Target, id, pointing);
            lemma_live_keys(overlay, EndpointSide::Source, id, leaving);
            lemma_live_rows_together(overlay, pointing, leaving);
        },
    }
}

/// Whether a graph edge has the parts of the row with this key and these other columns.
pub open spec fn has_parts_of_row(edge: Edge, key: RowKey, cell: RowCell) -> bool {
    &&& edge.source.0@ == key.src_id
    &&& edge.target.0@ == key.tgt_id
    &&& edge.kind matches EdgeKind::Other(name) && name@ == key.rel
    &&& edge.confidence == confidence_of(cell.confidence)
    &&& edge.provenance matches Provenance::Synthesizer(name) && name@ == cell.provenance
    &&& edge.resolved_by@ == "xedge:"@ + key.rel
    &&& edge.origin is None
}

impl<'a, H: HomeEngine, F: ForeignEngine> OverlayReader<'a, H, F> {
    /// Whether a key may be dropped with this line.
    pub open spec fn drops_key(&self, key: RowKey, line: Seq<char>) -> bool {
        exists|row: XEdge| #[trigger] has_key(row, key) && self.drops(row, line)
    }

    /// Whether a listing in one direction is these rows of the private store: `shown` as its edges
    /// and `dropped` as the lines it logged, in order and none of them twice. If it has fewer edges
    /// than the budget allows, these are all the rows there are at that end.
    pub open spec fn listing_is(
        &self,
        side: EndpointSide,
        id: Seq<char>,
        log: Seq<Seq<char>>,
        edges: Seq<Edge>,
        log_after: Seq<Seq<char>>,
        shown: Seq<RowKey>,
        dropped: Seq<RowKey>,
    ) -> bool {
        &&& shown.len() == edges.len()
        &&& log_after.len() == log.len() + dropped.len()
        &&& log.is_prefix_of(log_after)
        &&& (shown + dropped).no_duplicates()
        &&& forall|i: int|
            0 <= i < shown.len() ==> {
                &&& self.live_at(side, id).contains(#[trigger] shown[i])
                &&& has_parts_of_row(edges[i], shown[i], self.xedge().rows()[shown[i]])
            }
        &&& forall|i: int|
            0 <= i < dropped.len() ==> {
                &&& self.held_at(side, id).contains(#[trigger] dropped[i])
                &&& self.drops_key(dropped[i], log_after[log.len() + i])
            }
        &&& edges.len() < self.budget().max_cross_nodes ==> (shown + dropped).to_set()
            == self.held_at(side, id)
    }
}

/// A listing in one direction shows no row twice, and leaves none out without a word. Over a
/// private store, its edges are rows at that end whose stamps may be live, with their parts; its
/// log lines are rows at that end that were dropped, each with the line that blames one of its
/// ends; no row is both, or either twice; and if the budget was not used up, that is every row
/// there.
pub proof fn law_listing_shows_each_row_once<'a, H: HomeEngine, F: ForeignEngine>(
    overlay: OverlayReader<'a, H, F>,
    id: Seq<char>,
    side: EndpointSide,
    log: Seq<Seq<char>>,
    edges: Seq<Edge>,
    log_after: Seq<Seq<char>>,
)
    requires
        overlay.kinds().len() > 0,
        overlay.xedge().is_private(),
        overlay.cross_ends(
            id,
            match side {
                EndpointSide::Target => Direction::Dependents,
                EndpointSide::Source => Direction::Dependencies,
            },
            log,
            (Ok::<Seq<Edge>, Error>(edges), log_after),
        ),
    ensures
        exists|shown: Seq<RowKey>, dropped: Seq<RowKey>| #[trigger]
            overlay.listing_is(side, id, log, edges, log_after, shown, dropped),
{
    let dir = match side {
        EndpointSide::Target => Direction::Dependents,
        EndpointSide::Source => Direction::Dependencies,
    };
    let end = (edges, log_after);
    let rows = lemma_unfold_cross(overlay, id, dir, log, edges, log_after);
    let (kept, gone) = lemma_fold_accounts(overlay, rows, Seq::empty(), log, end);
    lemma_held_keys(overlay, side, id, rows);
    let keys = keys_of(rows);
    let shown = Seq::new(kept.len(), |i: int| rows[kept[i]].key());
    let dropped = Seq::new(gone.len(), |i: int| rows[gone[i]].key());
    let both = shown + dropped;
    let at = kept + gone;
    assert forall|i: int, j: int|
        0 <= i < both.len() && 0 <= j < both.len() && i != j implies both[i] != both[j] by {
        assert(both[i] == keys[at[i]] && both[j] == keys[at[j]]);
        assert(at[i] != at[j]) by {
            if i < kept.len() && j < kept.len() {
                assert(kept[i] != kept[j]);
            } else if i < kept.len() {
                assert(kept[i] != gone[j - kept.len()]);
            } else if j < kept.len() {
                assert(kept[j] != gone[i - kept.len()]);
            } else {
                assert(gone[i - kept.len()] != gone[j - kept.len()]);
            }
        }
    }
    assert forall|i: int| 0 <= i < shown.len() implies {
        &&& overlay.live_at(side, id).contains(#[trigger] shown[i])
        &&& has_parts_of_row(edges[i], shown[i], overlay.xedge().rows()[shown[i]])
    } by {
        let row = rows[kept[i]];
        assert(overlay.keeps(row, end.0[0 + i]));
        assert(overlay.held_at(side, id).contains(row.key()));
        lemma_key_live_as_row(overlay, row);
    }
    assert forall|i: int| 0 <= i < dropped.len() implies {
        &&& overlay.held_at(side, id).contains(#[trigger] dropped[i])
        &&& overlay.drops_key(dropped[i], log_after[log.len() + i])
    } by {
        let row = rows[gone[i]];
        assert(overlay.drops(row, end.1[log.len() + i]));
        assert(overlay.held_at(side, id).contains(row.key()));
        assert(has_key(row, dropped[i]));
    }
    if edges.len() < overlay.budget().max_cross_nodes {
        assert(both.to_set().subset_of(overlay.held_at(side, id))) by {
            assert forall|key: RowKey| both.to_set().contains(key) implies overlay.held_at(
                side,
                id,
            ).contains(key) by {
                let i = choose|i: int| 0 <= i < both.len() && both[i] == key;
                if i < shown.len() {
                    assert(shown[i] == key);
                } else {
                    assert(dropped[i - shown.len()] == key);
                }
            }
        }
        both.unique_seq_to_set();
        vstd::set_lib::lemma_subset_equality(both.to_set(), overlay.held_at(side, id));
    }
    assert(overlay.listing_is(side, id, log, edges, log_after, shown, dropped));
}

} // verus!
