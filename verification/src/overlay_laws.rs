//! What holds of the overlay as a whole: what may cross, what never does, and what stays as the
//! home engine has it.

use crate::engine::{ForeignEngine, HomeEngine};
use crate::error::Error;
use crate::graph::{Direction, Edge, Node, Subgraph, SubgraphView, SymbolId};
use crate::overlay::{contents, fault, subgraph_of, OverlayReader};
use crate::sql::{wanted, EndpointSide};
use crate::store::{as_rows, XedgeStore};
use crate::store_laws::law_row_is_the_edge;
use crate::xedge::{Endpoint, XEdge, ABOUT, ESTATE_ENGINE, MEMORY_ENGINE, MEMORY_EPOCH};
use vstd::prelude::*;
use wicked_estate_core::TraversalSpec;

verus! {

impl<'a, H: HomeEngine, F: ForeignEngine> OverlayReader<'a, H, F> {
    /// Whether the stamp of an end may be found to be live.
    pub open spec fn may_be_live(&self, end: Endpoint) -> bool {
        exists|id: SymbolId|
            id@ == end.stable_id@ && #[trigger] self.epoch_reply(
                end.engine@,
                id,
                Ok::<Option<u64>, Error>(Some(end.epoch)),
            )
    }

    /// Whether the stamp of an end is live: it may be found to be, and is whenever it is asked for.
    pub open spec fn always_live(&self, end: Endpoint) -> bool {
        &&& self.may_be_live(end)
        &&& forall|id: SymbolId, reply: Result<Option<u64>, Error>|
            id@ == end.stable_id@ && #[trigger] self.epoch_reply(end.engine@, id, reply)
                ==> reply == Ok::<Option<u64>, Error>(Some(end.epoch))
    }

    /// Whether a stamp that may be live is live whenever it is asked for.
    pub open spec fn epochs_are_steady(&self) -> bool {
        forall|end: Endpoint| #[trigger] self.may_be_live(end) ==> self.always_live(end)
    }

    /// Whether both stamps of a cross-edge may be found to be live.
    pub open spec fn row_may_be_live(&self, row: XEdge) -> bool {
        self.may_be_live(row.source) && self.may_be_live(row.target)
    }

    /// Whether both stamps of a cross-edge are live.
    pub open spec fn row_is_live(&self, row: XEdge) -> bool {
        self.always_live(row.source) && self.always_live(row.target)
    }

    /// Those of the rows whose stamps may be live, in their order.
    pub open spec fn live_rows(&self, rows: Seq<XEdge>) -> Seq<XEdge>
        decreases rows.len(),
    {
        if rows.len() == 0 {
            Seq::empty()
        } else if self.row_may_be_live(rows[0]) {
            seq![rows[0]] + self.live_rows(rows.skip(1))
        } else {
            self.live_rows(rows.skip(1))
        }
    }

    /// Whether the private store holds this cross-edge, with an armed relationship, at a home id in
    /// a direction.
    pub open spec fn holds_at(&self, row: XEdge, dir: Direction, id: Seq<char>) -> bool {
        &&& self.xedge().rows().contains_key(row.key())
        &&& self.xedge().rows()[row.key()] == row.cell()
        &&& {
            ||| dir != Direction::Dependencies && wanted(
                row.key(),
                EndpointSide::Target,
                self.home_engine(),
                id,
                self.kinds(),
            )
            ||| dir != Direction::Dependents && wanted(
                row.key(),
                EndpointSide::Source,
                self.home_engine(),
                id,
                self.kinds(),
            )
        }
    }

    /// Whether `edge` may be how this cross-edge appears at a home id in a direction: both of its
    /// stamps may be live, and the store, if it is private, holds it there.
    pub open spec fn comes_from(
        &self,
        edge: Edge,
        row: XEdge,
        dir: Direction,
        id: Seq<char>,
    ) -> bool {
        &&& row.appears_as(edge)
        &&& self.row_may_be_live(row)
        &&& self.xedge().is_private() ==> self.holds_at(row, dir, id)
    }

    /// Whether `edge` may be how some cross-edge appears at a home id in a direction.
    pub open spec fn is_accounted_for(&self, edge: Edge, dir: Direction, id: Seq<char>) -> bool {
        exists|row: XEdge| #[trigger] self.comes_from(edge, row, dir, id)
    }

    /// Whether the live cross-edges at a home id in a direction fit into the budget. A stale one
    /// takes no room.
    pub open spec fn has_room(&self, dir: Direction, id: Seq<char>) -> bool {
        forall|rows: Seq<XEdge>| #[trigger]
            self.rows_reply(id, dir, Ok::<Seq<XEdge>, Error>(rows)) ==> self.live_rows(rows).len()
                <= self.budget().max_cross_nodes
    }

    /// Whether the live cross-edges at a home id in a direction leave some of the budget over.
    pub open spec fn has_room_to_spare(&self, dir: Direction, id: Seq<char>) -> bool {
        forall|rows: Seq<XEdge>| #[trigger]
            self.rows_reply(id, dir, Ok::<Seq<XEdge>, Error>(rows)) ==> self.live_rows(rows).len()
                < self.budget().max_cross_nodes
    }
}

/// With no relationship armed the overlay is the home engine: `neighbors`, `traverse_multi`,
/// `get_node` and `symbol_epoch` hand on what the home engine replied, and nothing is logged.
pub proof fn law_cross_off_is_home_only<'a, H: HomeEngine, F: ForeignEngine>(
    overlay: OverlayReader<'a, H, F>,
    id: SymbolId,
    dir: Direction,
    starts: &[SymbolId],
    spec: &TraversalSpec,
    log: Seq<Seq<char>>,
)
    requires
        !overlay.crosses(),
    ensures
        forall|end: (Result<Seq<Edge>, Error>, Seq<Seq<char>>)| #[trigger]
            overlay.neighbors_ends(id, dir, log, end) ==> end.1 == log && exists|
                home: Result<Vec<Edge>, Error>,
            | #[trigger]
                call_ensures(H::neighbors, (overlay.home(), &id, dir), home) && end.0 == contents(
                    home,
                ),
        forall|end: (Result<SubgraphView, Error>, Seq<Seq<char>>)| #[trigger]
            overlay.traverse_ends(starts, spec, log, end) ==> end.1 == log && exists|
                home: Result<Subgraph, Error>,
            | #[trigger]
                call_ensures(H::traverse_multi, (overlay.home(), starts, spec), home) && end.0
                    == subgraph_of(home),
        forall|reply: Result<Option<Node>, Error>| #[trigger]
            overlay.node_reply(id, reply) ==> call_ensures(
                H::get_node,
                (overlay.home(), &id),
                reply,
            ),
        forall|reply: Result<Option<u64>, Error>| #[trigger]
            overlay.symbol_epoch_reply(id, reply) ==> call_ensures(
                H::symbol_epoch,
                (overlay.home(), &id),
                reply,
            ),
{
    assert forall|end: (Result<Seq<Edge>, Error>, Seq<Seq<char>>)| #[trigger]
        overlay.neighbors_ends(id, dir, log, end) implies end.1 == log && exists|
        home: Result<Vec<Edge>, Error>,
    | #[trigger]
        call_ensures(H::neighbors, (overlay.home(), &id, dir), home) && end.0 == contents(home) by {
        let home = choose|home: Result<Vec<Edge>, Error>| #[trigger]
            call_ensures(H::neighbors, (overlay.home(), &id, dir), home) && match home {
                Err(e) => end == (Err::<Seq<Edge>, Error>(e), log),
                Ok(edges) => exists|cross: Result<Seq<Edge>, Error>| #[trigger]
                    overlay.cross_ends(id@, dir, log, (cross, end.1)) && match cross {
                        Err(_) => end.0 == cross,
                        Ok(more) => end.0 == Ok::<Seq<Edge>, Error>(edges@ + more),
                    },
            };
        if home is Ok {
            let edges = home->Ok_0;
            assert(edges@ + Seq::<Edge>::empty() =~= edges@);
        }
        assert(end.0 == contents(home));
    }
}

/// An end outside the estate engine is live exactly if its stamp is zero, whatever the engines say.
pub proof fn law_only_estate_ids_go_stale<'a, H: HomeEngine, F: ForeignEngine>(
    overlay: OverlayReader<'a, H, F>,
    end: Endpoint,
)
    requires
        end.engine@ != ESTATE_ENGINE@,
    ensures
        overlay.may_be_live(end) <==> end.epoch == MEMORY_EPOCH,
        overlay.always_live(end) <==> end.epoch == MEMORY_EPOCH,
{
    let reply = Ok::<Option<u64>, Error>(Some(MEMORY_EPOCH));
    assert(overlay.epoch_reply(end.engine@, SymbolId(end.stable_id), reply));
}

/// A cross-edge passes the check only if both of its stamps may be live, and it always passes if
/// both are always live.
pub proof fn law_check_fails_closed<'a, H: HomeEngine, F: ForeignEngine>(
    overlay: OverlayReader<'a, H, F>,
    row: XEdge,
)
    ensures
        overlay.row_checked(row, None) ==> overlay.row_may_be_live(row),
        overlay.row_is_live(row) ==> forall|found: Option<Seq<char>>| #[trigger]
            overlay.row_checked(row, found) ==> found is None,
{
    assert forall|end: Endpoint| #[trigger] overlay.end_checked(end, None) implies
        overlay.may_be_live(end) by {
        let live = choose|live: Result<Option<u64>, Error>| #[trigger]
            overlay.epoch_reply(end.engine@, SymbolId(end.stable_id), live) && None::<Seq<char>>
                == fault(end, live);
        assert(live == Ok::<Option<u64>, Error>(Some(end.epoch)));
    }
    assert forall|end: Endpoint, found: Option<Seq<char>>| #[trigger]
        overlay.end_checked(end, found) && overlay.always_live(end) implies found is None by {}
}

pub(crate) proof fn lemma_fold_sound<'a, H: HomeEngine, F: ForeignEngine>(
    overlay: OverlayReader<'a, H, F>,
    rows: Seq<XEdge>,
    edges: Seq<Edge>,
    log: Seq<Seq<char>>,
    end: (Seq<Edge>, Seq<Seq<char>>),
)
    requires
        overlay.fold_ends(rows, edges, log, end),
    ensures
        edges.is_prefix_of(end.0),
        log.is_prefix_of(end.1),
        edges.len() <= overlay.budget().max_cross_nodes ==> end.0.len()
            <= overlay.budget().max_cross_nodes,
        (end.0.len() - edges.len()) + (end.1.len() - log.len()) <= rows.len(),
        forall|i: int|
            edges.len() <= i < end.0.len() ==> exists|j: int|
                0 <= j < rows.len() && (#[trigger] rows[j]).appears_as(#[trigger] end.0[i])
                    && overlay.row_checked(rows[j], None),
        forall|i: int|
            log.len() <= i < end.1.len() ==> exists|j: int|
                0 <= j < rows.len() && overlay.row_checked(
                    #[trigger] rows[j],
                    Some(#[trigger] end.1[i]),
                ),
    decreases rows.len(),
{
    if rows.len() == 0 || edges.len() >= overlay.budget().max_cross_nodes {
    } else {
        let rest = rows.skip(1);
        let found = choose|found: Option<Seq<char>>| #[trigger]
            overlay.row_checked(rows[0], found) && match found {
                Some(line) => overlay.fold_ends(rest, edges, log.push(line), end),
                None => exists|edge: Edge| #[trigger]
                    rows[0].appears_as(edge) && overlay.fold_ends(
                        rest,
                        edges.push(edge),
                        log,
                        end,
                    ),
            };
        match found {
            Some(line) => {
                lemma_fold_sound(overlay, rest, edges, log.push(line), end);
                assert forall|i: int| edges.len() <= i < end.0.len() implies exists|j: int|
                    0 <= j < rows.len() && (#[trigger] rows[j]).appears_as(#[trigger] end.0[i])
                        && overlay.row_checked(rows[j], None) by {
                    let j = choose|j: int|
                        0 <= j < rest.len() && (#[trigger] rest[j]).appears_as(end.0[i])
                            && overlay.row_checked(rest[j], None);
                    assert(rows[j + 1] == rest[j]);
                }
                assert(end.1[log.len() as int] == log.push(line)[log.len() as int]);
                assert forall|i: int| log.len() <= i < end.1.len() implies exists|j: int|
                    0 <= j < rows.len() && overlay.row_checked(
                        #[trigger] rows[j],
                        Some(#[trigger] end.1[i]),
                    ) by {
                    if i == log.len() {
                        assert(overlay.row_checked(rows[0], Some(end.1[i])));
                    } else {
                        let j = choose|j: int|
                            0 <= j < rest.len() && overlay.row_checked(
                                #[trigger] rest[j],
                                Some(end.1[i]),
                            );
                        assert(rows[j + 1] == rest[j]);
                    }
                }
                assert(log.is_prefix_of(end.1)) by {
                    assert forall|i: int| 0 <= i < log.len() implies log[i] == end.1[i] by {
                        assert(log.push(line)[i] == end.1[i]);
                    }
                    assert(log =~= end.1.subrange(0, log.len() as int));
                }
            },
            None => {
                let edge = choose|edge: Edge| #[trigger]
                    rows[0].appears_as(edge) && overlay.fold_ends(
                        rest,
                        edges.push(edge),
                        log,
                        end,
                    );
                lemma_fold_sound(overlay, rest, edges.push(edge), log, end);
                assert(end.0[edges.len() as int] == edges.push(edge)[edges.len() as int]);
                assert forall|i: int| edges.len() <= i < end.0.len() implies exists|j: int|
                    0 <= j < rows.len() && (#[trigger] rows[j]).appears_as(#[trigger] end.0[i])
                        && overlay.row_checked(rows[j], None) by {
                    if i == edges.len() {
                        assert(rows[0].appears_as(end.0[i]));
                    } else {
                        let j = choose|j: int|
                            0 <= j < rest.len() && (#[trigger] rest[j]).appears_as(end.0[i])
                                && overlay.row_checked(rest[j], None);
                        assert(rows[j + 1] == rest[j]);
                    }
                }
                assert forall|i: int| log.len() <= i < end.1.len() implies exists|j: int|
                    0 <= j < rows.len() && overlay.row_checked(
                        #[trigger] rows[j],
                        Some(#[trigger] end.1[i]),
                    ) by {
                    let j = choose|j: int|
                        0 <= j < rest.len() && overlay.row_checked(
                            #[trigger] rest[j],
                            Some(end.1[i]),
                        );
                    assert(rows[j + 1] == rest[j]);
                }
                assert(edges.is_prefix_of(end.0)) by {
                    assert forall|i: int| 0 <= i < edges.len() implies edges[i] == end.0[i] by {
                        assert(edges.push(edge)[i] == end.0[i]);
                    }
                    assert(edges =~= end.0.subrange(0, edges.len() as int));
                }
            },
        }
    }
}

pub(crate) proof fn lemma_live_rows_member<'a, H: HomeEngine, F: ForeignEngine>(
    overlay: OverlayReader<'a, H, F>,
    rows: Seq<XEdge>,
    j: int,
)
    requires
        0 <= j < rows.len(),
        overlay.row_may_be_live(rows[j]),
    ensures
        overlay.live_rows(rows).contains(rows[j]),
    decreases rows.len(),
{
    let rest = rows.skip(1);
    let live = overlay.live_rows(rows);
    if j > 0 {
        assert(rest[j - 1] == rows[j]);
        lemma_live_rows_member(overlay, rest, j - 1);
        let k = choose|k: int|
            0 <= k < overlay.live_rows(rest).len() && overlay.live_rows(rest)[k] == rows[j];
        if overlay.row_may_be_live(rows[0]) {
            assert(live[k + 1] == rows[j]);
        } else {
            assert(live[k] == rows[j]);
        }
    } else {
        assert(live[0] == rows[0]);
    }
}

proof fn lemma_fold_complete<'a, H: HomeEngine, F: ForeignEngine>(
    overlay: OverlayReader<'a, H, F>,
    rows: Seq<XEdge>,
    edges: Seq<Edge>,
    log: Seq<Seq<char>>,
    end: (Seq<Edge>, Seq<Seq<char>>),
    j: int,
)
    requires
        overlay.fold_ends(rows, edges, log, end),
        edges.len() + overlay.live_rows(rows).len() <= overlay.budget().max_cross_nodes,
        0 <= j < rows.len(),
        overlay.row_is_live(rows[j]),
    ensures
        exists|i: int| edges.len() <= i < end.0.len() && rows[j].appears_as(#[trigger] end.0[i]),
    decreases rows.len(),
{
    let rest = rows.skip(1);
    law_check_fails_closed(overlay, rows[0]);
    lemma_live_rows_member(overlay, rows, j);
    assert(overlay.live_rows(rows).len() > 0);
    let found = choose|found: Option<Seq<char>>| #[trigger]
        overlay.row_checked(rows[0], found) && match found {
            Some(line) => overlay.fold_ends(rest, edges, log.push(line), end),
            None => exists|edge: Edge| #[trigger]
                rows[0].appears_as(edge) && overlay.fold_ends(rest, edges.push(edge), log, end),
        };
    if j > 0 {
        assert(rest[j - 1] == rows[j]);
    }
    match found {
        Some(line) => {
            lemma_fold_complete(overlay, rest, edges, log.push(line), end, j - 1);
        },
        None => {
            let edge = choose|edge: Edge| #[trigger]
                rows[0].appears_as(edge) && overlay.fold_ends(rest, edges.push(edge), log, end);
            lemma_fold_sound(overlay, rest, edges.push(edge), log, end);
            assert(end.0[edges.len() as int] == edges.push(edge)[edges.len() as int]);
            if j == 0 {
                assert(rows[0].appears_as(end.0[edges.len() as int]));
            } else {
                lemma_fold_complete(overlay, rest, edges.push(edge), log, end, j - 1);
            }
        },
    }
}

proof fn lemma_side<'a, H: HomeEngine, F: ForeignEngine>(
    overlay: OverlayReader<'a, H, F>,
    side: EndpointSide,
    id: Seq<char>,
    rows: Seq<XEdge>,
)
    requires
        overlay.xedge().is_private(),
        overlay.side_reply(side, id, Ok::<Seq<XEdge>, Error>(rows)),
    ensures
        forall|j: int|
            0 <= j < rows.len() ==> {
                &&& overlay.xedge().rows().contains_key((#[trigger] rows[j]).key())
                &&& overlay.xedge().rows()[rows[j].key()] == rows[j].cell()
                &&& wanted(rows[j].key(), side, overlay.home_engine(), id, overlay.kinds())
            },
        forall|row: XEdge|
            {
                &&& overlay.xedge().rows().contains_key(#[trigger] row.key())
                &&& overlay.xedge().rows()[row.key()] == row.cell()
                &&& wanted(row.key(), side, overlay.home_engine(), id, overlay.kinds())
            } ==> exists|j: int| 0 <= j < rows.len() && row.same_as(#[trigger] rows[j]),
{
    let reply = choose|reply: Result<Vec<XEdge>, Error>| #[trigger]
        overlay.xedge().answers(side, overlay.home_engine(), id, overlay.kinds(), reply) && Ok::<
            Seq<XEdge>,
            Error,
        >(rows) == contents(reply);
    let found = as_rows(rows);
    assert forall|j: int| 0 <= j < rows.len() implies {
        &&& overlay.xedge().rows().contains_key((#[trigger] rows[j]).key())
        &&& overlay.xedge().rows()[rows[j].key()] == rows[j].cell()
        &&& wanted(rows[j].key(), side, overlay.home_engine(), id, overlay.kinds())
    } by {
        assert(found[j] == (rows[j].key(), rows[j].cell()));
    }
    assert forall|row: XEdge|
        {
            &&& overlay.xedge().rows().contains_key(#[trigger] row.key())
            &&& overlay.xedge().rows()[row.key()] == row.cell()
            &&& wanted(row.key(), side, overlay.home_engine(), id, overlay.kinds())
        } implies exists|j: int| 0 <= j < rows.len() && row.same_as(#[trigger] rows[j]) by {
        let j = choose|j: int| 0 <= j < found.len() && (#[trigger] found[j]).0 == row.key();
        assert(found[j] == (rows[j].key(), rows[j].cell()));
        law_row_is_the_edge(row, rows[j]);
        assert(row.same_as(rows[j]));
    }
}

/// The rows that point at an id and those that leave it, of an answer for both directions.
pub(crate) proof fn lemma_unfold_both<'a, H: HomeEngine, F: ForeignEngine>(
    overlay: OverlayReader<'a, H, F>,
    id: Seq<char>,
    rows: Seq<XEdge>,
) -> (sides: (Seq<XEdge>, Seq<XEdge>))
    requires
        overlay.rows_reply(id, Direction::Both, Ok::<Seq<XEdge>, Error>(rows)),
    ensures
        overlay.side_reply(EndpointSide::Target, id, Ok::<Seq<XEdge>, Error>(sides.0)),
        overlay.side_reply(EndpointSide::Source, id, Ok::<Seq<XEdge>, Error>(sides.1)),
        rows == sides.0 + sides.1,
{
    let all = Ok::<Seq<XEdge>, Error>(rows);
    let first = choose|first: Result<Seq<XEdge>, Error>| #[trigger]
        overlay.side_reply(EndpointSide::Target, id, first) && match first {
            Err(_) => all == first,
            Ok(pointing) => exists|second: Result<Seq<XEdge>, Error>| #[trigger]
                overlay.side_reply(EndpointSide::Source, id, second) && match second {
                    Err(_) => all == second,
                    Ok(leaving) => all == Ok::<Seq<XEdge>, Error>(pointing + leaving),
                },
        };
    let pointing = first->Ok_0;
    let second = choose|second: Result<Seq<XEdge>, Error>| #[trigger]
        overlay.side_reply(EndpointSide::Source, id, second) && match second {
            Err(_) => all == second,
            Ok(leaving) => all == Ok::<Seq<XEdge>, Error>(pointing + leaving),
        };
    let leaving = second->Ok_0;
    (pointing, leaving)
}

proof fn lemma_rows<'a, H: HomeEngine, F: ForeignEngine>(
    overlay: OverlayReader<'a, H, F>,
    dir: Direction,
    id: Seq<char>,
    rows: Seq<XEdge>,
)
    requires
        overlay.xedge().is_private(),
        overlay.rows_reply(id, dir, Ok::<Seq<XEdge>, Error>(rows)),
    ensures
        forall|j: int| 0 <= j < rows.len() ==> overlay.holds_at(#[trigger] rows[j], dir, id),
        forall|row: XEdge| #[trigger]
            overlay.holds_at(row, dir, id) ==> exists|j: int|
                0 <= j < rows.len() && row.same_as(#[trigger] rows[j]),
{
    match dir {
        Direction::Dependents => {
            lemma_side(overlay, EndpointSide::Target, id, rows);
        },
        Direction::Dependencies => {
            lemma_side(overlay, EndpointSide::Source, id, rows);
        },
        Direction::Both => {
            let (pointing, leaving) = lemma_unfold_both(overlay, id, rows);
            lemma_side(overlay, EndpointSide::Target, id, pointing);
            lemma_side(overlay, EndpointSide::Source, id, leaving);
            assert forall|j: int| 0 <= j < rows.len() implies overlay.holds_at(
                #[trigger] rows[j],
                dir,
                id,
            ) by {
                if j < pointing.len() {
                    assert(rows[j] == pointing[j]);
                } else {
                    assert(rows[j] == leaving[j - pointing.len()]);
                }
            }
            assert forall|row: XEdge| #[trigger] overlay.holds_at(row, dir, id) implies exists|
                j: int,
            | 0 <= j < rows.len() && row.same_as(#[trigger] rows[j]) by {
                if wanted(
                    row.key(),
                    EndpointSide::Target,
                    overlay.home_engine(),
                    id,
                    overlay.kinds(),
                ) {
                    let j = choose|j: int|
                        0 <= j < pointing.len() && row.same_as(#[trigger] pointing[j]);
                    assert(rows[j] == pointing[j]);
                } else {
                    let j = choose|j: int|
                        0 <= j < leaving.len() && row.same_as(#[trigger] leaving[j]);
                    assert(rows[pointing.len() + j] == leaving[j]);
                }
            }
        },
    }
}

pub(crate) proof fn lemma_end_live_as_same<'a, H: HomeEngine, F: ForeignEngine>(
    overlay: OverlayReader<'a, H, F>,
    a: Endpoint,
    b: Endpoint,
)
    requires
        a.engine@ == b.engine@,
        a.stable_id@ == b.stable_id@,
        a.epoch == b.epoch,
    ensures
        overlay.may_be_live(a) == overlay.may_be_live(b),
        overlay.always_live(a) == overlay.always_live(b),
{
    assert forall|x: Endpoint, y: Endpoint|
        x.engine@ == y.engine@ && x.stable_id@ == y.stable_id@ && x.epoch == y.epoch
            && #[trigger] overlay.always_live(x) && #[trigger] overlay.may_be_live(y) implies
        overlay.always_live(y) by {
        assert forall|id: SymbolId, reply: Result<Option<u64>, Error>|
            id@ == y.stable_id@ && #[trigger] overlay.epoch_reply(y.engine@, id, reply) implies
            reply == Ok::<Option<u64>, Error>(Some(y.epoch)) by {
            assert(overlay.epoch_reply(x.engine@, id, reply));
        }
    }
}

pub(crate) proof fn lemma_live_as_same<'a, H: HomeEngine, F: ForeignEngine>(
    overlay: OverlayReader<'a, H, F>,
    a: XEdge,
    b: XEdge,
)
    requires
        a.same_as(b),
    ensures
        overlay.row_may_be_live(a) == overlay.row_may_be_live(b),
        overlay.row_is_live(a) == overlay.row_is_live(b),
{
    lemma_end_live_as_same(overlay, a.source, b.source);
    lemma_end_live_as_same(overlay, a.target, b.target);
}

/// What crosses is bounded, live and on record. Every cross-store edge at a home id is how some
/// cross-edge appears whose stamps may both be live, and which the store, if it is private, holds
/// at that id with an armed relationship. There are no more of them than the budget allows. The log
/// only grows.
pub proof fn law_cross_edges_are_live_and_on_record<'a, H: HomeEngine, F: ForeignEngine>(
    overlay: OverlayReader<'a, H, F>,
    id: Seq<char>,
    dir: Direction,
    log: Seq<Seq<char>>,
    edges: Seq<Edge>,
    log_after: Seq<Seq<char>>,
)
    requires
        overlay.cross_ends(id, dir, log, (Ok::<Seq<Edge>, Error>(edges), log_after)),
    ensures
        edges.len() <= overlay.budget().max_cross_nodes,
        log.is_prefix_of(log_after),
        forall|i: int|
            0 <= i < edges.len() ==> #[trigger] overlay.is_accounted_for(edges[i], dir, id),
{
    if overlay.crosses() {
        let rows = lemma_unfold_cross(overlay, id, dir, log, edges, log_after);
        lemma_fold_sound(overlay, rows, Seq::empty(), log, (edges, log_after));
        assert forall|i: int| 0 <= i < edges.len() implies #[trigger] overlay.is_accounted_for(
            edges[i],
            dir,
            id,
        ) by {
            let j = choose|j: int|
                0 <= j < rows.len() && (#[trigger] rows[j]).appears_as(edges[i])
                    && overlay.row_checked(rows[j], None);
            law_check_fails_closed(overlay, rows[j]);
            if overlay.xedge().is_private() {
                lemma_rows(overlay, dir, id, rows);
            }
            assert(overlay.comes_from(edges[i], rows[j], dir, id));
        }
    } else {
        assert(log.is_prefix_of(log));
    }
}

/// A stale cross-edge never answers. If one of its stamps cannot be live, because the id is not
/// live, is live with another epoch, or cannot be asked for, then no cross-store edge at any home
/// id comes from it. Where the private store holds nothing else at an id, nothing crosses there.
pub proof fn law_stale_edge_never_crosses<'a, H: HomeEngine, F: ForeignEngine>(
    overlay: OverlayReader<'a, H, F>,
    stale: XEdge,
    id: Seq<char>,
    dir: Direction,
    log: Seq<Seq<char>>,
    edges: Seq<Edge>,
    log_after: Seq<Seq<char>>,
)
    requires
        !overlay.row_may_be_live(stale),
        overlay.cross_ends(id, dir, log, (Ok::<Seq<Edge>, Error>(edges), log_after)),
    ensures
        forall|i: int, row: XEdge|
            0 <= i < edges.len() && #[trigger] overlay.comes_from(edges[i], row, dir, id)
                ==> !row.same_as(stale),
        overlay.xedge().is_private() && (forall|row: XEdge| #[trigger]
            overlay.holds_at(row, dir, id) ==> row.same_as(stale)) ==> edges.len() == 0,
{
    law_cross_edges_are_live_and_on_record(overlay, id, dir, log, edges, log_after);
    if overlay.xedge().is_private() && (forall|row: XEdge| #[trigger]
        overlay.holds_at(row, dir, id) ==> row.same_as(stale)) && edges.len() > 0 {
        assert(overlay.is_accounted_for(edges[0], dir, id));
        let row = choose|row: XEdge| #[trigger] overlay.comes_from(edges[0], row, dir, id);
        assert(overlay.holds_at(row, dir, id));
    }
}

/// A live cross-edge always answers. If the private store holds it at a home id, both of its stamps
/// are live and the budget has room, then it is among the neighbors of that id.
pub proof fn law_live_edge_is_a_neighbor<'a, H: HomeEngine, F: ForeignEngine>(
    overlay: OverlayReader<'a, H, F>,
    row: XEdge,
    id: SymbolId,
    dir: Direction,
    log: Seq<Seq<char>>,
    edges: Seq<Edge>,
    log_after: Seq<Seq<char>>,
)
    requires
        overlay.crosses(),
        overlay.xedge().is_private(),
        overlay.holds_at(row, dir, id@),
        overlay.row_is_live(row),
        overlay.has_room(dir, id@),
        overlay.neighbors_ends(id, dir, log, (Ok::<Seq<Edge>, Error>(edges), log_after)),
    ensures
        exists|i: int| 0 <= i < edges.len() && row.appears_as(#[trigger] edges[i]),
{
    let (own, more) = lemma_unfold_neighbors(overlay, id, dir, log, edges, log_after);
    lemma_live_edge_crosses(overlay, row, id@, dir, log, more, log_after);
    let i = choose|i: int| 0 <= i < more.len() && row.appears_as(#[trigger] more[i]);
    assert(edges[own@.len() + i] == more[i]);
}

pub(crate) proof fn lemma_live_edge_crosses<'a, H: HomeEngine, F: ForeignEngine>(
    overlay: OverlayReader<'a, H, F>,
    row: XEdge,
    id: Seq<char>,
    dir: Direction,
    log: Seq<Seq<char>>,
    edges: Seq<Edge>,
    log_after: Seq<Seq<char>>,
)
    requires
        overlay.crosses(),
        overlay.xedge().is_private(),
        overlay.holds_at(row, dir, id),
        overlay.row_is_live(row),
        overlay.has_room(dir, id),
        overlay.cross_ends(id, dir, log, (Ok::<Seq<Edge>, Error>(edges), log_after)),
    ensures
        exists|i: int| 0 <= i < edges.len() && row.appears_as(#[trigger] edges[i]),
{
    let rows = lemma_unfold_cross(overlay, id, dir, log, edges, log_after);
    lemma_rows(overlay, dir, id, rows);
    let j = choose|j: int| 0 <= j < rows.len() && row.same_as(#[trigger] rows[j]);
    lemma_live_as_same(overlay, row, rows[j]);
    lemma_fold_complete(overlay, rows, Seq::empty(), log, (edges, log_after), j);
    let i = choose|i: int| 0 <= i < edges.len() && rows[j].appears_as(#[trigger] edges[i]);
    assert(row.appears_as(edges[i]));
}

/// The neighbors of an id are the home engine's own, as it gave them, and then the cross-store
/// ones: each live and on record, and no more than the budget allows.
pub proof fn law_neighbors_are_home_then_cross<'a, H: HomeEngine, F: ForeignEngine>(
    overlay: OverlayReader<'a, H, F>,
    id: SymbolId,
    dir: Direction,
    log: Seq<Seq<char>>,
    edges: Seq<Edge>,
    log_after: Seq<Seq<char>>,
)
    requires
        overlay.neighbors_ends(id, dir, log, (Ok::<Seq<Edge>, Error>(edges), log_after)),
    ensures
        exists|own: Vec<Edge>|
            {
                &&& #[trigger] call_ensures(
                    H::neighbors,
                    (overlay.home(), &id, dir),
                    Ok::<Vec<Edge>, Error>(own),
                )
                &&& own@.is_prefix_of(edges)
                &&& edges.len() <= own@.len() + overlay.budget().max_cross_nodes
                &&& forall|i: int|
                    own@.len() <= i < edges.len() ==> #[trigger] overlay.is_accounted_for(
                        edges[i],
                        dir,
                        id@,
                    )
            },
        log.is_prefix_of(log_after),
{
    let (own, more) = lemma_unfold_neighbors(overlay, id, dir, log, edges, log_after);
    law_cross_edges_are_live_and_on_record(overlay, id@, dir, log, more, log_after);
    assert(own@ =~= edges.subrange(0, own@.len() as int));
    assert forall|i: int|
        own@.len() <= i < edges.len() implies #[trigger] overlay.is_accounted_for(
        edges[i],
        dir,
        id@,
    ) by {
        assert(overlay.is_accounted_for(more[i - own@.len()], dir, id@));
    }
}

/// The home edges and the cross-store edges that the neighbors of an id are made of.
pub(crate) proof fn lemma_unfold_neighbors<'a, H: HomeEngine, F: ForeignEngine>(
    overlay: OverlayReader<'a, H, F>,
    id: SymbolId,
    dir: Direction,
    log: Seq<Seq<char>>,
    edges: Seq<Edge>,
    log_after: Seq<Seq<char>>,
) -> (parts: (Vec<Edge>, Seq<Edge>))
    requires
        overlay.neighbors_ends(id, dir, log, (Ok::<Seq<Edge>, Error>(edges), log_after)),
    ensures
        call_ensures(
            H::neighbors,
            (overlay.home(), &id, dir),
            Ok::<Vec<Edge>, Error>(parts.0),
        ),
        overlay.cross_ends(id@, dir, log, (Ok::<Seq<Edge>, Error>(parts.1), log_after)),
        edges == parts.0@ + parts.1,
{
    let end = (Ok::<Seq<Edge>, Error>(edges), log_after);
    let home = choose|home: Result<Vec<Edge>, Error>| #[trigger]
        call_ensures(H::neighbors, (overlay.home(), &id, dir), home) && match home {
            Err(e) => end == (Err::<Seq<Edge>, Error>(e), log),
            Ok(own) => exists|cross: Result<Seq<Edge>, Error>| #[trigger]
                overlay.cross_ends(id@, dir, log, (cross, end.1)) && match cross {
                    Err(_) => end.0 == cross,
                    Ok(more) => end.0 == Ok::<Seq<Edge>, Error>(own@ + more),
                },
        };
    let own = home->Ok_0;
    let cross = choose|cross: Result<Seq<Edge>, Error>| #[trigger]
        overlay.cross_ends(id@, dir, log, (cross, end.1)) && match cross {
            Err(_) => end.0 == cross,
            Ok(more) => end.0 == Ok::<Seq<Edge>, Error>(own@ + more),
        };
    assert(home == Ok::<Vec<Edge>, Error>(own));
    assert(cross == Ok::<Seq<Edge>, Error>(cross->Ok_0));
    (own, cross->Ok_0)
}

/// Whether a log line says that an edge was dropped on account of this end.
pub open spec fn marks_end(line: Seq<char>, end: Endpoint) -> bool {
    ("XEDGE-STALE-EPOCH: edge to "@ + end.engine@ + ":"@ + end.stable_id@).is_prefix_of(line)
}

proof fn lemma_line_marks_end<'a, H: HomeEngine, F: ForeignEngine>(
    overlay: OverlayReader<'a, H, F>,
    row: XEdge,
    line: Seq<char>,
)
    requires
        overlay.row_checked(row, Some(line)),
    ensures
        marks_end(line, row.source) || marks_end(line, row.target),
{
    assert forall|end: Endpoint| #[trigger] overlay.end_checked(end, Some(line)) implies marks_end(
        line,
        end,
    ) by {
        let edge = "XEDGE-STALE-EPOCH: edge to "@ + end.engine@ + ":"@ + end.stable_id@;
        assert(edge =~= line.subrange(0, edge.len() as int));
    }
}

proof fn lemma_fold_logs<'a, H: HomeEngine, F: ForeignEngine>(
    overlay: OverlayReader<'a, H, F>,
    rows: Seq<XEdge>,
    edges: Seq<Edge>,
    log: Seq<Seq<char>>,
    end: (Seq<Edge>, Seq<Seq<char>>),
    j: int,
)
    requires
        overlay.fold_ends(rows, edges, log, end),
        edges.len() + overlay.live_rows(rows).len() < overlay.budget().max_cross_nodes,
        0 <= j < rows.len(),
        !overlay.row_may_be_live(rows[j]),
    ensures
        exists|i: int|
            log.len() <= i < end.1.len() && overlay.row_checked(
                rows[j],
                Some(#[trigger] end.1[i]),
            ),
    decreases rows.len(),
{
    let rest = rows.skip(1);
    law_check_fails_closed(overlay, rows[0]);
    let found = choose|found: Option<Seq<char>>| #[trigger]
        overlay.row_checked(rows[0], found) && match found {
            Some(line) => overlay.fold_ends(rest, edges, log.push(line), end),
            None => exists|edge: Edge| #[trigger]
                rows[0].appears_as(edge) && overlay.fold_ends(rest, edges.push(edge), log, end),
        };
    if j > 0 {
        assert(rest[j - 1] == rows[j]);
    }
    match found {
        Some(line) => {
            lemma_fold_sound(overlay, rest, edges, log.push(line), end);
            assert(end.1[log.len() as int] == log.push(line)[log.len() as int]);
            if j == 0 {
                assert(overlay.row_checked(rows[0], Some(end.1[log.len() as int])));
            } else {
                lemma_fold_logs(overlay, rest, edges, log.push(line), end, j - 1);
            }
        },
        None => {
            let edge = choose|edge: Edge| #[trigger]
                rows[0].appears_as(edge) && overlay.fold_ends(rest, edges.push(edge), log, end);
            lemma_fold_logs(overlay, rest, edges.push(edge), log, end, j - 1);
        },
    }
}

/// A stale cross-edge is dropped loudly. If the private store holds an edge at a home id one of
/// whose stamps cannot be live, and the live ones there do not use up the budget, then asking for
/// the cross-store edges at that id adds a line to the log that marks one of its ends.
pub proof fn law_stale_edge_is_logged<'a, H: HomeEngine, F: ForeignEngine>(
    overlay: OverlayReader<'a, H, F>,
    stale: XEdge,
    id: Seq<char>,
    dir: Direction,
    log: Seq<Seq<char>>,
    edges: Seq<Edge>,
    log_after: Seq<Seq<char>>,
)
    requires
        overlay.crosses(),
        overlay.xedge().is_private(),
        overlay.holds_at(stale, dir, id),
        !overlay.row_may_be_live(stale),
        overlay.has_room_to_spare(dir, id),
        overlay.cross_ends(id, dir, log, (Ok::<Seq<Edge>, Error>(edges), log_after)),
    ensures
        log.is_prefix_of(log_after),
        exists|i: int|
            log.len() <= i < log_after.len() && (marks_end(#[trigger] log_after[i], stale.source)
                || marks_end(log_after[i], stale.target)),
{
    law_cross_edges_are_live_and_on_record(overlay, id, dir, log, edges, log_after);
    let rows = lemma_unfold_cross(overlay, id, dir, log, edges, log_after);
    lemma_rows(overlay, dir, id, rows);
    let j = choose|j: int| 0 <= j < rows.len() && stale.same_as(#[trigger] rows[j]);
    lemma_live_as_same(overlay, stale, rows[j]);
    lemma_fold_logs(overlay, rows, Seq::empty(), log, (edges, log_after), j);
    let i = choose|i: int|
        log.len() <= i < log_after.len() && overlay.row_checked(
            rows[j],
            Some(#[trigger] log_after[i]),
        );
    lemma_line_marks_end(overlay, rows[j], log_after[i]);
}

/// The rows that the cross-store edges at an id were folded from.
pub(crate) proof fn lemma_unfold_cross<'a, H: HomeEngine, F: ForeignEngine>(
    overlay: OverlayReader<'a, H, F>,
    id: Seq<char>,
    dir: Direction,
    log: Seq<Seq<char>>,
    edges: Seq<Edge>,
    log_after: Seq<Seq<char>>,
) -> (rows: Seq<XEdge>)
    requires
        overlay.crosses(),
        overlay.cross_ends(id, dir, log, (Ok::<Seq<Edge>, Error>(edges), log_after)),
    ensures
        overlay.rows_reply(id, dir, Ok::<Seq<XEdge>, Error>(rows)),
        overlay.fold_ends(rows, Seq::empty(), log, (edges, log_after)),
{
    let end = (Ok::<Seq<Edge>, Error>(edges), log_after);
    let reply = choose|rows: Result<Seq<XEdge>, Error>| #[trigger]
        overlay.rows_reply(id, dir, rows) && match rows {
            Err(e) => end == (Err::<Seq<Edge>, Error>(e), log),
            Ok(found) => end.0 is Ok && overlay.fold_ends(
                found,
                Seq::empty(),
                log,
                (end.0->Ok_0, end.1),
            ),
        };
    assert(reply == Ok::<Seq<XEdge>, Error>(reply->Ok_0));
    reply->Ok_0
}

/// A grounding document is one hop away from the code it is about. After an `about` edge is
/// written, an overlay over that store whose home is the estate engine and which has `about` armed
/// answers the question for what depends on the code symbol with an edge from the memory to it,
/// provided the code symbol still has the epoch that the edge was stamped with and the budget has
/// room.
pub proof fn law_about_edge_surfaces_the_memory<'a, H: HomeEngine, F: ForeignEngine>(
    before: XedgeStore,
    about: XEdge,
    mem_id: Seq<char>,
    code_epoch: u64,
    after: XedgeStore,
    overlay: OverlayReader<'a, H, F>,
    code: SymbolId,
    log: Seq<Seq<char>>,
    edges: Seq<Edge>,
    log_after: Seq<Seq<char>>,
)
    requires
        before.is_private(),
        about.is_about(mem_id, code@, code_epoch),
        XedgeStore::written(before, about, Ok(()), after),
        overlay.xedge().is_private() == after.is_private(),
        overlay.xedge().rows() == after.rows(),
        overlay.home_engine() == ESTATE_ENGINE@,
        overlay.kinds().contains(ABOUT@),
        overlay.has_room(Direction::Dependents, code@),
        overlay.always_live(about.target),
        overlay.neighbors_ends(
            code,
            Direction::Dependents,
            log,
            (Ok::<Seq<Edge>, Error>(edges), log_after),
        ),
    ensures
        exists|i: int|
            {
                &&& 0 <= i < edges.len()
                &&& about.kept().appears_as(#[trigger] edges[i])
                &&& edges[i].source@ == mem_id
                &&& edges[i].target@ == code@
            },
{
    assert(MEMORY_ENGINE@ != ESTATE_ENGINE@) by {
        reveal_strlit("memory");
        reveal_strlit("estate");
        assert(MEMORY_ENGINE@[0] != ESTATE_ENGINE@[0]);
    }
    law_only_estate_ids_go_stale(overlay, about.source);
    assert(overlay.holds_at(about.kept(), Direction::Dependents, code@));
    law_live_edge_is_a_neighbor(
        overlay,
        about.kept(),
        code,
        Direction::Dependents,
        log,
        edges,
        log_after,
    );
    let i = choose|i: int| 0 <= i < edges.len() && about.kept().appears_as(#[trigger] edges[i]);
    assert(edges[i].source@ == mem_id);
}

impl<'a, H: HomeEngine, F: ForeignEngine> OverlayReader<'a, H, F> {
    /// Whether the home engine always replies with `found` when it is asked for a node.
    pub open spec fn home_has(&self, id: SymbolId, found: Option<Node>) -> bool {
        forall|reply: Result<Option<Node>, Error>| #[trigger]
            call_ensures(H::get_node, (self.home(), &id), reply) ==> reply == Ok::<
                Option<Node>,
                Error,
            >(found)
    }

    /// Whether a foreign engine always replies with `found` when it is asked for a node.
    pub open spec fn pool_has(pool: F, id: SymbolId, found: Option<Node>) -> bool {
        forall|reply: Result<Option<Node>, Error>| #[trigger]
            call_ensures(F::get_node_blocking, (&pool, &id), reply) ==> reply == Ok::<
                Option<Node>,
                Error,
            >(found)
    }

    /// Whether the home engine always replies with `live` when it is asked for an epoch.
    pub open spec fn home_epoch(&self, id: SymbolId, live: Option<u64>) -> bool {
        forall|reply: Result<Option<u64>, Error>| #[trigger]
            call_ensures(H::symbol_epoch, (self.home(), &id), reply) ==> reply == Ok::<
                Option<u64>,
                Error,
            >(live)
    }

    /// Whether a foreign engine always replies with `live` when it is asked for an epoch.
    pub open spec fn pool_epoch(pool: F, id: SymbolId, live: Option<u64>) -> bool {
        forall|reply: Result<Option<u64>, Error>| #[trigger]
            call_ensures(F::symbol_epoch_blocking, (&pool, &id), reply) ==> reply == Ok::<
                Option<u64>,
                Error,
            >(live)
    }
}

proof fn lemma_pools_node<'a, H: HomeEngine, F: ForeignEngine>(
    pools: Seq<(Seq<char>, F)>,
    id: SymbolId,
    k: int,
    found: Option<Node>,
    reply: Result<Option<Node>, Error>,
)
    requires
        0 <= k <= pools.len(),
        forall|j: int|
            0 <= j < k ==> OverlayReader::<'a, H, F>::pool_has(
                (#[trigger] pools[j]).1,
                id,
                None,
            ),
        k < pools.len() ==> found is Some && OverlayReader::<'a, H, F>::pool_has(
            pools[k].1,
            id,
            found,
        ),
        k == pools.len() ==> found is None,
        OverlayReader::<'a, H, F>::pools_node(pools, id, reply),
    ensures
        reply == Ok::<Option<Node>, Error>(found),
    decreases pools.len(),
{
    if pools.len() > 0 {
        let rest = pools.skip(1);
        let one = choose|one: Result<Option<Node>, Error>| #[trigger]
            call_ensures(F::get_node_blocking, (&pools[0].1, &id), one) && match one {
                Ok(None) => OverlayReader::<'a, H, F>::pools_node(rest, id, reply),
                _ => reply == one,
            };
        if k > 0 {
            assert(OverlayReader::<'a, H, F>::pool_has(pools[0].1, id, None));
            assert forall|j: int| 0 <= j < k - 1 implies OverlayReader::<'a, H, F>::pool_has(
                (#[trigger] rest[j]).1,
                id,
                None,
            ) by {
                assert(rest[j] == pools[j + 1]);
            }
            lemma_pools_node::<H, F>(rest, id, k - 1, found, reply);
        }
    }
}

proof fn lemma_pools_epoch<'a, H: HomeEngine, F: ForeignEngine>(
    pools: Seq<(Seq<char>, F)>,
    id: SymbolId,
    k: int,
    live: Option<u64>,
    reply: Result<Option<u64>, Error>,
)
    requires
        0 <= k <= pools.len(),
        forall|j: int|
            0 <= j < k ==> OverlayReader::<'a, H, F>::pool_epoch(
                (#[trigger] pools[j]).1,
                id,
                None,
            ),
        k < pools.len() ==> live is Some && OverlayReader::<'a, H, F>::pool_epoch(
            pools[k].1,
            id,
            live,
        ),
        k == pools.len() ==> live is None,
        OverlayReader::<'a, H, F>::pools_epoch(pools, id, reply),
    ensures
        reply == Ok::<Option<u64>, Error>(live),
    decreases pools.len(),
{
    if pools.len() > 0 {
        let rest = pools.skip(1);
        let one = choose|one: Result<Option<u64>, Error>| #[trigger]
            call_ensures(F::symbol_epoch_blocking, (&pools[0].1, &id), one) && match one {
                Ok(None) => OverlayReader::<'a, H, F>::pools_epoch(rest, id, reply),
                _ => reply == one,
            };
        if k > 0 {
            assert(OverlayReader::<'a, H, F>::pool_epoch(pools[0].1, id, None));
            assert forall|j: int| 0 <= j < k - 1 implies OverlayReader::<'a, H, F>::pool_epoch(
                (#[trigger] rest[j]).1,
                id,
                None,
            ) by {
                assert(rest[j] == pools[j + 1]);
            }
            lemma_pools_epoch::<H, F>(rest, id, k - 1, live, reply);
        }
    }
}

/// A node is routed to the engine that has it. What the home engine has comes from there, whatever
/// the foreign engines hold. What it does not have comes, once something may cross, from the first
/// foreign engine that has it; and what no engine has is not found.
pub proof fn law_get_node_routes<'a, H: HomeEngine, F: ForeignEngine>(
    overlay: OverlayReader<'a, H, F>,
    id: SymbolId,
    k: int,
    node: Node,
    reply: Result<Option<Node>, Error>,
)
    requires
        overlay.node_reply(id, reply),
        0 <= k <= overlay.pools().len(),
    ensures
        overlay.home_has(id, Some(node)) ==> reply == Ok::<Option<Node>, Error>(Some(node)),
        ({
            &&& overlay.crosses()
            &&& overlay.home_has(id, None)
            &&& forall|j: int|
                0 <= j < k ==> OverlayReader::<'a, H, F>::pool_has(
                    (#[trigger] overlay.pools()[j]).1,
                    id,
                    None,
                )
        }) ==> {
            &&& k == overlay.pools().len() ==> reply == Ok::<Option<Node>, Error>(None)
            &&& k < overlay.pools().len() && OverlayReader::<'a, H, F>::pool_has(
                overlay.pools()[k].1,
                id,
                Some(node),
            ) ==> reply == Ok::<Option<Node>, Error>(Some(node))
        },
{
    if overlay.crosses() && overlay.home_has(id, None) && (forall|j: int|
        0 <= j < k ==> OverlayReader::<'a, H, F>::pool_has(
            (#[trigger] overlay.pools()[j]).1,
            id,
            None,
        )) {
        if k == overlay.pools().len() {
            lemma_pools_node::<H, F>(overlay.pools(), id, k, None, reply);
        } else if OverlayReader::<'a, H, F>::pool_has(overlay.pools()[k].1, id, Some(node)) {
            lemma_pools_node::<H, F>(overlay.pools(), id, k, Some(node), reply);
        }
    }
}

/// The epoch of a symbol is routed the same way: it comes from the home engine if the symbol is
/// live there, else, once something may cross, from the first foreign engine where it is live.
pub proof fn law_symbol_epoch_routes<'a, H: HomeEngine, F: ForeignEngine>(
    overlay: OverlayReader<'a, H, F>,
    id: SymbolId,
    k: int,
    epoch: u64,
    reply: Result<Option<u64>, Error>,
)
    requires
        overlay.symbol_epoch_reply(id, reply),
        0 <= k <= overlay.pools().len(),
    ensures
        overlay.home_epoch(id, Some(epoch)) ==> reply == Ok::<Option<u64>, Error>(Some(epoch)),
        ({
            &&& overlay.crosses()
            &&& overlay.home_epoch(id, None)
            &&& forall|j: int|
                0 <= j < k ==> OverlayReader::<'a, H, F>::pool_epoch(
                    (#[trigger] overlay.pools()[j]).1,
                    id,
                    None,
                )
        }) ==> {
            &&& k == overlay.pools().len() ==> reply == Ok::<Option<u64>, Error>(None)
            &&& k < overlay.pools().len() && OverlayReader::<'a, H, F>::pool_epoch(
                overlay.pools()[k].1,
                id,
                Some(epoch),
            ) ==> reply == Ok::<Option<u64>, Error>(Some(epoch))
        },
{
    if overlay.crosses() && overlay.home_epoch(id, None) && (forall|j: int|
        0 <= j < k ==> OverlayReader::<'a, H, F>::pool_epoch(
            (#[trigger] overlay.pools()[j]).1,
            id,
            None,
        )) {
        if k == overlay.pools().len() {
            lemma_pools_epoch::<H, F>(overlay.pools(), id, k, None, reply);
        } else if OverlayReader::<'a, H, F>::pool_epoch(overlay.pools()[k].1, id, Some(epoch)) {
            lemma_pools_epoch::<H, F>(overlay.pools(), id, k, Some(epoch), reply);
        }
    }
}

} // verus!
