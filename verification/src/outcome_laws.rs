//! How a traversal ends: it fails only if a read did, or if no step is left to place a node at; it
//! runs through the listings of the home nodes in their order; and it leaves something out only
//! where the budget is used up.

use crate::engine::{ForeignEngine, HomeEngine};
use crate::error::Error;
use crate::graph::{Direction, Edge, Node, Subgraph, SubgraphView, SymbolId};
use crate::listing_laws::law_listing_goes_by_the_answer;
use crate::overlay::{anchors_of, OverlayReader};
use crate::overlay_laws::law_cross_edges_are_live_and_on_record;
use crate::reply_laws::law_node_comes_from_the_first_that_has_it;
use crate::sql::EndpointSide;
use crate::traversal_laws::{
    law_traversal_adds_one_step, law_traversal_keeps_the_home_part, law_traversal_reaches_one_step,
    lemma_anchor, lemma_anchor_grows, lemma_anchors, lemma_has_node_kept, lemma_prefix_trans,
    lemma_step, lemma_unfold_anchors,
};
use crate::xedge::XEdge;
use vstd::prelude::*;
use wicked_estate_core::TraversalSpec;

verus! {

/// The end of an edge that is not this id.
pub open spec fn other_end(edge: Edge, id: Seq<char>) -> Seq<char> {
    if edge.source.0@ == id {
        edge.target.0@
    } else {
        edge.source.0@
    }
}

/// The distance on record for a symbol, or zero.
pub open spec fn distance(sub: SubgraphView, symbol: Seq<char>) -> int {
    if sub.depths.contains_key(symbol) {
        sub.depths[symbol] as int
    } else {
        0
    }
}

/// The symbols of the nodes of a subgraph, in their order.
pub open spec fn symbols_of(sub: SubgraphView) -> Seq<Seq<char>> {
    Seq::new(sub.nodes.len(), |i: int| sub.nodes[i].symbol.0@)
}

impl<'a, H: HomeEngine, F: ForeignEngine> OverlayReader<'a, H, F> {
    /// Whether the lookup of the other end of some cross-store edge at an id may fail like this.
    pub open spec fn lookup_fails(&self, from: Seq<char>, e: Error) -> bool {
        exists|edge: Edge, id: SymbolId|
            {
                &&& #[trigger] self.may_cross_at(edge, from)
                &&& id@ == other_end(edge, from)
                &&& id@ != from
                &&& #[trigger] self.first_with_node(id, Err::<Option<Node>, Error>(e))
            }
    }

    /// Whether expanding an id at this distance may fail like this: the store fails for one of its
    /// two directions, a lookup fails, or there is no distance one step beyond.
    pub open spec fn expansion_fails(&self, from: Seq<char>, depth: int, e: Error) -> bool {
        ||| self.store_fails(from, Direction::Dependents, e)
        ||| self.store_fails(from, Direction::Dependencies, e)
        ||| self.lookup_fails(from, e)
        ||| e is DepthOverflow && depth == u32::MAX
    }

    /// Whether expanding some node of a home subgraph may fail like this.
    pub open spec fn some_expansion_fails(&self, home: SubgraphView, e: Error) -> bool {
        exists|i: int|
            0 <= i < home.nodes.len() && #[trigger] self.expansion_fails(
                home.nodes[i].symbol.0@,
                distance(home, home.nodes[i].symbol.0@),
                e,
            )
    }
}

proof fn lemma_anchor_fails<'a, H: HomeEngine, F: ForeignEngine>(
    overlay: OverlayReader<'a, H, F>,
    base: nat,
    anchor: SymbolId,
    depth: u32,
    edges: Seq<Edge>,
    sub: SubgraphView,
    e: Error,
)
    requires
        overlay.anchor_ends(base, anchor, depth, edges, sub, Err::<SubgraphView, Error>(e)),
        forall|k: int|
            0 <= k < edges.len() ==> #[trigger] overlay.may_cross_at(edges[k], anchor@),
    ensures
        overlay.lookup_fails(anchor@, e) || e is DepthOverflow && depth == u32::MAX,
    decreases edges.len(),
{
    let end = Err::<SubgraphView, Error>(e);
    if edges.len() > 0 && !overlay.spent(base, sub) {
        let rest = edges.skip(1);
        assert forall|k: int| 0 <= k < rest.len() implies #[trigger] overlay.may_cross_at(
            rest[k],
            anchor@,
        ) by {
            assert(overlay.may_cross_at(edges[k + 1], anchor@));
        }
        if sub.has_relationship(edges[0].relationship()) {
            lemma_anchor_fails(overlay, base, anchor, depth, rest, sub, e);
        } else {
            let far_id = OverlayReader::<'a, H, F>::far_end(edges[0], anchor);
            let far = choose|far: Result<Option<Node>, Error>| #[trigger]
                overlay.far_reply(far_id, anchor, far) && match far {
                    Err(e) => end == Err::<SubgraphView, Error>(e),
                    Ok(node) => match sub.with_edge(depth, edges[0], node) {
                        None => end == Err::<SubgraphView, Error>(Error::DepthOverflow),
                        Some(next) => overlay.anchor_ends(base, anchor, depth, rest, next, end),
                    },
                };
            match far {
                Err(_) => {
                    assert(far == Err::<Option<Node>, Error>(e));
                    law_node_comes_from_the_first_that_has_it(overlay, far_id, far);
                    assert(overlay.may_cross_at(edges[0], anchor@));
                    assert(overlay.first_with_node(far_id, Err::<Option<Node>, Error>(e)));
                },
                Ok(node) => {
                    if sub.with_edge(depth, edges[0], node) is Some {
                        let next = sub.with_edge(depth, edges[0], node)->Some_0;
                        lemma_anchor_fails(overlay, base, anchor, depth, rest, next, e);
                    }
                },
            }
        }
    }
}

proof fn lemma_listed_edges_cross<'a, H: HomeEngine, F: ForeignEngine>(
    overlay: OverlayReader<'a, H, F>,
    id: Seq<char>,
    log: Seq<Seq<char>>,
    pointing: Seq<Edge>,
    between: Seq<Seq<char>>,
    leaving: Seq<Edge>,
    log_after: Seq<Seq<char>>,
)
    requires
        overlay.cross_ends(
            id,
            Direction::Dependents,
            log,
            (Ok::<Seq<Edge>, Error>(pointing), between),
        ),
        overlay.cross_ends(
            id,
            Direction::Dependencies,
            between,
            (Ok::<Seq<Edge>, Error>(leaving), log_after),
        ),
    ensures
        log.is_prefix_of(log_after),
        forall|k: int|
            0 <= k < (pointing + leaving).len() ==> #[trigger] overlay.may_cross_at(
                (pointing + leaving)[k],
                id,
            ),
{
    law_cross_edges_are_live_and_on_record(
        overlay,
        id,
        Direction::Dependents,
        log,
        pointing,
        between,
    );
    law_cross_edges_are_live_and_on_record(
        overlay,
        id,
        Direction::Dependencies,
        between,
        leaving,
        log_after,
    );
    lemma_prefix_trans(log, between, log_after);
    let edges = pointing + leaving;
    assert forall|k: int| 0 <= k < edges.len() implies #[trigger] overlay.may_cross_at(
        edges[k],
        id,
    ) by {
        if k < pointing.len() {
            assert(overlay.is_accounted_for(pointing[k], Direction::Dependents, id));
        } else {
            assert(overlay.is_accounted_for(
                leaving[k - pointing.len()],
                Direction::Dependencies,
                id,
            ));
        }
    }
}

proof fn lemma_anchors_fail<'a, H: HomeEngine, F: ForeignEngine>(
    overlay: OverlayReader<'a, H, F>,
    base: nat,
    anchors: Seq<(SymbolId, u32)>,
    sub: SubgraphView,
    log: Seq<Seq<char>>,
    e: Error,
    log_after: Seq<Seq<char>>,
) -> (k: int)
    requires
        overlay.crosses(),
        overlay.anchors_end(
            base,
            anchors,
            sub,
            log,
            (Err::<SubgraphView, Error>(e), log_after),
        ),
    ensures
        log.is_prefix_of(log_after),
        0 <= k < anchors.len(),
        overlay.expansion_fails(anchors[k].0@, anchors[k].1 as int, e),
    decreases anchors.len(),
{
    let end = (Err::<SubgraphView, Error>(e), log_after);
    let anchor = anchors[0];
    let rest = anchors.skip(1);
    assert(log.is_prefix_of(log)) by {
        assert(log =~= log.subrange(0, log.len() as int));
    }
    let first = choose|first: (Result<Seq<Edge>, Error>, Seq<Seq<char>>)| #[trigger]
        overlay.cross_ends(anchor.0@, Direction::Dependents, log, first) && match first.0 {
            Err(e) => end == (Err::<SubgraphView, Error>(e), first.1),
            Ok(pointing) => exists|second: (Result<Seq<Edge>, Error>, Seq<Seq<char>>)| #[trigger]
                overlay.cross_ends(anchor.0@, Direction::Dependencies, first.1, second)
                    && match second.0 {
                    Err(e) => end == (Err::<SubgraphView, Error>(e), second.1),
                    Ok(leaving) => exists|added: Result<SubgraphView, Error>| #[trigger]
                        overlay.anchor_ends(
                            base,
                            anchor.0,
                            anchor.1,
                            pointing + leaving,
                            sub,
                            added,
                        ) && match added {
                            Err(e) => end == (Err::<SubgraphView, Error>(e), second.1),
                            Ok(next) => overlay.anchors_end(base, rest, next, second.1, end),
                        },
                },
        };
    law_listing_goes_by_the_answer(overlay, anchor.0@, Direction::Dependents, log, first);
    match first.0 {
        Err(_) => { 0 },
        Ok(pointing) => {
            assert(first == (Ok::<Seq<Edge>, Error>(pointing), first.1));
            let second = choose|second: (Result<Seq<Edge>, Error>, Seq<Seq<char>>)| #[trigger]
                overlay.cross_ends(anchor.0@, Direction::Dependencies, first.1, second)
                    && match second.0 {
                    Err(e) => end == (Err::<SubgraphView, Error>(e), second.1),
                    Ok(leaving) => exists|added: Result<SubgraphView, Error>| #[trigger]
                        overlay.anchor_ends(
                            base,
                            anchor.0,
                            anchor.1,
                            pointing + leaving,
                            sub,
                            added,
                        ) && match added {
                            Err(e) => end == (Err::<SubgraphView, Error>(e), second.1),
                            Ok(next) => overlay.anchors_end(base, rest, next, second.1, end),
                        },
                };
            law_listing_goes_by_the_answer(
                overlay,
                anchor.0@,
                Direction::Dependencies,
                first.1,
                second,
            );
            law_cross_edges_are_live_and_on_record(
                overlay,
                anchor.0@,
                Direction::Dependents,
                log,
                pointing,
                first.1,
            );
            match second.0 {
                Err(_) => { 0 },
                Ok(leaving) => {
                    assert(second == (Ok::<Seq<Edge>, Error>(leaving), second.1));
                    lemma_listed_edges_cross(
                        overlay,
                        anchor.0@,
                        log,
                        pointing,
                        first.1,
                        leaving,
                        second.1,
                    );
                    let added = choose|added: Result<SubgraphView, Error>| #[trigger]
                        overlay.anchor_ends(
                            base,
                            anchor.0,
                            anchor.1,
                            pointing + leaving,
                            sub,
                            added,
                        ) && match added {
                            Err(e) => end == (Err::<SubgraphView, Error>(e), second.1),
                            Ok(next) => overlay.anchors_end(base, rest, next, second.1, end),
                        };
                    match added {
                        Err(_) => {
                            assert(added == Err::<SubgraphView, Error>(e));
                            lemma_anchor_fails(
                                overlay,
                                base,
                                anchor.0,
                                anchor.1,
                                pointing + leaving,
                                sub,
                                e,
                            );
                            0
                        },
                        Ok(next) => {
                            let k = lemma_anchors_fail(
                                overlay,
                                base,
                                rest,
                                next,
                                second.1,
                                e,
                                log_after,
                            );
                            lemma_prefix_trans(log, second.1, log_after);
                            assert(rest[k] == anchors[k + 1]);
                            k + 1
                        },
                    }
                },
            }
        },
    }
}

/// A traversal fails only if a read does. Its error is the home engine's own, with nothing logged;
/// or, once something may cross, it comes from a node of the home engine's reply: the store failed
/// for that node, the lookup of the other end of a cross-store edge there failed, or the node
/// stands at the largest distance there is. How many nodes there are does not matter.
pub proof fn law_traversal_fails_only_if_a_read_does<'a, H: HomeEngine, F: ForeignEngine>(
    overlay: OverlayReader<'a, H, F>,
    starts: &[SymbolId],
    spec: &TraversalSpec,
    log: Seq<Seq<char>>,
    e: Error,
    log_after: Seq<Seq<char>>,
)
    requires
        overlay.traverse_ends(starts, spec, log, (Err::<SubgraphView, Error>(e), log_after)),
    ensures
        log.is_prefix_of(log_after),
        ({
            ||| {
                &&& log_after == log
                &&& call_ensures(
                    H::traverse_multi,
                    (overlay.home(), starts, spec),
                    Err::<Subgraph, Error>(e),
                )
            }
            ||| {
                &&& overlay.kinds().len() > 0
                &&& overlay.budget().max_cross_hops > 0
                &&& exists|sub: Subgraph|
                    {
                        &&& #[trigger] call_ensures(
                            H::traverse_multi,
                            (overlay.home(), starts, spec),
                            Ok::<Subgraph, Error>(sub),
                        )
                        &&& overlay.some_expansion_fails(sub@, e)
                    }
            }
        }),
{
    let end = (Err::<SubgraphView, Error>(e), log_after);
    let home = choose|home: Result<Subgraph, Error>| #[trigger]
        call_ensures(H::traverse_multi, (overlay.home(), starts, spec), home) && match home {
            Err(e) => end == (Err::<SubgraphView, Error>(e), log),
            Ok(sub) => overlay.traversal_ends(sub@, log, end),
        };
    match home {
        Err(_) => {
            assert(home == Err::<Subgraph, Error>(e));
            assert(log =~= log.subrange(0, log.len() as int));
        },
        Ok(sub) => {
            assert(home == Ok::<Subgraph, Error>(sub));
            law_expansion_fails_only_if_a_read_does(overlay, sub@, log, e, log_after);
        },
    }
}

/// The same of folding what crosses into a home subgraph: it fails only at one of its nodes.
pub proof fn law_expansion_fails_only_if_a_read_does<'a, H: HomeEngine, F: ForeignEngine>(
    overlay: OverlayReader<'a, H, F>,
    home: SubgraphView,
    log: Seq<Seq<char>>,
    e: Error,
    log_after: Seq<Seq<char>>,
)
    requires
        overlay.traversal_ends(home, log, (Err::<SubgraphView, Error>(e), log_after)),
    ensures
        overlay.kinds().len() > 0,
        overlay.budget().max_cross_hops > 0,
        log.is_prefix_of(log_after),
        overlay.some_expansion_fails(home, e),
{
    let anchors = anchors_of(home);
    let k = lemma_anchors_fail(overlay, home.nodes.len(), anchors, home, log, e, log_after);
    let symbol = home.nodes[k].symbol.0@;
    assert(anchors[k].0@ == symbol);
    assert(anchors[k].1 as int == distance(home, symbol));
    assert(overlay.expansion_fails(
        home.nodes[k].symbol.0@,
        distance(home, home.nodes[k].symbol.0@),
        e,
    ));
}

/// A traversal over healthy engines succeeds. If the home engine's traversal replies with a
/// subgraph none of whose nodes stands at the largest distance there is, no lookup of a node fails,
/// and the store answers every question for a home id, then the traversal succeeds, however many
/// nodes and cross-edges there are.
pub proof fn law_healthy_traversal_succeeds<'a, H: HomeEngine, F: ForeignEngine>(
    overlay: OverlayReader<'a, H, F>,
    starts: &[SymbolId],
    spec: &TraversalSpec,
    log: Seq<Seq<char>>,
    end: (Result<SubgraphView, Error>, Seq<Seq<char>>),
)
    requires
        overlay.traverse_ends(starts, spec, log, end),
        forall|reply: Result<Subgraph, Error>| #[trigger]
            call_ensures(H::traverse_multi, (overlay.home(), starts, spec), reply) ==> {
                &&& reply is Ok
                &&& forall|i: int|
                    0 <= i < reply->Ok_0@.nodes.len() ==> distance(
                        reply->Ok_0@,
                        (#[trigger] reply->Ok_0@.nodes[i]).symbol.0@,
                    ) < u32::MAX
            },
        forall|id: SymbolId, reply: Result<Option<Node>, Error>| #[trigger]
            call_ensures(H::get_node, (overlay.home(), &id), reply) ==> reply is Ok,
        forall|k: int, id: SymbolId, reply: Result<Option<Node>, Error>|
            0 <= k < overlay.pools().len() && #[trigger] overlay.pool_replies(k, id, reply)
                ==> reply is Ok,
        forall|side: EndpointSide, id: Seq<char>, out: Result<Vec<XEdge>, Error>| #[trigger]
            overlay.store_answers(side, id, out) ==> out is Ok,
    ensures
        end.0 is Ok,
{
    if end.0 is Err {
        let e = end.0->Err_0;
        assert(end == (Err::<SubgraphView, Error>(e), end.1));
        law_traversal_fails_only_if_a_read_does(overlay, starts, spec, log, e, end.1);
        assert(!call_ensures(
            H::traverse_multi,
            (overlay.home(), starts, spec),
            Err::<Subgraph, Error>(e),
        ));
        let sub = choose|sub: Subgraph|
            {
                &&& #[trigger] call_ensures(
                    H::traverse_multi,
                    (overlay.home(), starts, spec),
                    Ok::<Subgraph, Error>(sub),
                )
                &&& overlay.some_expansion_fails(sub@, e)
            };
        let home = sub@;
        let i = choose|i: int|
            0 <= i < home.nodes.len() && #[trigger] overlay.expansion_fails(
                home.nodes[i].symbol.0@,
                distance(home, home.nodes[i].symbol.0@),
                e,
            );
        let from = home.nodes[i].symbol.0@;
        assert(!overlay.store_answers(EndpointSide::Target, from, Err(e)));
        assert(!overlay.store_answers(EndpointSide::Source, from, Err(e)));
        assert(distance(home, from) < u32::MAX) by {
            let reply = Ok::<Subgraph, Error>(sub);
            assert(distance(reply->Ok_0@, reply->Ok_0@.nodes[i].symbol.0@) < u32::MAX);
        }
        let (edge, id) = choose|edge: Edge, id: SymbolId|
            {
                &&& #[trigger] overlay.may_cross_at(edge, from)
                &&& id@ == other_end(edge, from)
                &&& id@ != from
                &&& #[trigger] overlay.first_with_node(id, Err::<Option<Node>, Error>(e))
            };
        assert(overlay.first_with_node(id, Err::<Option<Node>, Error>(e)));
        assert(!call_ensures(
            H::get_node,
            (overlay.home(), &id),
            Err::<Option<Node>, Error>(e),
        ));
    }
}

impl<'a, H: HomeEngine, F: ForeignEngine> OverlayReader<'a, H, F> {
    /// Whether the two listings at an id may run like this: first what points at it, then what
    /// leaves it, with these logs before, between and after.
    pub open spec fn lists_both_ways(
        &self,
        id: Seq<char>,
        before: Seq<Seq<char>>,
        pointing: Seq<Edge>,
        between: Seq<Seq<char>>,
        leaving: Seq<Edge>,
        after: Seq<Seq<char>>,
    ) -> bool {
        &&& self.cross_ends(
            id,
            Direction::Dependents,
            before,
            (Ok::<Seq<Edge>, Error>(pointing), between),
        )
        &&& self.cross_ends(
            id,
            Direction::Dependencies,
            between,
            (Ok::<Seq<Edge>, Error>(leaving), after),
        )
    }
}

/// Whether every edge of a list states a relationship of a subgraph.
pub open spec fn includes_all(sub: SubgraphView, edges: Seq<Edge>) -> bool {
    forall|k: int|
        0 <= k < edges.len() ==> #[trigger] states_relationship(sub, edges[k])
}

/// Whether an edge of a subgraph has the same ends and the same kind as this one.
pub open spec fn states_relationship(sub: SubgraphView, edge: Edge) -> bool {
    exists|i: int|
        {
            &&& 0 <= i < sub.edges.len()
            &&& (#[trigger] sub.edges[i]).source.0@ == edge.source.0@
            &&& sub.edges[i].target.0@ == edge.target.0@
            &&& sub.edges[i].kind@ == edge.kind@
        }
}

proof fn lemma_states_kept(before: SubgraphView, after: SubgraphView, edge: Edge)
    requires
        before.edges.is_prefix_of(after.edges),
        states_relationship(before, edge),
    ensures
        states_relationship(after, edge),
{
    let i = choose|i: int|
        {
            &&& 0 <= i < before.edges.len()
            &&& (#[trigger] before.edges[i]).source.0@ == edge.source.0@
            &&& before.edges[i].target.0@ == edge.target.0@
            &&& before.edges[i].kind@ == edge.kind@
        };
    assert(after.edges[i] == before.edges[i]);
}

proof fn lemma_anchor_includes<'a, H: HomeEngine, F: ForeignEngine>(
    overlay: OverlayReader<'a, H, F>,
    base: nat,
    anchor: SymbolId,
    depth: u32,
    edges: Seq<Edge>,
    sub: SubgraphView,
    after: SubgraphView,
)
    requires
        overlay.anchor_ends(
            base,
            anchor,
            depth,
            edges,
            sub,
            Ok::<SubgraphView, Error>(after),
        ),
    ensures
        includes_all(after, edges) || overlay.spent(base, after) && after.truncated,
    decreases edges.len(),
{
    let end = Ok::<SubgraphView, Error>(after);
    if edges.len() > 0 && !overlay.spent(base, sub) {
        let rest = edges.skip(1);
        let next = if sub.has_relationship(edges[0].relationship()) {
            let i = choose|i: int|
                0 <= i < sub.edges.len() && (#[trigger] sub.edges[i]).relationship()
                    == edges[0].relationship();
            assert(sub.edges[i].source.0@ == edges[0].source.0@);
            assert(states_relationship(sub, edges[0]));
            sub
        } else {
            let far_id = OverlayReader::<'a, H, F>::far_end(edges[0], anchor);
            let far = choose|far: Result<Option<Node>, Error>| #[trigger]
                overlay.far_reply(far_id, anchor, far) && match far {
                    Err(e) => end == Err::<SubgraphView, Error>(e),
                    Ok(node) => match sub.with_edge(depth, edges[0], node) {
                        None => end == Err::<SubgraphView, Error>(Error::DepthOverflow),
                        Some(next) => overlay.anchor_ends(base, anchor, depth, rest, next, end),
                    },
                };
            let next = sub.with_edge(depth, edges[0], far->Ok_0)->Some_0;
            lemma_step(sub, depth, edges[0], far->Ok_0, next);
            assert(next.edges[sub.edges.len() as int] == edges[0]);
            assert(states_relationship(next, edges[0]));
            next
        };
        lemma_anchor_includes(overlay, base, anchor, depth, rest, next, after);
        lemma_anchor_grows(overlay, base, anchor, depth, rest, next, after);
        lemma_states_kept(next, after, edges[0]);
        if includes_all(after, rest) {
            assert forall|k: int| 0 <= k < edges.len() implies #[trigger] states_relationship(
                after,
                edges[k],
            ) by {
                if k > 0 {
                    assert(states_relationship(after, rest[k - 1]));
                }
            }
        }
    }
}

/// The course of a traversal: how far it came, and the listings at the nodes that it came by.
pub struct Course {
    pub before: Seq<Seq<Seq<char>>>,
    pub pointing: Seq<Seq<Edge>>,
    pub between: Seq<Seq<Seq<char>>>,
    pub leaving: Seq<Seq<Edge>>,
}

impl Course {
    /// The number of nodes that were expanded.
    pub open spec fn len(self) -> nat {
        self.pointing.len()
    }

    /// What was listed at one of the nodes, in both directions.
    pub open spec fn listed(self, i: int) -> Seq<Edge> {
        self.pointing[i] + self.leaving[i]
    }

    /// Whether an edge was listed at one of the nodes.
    pub open spec fn has_listed(self, edge: Edge) -> bool {
        exists|i: int, k: int|
            {
                &&& 0 <= i < self.len()
                &&& 0 <= k < self.listed(i).len()
                &&& #[trigger] self.listed(i)[k] == edge
            }
    }
}

impl<'a, H: HomeEngine, F: ForeignEngine> OverlayReader<'a, H, F> {
    /// Whether expanding these ids, in their order, from `start` to `after` may take this course.
    /// What each listing logged is all that is logged. Every listed edge is included, and every
    /// added edge was listed. Nodes are left unexpanded, or a listed edge left out, only where as
    /// many nodes were added as the budget allows; an edge that is left out was listed at the last
    /// node that was expanded, and marks the result as cut short.
    pub open spec fn takes_course(
        &self,
        base: nat,
        ids: Seq<Seq<char>>,
        start: SubgraphView,
        log: Seq<Seq<char>>,
        after: SubgraphView,
        log_after: Seq<Seq<char>>,
        course: Course,
    ) -> bool {
        let full = after.nodes.len() == base + self.budget().max_cross_nodes;
        &&& course.len() <= ids.len()
        &&& course.leaving.len() == course.len()
        &&& course.between.len() == course.len()
        &&& course.before.len() == course.len() + 1
        &&& course.before[0] == log
        &&& course.before[course.len() as int] == log_after
        &&& forall|i: int|
            0 <= i < course.len() ==> #[trigger] self.course_lists(ids, course, i)
        &&& course.len() < ids.len() ==> full
        &&& forall|i: int|
            0 <= i < course.len() ==> includes_all(after, #[trigger] course.listed(i)) || i
                == course.len() - 1 && full && after.truncated
        &&& forall|k: int|
            start.edges.len() <= k < after.edges.len() ==> course.has_listed(
                #[trigger] after.edges[k],
            )
    }

    /// Whether the listings at one of the ids are as the course has them.
    pub open spec fn course_lists(&self, ids: Seq<Seq<char>>, course: Course, i: int) -> bool {
        self.lists_both_ways(
            ids[i],
            course.before[i],
            course.pointing[i],
            course.between[i],
            course.leaving[i],
            course.before[i + 1],
        )
    }
}

spec fn ids_of(anchors: Seq<(SymbolId, u32)>) -> Seq<Seq<char>> {
    Seq::new(anchors.len(), |i: int| anchors[i].0@)
}

proof fn lemma_anchors_course<'a, H: HomeEngine, F: ForeignEngine>(
    overlay: OverlayReader<'a, H, F>,
    base: nat,
    anchors: Seq<(SymbolId, u32)>,
    sub: SubgraphView,
    log: Seq<Seq<char>>,
    after: SubgraphView,
    log_after: Seq<Seq<char>>,
) -> (course: Course)
    requires
        overlay.anchors_end(
            base,
            anchors,
            sub,
            log,
            (Ok::<SubgraphView, Error>(after), log_after),
        ),
        base <= sub.nodes.len() <= base + overlay.budget().max_cross_nodes,
    ensures
        overlay.takes_course(base, ids_of(anchors), sub, log, after, log_after, course),
        overlay.spent(base, sub) ==> course.len() == 0,
    decreases anchors.len(),
{
    let end = (Ok::<SubgraphView, Error>(after), log_after);
    let ids = ids_of(anchors);
    if anchors.len() == 0 || overlay.spent(base, sub) {
        Course {
            before: seq![log],
            pointing: Seq::empty(),
            between: Seq::empty(),
            leaving: Seq::empty(),
        }
    } else {
        let rest = anchors.skip(1);
        let anchor = anchors[0];
        let (first, second, added) = lemma_unfold_anchors(overlay, base, anchors, sub, log, end);
        let pointing = first.0->Ok_0;
        let leaving = second.0->Ok_0;
        let next = added->Ok_0;
        let edges = pointing + leaving;
        assert(first == (Ok::<Seq<Edge>, Error>(pointing), first.1));
        assert(second == (Ok::<Seq<Edge>, Error>(leaving), second.1));
        assert(added == Ok::<SubgraphView, Error>(next));
        lemma_anchor(overlay, base, anchor.0, anchor.1, edges, sub, next);
        lemma_anchor_includes(overlay, base, anchor.0, anchor.1, edges, sub, next);
        lemma_anchors(overlay, base, rest, next, second.1, after, log_after);
        let tail = lemma_anchors_course(overlay, base, rest, next, second.1, after, log_after);
        let course = Course {
            before: seq![log] + tail.before,
            pointing: seq![pointing] + tail.pointing,
            between: seq![first.1] + tail.between,
            leaving: seq![leaving] + tail.leaving,
        };
        let n = course.len();
        let full = after.nodes.len() == base + overlay.budget().max_cross_nodes;
        assert(ids_of(rest) =~= ids.skip(1));
        assert(course.before[n as int] == tail.before[tail.len() as int]);
        assert forall|i: int| 0 <= i < n implies #[trigger] overlay.course_lists(
            ids,
            course,
            i,
        ) by {
            if i == 0 {
                assert(course.before[1] == tail.before[0]);
            } else {
                assert(overlay.course_lists(ids_of(rest), tail, i - 1));
                assert(ids[i] == ids_of(rest)[i - 1]);
                assert(course.before[i] == tail.before[i - 1]);
                assert(course.before[i + 1] == tail.before[i]);
            }
        }
        if overlay.spent(base, next) {
            assert(after == next);
        }
        assert forall|i: int| 0 <= i < n implies includes_all(after, #[trigger] course.listed(i))
            || i == n - 1 && full && after.truncated by {
            if i == 0 {
                assert(course.listed(0) == edges);
                if includes_all(next, edges) {
                    assert forall|k: int|
                        0 <= k < edges.len() implies #[trigger] states_relationship(
                        after,
                        edges[k],
                    ) by {
                        assert(states_relationship(next, edges[k]));
                        lemma_states_kept(next, after, edges[k]);
                    }
                }
            } else {
                assert(course.listed(i) == tail.listed(i - 1));
            }
        }
        assert forall|k: int| sub.edges.len() <= k < after.edges.len() implies course.has_listed(
            #[trigger] after.edges[k],
        ) by {
            if k < next.edges.len() {
                assert(after.edges[k] == next.edges[k]);
                let m = choose|m: int| 0 <= m < edges.len() && edges[m] == next.edges[k];
                assert(course.listed(0)[m] == after.edges[k]);
            } else {
                assert(tail.has_listed(after.edges[k]));
                let (i, m) = choose|i: int, m: int|
                    {
                        &&& 0 <= i < tail.len()
                        &&& 0 <= m < tail.listed(i).len()
                        &&& #[trigger] tail.listed(i)[m] == after.edges[k]
                    };
                assert(course.listed(i + 1) == tail.listed(i));
                assert(course.listed(i + 1)[m] == after.edges[k]);
            }
        }
        course
    }
}

/// A traversal runs through the home nodes in their order, and at each through what points at it
/// and then what leaves it. It includes what is listed there and nothing else, and logs what the
/// listings log and nothing else. It stops early only where as many nodes were added as the budget
/// allows.
pub proof fn law_traversal_runs_through_the_listings<'a, H: HomeEngine, F: ForeignEngine>(
    overlay: OverlayReader<'a, H, F>,
    home: SubgraphView,
    log: Seq<Seq<char>>,
    after: SubgraphView,
    log_after: Seq<Seq<char>>,
)
    requires
        overlay.kinds().len() > 0,
        overlay.budget().max_cross_hops > 0,
        overlay.traversal_ends(home, log, (Ok::<SubgraphView, Error>(after), log_after)),
    ensures
        exists|course: Course| #[trigger]
            overlay.takes_course(
                home.nodes.len(),
                symbols_of(home),
                home,
                log,
                after,
                log_after,
                course,
            ),
{
    let anchors = anchors_of(home);
    let ids = symbols_of(home);
    assert(ids_of(anchors) =~= ids);
    let course = lemma_anchors_course(
        overlay,
        home.nodes.len(),
        anchors,
        home,
        log,
        after,
        log_after,
    );
    assert(overlay.takes_course(home.nodes.len(), ids, home, log, after, log_after, course));
}

/// A traversal is the home engine's own, as it is, where nothing may cross: with no relationship
/// armed, no hop, or no node allowed. Else it is folded from a reply of the home engine.
pub proof fn law_traversal_starts_from_the_home_reply<'a, H: HomeEngine, F: ForeignEngine>(
    overlay: OverlayReader<'a, H, F>,
    starts: &[SymbolId],
    spec: &TraversalSpec,
    log: Seq<Seq<char>>,
    after: SubgraphView,
    log_after: Seq<Seq<char>>,
)
    requires
        overlay.traverse_ends(starts, spec, log, (Ok::<SubgraphView, Error>(after), log_after)),
    ensures
        exists|sub: Subgraph|
            {
                &&& #[trigger] call_ensures(
                    H::traverse_multi,
                    (overlay.home(), starts, spec),
                    Ok::<Subgraph, Error>(sub),
                )
                &&& overlay.traversal_ends(
                    sub@,
                    log,
                    (Ok::<SubgraphView, Error>(after), log_after),
                )
                &&& sub.nodes@.is_prefix_of(after.nodes)
                &&& sub.edges@.is_prefix_of(after.edges)
                &&& overlay.kinds().len() == 0 || overlay.budget().max_cross_hops == 0
                    || overlay.budget().max_cross_nodes == 0 ==> after == sub@ && log_after == log
            },
{
    let end = (Ok::<SubgraphView, Error>(after), log_after);
    let home = choose|home: Result<Subgraph, Error>| #[trigger]
        call_ensures(H::traverse_multi, (overlay.home(), starts, spec), home) && match home {
            Err(e) => end == (Err::<SubgraphView, Error>(e), log),
            Ok(sub) => overlay.traversal_ends(sub@, log, end),
        };
    let sub = home->Ok_0;
    assert(home == Ok::<Subgraph, Error>(sub));
    law_traversal_keeps_the_home_part(overlay, sub@, log, after, log_after);
}

impl<'a, H: HomeEngine, F: ForeignEngine> OverlayReader<'a, H, F> {
    /// Whether a node that was added stands one step beyond a home node, or nearer where a nearer
    /// distance was on record, and was found where the other end of an added edge at that home node
    /// was looked up.
    pub open spec fn is_beyond(
        &self,
        home: SubgraphView,
        after: SubgraphView,
        node: Node,
        k: int,
    ) -> bool {
        let from = home.nodes[k].symbol.0@;
        let symbol = node.symbol.0@;
        &&& after.depths.contains_key(symbol)
        &&& after.depths[symbol] as int == if home.depths.contains_key(symbol)
            && home.depths[symbol] <= distance(home, from) {
            home.depths[symbol] as int
        } else {
            distance(home, from) + 1
        }
        &&& exists|e: int, id: SymbolId|
            {
                &&& home.edges.len() <= e < after.edges.len()
                &&& id@ == other_end(#[trigger] after.edges[e], from)
                &&& id@ != from
                &&& #[trigger] self.first_with_node(id, Ok::<Option<Node>, Error>(Some(node)))
                &&& self.may_cross_at(after.edges[e], from)
            }
    }
}

/// Every node that a traversal adds stands one step beyond a home node, or nearer where a nearer
/// distance was on record for it, and is what the engines replied for the other end of an added
/// edge at that home node.
pub proof fn law_added_node_is_beyond_a_home_node<'a, H: HomeEngine, F: ForeignEngine>(
    overlay: OverlayReader<'a, H, F>,
    home: SubgraphView,
    log: Seq<Seq<char>>,
    after: SubgraphView,
    log_after: Seq<Seq<char>>,
    i: int,
)
    requires
        overlay.traversal_ends(home, log, (Ok::<SubgraphView, Error>(after), log_after)),
        home.nodes.len() <= i < after.nodes.len(),
    ensures
        exists|k: int|
            0 <= k < home.nodes.len() && #[trigger] overlay.is_beyond(
                home,
                after,
                after.nodes[i],
                k,
            ),
{
    let anchors = anchors_of(home);
    let node = after.nodes[i];
    law_traversal_adds_one_step(overlay, home, log, after, log_after);
    assert(overlay.some_anchor_pulls(anchors, home, after, after.nodes[i]));
    let k = choose|k: int|
        0 <= k < anchors.len() && overlay.anchor_pulls(#[trigger] anchors[k], home, after, node);
    let e = choose|e: int|
        {
            &&& home.edges.len() <= e < after.edges.len()
            &&& overlay.pulls(anchors[k].0, #[trigger] after.edges[e], node)
            &&& overlay.may_cross_at(after.edges[e], anchors[k].0@)
        };
    let id = OverlayReader::<'a, H, F>::far_end(after.edges[e], anchors[k].0);
    let found = Ok::<Option<Node>, Error>(Some(node));
    law_node_comes_from_the_first_that_has_it(overlay, id, found);
    assert(overlay.first_with_node(id, found));
    assert(id@ == other_end(after.edges[e], home.nodes[k].symbol.0@));
    assert(overlay.is_beyond(home, after, node, k));
}

/// A traversal leaves a node out only where the budget is used up. Over a private store, with
/// engines that answer steadily and room for the cross-store edges at each home node, either as
/// many nodes were added as the budget allows, or the traversal has exactly the home nodes and what
/// is one step across the store boundary from one of them.
pub proof fn law_traversal_is_full_or_complete<'a, H: HomeEngine, F: ForeignEngine>(
    overlay: OverlayReader<'a, H, F>,
    nodes: Map<Seq<char>, Node>,
    home: SubgraphView,
    log: Seq<Seq<char>>,
    after: SubgraphView,
    log_after: Seq<Seq<char>>,
)
    requires
        overlay.steps_across(),
        overlay.is_steady(nodes),
        overlay.is_settled(home, nodes),
        overlay.has_room_at(home),
        overlay.traversal_ends(home, log, (Ok::<SubgraphView, Error>(after), log_after)),
    ensures
        after.nodes.len() == home.nodes.len() + overlay.budget().max_cross_nodes || forall|
            to: Seq<char>,
        | #[trigger]
            after.has_node(to) <==> {
                ||| home.has_node(to)
                ||| exists|from: Seq<char>| #[trigger]
                    home.has_node(from) && overlay.reaches(nodes, from, to)
            },
{
    law_traversal_keeps_the_home_part(overlay, home, log, after, log_after);
    if after.nodes.len() < home.nodes.len() + overlay.budget().max_cross_nodes {
        law_traversal_reaches_one_step(overlay, nodes, home, log, after, log_after);
    }
}

/// Whether the other end of an edge at a home node was looked up, and what was found is in the
/// subgraph. An edge from a node to itself has no other end.
pub open spec fn far_end_is_there<'a, H: HomeEngine, F: ForeignEngine>(
    overlay: OverlayReader<'a, H, F>,
    from: Seq<char>,
    edge: Edge,
    after: SubgraphView,
) -> bool {
    ||| other_end(edge, from) == from
    ||| exists|id: SymbolId, found: Option<Node>|
        {
            &&& id@ == other_end(edge, from)
            &&& #[trigger] overlay.first_with_node(id, Ok::<Option<Node>, Error>(found))
            &&& found is Some ==> after.has_node(found->Some_0.symbol@)
        }
}

proof fn lemma_far_end_kept<'a, H: HomeEngine, F: ForeignEngine>(
    overlay: OverlayReader<'a, H, F>,
    from: Seq<char>,
    edge: Edge,
    before: SubgraphView,
    after: SubgraphView,
)
    requires
        far_end_is_there(overlay, from, edge, before),
        before.nodes.is_prefix_of(after.nodes),
    ensures
        far_end_is_there(overlay, from, edge, after),
{
    if other_end(edge, from) != from {
        let (id, found) = choose|id: SymbolId, found: Option<Node>|
            {
                &&& id@ == other_end(edge, from)
                &&& #[trigger] overlay.first_with_node(id, Ok::<Option<Node>, Error>(found))
                &&& found is Some ==> before.has_node(found->Some_0.symbol@)
            };
        if found is Some {
            lemma_has_node_kept(before, after, found->Some_0.symbol@);
        }
        assert(overlay.first_with_node(id, Ok::<Option<Node>, Error>(found)));
    }
}

proof fn lemma_anchor_looks_up<'a, H: HomeEngine, F: ForeignEngine>(
    overlay: OverlayReader<'a, H, F>,
    base: nat,
    anchor: SymbolId,
    depth: u32,
    edges: Seq<Edge>,
    sub: SubgraphView,
    after: SubgraphView,
)
    requires
        overlay.anchor_ends(
            base,
            anchor,
            depth,
            edges,
            sub,
            Ok::<SubgraphView, Error>(after),
        ),
    ensures
        forall|k: int|
            sub.edges.len() <= k < after.edges.len() ==> #[trigger] far_end_is_there(
                overlay,
                anchor@,
                after.edges[k],
                after,
            ),
    decreases edges.len(),
{
    let end = Ok::<SubgraphView, Error>(after);
    if edges.len() > 0 && !overlay.spent(base, sub) {
        let rest = edges.skip(1);
        if sub.has_relationship(edges[0].relationship()) {
            lemma_anchor_looks_up(overlay, base, anchor, depth, rest, sub, after);
        } else {
            let far_id = OverlayReader::<'a, H, F>::far_end(edges[0], anchor);
            let far = choose|far: Result<Option<Node>, Error>| #[trigger]
                overlay.far_reply(far_id, anchor, far) && match far {
                    Err(e) => end == Err::<SubgraphView, Error>(e),
                    Ok(node) => match sub.with_edge(depth, edges[0], node) {
                        None => end == Err::<SubgraphView, Error>(Error::DepthOverflow),
                        Some(next) => overlay.anchor_ends(base, anchor, depth, rest, next, end),
                    },
                };
            let found = far->Ok_0;
            let next = sub.with_edge(depth, edges[0], found)->Some_0;
            lemma_step(sub, depth, edges[0], found, next);
            if far_id@ != anchor@ {
                law_node_comes_from_the_first_that_has_it(overlay, far_id, far);
                assert(overlay.first_with_node(far_id, Ok::<Option<Node>, Error>(found)));
            }
            assert(far_end_is_there(overlay, anchor@, edges[0], next));
            lemma_anchor_looks_up(overlay, base, anchor, depth, rest, next, after);
            lemma_anchor_grows(overlay, base, anchor, depth, rest, next, after);
            lemma_far_end_kept(overlay, anchor@, edges[0], next, after);
            assert forall|k: int|
                sub.edges.len() <= k < after.edges.len() implies #[trigger] far_end_is_there(
                overlay,
                anchor@,
                after.edges[k],
                after,
            ) by {
                if k == sub.edges.len() {
                    assert(next.edges[k] == edges[0]);
                    assert(after.edges[k] == next.edges[k]);
                }
            }
        }
    }
}

impl<'a, H: HomeEngine, F: ForeignEngine> OverlayReader<'a, H, F> {
    /// Whether the other end of an added edge at one of these ids was looked up, and what was found
    /// is there.
    pub open spec fn looks_up_from_some(
        &self,
        ids: Seq<Seq<char>>,
        edge: Edge,
        after: SubgraphView,
    ) -> bool {
        exists|i: int|
            {
                &&& 0 <= i < ids.len()
                &&& self.may_cross_at(edge, ids[i])
                &&& #[trigger] far_end_is_there(*self, ids[i], edge, after)
            }
    }
}

proof fn lemma_anchors_look_up<'a, H: HomeEngine, F: ForeignEngine>(
    overlay: OverlayReader<'a, H, F>,
    base: nat,
    anchors: Seq<(SymbolId, u32)>,
    sub: SubgraphView,
    log: Seq<Seq<char>>,
    after: SubgraphView,
    log_after: Seq<Seq<char>>,
)
    requires
        overlay.anchors_end(
            base,
            anchors,
            sub,
            log,
            (Ok::<SubgraphView, Error>(after), log_after),
        ),
        sub.nodes.len() <= base + overlay.budget().max_cross_nodes,
    ensures
        forall|k: int|
            sub.edges.len() <= k < after.edges.len() ==> #[trigger] overlay.looks_up_from_some(
                ids_of(anchors),
                after.edges[k],
                after,
            ),
    decreases anchors.len(),
{
    let end = (Ok::<SubgraphView, Error>(after), log_after);
    if anchors.len() > 0 && !overlay.spent(base, sub) {
        let ids = ids_of(anchors);
        let rest = anchors.skip(1);
        let anchor = anchors[0];
        let (first, second, added) = lemma_unfold_anchors(overlay, base, anchors, sub, log, end);
        let pointing = first.0->Ok_0;
        let leaving = second.0->Ok_0;
        let next = added->Ok_0;
        let edges = pointing + leaving;
        assert(first == (Ok::<Seq<Edge>, Error>(pointing), first.1));
        assert(second == (Ok::<Seq<Edge>, Error>(leaving), second.1));
        assert(added == Ok::<SubgraphView, Error>(next));
        lemma_listed_edges_cross(
            overlay,
            anchor.0@,
            log,
            pointing,
            first.1,
            leaving,
            second.1,
        );
        lemma_anchor(overlay, base, anchor.0, anchor.1, edges, sub, next);
        lemma_anchor_looks_up(overlay, base, anchor.0, anchor.1, edges, sub, next);
        lemma_anchors(overlay, base, rest, next, second.1, after, log_after);
        lemma_anchors_look_up(overlay, base, rest, next, second.1, after, log_after);
        assert forall|k: int|
            sub.edges.len() <= k < after.edges.len() implies #[trigger] overlay.looks_up_from_some(
            ids,
            after.edges[k],
            after,
        ) by {
            if k < next.edges.len() {
                assert(after.edges[k] == next.edges[k]);
                assert(far_end_is_there(overlay, anchor.0@, next.edges[k], next));
                lemma_far_end_kept(overlay, anchor.0@, next.edges[k], next, after);
                let m = choose|m: int| 0 <= m < edges.len() && edges[m] == next.edges[k];
                assert(overlay.may_cross_at(edges[m], anchor.0@));
                assert(far_end_is_there(overlay, ids[0], after.edges[k], after));
            } else {
                assert(overlay.looks_up_from_some(ids_of(rest), after.edges[k], after));
                let i = choose|i: int|
                    {
                        &&& 0 <= i < ids_of(rest).len()
                        &&& overlay.may_cross_at(after.edges[k], ids_of(rest)[i])
                        &&& #[trigger] far_end_is_there(
                            overlay,
                            ids_of(rest)[i],
                            after.edges[k],
                            after,
                        )
                    };
                assert(ids_of(rest)[i] == ids[i + 1]);
                assert(far_end_is_there(overlay, ids[i + 1], after.edges[k], after));
            }
        }
    }
}

/// With every edge that a traversal adds at a home node, the other end was looked up, and the node
/// that was found is in the result.
pub proof fn law_added_edge_brings_its_far_end<'a, H: HomeEngine, F: ForeignEngine>(
    overlay: OverlayReader<'a, H, F>,
    home: SubgraphView,
    log: Seq<Seq<char>>,
    after: SubgraphView,
    log_after: Seq<Seq<char>>,
    k: int,
)
    requires
        overlay.traversal_ends(home, log, (Ok::<SubgraphView, Error>(after), log_after)),
        home.edges.len() <= k < after.edges.len(),
    ensures
        overlay.looks_up_from_some(
            symbols_of(home),
            after.edges[k],
            after,
        ),
{
    let anchors = anchors_of(home);
    assert(ids_of(anchors) =~= symbols_of(home));
    lemma_anchors_look_up(overlay, home.nodes.len(), anchors, home, log, after, log_after);
    assert(overlay.looks_up_from_some(ids_of(anchors), after.edges[k], after));
}

} // verus!
