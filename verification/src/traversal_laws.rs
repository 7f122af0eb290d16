//! What holds of traversals across the stores as a whole: what they add to the home engine's own
//! traversal, and what they leave alone.

use crate::engine::{ForeignEngine, HomeEngine};
use crate::error::Error;
use crate::graph::{Direction, Edge, Node, Relationship, Subgraph, SubgraphView, SymbolId};
use crate::overlay::{anchors_of, OverlayReader};
use crate::overlay_laws::{
    law_cross_edges_are_live_and_on_record, law_only_estate_ids_go_stale, lemma_live_edge_crosses,
};
use crate::store::XedgeStore;
use crate::xedge::{XEdge, ABOUT, ESTATE_ENGINE, MEMORY_ENGINE};
use vstd::prelude::*;
use wicked_estate_core::TraversalSpec;

verus! {

impl SubgraphView {
    /// Whether both have the same distance on record for a symbol, or both none.
    pub open spec fn same_depth(self, other: SubgraphView, symbol: Seq<char>) -> bool {
        &&& self.depths.contains_key(symbol) == other.depths.contains_key(symbol)
        &&& self.depths.contains_key(symbol) ==> self.depths[symbol] == other.depths[symbol]
    }

    /// Whether `after` is this subgraph with more in it. What was there stays, in its place and at
    /// its distance. No node and no relationship is added twice.
    pub open spec fn grows_to(self, after: SubgraphView) -> bool {
        &&& self.nodes.is_prefix_of(after.nodes)
        &&& self.edges.is_prefix_of(after.edges)
        &&& self.truncated ==> after.truncated
        &&& forall|symbol: Seq<char>|
            self.has_node(symbol) || !after.has_node(symbol) ==> #[trigger] self.same_depth(
                after,
                symbol,
            )
        &&& forall|i: int, j: int|
            0 <= j < i < after.nodes.len() && i >= self.nodes.len() ==> (
            #[trigger] after.nodes[i]).symbol@ != (#[trigger] after.nodes[j]).symbol@
        &&& forall|i: int, j: int|
            0 <= j < i < after.edges.len() && i >= self.edges.len() ==> (
            #[trigger] after.edges[i]).relationship() != (#[trigger] after.edges[j]).relationship()
    }

    /// Whether a symbol that was not in this subgraph is in `after`, one step beyond `depth`, or
    /// nearer if a nearer distance was on record.
    pub open spec fn places(self, after: SubgraphView, symbol: Seq<char>, depth: u32) -> bool {
        &&& depth < u32::MAX
        &&& after.depths.contains_key(symbol)
        &&& after.depths[symbol] == self.depths_with(symbol, (depth + 1) as u32)[symbol]
    }
}

pub(crate) proof fn lemma_has_node_kept(before: SubgraphView, after: SubgraphView, symbol: Seq<char>)
    requires
        before.nodes.is_prefix_of(after.nodes),
        before.has_node(symbol),
    ensures
        after.has_node(symbol),
{
    let i = choose|i: int|
        0 <= i < before.nodes.len() && (#[trigger] before.nodes[i]).symbol@ == symbol;
    assert(after.nodes[i] == before.nodes[i]);
}

pub(crate) proof fn lemma_prefix_trans<T>(a: Seq<T>, b: Seq<T>, c: Seq<T>)
    requires
        a.is_prefix_of(b),
        b.is_prefix_of(c),
    ensures
        a.is_prefix_of(c),
{
    assert forall|i: int| 0 <= i < a.len() implies a[i] == c[i] by {
        assert(a[i] == b[i] && b[i] == c[i]);
    }
    assert(a =~= c.subrange(0, a.len() as int));
}

pub(crate) proof fn lemma_grows_refl(sub: SubgraphView)
    ensures
        sub.grows_to(sub),
{
    assert(sub.nodes =~= sub.nodes.subrange(0, sub.nodes.len() as int));
    assert(sub.edges =~= sub.edges.subrange(0, sub.edges.len() as int));
}

pub(crate) proof fn lemma_grows_trans(a: SubgraphView, b: SubgraphView, c: SubgraphView)
    requires
        a.grows_to(b),
        b.grows_to(c),
    ensures
        a.grows_to(c),
{
    lemma_prefix_trans(a.nodes, b.nodes, c.nodes);
    lemma_prefix_trans(a.edges, b.edges, c.edges);
    assert forall|symbol: Seq<char>| a.has_node(symbol) || !c.has_node(symbol) implies
        #[trigger] a.same_depth(c, symbol) by {
        if a.has_node(symbol) {
            lemma_has_node_kept(a, b, symbol);
        } else if b.has_node(symbol) {
            lemma_has_node_kept(b, c, symbol);
        }
        assert(a.same_depth(b, symbol));
        assert(b.same_depth(c, symbol));
    }
    assert forall|i: int, j: int|
        0 <= j < i < c.nodes.len() && i >= a.nodes.len() implies (
    #[trigger] c.nodes[i]).symbol@ != (#[trigger] c.nodes[j]).symbol@ by {
        if i < b.nodes.len() {
            assert(c.nodes[i] == b.nodes[i] && c.nodes[j] == b.nodes[j]);
        }
    }
    assert forall|i: int, j: int|
        0 <= j < i < c.edges.len() && i >= a.edges.len() implies (
    #[trigger] c.edges[i]).relationship() != (#[trigger] c.edges[j]).relationship() by {
        if i < b.edges.len() {
            assert(c.edges[i] == b.edges[i] && c.edges[j] == b.edges[j]);
        }
    }
}

pub(crate) proof fn lemma_step(
    sub: SubgraphView,
    depth: u32,
    edge: Edge,
    far: Option<Node>,
    next: SubgraphView,
)
    requires
        !sub.has_relationship(edge.relationship()),
        sub.with_edge(depth, edge, far) == Some(next),
    ensures
        sub.grows_to(next),
        next.edges == sub.edges.push(edge),
        next.nodes == sub.nodes || far is Some && next.nodes == sub.nodes.push(far->Some_0)
            && sub.places(next, far->Some_0.symbol@, depth),
        far is Some ==> next.has_node(far->Some_0.symbol@),
{
    assert(sub.nodes.is_prefix_of(next.nodes)) by {
        assert(sub.nodes =~= next.nodes.subrange(0, sub.nodes.len() as int));
    }
    assert(sub.edges.is_prefix_of(next.edges)) by {
        assert(sub.edges =~= next.edges.subrange(0, sub.edges.len() as int));
    }
    if far is Some && !sub.has_node(far->Some_0.symbol@) {
        assert(next.nodes[sub.nodes.len() as int] == far->Some_0);
    }
    assert forall|symbol: Seq<char>| sub.has_node(symbol) || !next.has_node(symbol) implies
        #[trigger] sub.same_depth(next, symbol) by {
        if far is Some {
            assert(sub.has_node(far->Some_0.symbol@) || next.has_node(far->Some_0.symbol@));
        }
    }
    assert forall|i: int, j: int|
        0 <= j < i < next.nodes.len() && i >= sub.nodes.len() implies (
    #[trigger] next.nodes[i]).symbol@ != (#[trigger] next.nodes[j]).symbol@ by {
        assert(next.nodes[j] == sub.nodes[j]);
    }
    assert forall|i: int, j: int|
        0 <= j < i < next.edges.len() && i >= sub.edges.len() implies (
    #[trigger] next.edges[i]).relationship() != (#[trigger] next.edges[j]).relationship() by {
        assert(next.edges[j] == sub.edges[j]);
    }
}

impl<'a, H: HomeEngine, F: ForeignEngine> OverlayReader<'a, H, F> {
    /// Whether a node may be what was found at the far end of a cross-store edge of an anchor.
    pub open spec fn pulls(&self, anchor: SymbolId, edge: Edge, node: Node) -> bool {
        self.far_reply(
            Self::far_end(edge, anchor),
            anchor,
            Ok::<Option<Node>, Error>(Some(node)),
        )
    }

    /// Whether a node that was added was found at the far end of an added edge of an anchor.
    pub open spec fn pulled_by(
        &self,
        anchor: SymbolId,
        before: SubgraphView,
        after: SubgraphView,
        node: Node,
    ) -> bool {
        exists|e: int|
            before.edges.len() <= e < after.edges.len() && self.pulls(
                anchor,
                #[trigger] after.edges[e],
                node,
            )
    }

    /// Whether an edge may be a cross-store edge at an id.
    pub open spec fn may_cross_at(&self, edge: Edge, id: Seq<char>) -> bool {
        ||| self.is_accounted_for(edge, Direction::Dependents, id)
        ||| self.is_accounted_for(edge, Direction::Dependencies, id)
    }

    /// Whether some anchor accounts for an edge that a traversal added.
    pub open spec fn some_anchor_crosses(
        &self,
        anchors: Seq<(SymbolId, u32)>,
        edge: Edge,
    ) -> bool {
        exists|k: int|
            0 <= k < anchors.len() && self.may_cross_at(edge, (#[trigger] anchors[k]).0@)
    }

    /// Whether a node that a traversal added was found at the far end of an added edge of this
    /// anchor, and stands one step beyond it.
    pub open spec fn anchor_pulls(
        &self,
        anchor: (SymbolId, u32),
        before: SubgraphView,
        after: SubgraphView,
        node: Node,
    ) -> bool {
        &&& before.places(after, node.symbol@, anchor.1)
        &&& exists|e: int|
            {
                &&& before.edges.len() <= e < after.edges.len()
                &&& self.pulls(anchor.0, #[trigger] after.edges[e], node)
                &&& self.may_cross_at(after.edges[e], anchor.0@)
            }
    }

    /// Whether some anchor accounts for a node that a traversal added.
    pub open spec fn some_anchor_pulls(
        &self,
        anchors: Seq<(SymbolId, u32)>,
        before: SubgraphView,
        after: SubgraphView,
        node: Node,
    ) -> bool {
        exists|k: int|
            0 <= k < anchors.len() && self.anchor_pulls(
                #[trigger] anchors[k],
                before,
                after,
                node,
            )
    }
}

pub(crate) proof fn lemma_anchor<'a, H: HomeEngine, F: ForeignEngine>(
    overlay: OverlayReader<'a, H, F>,
    base: nat,
    anchor: SymbolId,
    depth: u32,
    edges: Seq<Edge>,
    sub: SubgraphView,
    after: SubgraphView,
)
    requires
        overlay.anchor_ends(
            base,
            anchor,
            depth,
            edges,
            sub,
            Ok::<SubgraphView, Error>(after),
        ),
        sub.nodes.len() <= base + overlay.budget().max_cross_nodes,
    ensures
        sub.grows_to(after),
        after.nodes.len() <= base + overlay.budget().max_cross_nodes,
        forall|e: int|
            sub.edges.len() <= e < after.edges.len() ==> edges.contains(#[trigger] after.edges[e]),
        forall|i: int|
            sub.nodes.len() <= i < after.nodes.len() ==> sub.places(
                after,
                (#[trigger] after.nodes[i]).symbol@,
                depth,
            ) && overlay.pulled_by(anchor, sub, after, after.nodes[i]),
    decreases edges.len(),
{
    let end = Ok::<SubgraphView, Error>(after);
    if edges.len() == 0 || overlay.spent(base, sub) {
        lemma_grows_refl(sub);
        assert(sub.grows_to(after)) by {
            assert forall|symbol: Seq<char>| sub.has_node(symbol) || !after.has_node(symbol) implies
                #[trigger] sub.same_depth(after, symbol) by {}
        }
    } else {
        let rest = edges.skip(1);
        if sub.has_relationship(edges[0].relationship()) {
            lemma_anchor(overlay, base, anchor, depth, rest, sub, after);
            assert forall|e: int| sub.edges.len() <= e < after.edges.len() implies edges.contains(
                #[trigger] after.edges[e],
            ) by {
                let k = choose|k: int| 0 <= k < rest.len() && rest[k] == after.edges[e];
                assert(edges[k + 1] == after.edges[e]);
            }
        } else {
            let far = choose|far: Result<Option<Node>, Error>| #[trigger]
                overlay.far_reply(
                    OverlayReader::<'a, H, F>::far_end(edges[0], anchor),
                    anchor,
                    far,
                ) && match far {
                    Err(e) => end == Err::<SubgraphView, Error>(e),
                    Ok(node) => match sub.with_edge(depth, edges[0], node) {
                        None => end == Err::<SubgraphView, Error>(Error::DepthOverflow),
                        Some(next) => overlay.anchor_ends(base, anchor, depth, rest, next, end),
                    },
                };
            let node = far->Ok_0;
            let next = sub.with_edge(depth, edges[0], node)->Some_0;
            lemma_step(sub, depth, edges[0], node, next);
            lemma_anchor(overlay, base, anchor, depth, rest, next, after);
            lemma_grows_trans(sub, next, after);
            assert(next.edges[sub.edges.len() as int] == edges[0]);
            assert(after.edges[sub.edges.len() as int] == edges[0]);
            assert forall|e: int| sub.edges.len() <= e < after.edges.len() implies edges.contains(
                #[trigger] after.edges[e],
            ) by {
                if e > sub.edges.len() {
                    let k = choose|k: int| 0 <= k < rest.len() && rest[k] == after.edges[e];
                    assert(edges[k + 1] == after.edges[e]);
                }
            }
            assert forall|i: int| sub.nodes.len() <= i < after.nodes.len() implies sub.places(
                after,
                (#[trigger] after.nodes[i]).symbol@,
                depth,
            ) && overlay.pulled_by(anchor, sub, after, after.nodes[i]) by {
                let symbol = after.nodes[i].symbol@;
                if i < next.nodes.len() {
                    assert(after.nodes[i] == next.nodes[i]);
                    assert(next.has_node(symbol));
                    assert(next.same_depth(after, symbol));
                    assert(overlay.pulls(
                        anchor,
                        after.edges[sub.edges.len() as int],
                        after.nodes[i],
                    ));
                } else {
                    assert(overlay.pulled_by(anchor, next, after, after.nodes[i]));
                    let e = choose|e: int|
                        next.edges.len() <= e < after.edges.len() && overlay.pulls(
                            anchor,
                            #[trigger] after.edges[e],
                            after.nodes[i],
                        );
                    assert(!next.has_node(symbol)) by {
                        if next.has_node(symbol) {
                            let j = choose|j: int|
                                0 <= j < next.nodes.len() && (
                                #[trigger] next.nodes[j]).symbol@ == symbol;
                            assert(after.nodes[j] == next.nodes[j]);
                        }
                    }
                    assert(sub.same_depth(next, symbol));
                    assert(overlay.pulls(anchor, after.edges[e], after.nodes[i]));
                }
            }
        }
    }
}

pub(crate) proof fn lemma_not_there_before(before: SubgraphView, after: SubgraphView, i: int)
    requires
        before.grows_to(after),
        before.nodes.len() <= i < after.nodes.len(),
    ensures
        !before.has_node(after.nodes[i].symbol@),
        after.has_node(after.nodes[i].symbol@),
{
    let symbol = after.nodes[i].symbol@;
    if before.has_node(symbol) {
        let j = choose|j: int|
            0 <= j < before.nodes.len() && (#[trigger] before.nodes[j]).symbol@ == symbol;
        assert(after.nodes[j] == before.nodes[j]);
    }
}

pub(crate) proof fn lemma_anchors<'a, H: HomeEngine, F: ForeignEngine>(
    overlay: OverlayReader<'a, H, F>,
    base: nat,
    anchors: Seq<(SymbolId, u32)>,
    sub: SubgraphView,
    log: Seq<Seq<char>>,
    after: SubgraphView,
    log_after: Seq<Seq<char>>,
)
    requires
        overlay.anchors_end(
            base,
            anchors,
            sub,
            log,
            (Ok::<SubgraphView, Error>(after), log_after),
        ),
        sub.nodes.len() <= base + overlay.budget().max_cross_nodes,
    ensures
        sub.grows_to(after),
        after.nodes.len() <= base + overlay.budget().max_cross_nodes,
        log.is_prefix_of(log_after),
        forall|e: int|
            sub.edges.len() <= e < after.edges.len() ==> #[trigger] overlay.some_anchor_crosses(
                anchors,
                after.edges[e],
            ),
        forall|i: int|
            sub.nodes.len() <= i < after.nodes.len() ==> #[trigger] overlay.some_anchor_pulls(
                anchors,
                sub,
                after,
                after.nodes[i],
            ),
    decreases anchors.len(),
{
    let end = (Ok::<SubgraphView, Error>(after), log_after);
    if anchors.len() == 0 || overlay.spent(base, sub) {
        lemma_grows_refl(sub);
        assert(log =~= log.subrange(0, log.len() as int));
    } else {
        let rest = anchors.skip(1);
        let anchor = anchors[0];
        let (first, second, added) = lemma_unfold_anchors(overlay, base, anchors, sub, log, end);
        let pointing = first.0->Ok_0;
        let leaving = second.0->Ok_0;
        let next = added->Ok_0;
        law_cross_edges_are_live_and_on_record(
            overlay,
            anchor.0@,
            Direction::Dependents,
            log,
            pointing,
            first.1,
        );
        law_cross_edges_are_live_and_on_record(
            overlay,
            anchor.0@,
            Direction::Dependencies,
            first.1,
            leaving,
            second.1,
        );
        lemma_anchor(overlay, base, anchor.0, anchor.1, pointing + leaving, sub, next);
        lemma_anchors(overlay, base, rest, next, second.1, after, log_after);
        lemma_grows_trans(sub, next, after);
        lemma_prefix_trans(log, first.1, second.1);
        lemma_prefix_trans(log, second.1, log_after);
        assert forall|e: int| sub.edges.len() <= e < next.edges.len() implies overlay.may_cross_at(
            #[trigger] next.edges[e],
            anchor.0@,
        ) by {
            let k = choose|k: int|
                0 <= k < (pointing + leaving).len() && (pointing + leaving)[k] == next.edges[e];
            if k < pointing.len() {
                assert(overlay.is_accounted_for(pointing[k], Direction::Dependents, anchor.0@));
            } else {
                assert(overlay.is_accounted_for(
                    leaving[k - pointing.len()],
                    Direction::Dependencies,
                    anchor.0@,
                ));
            }
        }
        assert forall|e: int|
            sub.edges.len() <= e < after.edges.len() implies #[trigger] overlay.some_anchor_crosses(
            anchors,
            after.edges[e],
        ) by {
            if e < next.edges.len() {
                assert(after.edges[e] == next.edges[e]);
                assert(overlay.may_cross_at(after.edges[e], anchors[0].0@));
            } else {
                assert(overlay.some_anchor_crosses(rest, after.edges[e]));
                let k = choose|k: int|
                    0 <= k < rest.len() && overlay.may_cross_at(
                        after.edges[e],
                        (#[trigger] rest[k]).0@,
                    );
                assert(anchors[k + 1] == rest[k]);
            }
        }
        assert forall|i: int|
            sub.nodes.len() <= i < after.nodes.len() implies #[trigger] overlay.some_anchor_pulls(
            anchors,
            sub,
            after,
            after.nodes[i],
        ) by {
            let node = after.nodes[i];
            let symbol = node.symbol@;
            if i < next.nodes.len() {
                assert(next.nodes[i] == node);
                assert(overlay.pulled_by(anchor.0, sub, next, next.nodes[i]));
                let e = choose|e: int|
                    sub.edges.len() <= e < next.edges.len() && overlay.pulls(
                        anchor.0,
                        #[trigger] next.edges[e],
                        next.nodes[i],
                    );
                assert(after.edges[e] == next.edges[e]);
                assert(overlay.may_cross_at(next.edges[e], anchor.0@));
                lemma_not_there_before(sub, next, i);
                assert(next.same_depth(after, symbol));
                assert(sub.places(next, symbol, anchor.1));
                assert(sub.places(after, symbol, anchor.1));
                assert(overlay.anchor_pulls(anchors[0], sub, after, node));
            } else {
                assert(overlay.some_anchor_pulls(rest, next, after, node));
                let k = choose|k: int|
                    0 <= k < rest.len() && overlay.anchor_pulls(
                        #[trigger] rest[k],
                        next,
                        after,
                        node,
                    );
                lemma_not_there_before(next, after, i);
                assert(sub.same_depth(next, symbol));
                let e = choose|e: int|
                    {
                        &&& next.edges.len() <= e < after.edges.len()
                        &&& overlay.pulls(rest[k].0, #[trigger] after.edges[e], node)
                        &&& overlay.may_cross_at(after.edges[e], rest[k].0@)
                    };
                assert(anchors[k + 1] == rest[k]);
                assert(overlay.pulls(anchors[k + 1].0, after.edges[e], node));
                assert(sub.places(after, symbol, anchors[k + 1].1));
                assert(overlay.anchor_pulls(anchors[k + 1], sub, after, node));
            }
        }
    }
}

/// The three steps of expanding the first anchor.
pub(crate) proof fn lemma_unfold_anchors<'a, H: HomeEngine, F: ForeignEngine>(
    overlay: OverlayReader<'a, H, F>,
    base: nat,
    anchors: Seq<(SymbolId, u32)>,
    sub: SubgraphView,
    log: Seq<Seq<char>>,
    end: (Result<SubgraphView, Error>, Seq<Seq<char>>),
) -> (steps: (
    (Result<Seq<Edge>, Error>, Seq<Seq<char>>),
    (Result<Seq<Edge>, Error>, Seq<Seq<char>>),
    Result<SubgraphView, Error>,
))
    requires
        overlay.anchors_end(base, anchors, sub, log, end),
        end.0 is Ok,
        anchors.len() > 0,
        !overlay.spent(base, sub),
    ensures
        steps.0.0 is Ok,
        steps.1.0 is Ok,
        steps.2 is Ok,
        overlay.cross_ends(anchors[0].0@, Direction::Dependents, log, steps.0),
        overlay.cross_ends(anchors[0].0@, Direction::Dependencies, steps.0.1, steps.1),
        overlay.anchor_ends(
            base,
            anchors[0].0,
            anchors[0].1,
            steps.0.0->Ok_0 + steps.1.0->Ok_0,
            sub,
            steps.2,
        ),
        overlay.anchors_end(base, anchors.skip(1), steps.2->Ok_0, steps.1.1, end),
{
    let anchor = anchors[0];
    let first = choose|first: (Result<Seq<Edge>, Error>, Seq<Seq<char>>)| #[trigger]
        overlay.cross_ends(anchor.0@, Direction::Dependents, log, first) && match first.0 {
            Err(e) => end == (Err::<SubgraphView, Error>(e), first.1),
            Ok(pointing) => exists|second: (Result<Seq<Edge>, Error>, Seq<Seq<char>>)| #[trigger]
                overlay.cross_ends(anchor.0@, Direction::Dependencies, first.1, second)
                    && match second.0 {
                    Err(e) => end == (Err::<SubgraphView, Error>(e), second.1),
                    Ok(leaving) => exists|added: Result<SubgraphView, Error>| #[trigger]
                        overlay.anchor_ends(
                            base,
                            anchor.0,
                            anchor.1,
                            pointing + leaving,
                            sub,
                            added,
                        ) && match added {
                            Err(e) => end == (Err::<SubgraphView, Error>(e), second.1),
                            Ok(next) => overlay.anchors_end(
                                base,
                                anchors.skip(1),
                                next,
                                second.1,
                                end,
                            ),
                        },
                },
        };
    let pointing = first.0->Ok_0;
    let second = choose|second: (Result<Seq<Edge>, Error>, Seq<Seq<char>>)| #[trigger]
        overlay.cross_ends(anchor.0@, Direction::Dependencies, first.1, second) && match second.0 {
            Err(e) => end == (Err::<SubgraphView, Error>(e), second.1),
            Ok(leaving) => exists|added: Result<SubgraphView, Error>| #[trigger]
                overlay.anchor_ends(
                    base,
                    anchor.0,
                    anchor.1,
                    pointing + leaving,
                    sub,
                    added,
                ) && match added {
                    Err(e) => end == (Err::<SubgraphView, Error>(e), second.1),
                    Ok(next) => overlay.anchors_end(base, anchors.skip(1), next, second.1, end),
                },
        };
    let leaving = second.0->Ok_0;
    let added = choose|added: Result<SubgraphView, Error>| #[trigger]
        overlay.anchor_ends(base, anchor.0, anchor.1, pointing + leaving, sub, added)
            && match added {
            Err(e) => end == (Err::<SubgraphView, Error>(e), second.1),
            Ok(next) => overlay.anchors_end(base, anchors.skip(1), next, second.1, end),
        };
    (first, second, added)
}

/// A traversal adds to the home engine's own and takes nothing from it. The home nodes and edges
/// come first, as they were, and the home nodes keep their distances. No node and no relationship
/// is added twice, and no more nodes are added than the budget allows. The log only grows.
pub proof fn law_traversal_keeps_the_home_part<'a, H: HomeEngine, F: ForeignEngine>(
    overlay: OverlayReader<'a, H, F>,
    home: SubgraphView,
    log: Seq<Seq<char>>,
    after: SubgraphView,
    log_after: Seq<Seq<char>>,
)
    requires
        overlay.traversal_ends(home, log, (Ok::<SubgraphView, Error>(after), log_after)),
    ensures
        home.grows_to(after),
        after.nodes.len() <= home.nodes.len() + overlay.budget().max_cross_nodes,
        log.is_prefix_of(log_after),
{
    if overlay.crosses() && overlay.budget().max_cross_hops > 0 {
        lemma_anchors(
            overlay,
            home.nodes.len(),
            anchors_of(home),
            home,
            log,
            after,
            log_after,
        );
    } else {
        lemma_grows_refl(home);
        assert(log =~= log.subrange(0, log.len() as int));
    }
}

/// What a traversal adds has crossed the store boundary by one step. Every added edge is a
/// cross-store edge at a home node: it comes from a cross-edge whose stamps may both be live. Every
/// added node was found at the far end of such an edge, and stands one step beyond its home node.
pub proof fn law_traversal_adds_one_step<'a, H: HomeEngine, F: ForeignEngine>(
    overlay: OverlayReader<'a, H, F>,
    home: SubgraphView,
    log: Seq<Seq<char>>,
    after: SubgraphView,
    log_after: Seq<Seq<char>>,
)
    requires
        overlay.traversal_ends(home, log, (Ok::<SubgraphView, Error>(after), log_after)),
    ensures
        forall|e: int|
            home.edges.len() <= e < after.edges.len() ==> #[trigger] overlay.some_anchor_crosses(
                anchors_of(home),
                after.edges[e],
            ),
        forall|i: int|
            home.nodes.len() <= i < after.nodes.len() ==> #[trigger] overlay.some_anchor_pulls(
                anchors_of(home),
                home,
                after,
                after.nodes[i],
            ),
{
    if overlay.crosses() && overlay.budget().max_cross_hops > 0 {
        lemma_anchors(
            overlay,
            home.nodes.len(),
            anchors_of(home),
            home,
            log,
            after,
            log_after,
        );
    }
}

impl<'a, H: HomeEngine, F: ForeignEngine> OverlayReader<'a, H, F> {
    /// Whether every lookup of a node that does not fail finds what `nodes` has, each node under
    /// its own symbol.
    pub open spec fn finds(&self, nodes: Map<Seq<char>, Node>) -> bool {
        &&& forall|id: SymbolId, reply: Result<Option<Node>, Error>| #[trigger]
            self.node_reply(id, reply) && reply is Ok ==> reply->Ok_0 == nodes.get(id@)
        &&& forall|id: Seq<char>| #[trigger]
            nodes.contains_key(id) ==> nodes[id].symbol@ == id
    }

    /// Whether a cross-edge at a node of the subgraph states this relationship: the private store
    /// holds it there with an armed relationship, and both of its stamps may be live.
    pub open spec fn crosses_as(&self, sub: SubgraphView, r: Relationship) -> bool {
        exists|row: XEdge, from: Seq<char>|
            {
                &&& #[trigger] self.holds_at(row, Direction::Both, from)
                &&& sub.has_node(from)
                &&& self.row_may_be_live(row)
                &&& row.relationship() == r
            }
    }

    /// Whether, of every relationship of `sub` that a cross-edge at a node of `home` states too,
    /// the ends are in `sub`, as far as they can be found at all.
    pub open spec fn is_settled_in(
        &self,
        home: SubgraphView,
        sub: SubgraphView,
        nodes: Map<Seq<char>, Node>,
    ) -> bool {
        forall|e: int|
            0 <= e < sub.edges.len() && self.crosses_as(
                home,
                (#[trigger] sub.edges[e]).relationship(),
            ) ==> {
                &&& nodes.contains_key(sub.edges[e].source@) ==> sub.has_node(
                    sub.edges[e].source@,
                )
                &&& nodes.contains_key(sub.edges[e].target@) ==> sub.has_node(
                    sub.edges[e].target@,
                )
            }
    }

    /// Whether a home subgraph leaves nothing to be found behind a relationship that it shares with
    /// a cross-edge. So it is where they share none.
    pub open spec fn is_settled(&self, home: SubgraphView, nodes: Map<Seq<char>, Node>) -> bool {
        self.is_settled_in(home, home, nodes)
    }

    /// Whether a home id reaches another id in one step across the store boundary: the private
    /// store holds an armed cross-edge with a live stamp at both ends between them, and the other
    /// id is found.
    pub open spec fn reaches(
        &self,
        nodes: Map<Seq<char>, Node>,
        from: Seq<char>,
        to: Seq<char>,
    ) -> bool {
        &&& from != to
        &&& nodes.contains_key(to)
        &&& exists|row: XEdge|
            {
                &&& #[trigger] self.holds_at(row, Direction::Both, from)
                &&& self.row_is_live(row)
                &&& row.source.stable_id@ == to || row.target.stable_id@ == to
            }
    }

    /// Whether the cross-edges at every node of a subgraph fit into the budget.
    pub open spec fn has_room_at(&self, sub: SubgraphView) -> bool {
        forall|i: int|
            0 <= i < sub.nodes.len() ==> {
                &&& self.has_room(Direction::Dependents, (#[trigger] sub.nodes[i]).symbol@)
                &&& self.has_room(Direction::Dependencies, sub.nodes[i].symbol@)
            }
    }

    /// Whether a traversal adds anything at all to that of the home engine.
    pub open spec fn steps_across(&self) -> bool {
        &&& self.crosses()
        &&& self.budget().max_cross_hops > 0
        &&& self.budget().max_cross_nodes > 0
    }

    /// Whether the engines and the store answer steadily: the store is private, a node is found or
    /// not whenever it is looked up, and a stamp is live or not whenever it is asked for.
    pub open spec fn is_steady(&self, nodes: Map<Seq<char>, Node>) -> bool {
        &&& self.xedge().is_private()
        &&& self.finds(nodes)
        &&& self.epochs_are_steady()
    }

    /// Whether a traversal for which the home engine replied with `home` finds room for everything
    /// that crosses.
    pub open spec fn stays_in_budget(&self, home: SubgraphView) -> bool {
        &&& self.has_room_at(home)
        &&& forall|log: Seq<Seq<char>>, after: SubgraphView, log_after: Seq<Seq<char>>|
            #[trigger]
            self.traversal_ends(home, log, (Ok::<SubgraphView, Error>(after), log_after))
                ==> !self.spent(home.nodes.len(), after)
    }
}

pub(crate) proof fn lemma_edge_at<'a, H: HomeEngine, F: ForeignEngine>(
    overlay: OverlayReader<'a, H, F>,
    home: SubgraphView,
    edge: Edge,
    id: Seq<char>,
)
    requires
        overlay.xedge().is_private(),
        overlay.may_cross_at(edge, id),
        home.has_node(id),
    ensures
        overlay.crosses_as(home, edge.relationship()),
        edge.source@ == id || edge.target@ == id,
{
    let dir = if overlay.is_accounted_for(edge, Direction::Dependents, id) {
        Direction::Dependents
    } else {
        Direction::Dependencies
    };
    let row = choose|row: XEdge| #[trigger] overlay.comes_from(edge, row, dir, id);
    assert(overlay.holds_at(row, dir, id));
    assert(overlay.holds_at(row, Direction::Both, id));
    assert(row.relationship() == edge.relationship());
}

proof fn lemma_anchor_complete<'a, H: HomeEngine, F: ForeignEngine>(
    overlay: OverlayReader<'a, H, F>,
    base: nat,
    anchor: SymbolId,
    depth: u32,
    edges: Seq<Edge>,
    home: SubgraphView,
    sub: SubgraphView,
    after: SubgraphView,
    nodes: Map<Seq<char>, Node>,
)
    requires
        overlay.anchor_ends(
            base,
            anchor,
            depth,
            edges,
            sub,
            Ok::<SubgraphView, Error>(after),
        ),
        !overlay.spent(base, after),
        overlay.finds(nodes),
        overlay.is_settled_in(home, sub, nodes),
        sub.has_node(anchor@),
        forall|k: int|
            0 <= k < edges.len() ==> {
                &&& overlay.crosses_as(home, (#[trigger] edges[k]).relationship())
                &&& edges[k].source@ == anchor@ || edges[k].target@ == anchor@
            },
    ensures
        overlay.is_settled_in(home, after, nodes),
        forall|k: int|
            0 <= k < edges.len() ==> {
                &&& nodes.contains_key((#[trigger] edges[k]).source@) ==> after.has_node(
                    edges[k].source@,
                )
                &&& nodes.contains_key(edges[k].target@) ==> after.has_node(edges[k].target@)
            },
    decreases edges.len(),
{
    let end = Ok::<SubgraphView, Error>(after);
    if edges.len() > 0 {
        assert(!overlay.spent(base, sub)) by {
            if overlay.spent(base, sub) {
                assert(after.nodes == sub.nodes);
            }
        }
        let rest = edges.skip(1);
        let edge = edges[0];
        if sub.has_relationship(edge.relationship()) {
            lemma_anchor_complete(overlay, base, anchor, depth, rest, home, sub, after, nodes);
            lemma_anchor_grows(overlay, base, anchor, depth, rest, sub, after);
            let e = choose|e: int|
                0 <= e < sub.edges.len() && (#[trigger] sub.edges[e]).relationship()
                    == edge.relationship();
            assert(sub.edges[e].source@ == edge.source@ && sub.edges[e].target@ == edge.target@
                && sub.edges[e].kind@ == edge.kind@);
            if sub.has_node(edge.source@) {
                lemma_has_node_kept(sub, after, edge.source@);
            }
            if sub.has_node(edge.target@) {
                lemma_has_node_kept(sub, after, edge.target@);
            }
        } else {
            let far_id = OverlayReader::<'a, H, F>::far_end(edge, anchor);
            let far = choose|far: Result<Option<Node>, Error>| #[trigger]
                overlay.far_reply(far_id, anchor, far) && match far {
                    Err(e) => end == Err::<SubgraphView, Error>(e),
                    Ok(node) => match sub.with_edge(depth, edge, node) {
                        None => end == Err::<SubgraphView, Error>(Error::DepthOverflow),
                        Some(next) => overlay.anchor_ends(base, anchor, depth, rest, next, end),
                    },
                };
            let node = far->Ok_0;
            let next = sub.with_edge(depth, edge, node)->Some_0;
            lemma_step(sub, depth, edge, node, next);
            lemma_has_node_kept(sub, next, anchor@);
            assert(nodes.contains_key(far_id@) ==> next.has_node(far_id@)) by {
                if far_id@ != anchor@ && nodes.contains_key(far_id@) {
                    assert(node == Some(nodes[far_id@]));
                }
            }
            assert(overlay.is_settled_in(home, next, nodes)) by {
                assert forall|e: int|
                    0 <= e < next.edges.len() && overlay.crosses_as(
                        home,
                        (#[trigger] next.edges[e]).relationship(),
                    ) implies {
                    &&& nodes.contains_key(next.edges[e].source@) ==> next.has_node(
                        next.edges[e].source@,
                    )
                    &&& nodes.contains_key(next.edges[e].target@) ==> next.has_node(
                        next.edges[e].target@,
                    )
                } by {
                    if e < sub.edges.len() {
                        assert(next.edges[e] == sub.edges[e]);
                        if sub.has_node(sub.edges[e].source@) {
                            lemma_has_node_kept(sub, next, sub.edges[e].source@);
                        }
                        if sub.has_node(sub.edges[e].target@) {
                            lemma_has_node_kept(sub, next, sub.edges[e].target@);
                        }
                    } else {
                        assert(next.edges[e] == edge);
                    }
                }
            }
            lemma_anchor_complete(overlay, base, anchor, depth, rest, home, next, after, nodes);
            lemma_anchor_grows(overlay, base, anchor, depth, rest, next, after);
            if next.has_node(edge.source@) {
                lemma_has_node_kept(next, after, edge.source@);
            }
            if next.has_node(edge.target@) {
                lemma_has_node_kept(next, after, edge.target@);
            }
        }
        assert forall|k: int| 0 <= k < edges.len() implies {
            &&& nodes.contains_key((#[trigger] edges[k]).source@) ==> after.has_node(
                edges[k].source@,
            )
            &&& nodes.contains_key(edges[k].target@) ==> after.has_node(edges[k].target@)
        } by {
            if k > 0 {
                assert(rest[k - 1] == edges[k]);
            }
        }
    } else {
        assert(after == sub);
    }
}

pub(crate) proof fn lemma_anchor_grows<'a, H: HomeEngine, F: ForeignEngine>(
    overlay: OverlayReader<'a, H, F>,
    base: nat,
    anchor: SymbolId,
    depth: u32,
    edges: Seq<Edge>,
    sub: SubgraphView,
    after: SubgraphView,
)
    requires
        overlay.anchor_ends(
            base,
            anchor,
            depth,
            edges,
            sub,
            Ok::<SubgraphView, Error>(after),
        ),
    ensures
        sub.nodes.is_prefix_of(after.nodes),
        sub.edges.is_prefix_of(after.edges),
{
    if sub.nodes.len() <= base + overlay.budget().max_cross_nodes {
        lemma_anchor(overlay, base, anchor, depth, edges, sub, after);
    } else {
        assert(after.nodes == sub.nodes);
        assert(sub.nodes =~= sub.nodes.subrange(0, sub.nodes.len() as int));
        assert(after.edges == sub.edges);
        assert(sub.edges =~= sub.edges.subrange(0, sub.edges.len() as int));
    }
}

pub(crate) proof fn lemma_anchors_complete<'a, H: HomeEngine, F: ForeignEngine>(
    overlay: OverlayReader<'a, H, F>,
    base: nat,
    anchors: Seq<(SymbolId, u32)>,
    home: SubgraphView,
    sub: SubgraphView,
    log: Seq<Seq<char>>,
    after: SubgraphView,
    log_after: Seq<Seq<char>>,
    nodes: Map<Seq<char>, Node>,
)
    requires
        overlay.crosses(),
        overlay.xedge().is_private(),
        overlay.anchors_end(
            base,
            anchors,
            sub,
            log,
            (Ok::<SubgraphView, Error>(after), log_after),
        ),
        sub.nodes.len() <= base + overlay.budget().max_cross_nodes,
        !overlay.spent(base, after),
        overlay.finds(nodes),
        overlay.is_settled_in(home, sub, nodes),
        home.nodes.is_prefix_of(sub.nodes),
        forall|k: int|
            0 <= k < anchors.len() ==> {
                &&& home.has_node((#[trigger] anchors[k]).0@)
                &&& overlay.has_room(Direction::Dependents, anchors[k].0@)
                &&& overlay.has_room(Direction::Dependencies, anchors[k].0@)
            },
    ensures
        overlay.is_settled_in(home, after, nodes),
        forall|k: int, to: Seq<char>|
            0 <= k < anchors.len() && #[trigger] overlay.reaches(nodes, anchors[k].0@, to)
                ==> after.has_node(to),
    decreases anchors.len(),
{
    let end = (Ok::<SubgraphView, Error>(after), log_after);
    if anchors.len() > 0 {
        assert(!overlay.spent(base, sub)) by {
            if overlay.spent(base, sub) {
                assert(after == sub);
            }
        }
        let rest = anchors.skip(1);
        let anchor = anchors[0];
        let (first, second, added) = lemma_unfold_anchors(overlay, base, anchors, sub, log, end);
        let pointing = first.0->Ok_0;
        let leaving = second.0->Ok_0;
        let edges = pointing + leaving;
        let next = added->Ok_0;
        law_cross_edges_are_live_and_on_record(
            overlay,
            anchor.0@,
            Direction::Dependents,
            log,
            pointing,
            first.1,
        );
        law_cross_edges_are_live_and_on_record(
            overlay,
            anchor.0@,
            Direction::Dependencies,
            first.1,
            leaving,
            second.1,
        );
        assert forall|k: int| 0 <= k < edges.len() implies {
            &&& overlay.crosses_as(home, (#[trigger] edges[k]).relationship())
            &&& edges[k].source@ == anchor.0@ || edges[k].target@ == anchor.0@
        } by {
            if k < pointing.len() {
                assert(overlay.is_accounted_for(pointing[k], Direction::Dependents, anchor.0@));
            } else {
                assert(overlay.is_accounted_for(
                    leaving[k - pointing.len()],
                    Direction::Dependencies,
                    anchor.0@,
                ));
            }
            lemma_edge_at(overlay, home, edges[k], anchor.0@);
        }
        lemma_anchor(overlay, base, anchor.0, anchor.1, edges, sub, next);
        lemma_anchors(overlay, base, rest, next, second.1, after, log_after);
        lemma_has_node_kept(home, sub, anchor.0@);
        lemma_anchor_complete(overlay, base, anchor.0, anchor.1, edges, home, sub, next, nodes);
        lemma_prefix_trans(home.nodes, sub.nodes, next.nodes);
        assert forall|k: int| 0 <= k < rest.len() implies {
            &&& home.has_node((#[trigger] rest[k]).0@)
            &&& overlay.has_room(Direction::Dependents, rest[k].0@)
            &&& overlay.has_room(Direction::Dependencies, rest[k].0@)
        } by {
            assert(rest[k] == anchors[k + 1]);
        }
        lemma_anchors_complete(
            overlay,
            base,
            rest,
            home,
            next,
            second.1,
            after,
            log_after,
            nodes,
        );
        assert forall|k: int, to: Seq<char>|
            0 <= k < anchors.len() && #[trigger] overlay.reaches(nodes, anchors[k].0@, to) implies
            after.has_node(to) by {
            if k > 0 {
                assert(rest[k - 1] == anchors[k]);
                assert(overlay.reaches(nodes, rest[k - 1].0@, to));
            } else {
                let row = choose|row: XEdge|
                    {
                        &&& #[trigger] overlay.holds_at(row, Direction::Both, anchor.0@)
                        &&& overlay.row_is_live(row)
                        &&& row.source.stable_id@ == to || row.target.stable_id@ == to
                    };
                let e = lemma_edge_of_row(
                    overlay,
                    row,
                    anchor.0@,
                    log,
                    pointing,
                    first.1,
                    leaving,
                    second.1,
                );
                assert(row.appears_as(edges[e]));
                assert(next.has_node(to));
                lemma_has_node_kept(next, after, to);
            }
        }
    }
}

/// A traversal reaches exactly the home nodes and what is one step across the store boundary from
/// one of them, as long as the engines answer steadily and the budget is not used up.
pub proof fn law_traversal_reaches_one_step<'a, H: HomeEngine, F: ForeignEngine>(
    overlay: OverlayReader<'a, H, F>,
    nodes: Map<Seq<char>, Node>,
    home: SubgraphView,
    log: Seq<Seq<char>>,
    after: SubgraphView,
    log_after: Seq<Seq<char>>,
)
    requires
        overlay.steps_across(),
        overlay.is_steady(nodes),
        overlay.is_settled(home, nodes),
        overlay.has_room_at(home),
        overlay.traversal_ends(home, log, (Ok::<SubgraphView, Error>(after), log_after)),
        !overlay.spent(home.nodes.len(), after),
    ensures
        forall|to: Seq<char>| #[trigger]
            after.has_node(to) <==> {
                ||| home.has_node(to)
                ||| exists|from: Seq<char>| #[trigger]
                    home.has_node(from) && overlay.reaches(nodes, from, to)
            },
{
    let base = home.nodes.len();
    let anchors = anchors_of(home);
    assert forall|k: int| 0 <= k < anchors.len() implies {
        &&& home.has_node((#[trigger] anchors[k]).0@)
        &&& overlay.has_room(Direction::Dependents, anchors[k].0@)
        &&& overlay.has_room(Direction::Dependencies, anchors[k].0@)
    } by {
        assert(home.nodes[k].symbol@ == anchors[k].0@);
    }
    lemma_anchors(overlay, base, anchors, home, log, after, log_after);
    lemma_grows_refl(home);
    lemma_anchors_complete(overlay, base, anchors, home, home, log, after, log_after, nodes);
    assert forall|to: Seq<char>| #[trigger] after.has_node(to) <==> {
        ||| home.has_node(to)
        ||| exists|from: Seq<char>| #[trigger]
            home.has_node(from) && overlay.reaches(nodes, from, to)
    } by {
        if home.has_node(to) {
            lemma_has_node_kept(home, after, to);
        } else if after.has_node(to) {
            let i = choose|i: int|
                0 <= i < after.nodes.len() && (#[trigger] after.nodes[i]).symbol@ == to;
            if i < home.nodes.len() {
                assert(home.nodes[i] == after.nodes[i]);
            }
            let node = after.nodes[i];
            assert(overlay.some_anchor_pulls(anchors, home, after, node));
            let k = choose|k: int|
                0 <= k < anchors.len() && overlay.anchor_pulls(
                    #[trigger] anchors[k],
                    home,
                    after,
                    node,
                );
            let e = choose|e: int|
                {
                    &&& home.edges.len() <= e < after.edges.len()
                    &&& overlay.pulls(anchors[k].0, #[trigger] after.edges[e], node)
                    &&& overlay.may_cross_at(after.edges[e], anchors[k].0@)
                };
            lemma_pull_reaches(overlay, nodes, anchors[k].0, after.edges[e], node);
            assert(home.has_node(anchors[k].0@));
        } else if exists|from: Seq<char>| #[trigger]
            home.has_node(from) && overlay.reaches(nodes, from, to) {
            let from = choose|from: Seq<char>| #[trigger]
                home.has_node(from) && overlay.reaches(nodes, from, to);
            let k = choose|k: int|
                0 <= k < home.nodes.len() && (#[trigger] home.nodes[k]).symbol@ == from;
            assert(anchors[k].0@ == from);
            assert(overlay.reaches(nodes, anchors[k].0@, to));
        }
    }
}

pub(crate) proof fn lemma_pull_reaches<'a, H: HomeEngine, F: ForeignEngine>(
    overlay: OverlayReader<'a, H, F>,
    nodes: Map<Seq<char>, Node>,
    anchor: SymbolId,
    edge: Edge,
    node: Node,
)
    requires
        overlay.crosses(),
        overlay.xedge().is_private(),
        overlay.finds(nodes),
        overlay.epochs_are_steady(),
        overlay.pulls(anchor, edge, node),
        overlay.may_cross_at(edge, anchor@),
    ensures
        overlay.reaches(nodes, anchor@, node.symbol@),
{
    let far = OverlayReader::<'a, H, F>::far_end(edge, anchor);
    let reply = Ok::<Option<Node>, Error>(Some(node));
    assert(overlay.node_reply(far, reply));
    assert(nodes.contains_key(far@) && nodes[far@] == node);
    let dir = if overlay.is_accounted_for(edge, Direction::Dependents, anchor@) {
        Direction::Dependents
    } else {
        Direction::Dependencies
    };
    let row = choose|row: XEdge| #[trigger] overlay.comes_from(edge, row, dir, anchor@);
    assert(overlay.holds_at(row, dir, anchor@));
    assert(overlay.holds_at(row, Direction::Both, anchor@));
}

proof fn lemma_relationship_kept(before: SubgraphView, after: SubgraphView, r: Relationship)
    requires
        before.edges.is_prefix_of(after.edges),
        before.has_relationship(r),
    ensures
        after.has_relationship(r),
{
    let e = choose|e: int|
        0 <= e < before.edges.len() && (#[trigger] before.edges[e]).relationship() == r;
    assert(after.edges[e] == before.edges[e]);
}

proof fn lemma_anchor_edges<'a, H: HomeEngine, F: ForeignEngine>(
    overlay: OverlayReader<'a, H, F>,
    base: nat,
    anchor: SymbolId,
    depth: u32,
    edges: Seq<Edge>,
    sub: SubgraphView,
    after: SubgraphView,
)
    requires
        overlay.anchor_ends(
            base,
            anchor,
            depth,
            edges,
            sub,
            Ok::<SubgraphView, Error>(after),
        ),
        !overlay.spent(base, after),
    ensures
        forall|k: int|
            0 <= k < edges.len() ==> after.has_relationship((#[trigger] edges[k]).relationship()),
    decreases edges.len(),
{
    let end = Ok::<SubgraphView, Error>(after);
    if edges.len() > 0 {
        assert(!overlay.spent(base, sub)) by {
            if overlay.spent(base, sub) {
                assert(after.nodes == sub.nodes);
            }
        }
        let rest = edges.skip(1);
        let edge = edges[0];
        if sub.has_relationship(edge.relationship()) {
            lemma_anchor_edges(overlay, base, anchor, depth, rest, sub, after);
            lemma_anchor_grows(overlay, base, anchor, depth, rest, sub, after);
            lemma_relationship_kept(sub, after, edge.relationship());
        } else {
            let far_id = OverlayReader::<'a, H, F>::far_end(edge, anchor);
            let far = choose|far: Result<Option<Node>, Error>| #[trigger]
                overlay.far_reply(far_id, anchor, far) && match far {
                    Err(e) => end == Err::<SubgraphView, Error>(e),
                    Ok(node) => match sub.with_edge(depth, edge, node) {
                        None => end == Err::<SubgraphView, Error>(Error::DepthOverflow),
                        Some(next) => overlay.anchor_ends(base, anchor, depth, rest, next, end),
                    },
                };
            let next = sub.with_edge(depth, edge, far->Ok_0)->Some_0;
            lemma_step(sub, depth, edge, far->Ok_0, next);
            lemma_anchor_edges(overlay, base, anchor, depth, rest, next, after);
            lemma_anchor_grows(overlay, base, anchor, depth, rest, next, after);
            assert(next.edges[sub.edges.len() as int] == edge);
            assert(next.has_relationship(edge.relationship()));
            lemma_relationship_kept(next, after, edge.relationship());
        }
        assert forall|k: int| 0 <= k < edges.len() implies after.has_relationship(
            (#[trigger] edges[k]).relationship(),
        ) by {
            if k > 0 {
                assert(rest[k - 1] == edges[k]);
            }
        }
    }
}

proof fn lemma_anchors_edges<'a, H: HomeEngine, F: ForeignEngine>(
    overlay: OverlayReader<'a, H, F>,
    base: nat,
    anchors: Seq<(SymbolId, u32)>,
    sub: SubgraphView,
    log: Seq<Seq<char>>,
    after: SubgraphView,
    log_after: Seq<Seq<char>>,
)
    requires
        overlay.crosses(),
        overlay.xedge().is_private(),
        overlay.anchors_end(
            base,
            anchors,
            sub,
            log,
            (Ok::<SubgraphView, Error>(after), log_after),
        ),
        sub.nodes.len() <= base + overlay.budget().max_cross_nodes,
        !overlay.spent(base, after),
        forall|k: int|
            0 <= k < anchors.len() ==> {
                &&& overlay.has_room(Direction::Dependents, (#[trigger] anchors[k]).0@)
                &&& overlay.has_room(Direction::Dependencies, anchors[k].0@)
            },
    ensures
        forall|k: int, row: XEdge|
            0 <= k < anchors.len() && #[trigger] overlay.holds_at(
                row,
                Direction::Both,
                anchors[k].0@,
            ) && overlay.row_is_live(row) ==> after.has_relationship(row.relationship()),
    decreases anchors.len(),
{
    let end = (Ok::<SubgraphView, Error>(after), log_after);
    if anchors.len() > 0 {
        assert(!overlay.spent(base, sub)) by {
            if overlay.spent(base, sub) {
                assert(after == sub);
            }
        }
        let rest = anchors.skip(1);
        let anchor = anchors[0];
        let (first, second, added) = lemma_unfold_anchors(overlay, base, anchors, sub, log, end);
        let pointing = first.0->Ok_0;
        let leaving = second.0->Ok_0;
        let edges = pointing + leaving;
        let next = added->Ok_0;
        lemma_anchor(overlay, base, anchor.0, anchor.1, edges, sub, next);
        lemma_anchors(overlay, base, rest, next, second.1, after, log_after);
        lemma_anchor_edges(overlay, base, anchor.0, anchor.1, edges, sub, next);
        assert forall|k: int| 0 <= k < rest.len() implies {
            &&& overlay.has_room(Direction::Dependents, (#[trigger] rest[k]).0@)
            &&& overlay.has_room(Direction::Dependencies, rest[k].0@)
        } by {
            assert(rest[k] == anchors[k + 1]);
        }
        lemma_anchors_edges(overlay, base, rest, next, second.1, after, log_after);
        assert forall|k: int, row: XEdge|
            0 <= k < anchors.len() && #[trigger] overlay.holds_at(
                row,
                Direction::Both,
                anchors[k].0@,
            ) && overlay.row_is_live(row) implies after.has_relationship(row.relationship()) by {
            if k > 0 {
                assert(rest[k - 1] == anchors[k]);
                assert(overlay.holds_at(row, Direction::Both, rest[k - 1].0@));
            } else {
                let e = lemma_edge_of_row(
                    overlay,
                    row,
                    anchor.0@,
                    log,
                    pointing,
                    first.1,
                    leaving,
                    second.1,
                );
                assert(row.appears_as(edges[e]));
                assert(next.has_relationship(edges[e].relationship()));
                assert(edges[e].relationship() == row.relationship());
                lemma_relationship_kept(next, after, row.relationship());
            }
        }
    }
}

/// Where a live cross-edge at an anchor stands among the cross-store edges there.
proof fn lemma_edge_of_row<'a, H: HomeEngine, F: ForeignEngine>(
    overlay: OverlayReader<'a, H, F>,
    row: XEdge,
    id: Seq<char>,
    log: Seq<Seq<char>>,
    pointing: Seq<Edge>,
    log_between: Seq<Seq<char>>,
    leaving: Seq<Edge>,
    log_after: Seq<Seq<char>>,
) -> (e: int)
    requires
        overlay.crosses(),
        overlay.xedge().is_private(),
        overlay.holds_at(row, Direction::Both, id),
        overlay.row_is_live(row),
        overlay.has_room(Direction::Dependents, id),
        overlay.has_room(Direction::Dependencies, id),
        overlay.cross_ends(
            id,
            Direction::Dependents,
            log,
            (Ok::<Seq<Edge>, Error>(pointing), log_between),
        ),
        overlay.cross_ends(
            id,
            Direction::Dependencies,
            log_between,
            (Ok::<Seq<Edge>, Error>(leaving), log_after),
        ),
    ensures
        0 <= e < (pointing + leaving).len(),
        row.appears_as((pointing + leaving)[e]),
{
    if overlay.holds_at(row, Direction::Dependents, id) {
        lemma_live_edge_crosses(
            overlay,
            row,
            id,
            Direction::Dependents,
            log,
            pointing,
            log_between,
        );
        choose|i: int| 0 <= i < pointing.len() && row.appears_as(#[trigger] pointing[i])
    } else {
        assert(overlay.holds_at(row, Direction::Dependencies, id));
        lemma_live_edge_crosses(
            overlay,
            row,
            id,
            Direction::Dependencies,
            log_between,
            leaving,
            log_after,
        );
        let i = choose|i: int| 0 <= i < leaving.len() && row.appears_as(#[trigger] leaving[i]);
        assert((pointing + leaving)[pointing.len() + i] == leaving[i]);
        pointing.len() + i
    }
}

/// A traversal has every live cross-edge at the home nodes that it reached: the relationship of
/// each, if it is armed and both of its stamps are live, is among the edges, as long as the budget
/// is not used up.
pub proof fn law_traversal_has_every_live_edge<'a, H: HomeEngine, F: ForeignEngine>(
    overlay: OverlayReader<'a, H, F>,
    home: SubgraphView,
    log: Seq<Seq<char>>,
    after: SubgraphView,
    log_after: Seq<Seq<char>>,
    from: Seq<char>,
    row: XEdge,
)
    requires
        overlay.steps_across(),
        overlay.xedge().is_private(),
        overlay.has_room_at(home),
        overlay.traversal_ends(home, log, (Ok::<SubgraphView, Error>(after), log_after)),
        !overlay.spent(home.nodes.len(), after),
        home.has_node(from),
        overlay.holds_at(row, Direction::Both, from),
        overlay.row_is_live(row),
    ensures
        after.has_relationship(row.relationship()),
{
    let anchors = anchors_of(home);
    assert forall|k: int| 0 <= k < anchors.len() implies {
        &&& overlay.has_room(Direction::Dependents, (#[trigger] anchors[k]).0@)
        &&& overlay.has_room(Direction::Dependencies, anchors[k].0@)
    } by {
        assert(home.nodes[k].symbol@ == anchors[k].0@);
    }
    lemma_anchors_edges(overlay, home.nodes.len(), anchors, home, log, after, log_after);
    let k = choose|k: int|
        0 <= k < home.nodes.len() && (#[trigger] home.nodes[k]).symbol@ == from;
    assert(anchors[k].0@ == from);
    assert(overlay.holds_at(row, Direction::Both, anchors[k].0@));
}

/// The relationships of a traversal are exactly those of the home engine's own and those of the
/// live cross-edges at its nodes, as long as the engines answer steadily and the budget is not used
/// up.
pub proof fn law_traversal_relationships<'a, H: HomeEngine, F: ForeignEngine>(
    overlay: OverlayReader<'a, H, F>,
    home: SubgraphView,
    log: Seq<Seq<char>>,
    after: SubgraphView,
    log_after: Seq<Seq<char>>,
)
    requires
        overlay.steps_across(),
        overlay.xedge().is_private(),
        overlay.epochs_are_steady(),
        overlay.has_room_at(home),
        overlay.traversal_ends(home, log, (Ok::<SubgraphView, Error>(after), log_after)),
        !overlay.spent(home.nodes.len(), after),
    ensures
        forall|r: Relationship| #[trigger]
            after.has_relationship(r) <==> home.has_relationship(r) || overlay.crosses_as(home, r),
{
    let anchors = anchors_of(home);
    lemma_anchors(overlay, home.nodes.len(), anchors, home, log, after, log_after);
    assert forall|r: Relationship| #[trigger] after.has_relationship(r) <==> home.has_relationship(
        r,
    ) || overlay.crosses_as(home, r) by {
        if home.has_relationship(r) {
            lemma_relationship_kept(home, after, r);
        } else if after.has_relationship(r) {
            let e = choose|e: int|
                0 <= e < after.edges.len() && (#[trigger] after.edges[e]).relationship() == r;
            if e < home.edges.len() {
                assert(home.edges[e] == after.edges[e]);
            }
            assert(overlay.some_anchor_crosses(anchors, after.edges[e]));
            let k = choose|k: int|
                0 <= k < anchors.len() && overlay.may_cross_at(
                    after.edges[e],
                    (#[trigger] anchors[k]).0@,
                );
            assert(home.nodes[k].symbol@ == anchors[k].0@);
            lemma_edge_at(overlay, home, after.edges[e], anchors[k].0@);
        }
        if overlay.crosses_as(home, r) {
            let (row, from) = choose|row: XEdge, from: Seq<char>|
                {
                    &&& #[trigger] overlay.holds_at(row, Direction::Both, from)
                    &&& home.has_node(from)
                    &&& overlay.row_may_be_live(row)
                    &&& row.relationship() == r
                };
            assert(overlay.row_is_live(row));
            law_traversal_has_every_live_edge(
                overlay,
                home,
                log,
                after,
                log_after,
                from,
                row,
            );
        }
    }
}

/// A traversal that comes by a code symbol reaches the document about it. After an `about` edge is
/// written, an overlay over that store whose home is the estate engine and which has `about` armed
/// adds the memory to every traversal that reached the code symbol at home, provided some engine
/// has the memory, the code symbol still has the epoch that the edge was stamped with, the engines
/// answer steadily and the budget is not used up.
pub proof fn law_about_edge_is_traversed<'a, H: HomeEngine, F: ForeignEngine>(
    before: XedgeStore,
    about: XEdge,
    mem_id: Seq<char>,
    code: Seq<char>,
    code_epoch: u64,
    after: XedgeStore,
    overlay: OverlayReader<'a, H, F>,
    nodes: Map<Seq<char>, Node>,
    home: SubgraphView,
    log: Seq<Seq<char>>,
    reached: SubgraphView,
    log_after: Seq<Seq<char>>,
)
    requires
        before.is_private(),
        about.is_about(mem_id, code, code_epoch),
        XedgeStore::written(before, about, Ok(()), after),
        overlay.xedge().is_private() == after.is_private(),
        overlay.xedge().rows() == after.rows(),
        overlay.home_engine() == ESTATE_ENGINE@,
        overlay.kinds().contains(ABOUT@),
        overlay.steps_across(),
        overlay.is_steady(nodes),
        nodes.contains_key(mem_id),
        overlay.always_live(about.target),
        home.has_node(code),
        overlay.is_settled(home, nodes),
        overlay.stays_in_budget(home),
        overlay.traversal_ends(home, log, (Ok::<SubgraphView, Error>(reached), log_after)),
    ensures
        reached.has_node(code),
        reached.has_node(mem_id),
{
    assert(MEMORY_ENGINE@ != ESTATE_ENGINE@) by {
        reveal_strlit("memory");
        reveal_strlit("estate");
        assert(MEMORY_ENGINE@[0] != ESTATE_ENGINE@[0]);
    }
    law_only_estate_ids_go_stale(overlay, about.source);
    assert(overlay.holds_at(about.kept(), Direction::Both, code));
    law_traversal_reaches_one_step(overlay, nodes, home, log, reached, log_after);
    if mem_id != code {
        assert(overlay.reaches(nodes, code, mem_id));
    }
}

/// A traversal from several starts has exactly the nodes and the relationships that the traversals
/// from each of them have together. This holds as long as the home engine's own traversal has that
/// property, the engines answer steadily and the budget is not used up.
pub proof fn law_traversal_from_many_is_the_union<'a, H: HomeEngine, F: ForeignEngine>(
    overlay: OverlayReader<'a, H, F>,
    nodes: Map<Seq<char>, Node>,
    spec: &TraversalSpec,
    starts: &[SymbolId],
    ones: Seq<&[SymbolId]>,
    log: Seq<Seq<char>>,
    many: SubgraphView,
    log_after: Seq<Seq<char>>,
    logs: Seq<Seq<Seq<char>>>,
    each: Seq<SubgraphView>,
    logs_after: Seq<Seq<Seq<char>>>,
)
    requires
        overlay.steps_across() ==> overlay.is_steady(nodes),
        ones.len() == starts@.len(),
        logs.len() == starts@.len(),
        each.len() == starts@.len(),
        logs_after.len() == starts@.len(),
        forall|i: int| 0 <= i < starts@.len() ==> (#[trigger] ones[i])@ == seq![starts@[i]],
        overlay.traverse_ends(starts, spec, log, (Ok::<SubgraphView, Error>(many), log_after)),
        forall|i: int|
            0 <= i < starts@.len() ==> #[trigger] overlay.traverse_ends(
                ones[i],
                spec,
                logs[i],
                (Ok::<SubgraphView, Error>(each[i]), logs_after[i]),
            ),
        forall|from: &[SymbolId], home: Subgraph| #[trigger]
            call_ensures(
                H::traverse_multi,
                (overlay.home(), from, spec),
                Ok::<Subgraph, Error>(home),
            ) && overlay.steps_across() ==> {
                &&& overlay.is_settled(home@, nodes)
                &&& overlay.stays_in_budget(home@)
            },
        forall|whole: Subgraph, parts: Seq<Subgraph>|
            {
                &&& #[trigger] call_ensures(
                    H::traverse_multi,
                    (overlay.home(), starts, spec),
                    Ok::<Subgraph, Error>(whole),
                )
                &&& #[trigger] parts.len() == ones.len()
                &&& forall|i: int|
                    0 <= i < ones.len() ==> #[trigger] call_ensures(
                        H::traverse_multi,
                        (overlay.home(), ones[i], spec),
                        Ok::<Subgraph, Error>(parts[i]),
                    )
            } ==> {
                &&& forall|id: Seq<char>| #[trigger]
                    whole@.has_node(id) <==> exists|i: int|
                        0 <= i < parts.len() && (#[trigger] parts[i])@.has_node(id)
                &&& forall|r: Relationship| #[trigger]
                    whole@.has_relationship(r) <==> exists|i: int|
                        0 <= i < parts.len() && (#[trigger] parts[i])@.has_relationship(r)
            },
    ensures
        forall|id: Seq<char>| #[trigger]
            many.has_node(id) <==> exists|i: int|
                0 <= i < each.len() && (#[trigger] each[i]).has_node(id),
        forall|r: Relationship| #[trigger]
            many.has_relationship(r) <==> exists|i: int|
                0 <= i < each.len() && (#[trigger] each[i]).has_relationship(r),
{
    let whole = lemma_home_of(overlay, starts, spec, log, many, log_after);
    let parts = Seq::new(
        starts@.len(),
        |i: int| home_of(overlay, ones[i], spec, logs[i], each[i], logs_after[i]),
    );
    assert forall|i: int| 0 <= i < ones.len() implies #[trigger] call_ensures(
        H::traverse_multi,
        (overlay.home(), ones[i], spec),
        Ok::<Subgraph, Error>(parts[i]),
    ) && overlay.traversal_ends(
        parts[i]@,
        logs[i],
        (Ok::<SubgraphView, Error>(each[i]), logs_after[i]),
    ) by {
        let part = lemma_home_of(overlay, ones[i], spec, logs[i], each[i], logs_after[i]);
    }
    assert(parts.len() == ones.len());
    lemma_reached(overlay, nodes, whole@, log, many, log_after);
    assert forall|i: int, id: Seq<char>|
        0 <= i < each.len() && #[trigger] each[i].has_node(id) implies is_reached(
        overlay,
        nodes,
        parts[i]@,
        id,
    ) by {
        assert(call_ensures(
            H::traverse_multi,
            (overlay.home(), ones[i], spec),
            Ok::<Subgraph, Error>(parts[i]),
        ));
        lemma_reached(overlay, nodes, parts[i]@, logs[i], each[i], logs_after[i]);
    }
    assert forall|i: int, id: Seq<char>|
        0 <= i < each.len() && #[trigger] is_reached(overlay, nodes, parts[i]@, id) implies
        each[i].has_node(id) by {
        assert(call_ensures(
            H::traverse_multi,
            (overlay.home(), ones[i], spec),
            Ok::<Subgraph, Error>(parts[i]),
        ));
        lemma_reached(overlay, nodes, parts[i]@, logs[i], each[i], logs_after[i]);
    }
    assert forall|id: Seq<char>| #[trigger] many.has_node(id) <==> exists|i: int|
        0 <= i < each.len() && (#[trigger] each[i]).has_node(id) by {
        if many.has_node(id) {
            assert(is_reached(overlay, nodes, whole@, id));
            let from = if whole@.has_node(id) {
                id
            } else {
                choose|from: Seq<char>| #[trigger]
                    whole@.has_node(from) && overlay.reaches(nodes, from, id)
            };
            let i = choose|i: int| 0 <= i < parts.len() && (#[trigger] parts[i])@.has_node(from);
            assert(is_reached(overlay, nodes, parts[i]@, id));
            assert(each[i].has_node(id));
        }
        if exists|i: int| 0 <= i < each.len() && (#[trigger] each[i]).has_node(id) {
            let i = choose|i: int| 0 <= i < each.len() && (#[trigger] each[i]).has_node(id);
            assert(is_reached(overlay, nodes, parts[i]@, id));
            let from = if parts[i]@.has_node(id) {
                id
            } else {
                choose|from: Seq<char>| #[trigger]
                    parts[i]@.has_node(from) && overlay.reaches(nodes, from, id)
            };
            assert(parts[i]@.has_node(from));
            assert(whole@.has_node(from));
            assert(is_reached(overlay, nodes, whole@, id));
        }
    }
    assert forall|i: int, r: Relationship|
        0 <= i < each.len() && #[trigger] each[i].has_relationship(r) implies is_stated(
        overlay,
        parts[i]@,
        r,
    ) by {
        assert(call_ensures(
            H::traverse_multi,
            (overlay.home(), ones[i], spec),
            Ok::<Subgraph, Error>(parts[i]),
        ));
        lemma_reached(overlay, nodes, parts[i]@, logs[i], each[i], logs_after[i]);
    }
    assert forall|i: int, r: Relationship|
        0 <= i < each.len() && #[trigger] is_stated(overlay, parts[i]@, r) implies
        each[i].has_relationship(r) by {
        assert(call_ensures(
            H::traverse_multi,
            (overlay.home(), ones[i], spec),
            Ok::<Subgraph, Error>(parts[i]),
        ));
        lemma_reached(overlay, nodes, parts[i]@, logs[i], each[i], logs_after[i]);
    }
    assert forall|r: Relationship| #[trigger] many.has_relationship(r) <==> exists|i: int|
        0 <= i < each.len() && (#[trigger] each[i]).has_relationship(r) by {
        if many.has_relationship(r) {
            assert(is_stated(overlay, whole@, r));
            if whole@.has_relationship(r) {
                let i = choose|i: int|
                    0 <= i < parts.len() && (#[trigger] parts[i])@.has_relationship(r);
                assert(is_stated(overlay, parts[i]@, r));
                assert(each[i].has_relationship(r));
            } else {
                let (row, from) = choose|row: XEdge, from: Seq<char>|
                    {
                        &&& #[trigger] overlay.holds_at(row, Direction::Both, from)
                        &&& whole@.has_node(from)
                        &&& overlay.row_may_be_live(row)
                        &&& row.relationship() == r
                    };
                let i = choose|i: int|
                    0 <= i < parts.len() && (#[trigger] parts[i])@.has_node(from);
                assert(overlay.crosses_as(parts[i]@, r));
                assert(is_stated(overlay, parts[i]@, r));
                assert(each[i].has_relationship(r));
            }
        }
        if exists|i: int| 0 <= i < each.len() && (#[trigger] each[i]).has_relationship(r) {
            let i = choose|i: int| 0 <= i < each.len() && (#[trigger] each[i]).has_relationship(r);
            assert(is_stated(overlay, parts[i]@, r));
            if parts[i]@.has_relationship(r) {
                assert(whole@.has_relationship(r));
            } else {
                let (row, from) = choose|row: XEdge, from: Seq<char>|
                    {
                        &&& #[trigger] overlay.holds_at(row, Direction::Both, from)
                        &&& parts[i]@.has_node(from)
                        &&& overlay.row_may_be_live(row)
                        &&& row.relationship() == r
                    };
                assert(whole@.has_node(from));
                assert(overlay.crosses_as(whole@, r));
            }
            assert(is_stated(overlay, whole@, r));
        }
    }
}

/// Whether an id is a home node, or one step across the store boundary from one where anything
/// crosses.
spec fn is_reached<'a, H: HomeEngine, F: ForeignEngine>(
    overlay: OverlayReader<'a, H, F>,
    nodes: Map<Seq<char>, Node>,
    home: SubgraphView,
    to: Seq<char>,
) -> bool {
    ||| home.has_node(to)
    ||| overlay.steps_across() && exists|from: Seq<char>| #[trigger]
        home.has_node(from) && overlay.reaches(nodes, from, to)
}

/// Whether a relationship is one of the home engine's own, or that of a cross-edge at a home node
/// where anything crosses.
spec fn is_stated<'a, H: HomeEngine, F: ForeignEngine>(
    overlay: OverlayReader<'a, H, F>,
    home: SubgraphView,
    r: Relationship,
) -> bool {
    ||| home.has_relationship(r)
    ||| overlay.steps_across() && overlay.crosses_as(home, r)
}

proof fn lemma_reached<'a, H: HomeEngine, F: ForeignEngine>(
    overlay: OverlayReader<'a, H, F>,
    nodes: Map<Seq<char>, Node>,
    home: SubgraphView,
    log: Seq<Seq<char>>,
    after: SubgraphView,
    log_after: Seq<Seq<char>>,
)
    requires
        overlay.steps_across() ==> {
            &&& overlay.is_steady(nodes)
            &&& overlay.is_settled(home, nodes)
            &&& overlay.stays_in_budget(home)
        },
        overlay.traversal_ends(home, log, (Ok::<SubgraphView, Error>(after), log_after)),
    ensures
        forall|to: Seq<char>| #[trigger]
            after.has_node(to) <==> is_reached(overlay, nodes, home, to),
        forall|r: Relationship| #[trigger]
            after.has_relationship(r) <==> is_stated(overlay, home, r),
{
    if overlay.steps_across() {
        law_traversal_reaches_one_step(overlay, nodes, home, log, after, log_after);
        law_traversal_relationships(overlay, home, log, after, log_after);
    } else {
        assert(after == home);
    }
}

/// A home reply behind the result of a traversal.
spec fn home_of<'a, H: HomeEngine, F: ForeignEngine>(
    overlay: OverlayReader<'a, H, F>,
    starts: &[SymbolId],
    spec: &TraversalSpec,
    log: Seq<Seq<char>>,
    after: SubgraphView,
    log_after: Seq<Seq<char>>,
) -> Subgraph {
    choose|home: Subgraph|
        {
            &&& #[trigger] call_ensures(
                H::traverse_multi,
                (overlay.home(), starts, spec),
                Ok::<Subgraph, Error>(home),
            )
            &&& overlay.traversal_ends(
                home@,
                log,
                (Ok::<SubgraphView, Error>(after), log_after),
            )
        }
}

proof fn lemma_home_of<'a, H: HomeEngine, F: ForeignEngine>(
    overlay: OverlayReader<'a, H, F>,
    starts: &[SymbolId],
    spec: &TraversalSpec,
    log: Seq<Seq<char>>,
    after: SubgraphView,
    log_after: Seq<Seq<char>>,
) -> (home: Subgraph)
    requires
        overlay.traverse_ends(starts, spec, log, (Ok::<SubgraphView, Error>(after), log_after)),
    ensures
        home == home_of(overlay, starts, spec, log, after, log_after),
        call_ensures(
            H::traverse_multi,
            (overlay.home(), starts, spec),
            Ok::<Subgraph, Error>(home),
        ),
        overlay.traversal_ends(home@, log, (Ok::<SubgraphView, Error>(after), log_after)),
{
    let end = (Ok::<SubgraphView, Error>(after), log_after);
    let reply = choose|reply: Result<Subgraph, Error>| #[trigger]
        call_ensures(H::traverse_multi, (overlay.home(), starts, spec), reply) && match reply {
            Err(e) => end == (Err::<SubgraphView, Error>(e), log),
            Ok(sub) => overlay.traversal_ends(sub@, log, end),
        };
    assert(reply == Ok::<Subgraph, Error>(reply->Ok_0));
    home_of(overlay, starts, spec, log, after, log_after)
}

} // verus!
