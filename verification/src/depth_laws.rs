//! How far away a traversal places the nodes that it adds.

use crate::engine::{ForeignEngine, HomeEngine};
use crate::error::Error;
use crate::graph::{Direction, Node, SubgraphView, SymbolId};
use crate::overlay::{anchors_of, OverlayReader};
use crate::traversal_laws::{
    lemma_anchors, lemma_anchors_complete, lemma_grows_refl, lemma_not_there_before,
    lemma_prefix_trans, lemma_pull_reaches, lemma_unfold_anchors,
};
use vstd::prelude::*;

verus! {

impl<'a, H: HomeEngine, F: ForeignEngine> OverlayReader<'a, H, F> {
    /// Whether an added node was pulled across by this anchor, and none before it reaches the node.
    spec fn is_first_to_pull(
        &self,
        nodes: Map<Seq<char>, Node>,
        anchors: Seq<(SymbolId, u32)>,
        k: int,
        before: SubgraphView,
        after: SubgraphView,
        node: Node,
    ) -> bool {
        &&& self.anchor_pulls(anchors[k], before, after, node)
        &&& forall|j: int|
            0 <= j < k ==> !self.reaches(nodes, (#[trigger] anchors[j]).0@, node.symbol@)
    }

    spec fn some_anchor_is_first(
        &self,
        nodes: Map<Seq<char>, Node>,
        anchors: Seq<(SymbolId, u32)>,
        before: SubgraphView,
        after: SubgraphView,
        node: Node,
    ) -> bool {
        exists|k: int|
            0 <= k < anchors.len() && #[trigger] self.is_first_to_pull(
                nodes,
                anchors,
                k,
                before,
                after,
                node,
            )
    }
}

impl SubgraphView {
    /// Whether the nodes are listed by their distance.
    pub open spec fn is_by_distance(self) -> bool {
        forall|i: int, j: int|
            0 <= i <= j < self.nodes.len() ==> self.depth_of((#[trigger] self.nodes[i]).symbol@)
                <= self.depth_of((#[trigger] self.nodes[j]).symbol@)
    }
}

proof fn lemma_pull_stays<'a, H: HomeEngine, F: ForeignEngine>(
    overlay: OverlayReader<'a, H, F>,
    anchor: (SymbolId, u32),
    sub: SubgraphView,
    next: SubgraphView,
    after: SubgraphView,
    node: Node,
)
    requires
        overlay.anchor_pulls(anchor, sub, next, node),
        next.has_node(node.symbol@),
        next.grows_to(after),
    ensures
        overlay.anchor_pulls(anchor, sub, after, node),
{
    let e = choose|e: int|
        {
            &&& sub.edges.len() <= e < next.edges.len()
            &&& overlay.pulls(anchor.0, #[trigger] next.edges[e], node)
            &&& overlay.may_cross_at(next.edges[e], anchor.0@)
        };
    assert(after.edges[e] == next.edges[e]);
    assert(next.same_depth(after, node.symbol@));
    assert(overlay.pulls(anchor.0, after.edges[e], node));
}

proof fn lemma_pull_counts_from_before<'a, H: HomeEngine, F: ForeignEngine>(
    overlay: OverlayReader<'a, H, F>,
    anchor: (SymbolId, u32),
    sub: SubgraphView,
    next: SubgraphView,
    after: SubgraphView,
    node: Node,
)
    requires
        overlay.anchor_pulls(anchor, next, after, node),
        !next.has_node(node.symbol@),
        sub.grows_to(next),
    ensures
        overlay.anchor_pulls(anchor, sub, after, node),
{
    let e = choose|e: int|
        {
            &&& next.edges.len() <= e < after.edges.len()
            &&& overlay.pulls(anchor.0, #[trigger] after.edges[e], node)
            &&& overlay.may_cross_at(after.edges[e], anchor.0@)
        };
    assert(sub.same_depth(next, node.symbol@));
    assert(overlay.pulls(anchor.0, after.edges[e], node));
}

proof fn lemma_first_anchor<'a, H: HomeEngine, F: ForeignEngine>(
    overlay: OverlayReader<'a, H, F>,
    base: nat,
    anchors: Seq<(SymbolId, u32)>,
    home: SubgraphView,
    sub: SubgraphView,
    log: Seq<Seq<char>>,
    after: SubgraphView,
    log_after: Seq<Seq<char>>,
    nodes: Map<Seq<char>, Node>,
)
    requires
        overlay.crosses(),
        overlay.xedge().is_private(),
        overlay.anchors_end(
            base,
            anchors,
            sub,
            log,
            (Ok::<SubgraphView, Error>(after), log_after),
        ),
        sub.nodes.len() <= base + overlay.budget().max_cross_nodes,
        overlay.finds(nodes),
        overlay.is_settled_in(home, sub, nodes),
        home.nodes.is_prefix_of(sub.nodes),
        forall|k: int|
            0 <= k < anchors.len() ==> {
                &&& home.has_node((#[trigger] anchors[k]).0@)
                &&& overlay.has_room(Direction::Dependents, anchors[k].0@)
                &&& overlay.has_room(Direction::Dependencies, anchors[k].0@)
            },
    ensures
        forall|i: int|
            sub.nodes.len() <= i < after.nodes.len() ==> #[trigger] overlay.some_anchor_is_first(
                nodes,
                anchors,
                sub,
                after,
                after.nodes[i],
            ),
    decreases anchors.len(),
{
    let end = (Ok::<SubgraphView, Error>(after), log_after);
    if anchors.len() > 0 && !overlay.spent(base, sub) {
        let rest = anchors.skip(1);
        let one = seq![anchors[0]];
        let (first, second, added) = lemma_unfold_anchors(overlay, base, anchors, sub, log, end);
        let next = added->Ok_0;
        let step = (Ok::<SubgraphView, Error>(next), second.1);
        assert(added == Ok::<SubgraphView, Error>(next));
        assert(one.skip(1).len() == 0);
        assert(overlay.anchors_end(base, one.skip(1), next, second.1, step));
        assert(one[0] == anchors[0]);
        assert(overlay.anchors_end(base, one, sub, log, step));
        lemma_anchors(overlay, base, one, sub, log, next, second.1);
        lemma_anchors(overlay, base, rest, next, second.1, after, log_after);
        if !overlay.spent(base, next) {
            lemma_anchors_complete(overlay, base, one, home, sub, log, next, second.1, nodes);
            lemma_prefix_trans(home.nodes, sub.nodes, next.nodes);
            assert forall|k: int| 0 <= k < rest.len() implies {
                &&& home.has_node((#[trigger] rest[k]).0@)
                &&& overlay.has_room(Direction::Dependents, rest[k].0@)
                &&& overlay.has_room(Direction::Dependencies, rest[k].0@)
            } by {
                assert(rest[k] == anchors[k + 1]);
            }
            lemma_first_anchor(overlay, base, rest, home, next, second.1, after, log_after, nodes);
        } else {
            assert(after == next);
        }
        assert forall|i: int|
            sub.nodes.len() <= i < after.nodes.len() implies
                #[trigger] overlay.some_anchor_is_first(
            nodes,
            anchors,
            sub,
            after,
            after.nodes[i],
        ) by {
            let node = after.nodes[i];
            if i < next.nodes.len() {
                assert(next.nodes[i] == node);
                assert(overlay.some_anchor_pulls(one, sub, next, next.nodes[i]));
                assert(overlay.anchor_pulls(anchors[0], sub, next, node));
                lemma_pull_stays(overlay, anchors[0], sub, next, after, node);
                assert(overlay.is_first_to_pull(nodes, anchors, 0, sub, after, node));
            } else {
                assert(overlay.some_anchor_is_first(nodes, rest, next, after, node));
                let k = choose|k: int|
                    0 <= k < rest.len() && #[trigger] overlay.is_first_to_pull(
                        nodes,
                        rest,
                        k,
                        next,
                        after,
                        node,
                    );
                lemma_not_there_before(next, after, i);
                assert(anchors[k + 1] == rest[k]);
                lemma_pull_counts_from_before(overlay, rest[k], sub, next, after, node);
                assert forall|j: int| 0 <= j < k + 1 implies !overlay.reaches(
                    nodes,
                    (#[trigger] anchors[j]).0@,
                    node.symbol@,
                ) by {
                    if j > 0 {
                        assert(rest[j - 1] == anchors[j]);
                    } else {
                        assert(one[0].0@ == anchors[0].0@);
                        if overlay.reaches(nodes, one[0].0@, node.symbol@) {
                            assert(next.has_node(node.symbol@));
                        }
                    }
                }
                assert(overlay.is_first_to_pull(nodes, anchors, k + 1, sub, after, node));
            }
        }
    }
}

/// An added node stands one step beyond the first home node that reaches it across the boundary.
/// Where the home engine lists its nodes by their distance, and had no distance on record for the
/// added one, that is one step beyond the nearest home node that reaches it. This holds as long as
/// the engines answer steadily and the cross-edges of each home node fit into the budget; what is
/// left of the budget may run out on the way.
pub proof fn law_added_node_is_one_step_beyond<'a, H: HomeEngine, F: ForeignEngine>(
    overlay: OverlayReader<'a, H, F>,
    nodes: Map<Seq<char>, Node>,
    home: SubgraphView,
    log: Seq<Seq<char>>,
    after: SubgraphView,
    log_after: Seq<Seq<char>>,
    i: int,
)
    requires
        overlay.is_steady(nodes),
        overlay.is_settled(home, nodes),
        overlay.has_room_at(home),
        overlay.traversal_ends(home, log, (Ok::<SubgraphView, Error>(after), log_after)),
        home.nodes.len() <= i < after.nodes.len(),
    ensures
        exists|k: int|
            {
                &&& 0 <= k < home.nodes.len()
                &&& overlay.reaches(
                    nodes,
                    (#[trigger] home.nodes[k]).symbol@,
                    after.nodes[i].symbol@,
                )
                &&& home.places(
                    after,
                    after.nodes[i].symbol@,
                    home.depth_of(home.nodes[k].symbol@),
                )
                &&& forall|j: int|
                    0 <= j < k ==> !overlay.reaches(
                        nodes,
                        (#[trigger] home.nodes[j]).symbol@,
                        after.nodes[i].symbol@,
                    )
            },
        home.is_by_distance() && !home.depths.contains_key(after.nodes[i].symbol@) ==> {
            &&& exists|k: int|
                {
                    &&& 0 <= k < home.nodes.len()
                    &&& overlay.reaches(
                        nodes,
                        (#[trigger] home.nodes[k]).symbol@,
                        after.nodes[i].symbol@,
                    )
                    &&& after.depth_of(after.nodes[i].symbol@) == home.depth_of(
                        home.nodes[k].symbol@,
                    ) + 1
                }
            &&& forall|k: int|
                0 <= k < home.nodes.len() && overlay.reaches(
                    nodes,
                    (#[trigger] home.nodes[k]).symbol@,
                    after.nodes[i].symbol@,
                ) ==> after.depth_of(after.nodes[i].symbol@) <= home.depth_of(
                    home.nodes[k].symbol@,
                ) + 1
        },
{
    let base = home.nodes.len();
    let anchors = anchors_of(home);
    let node = after.nodes[i];
    let symbol = node.symbol@;
    assert forall|k: int| 0 <= k < anchors.len() implies {
        &&& home.has_node((#[trigger] anchors[k]).0@)
        &&& overlay.has_room(Direction::Dependents, anchors[k].0@)
        &&& overlay.has_room(Direction::Dependencies, anchors[k].0@)
    } by {
        assert(home.nodes[k].symbol@ == anchors[k].0@);
    }
    lemma_grows_refl(home);
    lemma_first_anchor(overlay, base, anchors, home, home, log, after, log_after, nodes);
    assert(overlay.some_anchor_is_first(nodes, anchors, home, after, node));
    let k = choose|k: int|
        0 <= k < anchors.len() && #[trigger] overlay.is_first_to_pull(
            nodes,
            anchors,
            k,
            home,
            after,
            node,
        );
    let e = choose|e: int|
        {
            &&& home.edges.len() <= e < after.edges.len()
            &&& overlay.pulls(anchors[k].0, #[trigger] after.edges[e], node)
            &&& overlay.may_cross_at(after.edges[e], anchors[k].0@)
        };
    lemma_pull_reaches(overlay, nodes, anchors[k].0, after.edges[e], node);
    assert(home.nodes[k].symbol@ == anchors[k].0@);
    assert forall|j: int| 0 <= j < k implies !overlay.reaches(
        nodes,
        (#[trigger] home.nodes[j]).symbol@,
        symbol,
    ) by {
        assert(anchors[j].0@ == home.nodes[j].symbol@);
    }
    if home.is_by_distance() && !home.depths.contains_key(symbol) {
        assert(after.depth_of(symbol) == home.depth_of(home.nodes[k].symbol@) + 1);
        assert forall|j: int|
            0 <= j < home.nodes.len() && overlay.reaches(
                nodes,
                (#[trigger] home.nodes[j]).symbol@,
                symbol,
            ) implies after.depth_of(symbol) <= home.depth_of(home.nodes[j].symbol@) + 1 by {
            assert(k <= j);
            assert(home.depth_of(home.nodes[k].symbol@) <= home.depth_of(home.nodes[j].symbol@));
        }
    }
}

} // verus!
