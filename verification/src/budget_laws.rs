//! When the budget of an overlay is enough, and what it means that a traversal is cut short.

use crate::engine::{ForeignEngine, HomeEngine};
use crate::error::Error;
use crate::graph::{Direction, Edge, Node, Relationship, SubgraphView, SymbolId};
use crate::neighbor_laws::{lemma_live_answer, row_live};
use crate::overlay::{anchors_of, OverlayReader};
use crate::overlay_laws::lemma_live_as_same;
use crate::sql::{EndpointSide, RowKey};
use crate::store::as_rows;
use crate::store_laws::law_row_is_the_edge;
use crate::traversal_laws::{
    law_traversal_keeps_the_home_part, lemma_anchors, lemma_edge_at, lemma_step,
    lemma_unfold_anchors,
};
use crate::xedge::XEdge;
use vstd::prelude::*;
use vstd::set_lib::lemma_len_subset;

verus! {

impl<'a, H: HomeEngine, F: ForeignEngine> OverlayReader<'a, H, F> {
    /// Whether these are the keys of all cross-edges at a node of the subgraph that the private
    /// store holds with an armed relationship and whose stamps may be live; there may be more.
    pub open spec fn are_keys_at(&self, keys: Set<RowKey>, sub: SubgraphView) -> bool {
        forall|row: XEdge, from: Seq<char>| #[trigger]
            self.holds_at(row, Direction::Both, from) && sub.has_node(from)
                && self.row_may_be_live(row) ==> keys.contains(row.key())
    }
}

proof fn lemma_distinct_within(seen: Seq<RowKey>, keys: Set<RowKey>)
    requires
        seen.no_duplicates(),
        keys.finite(),
        forall|i: int| 0 <= i < seen.len() ==> keys.contains(#[trigger] seen[i]),
    ensures
        seen.len() <= keys.len(),
{
    seen.unique_seq_to_set();
    assert(seen.to_set().subset_of(keys)) by {
        assert forall|key: RowKey| #[trigger] seen.to_set().contains(key) implies keys.contains(
            key,
        ) by {
            let i = choose|i: int| 0 <= i < seen.len() && seen[i] == key;
            assert(keys.contains(seen[i]));
        }
    }
    lemma_len_subset(seen.to_set(), keys);
}

proof fn lemma_live_within<'a, H: HomeEngine, F: ForeignEngine>(
    overlay: OverlayReader<'a, H, F>,
    side: EndpointSide,
    id: Seq<char>,
    rows: Seq<XEdge>,
    sub: SubgraphView,
    keys: Set<RowKey>,
)
    requires
        overlay.xedge().is_private(),
        overlay.side_reply(side, id, Ok::<Seq<XEdge>, Error>(rows)),
        sub.has_node(id),
        keys.finite(),
        overlay.are_keys_at(keys, sub),
    ensures
        overlay.live_rows(rows).len() <= keys.len(),
{
    lemma_live_answer(overlay, side, id, rows);
    let live = overlay.live_rows(rows);
    let seen = Seq::new(live.len(), |i: int| live[i].key());
    assert forall|i: int| 0 <= i < seen.len() implies {
        &&& keys.contains(#[trigger] seen[i])
        &&& overlay.xedge().rows()[seen[i]] == live[i].cell()
    } by {
        assert(as_rows(live)[i] == (live[i].key(), live[i].cell()));
        assert(as_rows(live).contains(as_rows(live)[i]));
        let row = as_rows(live)[i];
        assert(row_live(overlay, row));
        let edge = choose|edge: XEdge| #[trigger]
            overlay.row_may_be_live(edge) && (edge.key(), edge.cell()) == row;
        law_row_is_the_edge(edge, live[i]);
        lemma_live_as_same(overlay, edge, live[i]);
        assert(overlay.holds_at(live[i], Direction::Both, id));
    }
    assert forall|i: int, j: int| 0 <= i < seen.len() && 0 <= j < seen.len() && i != j implies
        seen[i] != seen[j] by {
        assert(as_rows(live)[i] != as_rows(live)[j]);
        assert(overlay.xedge().rows()[seen[i]] == live[i].cell());
        assert(overlay.xedge().rows()[seen[j]] == live[j].cell());
    }
    lemma_distinct_within(seen, keys);
}

proof fn lemma_anchor_counts<'a, H: HomeEngine, F: ForeignEngine>(
    overlay: OverlayReader<'a, H, F>,
    base: nat,
    anchor: SymbolId,
    depth: u32,
    edges: Seq<Edge>,
    sub: SubgraphView,
    after: SubgraphView,
)
    requires
        overlay.anchor_ends(
            base,
            anchor,
            depth,
            edges,
            sub,
            Ok::<SubgraphView, Error>(after),
        ),
    ensures
        after.nodes.len() - sub.nodes.len() <= after.edges.len() - sub.edges.len(),
    decreases edges.len(),
{
    let end = Ok::<SubgraphView, Error>(after);
    if edges.len() > 0 && !overlay.spent(base, sub) {
        let rest = edges.skip(1);
        if sub.has_relationship(edges[0].relationship()) {
            lemma_anchor_counts(overlay, base, anchor, depth, rest, sub, after);
        } else {
            let far_id = OverlayReader::<'a, H, F>::far_end(edges[0], anchor);
            let far = choose|far: Result<Option<Node>, Error>| #[trigger]
                overlay.far_reply(far_id, anchor, far) && match far {
                    Err(e) => end == Err::<SubgraphView, Error>(e),
                    Ok(node) => match sub.with_edge(depth, edges[0], node) {
                        None => end == Err::<SubgraphView, Error>(Error::DepthOverflow),
                        Some(next) => overlay.anchor_ends(base, anchor, depth, rest, next, end),
                    },
                };
            let next = sub.with_edge(depth, edges[0], far->Ok_0)->Some_0;
            lemma_step(sub, depth, edges[0], far->Ok_0, next);
            lemma_anchor_counts(overlay, base, anchor, depth, rest, next, after);
        }
    }
}

proof fn lemma_anchors_count<'a, H: HomeEngine, F: ForeignEngine>(
    overlay: OverlayReader<'a, H, F>,
    base: nat,
    anchors: Seq<(SymbolId, u32)>,
    sub: SubgraphView,
    log: Seq<Seq<char>>,
    after: SubgraphView,
    log_after: Seq<Seq<char>>,
)
    requires
        overlay.anchors_end(
            base,
            anchors,
            sub,
            log,
            (Ok::<SubgraphView, Error>(after), log_after),
        ),
    ensures
        after.nodes.len() - sub.nodes.len() <= after.edges.len() - sub.edges.len(),
    decreases anchors.len(),
{
    let end = (Ok::<SubgraphView, Error>(after), log_after);
    if anchors.len() > 0 && !overlay.spent(base, sub) {
        let (first, second, added) = lemma_unfold_anchors(overlay, base, anchors, sub, log, end);
        let next = added->Ok_0;
        let edges = first.0->Ok_0 + second.0->Ok_0;
        lemma_anchor_counts(overlay, base, anchors[0].0, anchors[0].1, edges, sub, next);
        lemma_anchors_count(overlay, base, anchors.skip(1), next, second.1, after, log_after);
    }
}

spec fn key_of<'a, H: HomeEngine, F: ForeignEngine>(
    overlay: OverlayReader<'a, H, F>,
    home: SubgraphView,
    r: Relationship,
) -> (XEdge, Seq<char>) {
    choose|row: XEdge, from: Seq<char>|
        {
            &&& #[trigger] overlay.holds_at(row, Direction::Both, from)
            &&& home.has_node(from)
            &&& overlay.row_may_be_live(row)
            &&& row.relationship() == r
        }
}

/// A budget that is larger than the number of live cross-edges at the nodes of a home subgraph is
/// never used up by a traversal of it.
pub proof fn law_few_cross_edges_stay_in_budget<'a, H: HomeEngine, F: ForeignEngine>(
    overlay: OverlayReader<'a, H, F>,
    home: SubgraphView,
    keys: Set<RowKey>,
)
    requires
        overlay.xedge().is_private(),
        overlay.are_keys_at(keys, home),
        keys.finite(),
        keys.len() < overlay.budget().max_cross_nodes,
    ensures
        overlay.stays_in_budget(home),
{
    assert forall|i: int| 0 <= i < home.nodes.len() implies {
        &&& overlay.has_room(Direction::Dependents, (#[trigger] home.nodes[i]).symbol@)
        &&& overlay.has_room(Direction::Dependencies, home.nodes[i].symbol@)
    } by {
        let id = home.nodes[i].symbol@;
        assert(home.has_node(id));
        assert forall|rows: Seq<XEdge>| #[trigger]
            overlay.rows_reply(id, Direction::Dependents, Ok::<Seq<XEdge>, Error>(rows)) implies
            overlay.live_rows(rows).len() <= overlay.budget().max_cross_nodes by {
            lemma_live_within(overlay, EndpointSide::Target, id, rows, home, keys);
        }
        assert forall|rows: Seq<XEdge>| #[trigger]
            overlay.rows_reply(id, Direction::Dependencies, Ok::<Seq<XEdge>, Error>(rows)) implies
            overlay.live_rows(rows).len() <= overlay.budget().max_cross_nodes by {
            lemma_live_within(overlay, EndpointSide::Source, id, rows, home, keys);
        }
    }
    assert forall|log: Seq<Seq<char>>, after: SubgraphView, log_after: Seq<Seq<char>>| #[trigger]
        overlay.traversal_ends(home, log, (Ok::<SubgraphView, Error>(after), log_after)) implies
        !overlay.spent(home.nodes.len(), after) by {
        if overlay.crosses() && overlay.budget().max_cross_hops > 0 {
            let anchors = anchors_of(home);
            lemma_anchors(overlay, home.nodes.len(), anchors, home, log, after, log_after);
            lemma_anchors_count(overlay, home.nodes.len(), anchors, home, log, after, log_after);
            let first = home.edges.len() as int;
            let added = (after.edges.len() - home.edges.len()) as nat;
            let seen = Seq::new(
                added,
                |e: int| key_of(overlay, home, after.edges[first + e].relationship()).0.key(),
            );
            assert forall|e: int| 0 <= e < seen.len() implies {
                &&& keys.contains(#[trigger] seen[e])
                &&& key_of(overlay, home, after.edges[first + e].relationship()).0.relationship()
                    == after.edges[first + e].relationship()
            } by {
                let edge = after.edges[first + e];
                assert(overlay.some_anchor_crosses(anchors, edge));
                let k = choose|k: int|
                    0 <= k < anchors.len() && overlay.may_cross_at(
                        edge,
                        (#[trigger] anchors[k]).0@,
                    );
                assert(home.nodes[k].symbol@ == anchors[k].0@);
                lemma_edge_at(overlay, home, edge, anchors[k].0@);
                let (row, from) = key_of(overlay, home, edge.relationship());
                assert(overlay.holds_at(row, Direction::Both, from));
            }
            assert forall|i: int, j: int|
                0 <= i < seen.len() && 0 <= j < seen.len() && i != j implies seen[i] != seen[j] by {
                let r = after.edges[first + i].relationship();
                let s = after.edges[first + j].relationship();
                assert(r != s) by {
                    if i < j {
                        assert(after.edges[first + j].relationship() != after.edges[first
                            + i].relationship());
                    } else {
                        assert(after.edges[first + i].relationship() != after.edges[first
                            + j].relationship());
                    }
                }
                let a = key_of(overlay, home, r).0;
                let b = key_of(overlay, home, s).0;
                assert(keys.contains(seen[i]) && keys.contains(seen[j]));
                assert(a.relationship() == r && b.relationship() == s);
            }
            lemma_distinct_within(seen, keys);
        }
    }
}

proof fn lemma_anchor_cut<'a, H: HomeEngine, F: ForeignEngine>(
    overlay: OverlayReader<'a, H, F>,
    base: nat,
    anchor: SymbolId,
    depth: u32,
    edges: Seq<Edge>,
    sub: SubgraphView,
    after: SubgraphView,
)
    requires
        overlay.anchor_ends(
            base,
            anchor,
            depth,
            edges,
            sub,
            Ok::<SubgraphView, Error>(after),
        ),
        !sub.truncated,
    ensures
        after.truncated ==> overlay.spent(base, after),
    decreases edges.len(),
{
    let end = Ok::<SubgraphView, Error>(after);
    if edges.len() > 0 && !overlay.spent(base, sub) {
        let rest = edges.skip(1);
        if sub.has_relationship(edges[0].relationship()) {
            lemma_anchor_cut(overlay, base, anchor, depth, rest, sub, after);
        } else {
            let far_id = OverlayReader::<'a, H, F>::far_end(edges[0], anchor);
            let far = choose|far: Result<Option<Node>, Error>| #[trigger]
                overlay.far_reply(far_id, anchor, far) && match far {
                    Err(e) => end == Err::<SubgraphView, Error>(e),
                    Ok(node) => match sub.with_edge(depth, edges[0], node) {
                        None => end == Err::<SubgraphView, Error>(Error::DepthOverflow),
                        Some(next) => overlay.anchor_ends(base, anchor, depth, rest, next, end),
                    },
                };
            let next = sub.with_edge(depth, edges[0], far->Ok_0)->Some_0;
            lemma_anchor_cut(overlay, base, anchor, depth, rest, next, after);
        }
    }
}

proof fn lemma_anchors_cut<'a, H: HomeEngine, F: ForeignEngine>(
    overlay: OverlayReader<'a, H, F>,
    base: nat,
    anchors: Seq<(SymbolId, u32)>,
    sub: SubgraphView,
    log: Seq<Seq<char>>,
    after: SubgraphView,
    log_after: Seq<Seq<char>>,
)
    requires
        overlay.anchors_end(
            base,
            anchors,
            sub,
            log,
            (Ok::<SubgraphView, Error>(after), log_after),
        ),
        !sub.truncated,
    ensures
        after.truncated ==> overlay.spent(base, after),
    decreases anchors.len(),
{
    let end = (Ok::<SubgraphView, Error>(after), log_after);
    if anchors.len() > 0 && !overlay.spent(base, sub) {
        let (first, second, added) = lemma_unfold_anchors(overlay, base, anchors, sub, log, end);
        let next = added->Ok_0;
        let edges = first.0->Ok_0 + second.0->Ok_0;
        lemma_anchor_cut(overlay, base, anchors[0].0, anchors[0].1, edges, sub, next);
        if next.truncated {
            assert(after == next);
        } else {
            lemma_anchors_cut(overlay, base, anchors.skip(1), next, second.1, after, log_after);
        }
    }
}

/// A traversal is marked as cut short only if it was so at home, or if the budget is used up.
pub proof fn law_cut_short_only_at_the_budget<'a, H: HomeEngine, F: ForeignEngine>(
    overlay: OverlayReader<'a, H, F>,
    home: SubgraphView,
    log: Seq<Seq<char>>,
    after: SubgraphView,
    log_after: Seq<Seq<char>>,
)
    requires
        overlay.traversal_ends(home, log, (Ok::<SubgraphView, Error>(after), log_after)),
    ensures
        after.truncated ==> home.truncated || overlay.spent(home.nodes.len(), after),
        after.truncated ==> home.truncated || after.nodes.len() == home.nodes.len()
            + overlay.budget().max_cross_nodes,
{
    law_traversal_keeps_the_home_part(overlay, home, log, after, log_after);
    if overlay.crosses() && overlay.budget().max_cross_hops > 0 && !home.truncated {
        let anchors = anchors_of(home);
        lemma_anchors_cut(overlay, home.nodes.len(), anchors, home, log, after, log_after);
    }
}

} // verus!
