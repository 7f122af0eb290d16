//! What holds of the neighbors of an id exactly, up to their order: which cross-edges they come
//! from, how the directions belong together, and what a write adds.

use crate::bag::{lemma_images, lemma_pushed, lemma_same_elements, lemma_together};
use crate::engine::{ForeignEngine, HomeEngine};
use crate::error::Error;
use crate::graph::{Direction, Edge, EdgeKindView, EdgeView, ProvenanceView, SymbolId};
use crate::overlay::{contents, OverlayReader};
use crate::overlay_laws::{
    law_check_fails_closed, law_cross_edges_are_live_and_on_record, lemma_live_as_same,
    lemma_live_rows_member, lemma_unfold_both, lemma_unfold_cross, lemma_unfold_neighbors,
};
use crate::sql::{wanted, EndpointSide, RowCell, RowKey};
use crate::store::{as_rows, XedgeStore};
use crate::store_laws::{law_row_is_the_edge, lemma_answer_rows};
use crate::xedge::{confidence_of, Endpoint, XEdge};
use vstd::prelude::*;

verus! {

/// The models of a list of edges.
pub open spec fn views(edges: Seq<Edge>) -> Seq<EdgeView> {
    edges.map_values(|edge: Edge| edge@)
}

spec fn row_shown(row: (RowKey, RowCell)) -> EdgeView {
    EdgeView {
        source: row.0.src_id,
        target: row.0.tgt_id,
        kind: EdgeKindView::Other(row.0.rel),
        confidence: confidence_of(row.1.confidence),
        provenance: ProvenanceView::Synthesizer(row.1.provenance),
        resolved_by: "xedge:"@ + row.0.rel,
        origin: None,
    }
}

spec fn shown_rows(rows: Seq<XEdge>) -> Seq<EdgeView> {
    as_rows(rows).map_values(|row: (RowKey, RowCell)| row_shown(row))
}

pub(crate) open spec fn row_live<'a, H: HomeEngine, F: ForeignEngine>(
    overlay: OverlayReader<'a, H, F>,
    row: (RowKey, RowCell),
) -> bool {
    exists|edge: XEdge| #[trigger] overlay.row_may_be_live(edge) && (edge.key(), edge.cell()) == row
}

proof fn lemma_fold_exact<'a, H: HomeEngine, F: ForeignEngine>(
    overlay: OverlayReader<'a, H, F>,
    rows: Seq<XEdge>,
    edges: Seq<Edge>,
    log: Seq<Seq<char>>,
    end: (Seq<Edge>, Seq<Seq<char>>),
)
    requires
        overlay.fold_ends(rows, edges, log, end),
        overlay.epochs_are_steady(),
        edges.len() + overlay.live_rows(rows).len() <= overlay.budget().max_cross_nodes,
    ensures
        views(end.0) == views(edges) + shown_rows(overlay.live_rows(rows)),
    decreases rows.len(),
{
    let live = overlay.live_rows(rows);
    if rows.len() == 0 || edges.len() >= overlay.budget().max_cross_nodes {
        assert(live.len() == 0);
        assert(views(end.0) =~= views(edges) + shown_rows(live));
    } else {
        let rest = rows.skip(1);
        let live_rest = overlay.live_rows(rest);
        law_check_fails_closed(overlay, rows[0]);
        let found = choose|found: Option<Seq<char>>| #[trigger]
            overlay.row_checked(rows[0], found) && match found {
                Some(line) => overlay.fold_ends(rest, edges, log.push(line), end),
                None => exists|edge: Edge| #[trigger]
                    rows[0].appears_as(edge) && overlay.fold_ends(
                        rest,
                        edges.push(edge),
                        log,
                        end,
                    ),
            };
        match found {
            Some(line) => {
                assert(!overlay.row_may_be_live(rows[0]));
                lemma_fold_exact(overlay, rest, edges, log.push(line), end);
            },
            None => {
                let edge = choose|edge: Edge| #[trigger]
                    rows[0].appears_as(edge) && overlay.fold_ends(
                        rest,
                        edges.push(edge),
                        log,
                        end,
                    );
                assert(overlay.row_may_be_live(rows[0]));
                lemma_fold_exact(overlay, rest, edges.push(edge), log, end);
                assert(row_shown((rows[0].key(), rows[0].cell())) == rows[0].shown());
                assert(views(edges.push(edge)) =~= views(edges).push(rows[0].shown()));
                assert(shown_rows(live) =~= seq![rows[0].shown()] + shown_rows(live_rest)) by {
                    assert(live =~= seq![rows[0]] + live_rest);
                    assert forall|i: int| 0 <= i < live.len() implies #[trigger] shown_rows(
                        live,
                    )[i] == (seq![rows[0].shown()] + shown_rows(live_rest))[i] by {
                        if i > 0 {
                            assert(live[i] == live_rest[i - 1]);
                        }
                    }
                }
                assert(views(end.0) =~= views(edges) + shown_rows(live));
            },
        }
    }
}

proof fn lemma_live_rows_from<'a, H: HomeEngine, F: ForeignEngine>(
    overlay: OverlayReader<'a, H, F>,
    rows: Seq<XEdge>,
)
    requires
        as_rows(rows).no_duplicates(),
    ensures
        as_rows(overlay.live_rows(rows)).no_duplicates(),
        forall|k: int|
            0 <= k < overlay.live_rows(rows).len() ==> overlay.row_may_be_live(
                #[trigger] overlay.live_rows(rows)[k],
            ) && rows.contains(overlay.live_rows(rows)[k]),
    decreases rows.len(),
{
    if rows.len() > 0 {
        let rest = rows.skip(1);
        let live = overlay.live_rows(rows);
        let live_rest = overlay.live_rows(rest);
        assert forall|i: int, j: int|
            0 <= i < as_rows(rest).len() && 0 <= j < as_rows(rest).len() && i != j implies as_rows(
            rest,
        )[i] != as_rows(rest)[j] by {
            assert(as_rows(rows)[i + 1] != as_rows(rows)[j + 1]);
            assert(rest[i] == rows[i + 1] && rest[j] == rows[j + 1]);
        }
        lemma_live_rows_from(overlay, rest);
        assert forall|k: int| 0 <= k < live_rest.len() implies rows.contains(
            #[trigger] live_rest[k],
        ) && (live_rest[k].key(), live_rest[k].cell()) != (rows[0].key(), rows[0].cell()) by {
            let m = choose|m: int| 0 <= m < rest.len() && rest[m] == live_rest[k];
            assert(rows[m + 1] == live_rest[k]);
            assert(as_rows(rows)[0] != as_rows(rows)[m + 1]);
        }
        if overlay.row_may_be_live(rows[0]) {
            assert(live =~= seq![rows[0]] + live_rest);
            assert forall|k: int| 0 <= k < live.len() implies overlay.row_may_be_live(
                #[trigger] live[k],
            ) && rows.contains(live[k]) by {
                if k > 0 {
                    assert(live[k] == live_rest[k - 1]);
                } else {
                    assert(live[0] == rows[0]);
                }
            }
            assert forall|i: int, j: int|
                0 <= i < as_rows(live).len() && 0 <= j < as_rows(live).len() && i
                    != j implies as_rows(live)[i] != as_rows(live)[j] by {
                if i > 0 && j > 0 {
                    assert(as_rows(live_rest)[i - 1] != as_rows(live_rest)[j - 1]);
                    assert(live[i] == live_rest[i - 1] && live[j] == live_rest[j - 1]);
                } else if i > 0 {
                    assert(live[i] == live_rest[i - 1]);
                } else {
                    assert(live[j] == live_rest[j - 1]);
                }
            }
        } else {
            assert(live == live_rest);
        }
    }
}

/// The live rows of an answer: those of the wanted rows of the private store whose stamps may be
/// live, each once.
pub(crate) proof fn lemma_live_answer<'a, H: HomeEngine, F: ForeignEngine>(
    overlay: OverlayReader<'a, H, F>,
    side: EndpointSide,
    id: Seq<char>,
    rows: Seq<XEdge>,
)
    requires
        overlay.xedge().is_private(),
        overlay.side_reply(side, id, Ok::<Seq<XEdge>, Error>(rows)),
    ensures
        as_rows(overlay.live_rows(rows)).no_duplicates(),
        forall|row: (RowKey, RowCell)| #[trigger]
            as_rows(overlay.live_rows(rows)).contains(row) <==> {
                &&& wanted(row.0, side, overlay.home_engine(), id, overlay.kinds())
                &&& overlay.xedge().rows().contains_key(row.0)
                &&& overlay.xedge().rows()[row.0] == row.1
                &&& row_live(overlay, row)
            },
{
    let reply = choose|reply: Result<Vec<XEdge>, Error>| #[trigger]
        overlay.xedge().answers(side, overlay.home_engine(), id, overlay.kinds(), reply) && Ok::<
            Seq<XEdge>,
            Error,
        >(rows) == contents(reply);
    let out = reply->Ok_0;
    assert(reply == Ok::<Vec<XEdge>, Error>(out));
    lemma_answer_rows(overlay.xedge(), side, overlay.home_engine(), id, overlay.kinds(), out);
    lemma_live_rows_from(overlay, rows);
    let live = overlay.live_rows(rows);
    assert forall|row: (RowKey, RowCell)| #[trigger] as_rows(live).contains(row) <==> {
        &&& wanted(row.0, side, overlay.home_engine(), id, overlay.kinds())
        &&& overlay.xedge().rows().contains_key(row.0)
        &&& overlay.xedge().rows()[row.0] == row.1
        &&& row_live(overlay, row)
    } by {
        if as_rows(live).contains(row) {
            let k = choose|k: int| 0 <= k < as_rows(live).len() && as_rows(live)[k] == row;
            assert(overlay.row_may_be_live(live[k]));
            assert(rows.contains(live[k]));
            let m = choose|m: int| 0 <= m < rows.len() && rows[m] == live[k];
            assert(as_rows(rows)[m] == row);
            assert(as_rows(rows).contains(row));
        }
        if as_rows(rows).contains(row) && row_live(overlay, row) {
            let m = choose|m: int| 0 <= m < as_rows(rows).len() && as_rows(rows)[m] == row;
            let edge = choose|edge: XEdge| #[trigger]
                overlay.row_may_be_live(edge) && (edge.key(), edge.cell()) == row;
            law_row_is_the_edge(edge, rows[m]);
            lemma_live_as_same(overlay, edge, rows[m]);
            lemma_live_rows_member(overlay, rows, m);
            let k = choose|k: int| 0 <= k < live.len() && live[k] == rows[m];
            assert(as_rows(live)[k] == row);
        }
        assert(as_rows(rows).contains(row) <==> {
            &&& wanted(row.0, side, overlay.home_engine(), id, overlay.kinds())
            &&& overlay.xedge().rows().contains_key(row.0)
            &&& overlay.xedge().rows()[row.0] == row.1
        });
    }
}

pub(crate) proof fn lemma_live_rows_together<'a, H: HomeEngine, F: ForeignEngine>(
    overlay: OverlayReader<'a, H, F>,
    a: Seq<XEdge>,
    b: Seq<XEdge>,
)
    ensures
        overlay.live_rows(a + b) == overlay.live_rows(a) + overlay.live_rows(b),
    decreases a.len(),
{
    if a.len() == 0 {
        assert(a + b =~= b);
        assert(overlay.live_rows(a) + overlay.live_rows(b) =~= overlay.live_rows(b));
    } else {
        assert((a + b).skip(1) =~= a.skip(1) + b);
        lemma_live_rows_together(overlay, a.skip(1), b);
        assert(overlay.live_rows(a + b) =~= overlay.live_rows(a) + overlay.live_rows(b));
    }
}

proof fn lemma_same_side<'a, H: HomeEngine, F: ForeignEngine>(
    overlay: OverlayReader<'a, H, F>,
    side: EndpointSide,
    id: Seq<char>,
    a: Seq<XEdge>,
    b: Seq<XEdge>,
)
    requires
        overlay.xedge().is_private(),
        overlay.side_reply(side, id, Ok::<Seq<XEdge>, Error>(a)),
        overlay.side_reply(side, id, Ok::<Seq<XEdge>, Error>(b)),
    ensures
        overlay.live_rows(a).len() == overlay.live_rows(b).len(),
        shown_rows(overlay.live_rows(a)).to_multiset() == shown_rows(
            overlay.live_rows(b),
        ).to_multiset(),
{
    broadcast use vstd::seq_lib::group_to_multiset_ensures;

    lemma_live_answer(overlay, side, id, a);
    lemma_live_answer(overlay, side, id, b);
    let x = as_rows(overlay.live_rows(a));
    let y = as_rows(overlay.live_rows(b));
    lemma_same_elements(x, y);
    assert(x.len() == x.to_multiset().len() && y.len() == y.to_multiset().len());
    lemma_images(x, y, |row: (RowKey, RowCell)| row_shown(row));
}

/// Both directions together are the union of the two: the cross-store edges at an id in both
/// directions are, up to their order, those that point at it and those that leave it. This holds
/// as long as the engines answer steadily and the live ones fit into the budget.
pub proof fn law_both_directions_are_the_two_together<'a, H: HomeEngine, F: ForeignEngine>(
    overlay: OverlayReader<'a, H, F>,
    id: Seq<char>,
    log: Seq<Seq<char>>,
    pointing: Seq<Edge>,
    log_pointing: Seq<Seq<char>>,
    leaving: Seq<Edge>,
    log_leaving: Seq<Seq<char>>,
    both: Seq<Edge>,
    log_both: Seq<Seq<char>>,
)
    requires
        overlay.xedge().is_private(),
        overlay.epochs_are_steady(),
        overlay.has_room(Direction::Both, id),
        overlay.cross_ends(
            id,
            Direction::Dependents,
            log,
            (Ok::<Seq<Edge>, Error>(pointing), log_pointing),
        ),
        overlay.cross_ends(
            id,
            Direction::Dependencies,
            log,
            (Ok::<Seq<Edge>, Error>(leaving), log_leaving),
        ),
        overlay.cross_ends(id, Direction::Both, log, (Ok::<Seq<Edge>, Error>(both), log_both)),
    ensures
        views(both).to_multiset() == views(pointing).to_multiset().add(
            views(leaving).to_multiset(),
        ),
        forall|i: int| 0 <= i < pointing.len() ==> (#[trigger] pointing[i]).target@ == id,
        forall|i: int| 0 <= i < leaving.len() ==> (#[trigger] leaving[i]).source@ == id,
{
    if overlay.crosses() {
        let rows = lemma_unfold_cross(overlay, id, Direction::Both, log, both, log_both);
        let (p, l) = lemma_unfold_both(overlay, id, rows);
        let q = lemma_unfold_cross(
            overlay,
            id,
            Direction::Dependents,
            log,
            pointing,
            log_pointing,
        );
        let m = lemma_unfold_cross(
            overlay,
            id,
            Direction::Dependencies,
            log,
            leaving,
            log_leaving,
        );
        lemma_same_side(overlay, EndpointSide::Target, id, p, q);
        lemma_same_side(overlay, EndpointSide::Source, id, l, m);
        lemma_live_rows_together(overlay, p, l);
        lemma_fold_exact(overlay, rows, Seq::empty(), log, (both, log_both));
        lemma_fold_exact(overlay, q, Seq::empty(), log, (pointing, log_pointing));
        lemma_fold_exact(overlay, m, Seq::empty(), log, (leaving, log_leaving));
        let shown_p = shown_rows(overlay.live_rows(p));
        let shown_l = shown_rows(overlay.live_rows(l));
        let none = views(Seq::<Edge>::empty());
        assert(none =~= Seq::<EdgeView>::empty());
        assert(views(both) =~= shown_p + shown_l) by {
            assert(as_rows(overlay.live_rows(p) + overlay.live_rows(l)) =~= as_rows(
                overlay.live_rows(p),
            ) + as_rows(overlay.live_rows(l)));
            assert(shown_rows(overlay.live_rows(p) + overlay.live_rows(l)) =~= shown_p + shown_l);
        }
        assert(views(pointing) =~= shown_rows(overlay.live_rows(q)));
        assert(views(leaving) =~= shown_rows(overlay.live_rows(m)));
        lemma_together(shown_p, shown_l);
        lemma_at_the_id(overlay, id, Direction::Dependents, log, pointing, log_pointing);
        lemma_at_the_id(overlay, id, Direction::Dependencies, log, leaving, log_leaving);
    } else {
        assert(views(both) =~= views(pointing) + views(leaving));
        lemma_together(views(pointing), views(leaving));
    }
}

proof fn lemma_at_the_id<'a, H: HomeEngine, F: ForeignEngine>(
    overlay: OverlayReader<'a, H, F>,
    id: Seq<char>,
    dir: Direction,
    log: Seq<Seq<char>>,
    edges: Seq<Edge>,
    log_after: Seq<Seq<char>>,
)
    requires
        overlay.xedge().is_private(),
        overlay.cross_ends(id, dir, log, (Ok::<Seq<Edge>, Error>(edges), log_after)),
    ensures
        dir == Direction::Dependents ==> forall|i: int|
            0 <= i < edges.len() ==> (#[trigger] edges[i]).target@ == id,
        dir == Direction::Dependencies ==> forall|i: int|
            0 <= i < edges.len() ==> (#[trigger] edges[i]).source@ == id,
{
    law_cross_edges_are_live_and_on_record(overlay, id, dir, log, edges, log_after);
    assert forall|i: int| 0 <= i < edges.len() implies (dir == Direction::Dependents ==> (
    #[trigger] edges[i]).target@ == id) && (dir == Direction::Dependencies ==> edges[i].source@
        == id) by {
        assert(overlay.is_accounted_for(edges[i], dir, id));
        let row = choose|row: XEdge| #[trigger] overlay.comes_from(edges[i], row, dir, id);
        assert(overlay.holds_at(row, dir, id));
    }
}

impl<'a, H: HomeEngine, F: ForeignEngine> OverlayReader<'a, H, F> {
    /// Whether two overlays differ in their store alone.
    pub open spec fn same_but_for_the_store(&self, other: OverlayReader<'a, H, F>) -> bool {
        &&& self.home() == other.home()
        &&& self.home_engine() == other.home_engine()
        &&& self.pools() == other.pools()
        &&& self.kinds() == other.kinds()
        &&& self.budget() == other.budget()
    }
}

proof fn lemma_same_liveness<'a, H: HomeEngine, F: ForeignEngine>(
    a: OverlayReader<'a, H, F>,
    b: OverlayReader<'a, H, F>,
    end: Endpoint,
)
    requires
        a.same_but_for_the_store(b),
    ensures
        a.may_be_live(end) == b.may_be_live(end),
        a.always_live(end) == b.always_live(end),
{
    assert forall|id: SymbolId, reply: Result<Option<u64>, Error>| #[trigger]
        a.epoch_reply(end.engine@, id, reply) == b.epoch_reply(end.engine@, id, reply) by {}
    let live = Ok::<Option<u64>, Error>(Some(end.epoch));
    if a.may_be_live(end) {
        let id = choose|id: SymbolId|
            id@ == end.stable_id@ && #[trigger] a.epoch_reply(end.engine@, id, live);
        assert(b.epoch_reply(end.engine@, id, live));
    }
    if b.may_be_live(end) {
        let id = choose|id: SymbolId|
            id@ == end.stable_id@ && #[trigger] b.epoch_reply(end.engine@, id, live);
        assert(a.epoch_reply(end.engine@, id, live));
    }
    if a.always_live(end) {
        assert forall|id: SymbolId, reply: Result<Option<u64>, Error>|
            id@ == end.stable_id@ && #[trigger] b.epoch_reply(end.engine@, id, reply) implies
            reply == live by {
            assert(a.epoch_reply(end.engine@, id, reply));
        }
    }
    if b.always_live(end) {
        assert forall|id: SymbolId, reply: Result<Option<u64>, Error>|
            id@ == end.stable_id@ && #[trigger] a.epoch_reply(end.engine@, id, reply) implies
            reply == live by {
            assert(b.epoch_reply(end.engine@, id, reply));
        }
    }
}

proof fn lemma_put_and_cross<'a, H: HomeEngine, F: ForeignEngine>(
    before: OverlayReader<'a, H, F>,
    edge: XEdge,
    after: OverlayReader<'a, H, F>,
    id: Seq<char>,
    dir: Direction,
    log0: Seq<Seq<char>>,
    edges0: Seq<Edge>,
    log0_after: Seq<Seq<char>>,
    log1: Seq<Seq<char>>,
    edges1: Seq<Edge>,
    log1_after: Seq<Seq<char>>,
)
    requires
        before.xedge().is_private(),
        after.xedge().is_private(),
        after.xedge().rows() == before.xedge().rows().insert(edge.key(), edge.cell()),
        !before.xedge().rows().contains_key(edge.key()),
        before.same_but_for_the_store(after),
        after.crosses(),
        after.epochs_are_steady(),
        dir != Direction::Both,
        after.has_room(dir, id),
        before.cross_ends(id, dir, log0, (Ok::<Seq<Edge>, Error>(edges0), log0_after)),
        after.cross_ends(id, dir, log1, (Ok::<Seq<Edge>, Error>(edges1), log1_after)),
    ensures
        views(edges1).to_multiset() == if after.holds_at(edge, dir, id) && after.row_is_live(edge) {
            views(edges0).to_multiset().insert(edge.shown())
        } else {
            views(edges0).to_multiset()
        },
{
    broadcast use vstd::seq_lib::group_to_multiset_ensures;

    let side = if dir == Direction::Dependents {
        EndpointSide::Target
    } else {
        EndpointSide::Source
    };
    let rows0 = lemma_unfold_cross(before, id, dir, log0, edges0, log0_after);
    let rows1 = lemma_unfold_cross(after, id, dir, log1, edges1, log1_after);
    lemma_live_answer(before, side, id, rows0);
    lemma_live_answer(after, side, id, rows1);
    let live0 = as_rows(before.live_rows(rows0));
    let live1 = as_rows(after.live_rows(rows1));
    let row = (edge.key(), edge.cell());
    assert forall|end: Endpoint| #[trigger] before.may_be_live(end) == after.may_be_live(end)
        && before.always_live(end) == after.always_live(end) by {
        lemma_same_liveness(before, after, end);
    }
    assert(before.epochs_are_steady()) by {
        assert forall|end: Endpoint| #[trigger] before.may_be_live(end) implies before.always_live(
            end,
        ) by {
            assert(after.may_be_live(end));
        }
    }
    assert forall|r: (RowKey, RowCell)| #[trigger] row_live(before, r) == row_live(after, r) by {
        if row_live(before, r) {
            let e = choose|e: XEdge| #[trigger]
                before.row_may_be_live(e) && (e.key(), e.cell()) == r;
            assert(after.row_may_be_live(e));
        }
        if row_live(after, r) {
            let e = choose|e: XEdge| #[trigger]
                after.row_may_be_live(e) && (e.key(), e.cell()) == r;
            assert(before.row_may_be_live(e));
        }
    }
    assert(row_live(after, row) == after.row_is_live(edge)) by {
        if row_live(after, row) {
            let e = choose|e: XEdge| #[trigger]
                after.row_may_be_live(e) && (e.key(), e.cell()) == row;
            law_row_is_the_edge(e, edge);
            lemma_live_as_same(after, e, edge);
            assert(after.may_be_live(edge.source) && after.may_be_live(edge.target));
        }
        if after.row_is_live(edge) {
            assert(after.row_may_be_live(edge));
        }
    }
    let adds = after.holds_at(edge, dir, id) && after.row_is_live(edge);
    let want = if adds {
        live0.push(row)
    } else {
        live0
    };
    assert(!live0.contains(row));
    assert forall|r: (RowKey, RowCell)| #[trigger] live1.contains(r) <==> want.contains(r) by {
        assert(row_live(before, r) == row_live(after, r));
        if adds {
            assert(want[live0.len() as int] == row);
            if live0.contains(r) {
                let k = choose|k: int| 0 <= k < live0.len() && live0[k] == r;
                assert(want[k] == r);
            }
            if want.contains(r) && r != row {
                let k = choose|k: int| 0 <= k < want.len() && want[k] == r;
                assert(live0[k] == r);
            }
        }
    }
    assert(want.no_duplicates());
    lemma_same_elements(live1, want);
    let f = |r: (RowKey, RowCell)| row_shown(r);
    lemma_images(live1, want, f);
    assert(live1.len() == live1.to_multiset().len() && want.len() == want.to_multiset().len());
    lemma_fold_exact(before, rows0, Seq::empty(), log0, (edges0, log0_after));
    lemma_fold_exact(after, rows1, Seq::empty(), log1, (edges1, log1_after));
    assert(views(Seq::<Edge>::empty()) =~= Seq::<EdgeView>::empty());
    assert(views(edges0) =~= live0.map_values(f));
    assert(views(edges1) =~= live1.map_values(f));
    if adds {
        assert(row_shown(row) == edge.shown());
        assert(want.map_values(f) =~= live0.map_values(f).push(edge.shown()));
        lemma_pushed(live0.map_values(f), edge.shown());
    }
}

/// A write adds exactly its edge. After an edge with a new key is written, the neighbors of an id
/// in a direction are, up to their order, what they were, and the edge as well if it has that id at
/// that end, its relationship is armed and its stamps are live. The neighbors of every other id
/// stay as they were. This holds as long as the engines answer steadily and the live cross-edges
/// fit into the budget.
pub proof fn law_put_adds_its_edge<'a, H: HomeEngine, F: ForeignEngine>(
    store: XedgeStore,
    edge: XEdge,
    store_after: XedgeStore,
    before: OverlayReader<'a, H, F>,
    after: OverlayReader<'a, H, F>,
    id: SymbolId,
    dir: Direction,
    own: Seq<EdgeView>,
    log0: Seq<Seq<char>>,
    edges0: Seq<Edge>,
    log0_after: Seq<Seq<char>>,
    log1: Seq<Seq<char>>,
    edges1: Seq<Edge>,
    log1_after: Seq<Seq<char>>,
)
    requires
        store.is_private(),
        !store.rows().contains_key(edge.key()),
        XedgeStore::written(store, edge, Ok(()), store_after),
        before.xedge().is_private() == store.is_private(),
        before.xedge().rows() == store.rows(),
        after.xedge().is_private() == store_after.is_private(),
        after.xedge().rows() == store_after.rows(),
        before.same_but_for_the_store(after),
        after.crosses(),
        after.epochs_are_steady(),
        dir != Direction::Both,
        after.has_room(dir, id@),
        forall|reply: Vec<Edge>| #[trigger]
            call_ensures(
                H::neighbors,
                (after.home(), &id, dir),
                Ok::<Vec<Edge>, Error>(reply),
            ) ==> views(reply@) == own,
        before.neighbors_ends(id, dir, log0, (Ok::<Seq<Edge>, Error>(edges0), log0_after)),
        after.neighbors_ends(id, dir, log1, (Ok::<Seq<Edge>, Error>(edges1), log1_after)),
    ensures
        views(edges1).to_multiset() == if after.holds_at(edge.kept(), dir, id@)
            && after.row_is_live(edge.kept()) {
            views(edges0).to_multiset().insert(edge.kept().shown())
        } else {
            views(edges0).to_multiset()
        },
{
    let (own0, more0) = lemma_unfold_neighbors(before, id, dir, log0, edges0, log0_after);
    let (own1, more1) = lemma_unfold_neighbors(after, id, dir, log1, edges1, log1_after);
    lemma_put_and_cross(
        before,
        edge.kept(),
        after,
        id@,
        dir,
        log0,
        more0,
        log0_after,
        log1,
        more1,
        log1_after,
    );
    assert(views(own0@) == own && views(own1@) == own);
    assert(views(edges0) =~= own + views(more0));
    assert(views(edges1) =~= own + views(more1));
    lemma_together(own, views(more0));
    lemma_together(own, views(more1));
    if after.holds_at(edge.kept(), dir, id@) && after.row_is_live(edge.kept()) {
        assert(own.to_multiset().add(views(more0).to_multiset().insert(edge.kept().shown()))
            =~= own.to_multiset().add(views(more0).to_multiset()).insert(edge.kept().shown()));
    }
}

} // verus!
