//! The union reader: a home engine, with the nodes of foreign engines folded in along cross-edges.
//!
//! Graph reads (`get_node`, `neighbors`, `traverse`, `traverse_multi`, `symbol_epoch`) cross the
//! store boundary; every other read is the home engine's own. A cross-edge is folded in only while
//! both of its stamps are the live epochs of their ids, so that an id that was deleted and used
//! again never answers for the old one. Each edge that is dropped leaves a line in the log.
//!
//! The engines are outside this crate. What a read returns is stated as a relation between the
//! replies that they may give and the result.

use crate::engine::{find_engine, ForeignEngine, ForeignPools, HomeEngine, StoreCapabilities};
use crate::error::Error;
use crate::graph::{
    kind_key, Direction, Edge, EdgeKindView, Node, Subgraph, SubgraphView, SymbolId,
};
use crate::sql::EndpointSide;
use crate::store::{texts, XedgeReader};
use crate::text::{decimal, push_decimal, same_text};
use crate::xedge::{Endpoint, XEdge, ESTATE_ENGINE, MEMORY_EPOCH};
use std::sync::Arc;
use vstd::prelude::*;
use wicked_estate_core::annotation::Annotation;
use wicked_estate_core::change::Change;
use wicked_estate_core::history::HistoricalEdge;
use wicked_estate_core::query::GraphStats;
use wicked_estate_core::refs::UnresolvedRef;
use wicked_estate_core::repo::RepoInfo;
use wicked_estate_core::semantics::NodeSemantics;
use wicked_estate_core::{Edge as EdgeRecord, Node as NodeRecord, SymbolQuery, TraversalSpec};

verus! {

/// How far an expansion may cross the store boundary.
#[derive(Debug, Clone, Copy)]
pub struct CrossBudget {
    /// The number of cross-store hops. At zero nothing is folded into a traversal.
    pub max_cross_hops: u32,
    /// The number of nodes that one expansion may pull across.
    pub max_cross_nodes: usize,
}

impl Default for CrossBudget {
    fn default() -> (out: Self)
        ensures
            out.max_cross_hops == 1,
            out.max_cross_nodes == 64,
    {
        CrossBudget { max_cross_hops: 1, max_cross_nodes: 64 }
    }
}

/// The texts of the lines of a log.
pub open spec fn lines(log: Seq<String>) -> Seq<Seq<char>> {
    Seq::new(log.len(), |i: int| log[i]@)
}

/// A list result, with the list as a sequence.
pub open spec fn contents<T>(list: Result<Vec<T>, Error>) -> Result<Seq<T>, Error> {
    match list {
        Ok(items) => Ok(items@),
        Err(e) => Err(e),
    }
}

/// A subgraph result, with the subgraph as its model.
pub open spec fn subgraph_of(sub: Result<Subgraph, Error>) -> Result<SubgraphView, Error> {
    match sub {
        Ok(sub) => Ok(sub@),
        Err(e) => Err(e),
    }
}

/// The nodes of a subgraph, each with its distance.
pub open spec fn anchors_of(sub: SubgraphView) -> Seq<(SymbolId, u32)> {
    Seq::new(
        sub.nodes.len(),
        |i: int| (sub.nodes[i].symbol, sub.depth_of(sub.nodes[i].symbol@)),
    )
}

/// Why a cross-edge is dropped on account of one of its ends, given the reply to the question for
/// the live epoch of that end: the log line, or nothing where the stamp is the live epoch.
pub open spec fn fault(end: Endpoint, live: Result<Option<u64>, Error>) -> Option<Seq<char>> {
    let edge = "XEDGE-STALE-EPOCH: edge to "@ + end.engine@ + ":"@ + end.stable_id@;
    match live {
        Ok(Some(epoch)) => if epoch == end.epoch {
            None
        } else {
            Some(
                edge + " dropped (row gen="@ + decimal(end.epoch as nat) + ", live gen="@ + decimal(
                    epoch as nat,
                ) + " — id reused; prune queued)"@,
            )
        },
        Ok(None) => Some(edge + " dropped (no live node; prune queued)"@),
        Err(_) => Some(edge + " dropped (epoch read failed; prune queued)"@),
    }
}

/// The log line for an end whose stamp is not its live epoch; `None` where it is.
pub fn stale_marker(end: &Endpoint, live: &Result<Option<u64>, Error>) -> (out: Option<String>)
    ensures
        match out {
            Some(line) => fault(*end, *live) == Some(line@),
            None => fault(*end, *live) is None,
        },
{
    let mut line: String = "XEDGE-STALE-EPOCH: edge to ".to_string();
    line.append(end.engine.as_str());
    line.append(":");
    line.append(end.stable_id.as_str());
    match live {
        Ok(Some(epoch)) => {
            if *epoch == end.epoch {
                return None;
            }
            line.append(" dropped (row gen=");
            push_decimal(&mut line, end.epoch as u128);
            line.append(", live gen=");
            push_decimal(&mut line, *epoch as u128);
            line.append(" — id reused; prune queued)");
        },
        Ok(None) => line.append(" dropped (no live node; prune queued)"),
        Err(_) => line.append(" dropped (epoch read failed; prune queued)"),
    }
    Some(line)
}

/// A home engine with foreign engines folded in.
pub struct OverlayReader<'a, H: HomeEngine, F: ForeignEngine> {
    home: &'a H,
    home_engine: &'static str,
    xedge: XedgeReader<'a>,
    others: Arc<ForeignPools<F>>,
    cross_edge_kinds: Vec<String>,
    budget: CrossBudget,
}

impl<'a, H: HomeEngine, F: ForeignEngine> OverlayReader<'a, H, F> {
    /// The home engine.
    pub closed spec fn home(&self) -> &H {
        self.home
    }

    /// The tag of the home engine.
    pub closed spec fn home_engine(&self) -> Seq<char> {
        self.home_engine@
    }

    /// The reader of the cross-edges.
    pub closed spec fn xedge(&self) -> XedgeReader<'a> {
        self.xedge
    }

    /// The foreign engines.
    pub closed spec fn pools(&self) -> Seq<(Seq<char>, F)> {
        self.others@
    }

    /// The relationships that may cross.
    pub closed spec fn kinds(&self) -> Seq<Seq<char>> {
        lines(self.cross_edge_kinds@)
    }

    /// The budget of an expansion.
    pub closed spec fn budget(&self) -> CrossBudget {
        self.budget
    }

    /// Whether anything may cross.
    pub open spec fn crosses(&self) -> bool {
        self.kinds().len() > 0
    }

    /// An overlay over `home`, whose tag is `home_engine`. With no `cross_edge_kinds` it is the
    /// home engine and nothing more.
    pub fn new(
        home: &'a H,
        home_engine: &'static str,
        xedge: XedgeReader<'a>,
        others: Arc<ForeignPools<F>>,
        cross_edge_kinds: Vec<String>,
        budget: CrossBudget,
    ) -> (out: Self)
        ensures
            out.home() == home,
            out.home_engine() == home_engine@,
            out.xedge() == xedge,
            out.pools() == others@,
            out.kinds() == lines(cross_edge_kinds@),
            out.budget() == budget,
    {
        OverlayReader {
            home,
            home_engine,
            xedge,
            others,
            cross_edge_kinds,
            budget,
        }
    }

    fn cross_on(&self) -> (out: bool)
        ensures
            out == self.crosses(),
    {
        self.cross_edge_kinds.len() > 0
    }

    fn cross_rels(&self) -> (out: Vec<&str>)
        ensures
            texts(out@) == self.kinds(),
    {
        let mut out: Vec<&str> = Vec::new();
        let mut i: usize = 0;
        while i < self.cross_edge_kinds.len()
            invariant
                i <= self.cross_edge_kinds@.len(),
                out@.len() == i,
                forall|j: int| 0 <= j < i ==> (#[trigger] out@[j])@ == self.cross_edge_kinds@[j]@,
            decreases self.cross_edge_kinds@.len() - i,
        {
            out.push(self.cross_edge_kinds[i].as_str());
            i += 1;
        }
        assert(texts(out@) =~= self.kinds());
        out
    }

    /// Whether `reply` may come back when the live epoch of an id is asked for: from the engine
    /// that owns the id if that is the estate engine, and a constant for every other engine.
    pub open spec fn epoch_reply(
        &self,
        engine: Seq<char>,
        id: SymbolId,
        reply: Result<Option<u64>, Error>,
    ) -> bool {
        if engine != ESTATE_ENGINE@ {
            reply == Ok::<Option<u64>, Error>(Some(MEMORY_EPOCH))
        } else if engine == self.home_engine() {
            call_ensures(H::symbol_epoch, (self.home(), &id), reply)
        } else {
            match find_engine(self.pools(), engine) {
                Some(pool) => call_ensures(F::symbol_epoch_blocking, (&pool, &id), reply),
                None => reply == Ok::<Option<u64>, Error>(None),
            }
        }
    }

    fn live_epoch(&self, engine: &str, id: &SymbolId) -> (out: Result<Option<u64>, Error>)
        ensures
            self.epoch_reply(engine@, *id, out),
    {
        if !same_text(engine, ESTATE_ENGINE) {
            return Ok(Some(MEMORY_EPOCH));
        }
        if same_text(engine, self.home_engine) {
            return self.home.symbol_epoch(id);
        }
        match self.others.get(engine) {
            Some(pool) => pool.symbol_epoch_blocking(id),
            None => Ok(None),
        }
    }

    /// Whether one end of a cross-edge may be found to have this fault, or none.
    pub open spec fn end_checked(&self, end: Endpoint, found: Option<Seq<char>>) -> bool {
        exists|live: Result<Option<u64>, Error>| #[trigger]
            self.epoch_reply(end.engine@, SymbolId(end.stable_id), live) && found == fault(
                end,
                live,
            )
    }

    /// Whether a cross-edge may be found to have this fault, or none. The source is looked at
    /// first, and the target only if there is nothing wrong with the source.
    pub open spec fn row_checked(&self, row: XEdge, found: Option<Seq<char>>) -> bool {
        ||| found is Some && self.end_checked(row.source, found)
        ||| self.end_checked(row.source, None) && self.end_checked(row.target, found)
    }

    /// Whether both stamps of a cross-edge are the live epochs of their ids. If not, a line that
    /// says why is added to the log.
    pub fn epoch_valid(&self, row: &XEdge, log: &mut Vec<String>) -> (out: bool)
        ensures
            exists|found: Option<Seq<char>>| #[trigger]
                self.row_checked(*row, found) && match found {
                    None => out && final(log)@ == old(log)@,
                    Some(line) => !out && lines(final(log)@) == lines(old(log)@).push(line),
                },
    {
        let source: SymbolId = SymbolId(row.source.stable_id.clone());
        let live: Result<Option<u64>, Error> = self.live_epoch(
            row.source.engine.as_str(),
            &source,
        );
        match stale_marker(&row.source, &live) {
            Some(line) => {
                let ghost found = Some(line@);
                log.push(line);
                assert(lines(log@) =~= lines(old(log)@).push(found->Some_0));
                assert(self.row_checked(*row, found));
                return false;
            },
            None => {},
        }
        let target: SymbolId = SymbolId(row.target.stable_id.clone());
        let live: Result<Option<u64>, Error> = self.live_epoch(
            row.target.engine.as_str(),
            &target,
        );
        match stale_marker(&row.target, &live) {
            Some(line) => {
                let ghost found = Some(line@);
                log.push(line);
                assert(lines(log@) =~= lines(old(log)@).push(found->Some_0));
                assert(self.row_checked(*row, found));
                false
            },
            None => {
                assert(self.row_checked(*row, None));
                true
            },
        }
    }

    /// Whether `rows` may be the cross-edges that the store answers with for one end.
    pub open spec fn side_reply(
        &self,
        side: EndpointSide,
        id: Seq<char>,
        rows: Result<Seq<XEdge>, Error>,
    ) -> bool {
        exists|reply: Result<Vec<XEdge>, Error>| #[trigger]
            self.xedge().answers(side, self.home_engine(), id, self.kinds(), reply) && rows
                == contents(reply)
    }

    /// Whether `rows` may be the cross-edges at a home id in a direction. For both directions,
    /// those that point at the id come first.
    pub open spec fn rows_reply(
        &self,
        id: Seq<char>,
        dir: Direction,
        rows: Result<Seq<XEdge>, Error>,
    ) -> bool {
        match dir {
            Direction::Dependents => self.side_reply(EndpointSide::Target, id, rows),
            Direction::Dependencies => self.side_reply(EndpointSide::Source, id, rows),
            Direction::Both => exists|first: Result<Seq<XEdge>, Error>| #[trigger]
                self.side_reply(EndpointSide::Target, id, first) && match first {
                    Err(_) => rows == first,
                    Ok(pointing) => exists|second: Result<Seq<XEdge>, Error>| #[trigger]
                        self.side_reply(EndpointSide::Source, id, second) && match second {
                            Err(_) => rows == second,
                            Ok(leaving) => rows == Ok::<Seq<XEdge>, Error>(pointing + leaving),
                        },
                },
        }
    }

    fn cross_rows(&self, id: &SymbolId, dir: Direction) -> (out: Result<Vec<XEdge>, Error>)
        ensures
            self.rows_reply(id@, dir, contents(out)),
    {
        let rels: Vec<&str> = self.cross_rels();
        let engine: &str = self.home_engine;
        match dir {
            Direction::Dependents => {
                let out = self.xedge.in_edges(engine, id.as_str(), rels.as_slice());
                assert(self.xedge().answers(
                    EndpointSide::Target,
                    self.home_engine(),
                    id@,
                    self.kinds(),
                    out,
                ));
                out
            },
            Direction::Dependencies => {
                let out = self.xedge.out_edges(engine, id.as_str(), rels.as_slice());
                assert(self.xedge().answers(
                    EndpointSide::Source,
                    self.home_engine(),
                    id@,
                    self.kinds(),
                    out,
                ));
                out
            },
            Direction::Both => {
                let first = self.xedge.in_edges(engine, id.as_str(), rels.as_slice());
                assert(self.xedge().answers(
                    EndpointSide::Target,
                    self.home_engine(),
                    id@,
                    self.kinds(),
                    first,
                ));
                assert(self.side_reply(EndpointSide::Target, id@, contents(first)));
                match first {
                    Err(e) => Err(e),
                    Ok(pointing) => {
                        let second = self.xedge.out_edges(engine, id.as_str(), rels.as_slice());
                        assert(self.xedge().answers(
                            EndpointSide::Source,
                            self.home_engine(),
                            id@,
                            self.kinds(),
                            second,
                        ));
                        assert(self.side_reply(EndpointSide::Source, id@, contents(second)));
                        match second {
                            Err(e) => Err(e),
                            Ok(leaving) => {
                                let mut rows: Vec<XEdge> = pointing;
                                let mut more: Vec<XEdge> = leaving;
                                rows.append(&mut more);
                                Ok(rows)
                            },
                        }
                    },
                }
            },
        }
    }

    /// Whether folding `rows` on top of `edges` and `log` may end in these edges and this log. The
    /// rows are taken in turn until the budget is used up; each is dropped with a line in the log,
    /// or appears as an edge.
    pub open spec fn fold_ends(
        &self,
        rows: Seq<XEdge>,
        edges: Seq<Edge>,
        log: Seq<Seq<char>>,
        end: (Seq<Edge>, Seq<Seq<char>>),
    ) -> bool
        decreases rows.len(),
    {
        if rows.len() == 0 || edges.len() >= self.budget().max_cross_nodes {
            end == (edges, log)
        } else {
            exists|found: Option<Seq<char>>| #[trigger]
                self.row_checked(rows[0], found) && match found {
                    Some(line) => self.fold_ends(rows.skip(1), edges, log.push(line), end),
                    None => exists|edge: Edge| #[trigger]
                        rows[0].appears_as(edge) && self.fold_ends(
                            rows.skip(1),
                            edges.push(edge),
                            log,
                            end,
                        ),
                }
        }
    }

    /// Folds cross-edge rows: keeps those whose stamps are live, as graph edges, up to the budget.
    pub fn fold_rows(&self, rows: Vec<XEdge>, log: &mut Vec<String>) -> (out: Vec<Edge>)
        ensures
            self.fold_ends(
                rows@,
                Seq::empty(),
                lines(old(log)@),
                (out@, lines(final(log)@)),
            ),
    {
        let mut out: Vec<Edge> = Vec::new();
        let mut i: usize = 0;
        let ghost all = rows@;
        let ghost start = lines(log@);
        assert(all.skip(0) =~= all);
        while i < rows.len() && out.len() < self.budget.max_cross_nodes
            invariant
                i <= rows@.len(),
                all == rows@,
                forall|end: (Seq<Edge>, Seq<Seq<char>>)| #[trigger]
                    self.fold_ends(all.skip(i as int), out@, lines(log@), end) ==> self.fold_ends(
                        all,
                        Seq::empty(),
                        start,
                        end,
                    ),
            decreases rows@.len() - i,
        {
            let ghost rest = all.skip(i as int);
            let ghost edges = out@;
            let ghost before = lines(log@);
            assert(rest[0] == all[i as int]);
            assert(rest.skip(1) =~= all.skip(i + 1));
            if self.epoch_valid(&rows[i], log) {
                let edge: Edge = rows[i].to_core_edge();
                let ghost kept = edge;
                out.push(edge);
                assert(rest[0].appears_as(kept));
            }
            i += 1;
            assert forall|end: (Seq<Edge>, Seq<Seq<char>>)| #[trigger]
                self.fold_ends(all.skip(i as int), out@, lines(log@), end) implies self.fold_ends(
                all,
                Seq::empty(),
                start,
                end,
            ) by {
                assert(self.fold_ends(rest, edges, before, end));
            }
        }
        assert(self.fold_ends(all.skip(i as int), out@, lines(log@), (out@, lines(log@))));
        out
    }

    /// Whether asking for the cross-store edges at a home id, with `log` written so far, may end
    /// in this result and this log.
    pub open spec fn cross_ends(
        &self,
        id: Seq<char>,
        dir: Direction,
        log: Seq<Seq<char>>,
        end: (Result<Seq<Edge>, Error>, Seq<Seq<char>>),
    ) -> bool {
        if !self.crosses() {
            end == (Ok::<Seq<Edge>, Error>(Seq::empty()), log)
        } else {
            exists|rows: Result<Seq<XEdge>, Error>| #[trigger]
                self.rows_reply(id, dir, rows) && match rows {
                    Err(e) => end == (Err::<Seq<Edge>, Error>(e), log),
                    Ok(found) => end.0 is Ok && self.fold_ends(
                        found,
                        Seq::empty(),
                        log,
                        (end.0->Ok_0, end.1),
                    ),
                }
        }
    }

    /// The cross-store edges at a home id: those of the armed relationships that have a live stamp
    /// at both ends, up to the budget.
    pub fn cross_neighbors(&self, id: &SymbolId, dir: Direction, log: &mut Vec<String>) -> (out:
        Result<Vec<Edge>, Error>)
        ensures
            self.cross_ends(id@, dir, lines(old(log)@), (contents(out), lines(final(log)@))),
    {
        if !self.cross_on() {
            let none: Vec<Edge> = Vec::new();
            assert(none@ =~= Seq::<Edge>::empty());
            return Ok(none);
        }
        let reply: Result<Vec<XEdge>, Error> = self.cross_rows(id, dir);
        assert(self.rows_reply(id@, dir, contents(reply)));
        match reply {
            Err(e) => Err(e),
            Ok(rows) => Ok(self.fold_rows(rows, log)),
        }
    }

    /// Whether `neighbors` may end in this result and this log.
    pub open spec fn neighbors_ends(
        &self,
        id: SymbolId,
        dir: Direction,
        log: Seq<Seq<char>>,
        end: (Result<Seq<Edge>, Error>, Seq<Seq<char>>),
    ) -> bool {
        exists|home: Result<Vec<Edge>, Error>| #[trigger]
            call_ensures(H::neighbors, (self.home(), &id, dir), home) && match home {
                Err(e) => end == (Err::<Seq<Edge>, Error>(e), log),
                Ok(edges) => exists|cross: Result<Seq<Edge>, Error>| #[trigger]
                    self.cross_ends(id@, dir, log, (cross, end.1)) && match cross {
                        Err(_) => end.0 == cross,
                        Ok(more) => end.0 == Ok::<Seq<Edge>, Error>(edges@ + more),
                    },
            }
    }

    /// The edges at a node: the home engine's own, then the cross-store ones.
    pub fn neighbors(&self, id: &SymbolId, dir: Direction, log: &mut Vec<String>) -> (out: Result<
        Vec<Edge>,
        Error,
    >)
        ensures
            self.neighbors_ends(*id, dir, lines(old(log)@), (contents(out), lines(final(log)@))),
    {
        let home: Result<Vec<Edge>, Error> = self.home.neighbors(id, dir);
        assert(call_ensures(H::neighbors, (self.home(), id, dir), home));
        match home {
            Err(e) => Err(e),
            Ok(edges) => {
                let cross: Result<Vec<Edge>, Error> = self.cross_neighbors(id, dir, log);
                assert(self.cross_ends(id@, dir, lines(old(log)@), (contents(cross), lines(log@))));
                match cross {
                    Err(e) => Err(e),
                    Ok(found) => {
                        let mut all: Vec<Edge> = edges;
                        let mut more: Vec<Edge> = found;
                        all.append(&mut more);
                        Ok(all)
                    },
                }
            },
        }
    }

    /// Whether `reply` may come back when these foreign engines are asked for a node in turn: the
    /// first that has it, or fails, decides.
    pub open spec fn pools_node(
        pools: Seq<(Seq<char>, F)>,
        id: SymbolId,
        reply: Result<Option<Node>, Error>,
    ) -> bool
        decreases pools.len(),
    {
        if pools.len() == 0 {
            reply == Ok::<Option<Node>, Error>(None)
        } else {
            exists|one: Result<Option<Node>, Error>| #[trigger]
                call_ensures(F::get_node_blocking, (&pools[0].1, &id), one) && match one {
                    Ok(None) => Self::pools_node(pools.skip(1), id, reply),
                    _ => reply == one,
                }
        }
    }

    /// Whether `reply` may come back when a node is asked for: the home engine is asked first, and
    /// the foreign engines only if it does not have the node and something may cross.
    pub open spec fn node_reply(&self, id: SymbolId, reply: Result<Option<Node>, Error>) -> bool {
        exists|home: Result<Option<Node>, Error>| #[trigger]
            call_ensures(H::get_node, (self.home(), &id), home) && match home {
                Ok(None) => if self.crosses() {
                    Self::pools_node(self.pools(), id, reply)
                } else {
                    reply == home
                },
                _ => reply == home,
            }
    }

    /// A node, from the home engine or else from the first foreign engine that has it.
    pub fn get_node(&self, id: &SymbolId) -> (out: Result<Option<Node>, Error>)
        ensures
            self.node_reply(*id, out),
    {
        self.route_get_node(id)
    }

    fn route_get_node(&self, id: &SymbolId) -> (out: Result<Option<Node>, Error>)
        ensures
            self.node_reply(*id, out),
    {
        let home: Result<Option<Node>, Error> = self.home.get_node(id);
        assert(call_ensures(H::get_node, (self.home(), id), home));
        match home {
            Ok(None) => {},
            _ => return home,
        }
        if !self.cross_on() {
            return Ok(None);
        }
        let ghost pools = self.pools();
        let mut i: usize = 0;
        assert(pools.skip(0) =~= pools);
        while i < self.others.len()
            invariant
                i <= self.others@.len(),
                pools == self.others@,
                home == Ok::<Option<Node>, Error>(None),
                self.crosses(),
                pools == self.pools(),
                call_ensures(H::get_node, (self.home(), id), home),
                forall|reply: Result<Option<Node>, Error>| #[trigger]
                    Self::pools_node(pools.skip(i as int), *id, reply) ==> Self::pools_node(
                        pools,
                        *id,
                        reply,
                    ),
            decreases self.others@.len() - i,
        {
            let ghost rest = pools.skip(i as int);
            assert(rest[0] == pools[i as int]);
            assert(rest.skip(1) =~= pools.skip(i + 1));
            let one: Result<Option<Node>, Error> = self.others.engine(i).get_node_blocking(id);
            assert(call_ensures(F::get_node_blocking, (&rest[0].1, id), one));
            match one {
                Ok(None) => {},
                _ => {
                    assert(Self::pools_node(rest, *id, one));
                    return one;
                },
            }
            i += 1;
            assert forall|reply: Result<Option<Node>, Error>| #[trigger]
                Self::pools_node(pools.skip(i as int), *id, reply) implies Self::pools_node(
                pools,
                *id,
                reply,
            ) by {
                assert(Self::pools_node(rest, *id, reply));
            }
        }
        assert(Self::pools_node(pools.skip(i as int), *id, Ok::<Option<Node>, Error>(None)));
        Ok(None)
    }

    /// Whether `reply` may come back when these foreign engines are asked for an epoch in turn: the
    /// first that has a live node, or fails, decides.
    pub open spec fn pools_epoch(
        pools: Seq<(Seq<char>, F)>,
        id: SymbolId,
        reply: Result<Option<u64>, Error>,
    ) -> bool
        decreases pools.len(),
    {
        if pools.len() == 0 {
            reply == Ok::<Option<u64>, Error>(None)
        } else {
            exists|one: Result<Option<u64>, Error>| #[trigger]
                call_ensures(F::symbol_epoch_blocking, (&pools[0].1, &id), one) && match one {
                    Ok(None) => Self::pools_epoch(pools.skip(1), id, reply),
                    _ => reply == one,
                }
        }
    }

    /// Whether `reply` may come back when the epoch of a symbol is asked for: the home engine is
    /// asked first, and the foreign engines only if the symbol is not live there and something may
    /// cross.
    pub open spec fn symbol_epoch_reply(
        &self,
        id: SymbolId,
        reply: Result<Option<u64>, Error>,
    ) -> bool {
        exists|home: Result<Option<u64>, Error>| #[trigger]
            call_ensures(H::symbol_epoch, (self.home(), &id), home) && match home {
                Ok(None) => if self.crosses() {
                    Self::pools_epoch(self.pools(), id, reply)
                } else {
                    reply == home
                },
                _ => reply == home,
            }
    }

    /// The epoch of a symbol, from the home engine or else from the first foreign engine where it
    /// is live.
    pub fn symbol_epoch(&self, id: &SymbolId) -> (out: Result<Option<u64>, Error>)
        ensures
            self.symbol_epoch_reply(*id, out),
    {
        let home: Result<Option<u64>, Error> = self.home.symbol_epoch(id);
        assert(call_ensures(H::symbol_epoch, (self.home(), id), home));
        match home {
            Ok(None) => {},
            _ => return home,
        }
        if !self.cross_on() {
            return Ok(None);
        }
        let ghost pools = self.pools();
        let mut i: usize = 0;
        assert(pools.skip(0) =~= pools);
        while i < self.others.len()
            invariant
                i <= self.others@.len(),
                pools == self.others@,
                home == Ok::<Option<u64>, Error>(None),
                self.crosses(),
                pools == self.pools(),
                call_ensures(H::symbol_epoch, (self.home(), id), home),
                forall|reply: Result<Option<u64>, Error>| #[trigger]
                    Self::pools_epoch(pools.skip(i as int), *id, reply) ==> Self::pools_epoch(
                        pools,
                        *id,
                        reply,
                    ),
            decreases self.others@.len() - i,
        {
            let ghost rest = pools.skip(i as int);
            assert(rest[0] == pools[i as int]);
            assert(rest.skip(1) =~= pools.skip(i + 1));
            let one: Result<Option<u64>, Error> = self.others.engine(i).symbol_epoch_blocking(id);
            assert(call_ensures(F::symbol_epoch_blocking, (&rest[0].1, id), one));
            match one {
                Ok(None) => {},
                _ => {
                    assert(Self::pools_epoch(rest, *id, one));
                    return one;
                },
            }
            i += 1;
            assert forall|reply: Result<Option<u64>, Error>| #[trigger]
                Self::pools_epoch(pools.skip(i as int), *id, reply) implies Self::pools_epoch(
                pools,
                *id,
                reply,
            ) by {
                assert(Self::pools_epoch(rest, *id, reply));
            }
        }
        assert(Self::pools_epoch(pools.skip(i as int), *id, Ok::<Option<u64>, Error>(None)));
        Ok(None)
    }

    /// Whether `reply` may come back when the node at the far end of a cross-store edge is asked
    /// for. An edge from the anchor to itself has no far end.
    pub open spec fn far_reply(
        &self,
        id: SymbolId,
        anchor: SymbolId,
        reply: Result<Option<Node>, Error>,
    ) -> bool {
        if id@ == anchor@ {
            reply == Ok::<Option<Node>, Error>(None)
        } else {
            self.node_reply(id, reply)
        }
    }

    fn cross_endpoint_node(&self, id: &SymbolId, anchor: &SymbolId) -> (out: Result<
        Option<Node>,
        Error,
    >)
        ensures
            self.far_reply(*id, *anchor, out),
    {
        if id.equals(anchor) {
            return Ok(None);
        }
        self.route_get_node(id)
    }

    /// The capabilities of the home engine. A traversal that crosses does not run inside it.
    pub fn capabilities(&self) -> (out: StoreCapabilities)
        ensures
            exists|home: StoreCapabilities| #[trigger]
                call_ensures(H::capabilities, (self.home(),), home) && out == if self.crosses() {
                    StoreCapabilities { server_side_traversal: false, ..home }
                } else {
                    home
                },
    {
        let home: StoreCapabilities = self.home.capabilities();
        assert(call_ensures(H::capabilities, (self.home(),), home));
        if self.cross_on() {
            StoreCapabilities { server_side_traversal: false, ..home }
        } else {
            home
        }
    }

    /// The end of a cross-store edge that is not the anchor.
    pub open spec fn far_end(edge: Edge, anchor: SymbolId) -> SymbolId {
        if edge.source@ == anchor@ {
            edge.target
        } else {
            edge.source
        }
    }

    /// Whether the budget is used up, in a subgraph that started with `home_nodes` nodes.
    pub open spec fn spent(&self, home_nodes: nat, sub: SubgraphView) -> bool {
        sub.nodes.len() - home_nodes >= self.budget().max_cross_nodes
    }

    /// Whether adding the cross-store edges of one anchor to `sub` may end in `end`. An edge whose
    /// relationship is there already is passed over. With every other edge its far end is looked
    /// up, and added if it is found and new. Once the budget is used up, an edge that is left over
    /// marks the subgraph as cut short.
    pub open spec fn anchor_ends(
        &self,
        home_nodes: nat,
        anchor: SymbolId,
        depth: u32,
        edges: Seq<Edge>,
        sub: SubgraphView,
        end: Result<SubgraphView, Error>,
    ) -> bool
        decreases edges.len(),
    {
        if edges.len() == 0 {
            end == Ok::<SubgraphView, Error>(sub)
        } else if self.spent(home_nodes, sub) {
            end == Ok::<SubgraphView, Error>(SubgraphView { truncated: true, ..sub })
        } else if sub.has_relationship(edges[0].relationship()) {
            self.anchor_ends(home_nodes, anchor, depth, edges.skip(1), sub, end)
        } else {
            exists|far: Result<Option<Node>, Error>| #[trigger]
                self.far_reply(Self::far_end(edges[0], anchor), anchor, far) && match far {
                    Err(e) => end == Err::<SubgraphView, Error>(e),
                    Ok(node) => match sub.with_edge(depth, edges[0], node) {
                        None => end == Err::<SubgraphView, Error>(Error::DepthOverflow),
                        Some(next) => self.anchor_ends(
                            home_nodes,
                            anchor,
                            depth,
                            edges.skip(1),
                            next,
                            end,
                        ),
                    },
                }
        }
    }

    /// Whether expanding these anchors in turn may end in this result and this log. The edges that
    /// point at an anchor come before those that leave it. No anchor is expanded once the budget is
    /// used up.
    pub open spec fn anchors_end(
        &self,
        home_nodes: nat,
        anchors: Seq<(SymbolId, u32)>,
        sub: SubgraphView,
        log: Seq<Seq<char>>,
        end: (Result<SubgraphView, Error>, Seq<Seq<char>>),
    ) -> bool
        decreases anchors.len(),
    {
        if anchors.len() == 0 || self.spent(home_nodes, sub) {
            end == (Ok::<SubgraphView, Error>(sub), log)
        } else {
            exists|first: (Result<Seq<Edge>, Error>, Seq<Seq<char>>)| #[trigger]
                self.cross_ends(anchors[0].0@, Direction::Dependents, log, first)
                    && match first.0 {
                    Err(e) => end == (Err::<SubgraphView, Error>(e), first.1),
                    Ok(pointing) => exists|second: (Result<Seq<Edge>, Error>, Seq<Seq<char>>)|
                        #[trigger]
                        self.cross_ends(anchors[0].0@, Direction::Dependencies, first.1, second)
                            && match second.0 {
                            Err(e) => end == (Err::<SubgraphView, Error>(e), second.1),
                            Ok(leaving) => exists|added: Result<SubgraphView, Error>| #[trigger]
                                self.anchor_ends(
                                    home_nodes,
                                    anchors[0].0,
                                    anchors[0].1,
                                    pointing + leaving,
                                    sub,
                                    added,
                                ) && match added {
                                    Err(e) => end == (Err::<SubgraphView, Error>(e), second.1),
                                    Ok(next) => self.anchors_end(
                                        home_nodes,
                                        anchors.skip(1),
                                        next,
                                        second.1,
                                        end,
                                    ),
                                },
                        },
                }
        }
    }

    fn fold_anchor(
        &self,
        home_nodes: usize,
        anchor: &SymbolId,
        depth: u32,
        edges: Vec<Edge>,
        sub: &mut Subgraph,
        seen: &mut Vec<(String, String, String)>,
    ) -> (out: Result<(), Error>)
        requires
            home_nodes <= old(sub)@.nodes.len(),
            seen_keys(old(seen)@, old(sub)@.edges),
        ensures
            self.anchor_ends(
                home_nodes as nat,
                *anchor,
                depth,
                edges@,
                old(sub)@,
                match out {
                    Ok(_) => Ok(final(sub)@),
                    Err(e) => Err(e),
                },
            ),
            out is Ok ==> {
                &&& seen_keys(final(seen)@, final(sub)@.edges)
                &&& final(sub)@.nodes.len() >= old(sub)@.nodes.len()
            },
    {
        let ghost start = sub@;
        let ghost all = edges@;
        let ghost base = home_nodes as nat;
        assert(all.skip(0) =~= all);
        #[verifier::loop_isolation(false)]
        for edge in it: edges
            invariant
                it.seq() == all,
                start.nodes.len() <= sub@.nodes.len(),
                base <= start.nodes.len(),
                seen_keys(seen@, sub@.edges),
                forall|end: Result<SubgraphView, Error>| #[trigger]
                    self.anchor_ends(base, *anchor, depth, all.skip(it.index() as int), sub@, end)
                        ==> self.anchor_ends(base, *anchor, depth, all, start, end),
        {
            let ghost before = sub@;
            let ghost i = it.index() as int;
            let ghost rest = all.skip(i);
            assert(rest[0] == edge);
            assert(rest.skip(1) =~= all.skip(i + 1));
            if sub.nodes.len() - home_nodes >= self.budget.max_cross_nodes {
                sub.truncated = true;
                assert(self.anchor_ends(
                    base,
                    *anchor,
                    depth,
                    rest,
                    before,
                    Ok::<SubgraphView, Error>(sub@),
                ));
                return Ok(());
            }
            let key: (String, String, String) = edge.dedup_key();
            let known: bool = has_key(seen, &key);
            proof {
                lemma_seen(seen@, sub@.edges, key, edge);
                assert(known == before.has_relationship(edge.relationship()));
            }
            if !known {
                let far: &SymbolId = if edge.source.equals(anchor) {
                    &edge.target
                } else {
                    &edge.source
                };
                let reply: Result<Option<Node>, Error> = self.cross_endpoint_node(far, anchor);
                assert(self.far_reply(Self::far_end(rest[0], *anchor), *anchor, reply));
                match reply {
                    Err(e) => {
                        assert(self.anchor_ends(
                            base,
                            *anchor,
                            depth,
                            rest,
                            before,
                            Err::<SubgraphView, Error>(e),
                        ));
                        return Err(e);
                    },
                    Ok(node) => {
                        match sub.fold_edge(depth, edge, node) {
                            Err(e) => {
                                assert(self.anchor_ends(
                                    base,
                                    *anchor,
                                    depth,
                                    rest,
                                    before,
                                    Err::<SubgraphView, Error>(e),
                                ));
                                return Err(e);
                            },
                            Ok(_) => {},
                        }
                        seen.push(key);
                    },
                }
            }
            assert forall|end: Result<SubgraphView, Error>| #[trigger]
                self.anchor_ends(base, *anchor, depth, all.skip(i + 1), sub@, end) implies
                self.anchor_ends(base, *anchor, depth, all, start, end) by {
                assert(self.anchor_ends(base, *anchor, depth, rest, before, end));
            }
        }
        assert(self.anchor_ends(
            base,
            *anchor,
            depth,
            all.skip(all.len() as int),
            sub@,
            Ok::<SubgraphView, Error>(sub@),
        ));
        Ok(())
    }

    /// Expands every node of a home subgraph across the store boundary by one step. The nodes are
    /// expanded in their order, each from its own distance.
    pub fn fold_subgraph(&self, sub: Subgraph, log: &mut Vec<String>) -> (out: Result<
        Subgraph,
        Error,
    >)
        ensures
            self.anchors_end(
                sub@.nodes.len(),
                anchors_of(sub@),
                sub@,
                lines(old(log)@),
                (subgraph_of(out), lines(final(log)@)),
            ),
            self.crosses() && self.budget().max_cross_hops > 0 ==> self.traversal_ends(
                sub@,
                lines(old(log)@),
                (subgraph_of(out), lines(final(log)@)),
            ),
    {
        let ghost start = sub@;
        let ghost first_log = lines(log@);
        let ghost all = anchors_of(start);
        let home_nodes: usize = sub.nodes.len();
        let ghost base = home_nodes as nat;
        let mut sub: Subgraph = sub;
        let mut seen: Vec<(String, String, String)> = Vec::new();
        let mut i: usize = 0;
        while i < sub.edges.len()
            invariant
                i <= sub@.edges.len(),
                sub@ == start,
                seen_keys(seen@, sub@.edges.take(i as int)),
            decreases sub@.edges.len() - i,
        {
            let key: (String, String, String) = sub.edges[i].dedup_key();
            seen.push(key);
            i += 1;
        }
        assert(sub@.edges.take(i as int) =~= sub@.edges);
        let mut anchors: Vec<(SymbolId, u32)> = Vec::new();
        let mut i: usize = 0;
        while i < sub.nodes.len()
            invariant
                i <= sub@.nodes.len(),
                sub@ == start,
                anchors@ =~= anchors_of(start).take(i as int),
            decreases sub@.nodes.len() - i,
        {
            let depth: u32 = match sub.depths.get(sub.nodes[i].symbol.as_str()) {
                Some(depth) => depth,
                None => 0,
            };
            anchors.push((sub.nodes[i].symbol.clone(), depth));
            i += 1;
        }
        assert(anchors@ =~= all);
        assert(all.skip(0) =~= all);
        let mut i: usize = 0;
        #[verifier::loop_isolation(false)]
        while i < anchors.len() && sub.nodes.len() - home_nodes < self.budget.max_cross_nodes
            invariant
                i <= anchors@.len(),
                anchors@ == all,
                base == home_nodes,
                home_nodes <= sub@.nodes.len(),
                seen_keys(seen@, sub@.edges),
                first_log == lines(old(log)@),
                forall|end: (Result<SubgraphView, Error>, Seq<Seq<char>>)| #[trigger]
                    self.anchors_end(base, all.skip(i as int), sub@, lines(log@), end)
                        ==> self.anchors_end(base, all, start, first_log, end),
            decreases anchors@.len() - i,
        {
            let ghost rest = all.skip(i as int);
            let ghost before = sub@;
            let ghost log0 = lines(log@);
            assert(rest[0] == all[i as int]);
            assert(rest.skip(1) =~= all.skip(i + 1));
            let anchor: &SymbolId = &anchors[i].0;
            let first: Result<Vec<Edge>, Error> = self.cross_neighbors(
                anchor,
                Direction::Dependents,
                log,
            );
            let ghost one = (contents(first), lines(log@));
            assert(self.cross_ends(rest[0].0@, Direction::Dependents, log0, one));
            let pointing: Vec<Edge> = match first {
                Err(e) => {
                    assert(self.anchors_end(
                        base,
                        rest,
                        before,
                        log0,
                        (Err::<SubgraphView, Error>(e), lines(log@)),
                    ));
                    return Err(e);
                },
                Ok(edges) => edges,
            };
            let second: Result<Vec<Edge>, Error> = self.cross_neighbors(
                anchor,
                Direction::Dependencies,
                log,
            );
            let ghost two = (contents(second), lines(log@));
            assert(self.cross_ends(rest[0].0@, Direction::Dependencies, one.1, two));
            let mut leaving: Vec<Edge> = match second {
                Err(e) => {
                    assert(self.anchors_end(
                        base,
                        rest,
                        before,
                        log0,
                        (Err::<SubgraphView, Error>(e), lines(log@)),
                    ));
                    return Err(e);
                },
                Ok(edges) => edges,
            };
            let mut edges: Vec<Edge> = pointing;
            edges.append(&mut leaving);
            let ghost found = edges@;
            let added: Result<(), Error> = self.fold_anchor(
                home_nodes,
                anchor,
                anchors[i].1,
                edges,
                &mut sub,
                &mut seen,
            );
            match added {
                Err(e) => {
                    assert(self.anchors_end(
                        base,
                        rest,
                        before,
                        log0,
                        (Err::<SubgraphView, Error>(e), lines(log@)),
                    ));
                    return Err(e);
                },
                Ok(_) => {},
            }
            i += 1;
            assert forall|end: (Result<SubgraphView, Error>, Seq<Seq<char>>)| #[trigger]
                self.anchors_end(base, all.skip(i as int), sub@, lines(log@), end) implies
                self.anchors_end(base, all, start, first_log, end) by {
                assert(self.anchors_end(base, rest, before, log0, end));
            }
        }
        assert(self.anchors_end(
            base,
            all.skip(i as int),
            sub@,
            lines(log@),
            (Ok::<SubgraphView, Error>(sub@), lines(log@)),
        ));
        Ok(sub)
    }

    /// Whether a traversal for which the home engine replied with `home` may end in this result and
    /// this log.
    pub open spec fn traversal_ends(
        &self,
        home: SubgraphView,
        log: Seq<Seq<char>>,
        end: (Result<SubgraphView, Error>, Seq<Seq<char>>),
    ) -> bool {
        if self.crosses() && self.budget().max_cross_hops > 0 {
            self.anchors_end(home.nodes.len(), anchors_of(home), home, log, end)
        } else {
            end == (Ok::<SubgraphView, Error>(home), log)
        }
    }

    /// Whether `traverse_multi` may end in this result and this log.
    pub open spec fn traverse_ends(
        &self,
        starts: &[SymbolId],
        spec: &TraversalSpec,
        log: Seq<Seq<char>>,
        end: (Result<SubgraphView, Error>, Seq<Seq<char>>),
    ) -> bool {
        exists|home: Result<Subgraph, Error>| #[trigger]
            call_ensures(H::traverse_multi, (self.home(), starts, spec), home) && match home {
                Err(e) => end == (Err::<SubgraphView, Error>(e), log),
                Ok(sub) => self.traversal_ends(sub@, log, end),
            }
    }

    /// What is reached from several starts: the home engine's own traversal, and one step across
    /// the store boundary from every node of it.
    pub fn traverse_multi(
        &self,
        starts: &[SymbolId],
        spec: &TraversalSpec,
        log: &mut Vec<String>,
    ) -> (out: Result<Subgraph, Error>)
        ensures
            self.traverse_ends(
                starts,
                spec,
                lines(old(log)@),
                (subgraph_of(out), lines(final(log)@)),
            ),
    {
        let home: Result<Subgraph, Error> = self.home.traverse_multi(starts, spec);
        assert(call_ensures(H::traverse_multi, (self.home(), starts, spec), home));
        match home {
            Err(e) => Err(e),
            Ok(sub) => if self.cross_on() && self.budget.max_cross_hops > 0 {
                self.fold_subgraph(sub, log)
            } else {
                Ok(sub)
            },
        }
    }

    /// What is reached from one start: the traversal from the list of it alone.
    pub fn traverse(&self, start: &SymbolId, spec: &TraversalSpec, log: &mut Vec<String>) -> (out:
        Result<Subgraph, Error>)
        ensures
            exists|starts: &[SymbolId]|
                starts@ == seq![*start] && #[trigger] self.traverse_ends(
                    starts,
                    spec,
                    lines(old(log)@),
                    (subgraph_of(out), lines(final(log)@)),
                ),
    {
        let mut starts: Vec<SymbolId> = Vec::new();
        starts.push(start.clone());
        let slice: &[SymbolId] = starts.as_slice();
        assert(slice@ =~= seq![*start]);
        self.traverse_multi(slice, spec, log)
    }

    /// A symbol search, in the home engine alone.
    pub fn find_symbols(&self, query: &SymbolQuery) -> (out: Result<Vec<NodeRecord>, Error>)
        ensures
            call_ensures(H::find_symbols, (self.home(), query), out),
    {
        self.home.find_symbols(query)
    }

    /// All nodes of the home engine; none of a foreign one.
    pub fn all_nodes(&self) -> (out: Result<Vec<NodeRecord>, Error>)
        ensures
            call_ensures(H::all_nodes, (self.home(),), out),
    {
        self.home.all_nodes()
    }

    /// All edges of the home engine; no cross-edge.
    pub fn all_edges(&self) -> (out: Result<Vec<EdgeRecord>, Error>)
        ensures
            call_ensures(H::all_edges, (self.home(),), out),
    {
        self.home.all_edges()
    }

    /// The unresolved references of the home engine to a name.
    pub fn unresolved_refs_for_name(&self, name: &str) -> (out: Result<Vec<UnresolvedRef>, Error>)
        ensures
            call_ensures(H::unresolved_refs_for_name, (self.home(), name), out),
    {
        self.home.unresolved_refs_for_name(name)
    }

    /// The digest that the home engine has of a file.
    pub fn file_digest(&self, file: &str) -> (out: Result<Option<String>, Error>)
        ensures
            call_ensures(H::file_digest, (self.home(), file), out),
    {
        self.home.file_digest(file)
    }

    /// The git blob id that the home engine has of a file.
    pub fn file_git_sha(&self, file: &str) -> (out: Result<Option<String>, Error>)
        ensures
            call_ensures(H::file_git_sha, (self.home(), file), out),
    {
        self.home.file_git_sha(file)
    }

    /// The repository provenance of the home engine.
    pub fn repo_info(&self) -> (out: Result<Option<RepoInfo>, Error>)
        ensures
            call_ensures(H::repo_info, (self.home(),), out),
    {
        self.home.repo_info()
    }

    /// The superseded edges of a file in the home engine.
    pub fn edge_history(&self, file: &str) -> (out: Result<Vec<HistoricalEdge>, Error>)
        ensures
            call_ensures(H::edge_history, (self.home(), file), out),
    {
        self.home.edge_history(file)
    }

    /// The text that the home engine has of a file.
    pub fn file_content(&self, file: &str) -> (out: Result<Option<String>, Error>)
        ensures
            call_ensures(H::file_content, (self.home(), file), out),
    {
        self.home.file_content(file)
    }

    /// The source text that the home engine has of a node.
    pub fn symbol_source(&self, node: &NodeRecord) -> (out: Result<Option<String>, Error>)
        ensures
            call_ensures(H::symbol_source, (self.home(), node), out),
    {
        self.home.symbol_source(node)
    }

    /// The change log of the home engine behind a cursor.
    pub fn changes_since(&self, cursor: u64) -> (out: Result<Vec<Change>, Error>)
        ensures
            call_ensures(H::changes_since, (self.home(), cursor), out),
    {
        self.home.changes_since(cursor)
    }

    /// The semantics that the home engine has of a symbol.
    pub fn node_semantics(&self, symbol: &SymbolId) -> (out: Result<Option<NodeSemantics>, Error>)
        ensures
            call_ensures(H::node_semantics, (self.home(), symbol), out),
    {
        self.home.node_semantics(symbol)
    }

    /// The nodes of the home engine that satisfy a requirement.
    pub fn find_by_requirement(&self, requirement: &str) -> (out: Result<Vec<NodeRecord>, Error>)
        ensures
            call_ensures(H::find_by_requirement, (self.home(), requirement), out),
    {
        self.home.find_by_requirement(requirement)
    }

    /// The annotations of a symbol in the home engine.
    pub fn annotations(&self, symbol: &SymbolId) -> (out: Result<Vec<Annotation>, Error>)
        ensures
            call_ensures(H::annotations, (self.home(), symbol), out),
    {
        self.home.annotations(symbol)
    }

    /// The annotations of a type in the home engine.
    pub fn annotations_by_type(&self, ty: &str) -> (out: Result<Vec<(SymbolId, Annotation)>, Error>)
        ensures
            call_ensures(H::annotations_by_type, (self.home(), ty), out),
    {
        self.home.annotations_by_type(ty)
    }

    /// The annotations of the home engine that were last verified before a cutoff.
    pub fn annotations_stale_since(&self, cutoff: i64) -> (out: Result<
        Vec<(SymbolId, Annotation)>,
        Error,
    >)
        ensures
            call_ensures(H::annotations_stale_since, (self.home(), cutoff), out),
    {
        self.home.annotations_stale_since(cutoff)
    }

    /// The counts of the home engine.
    pub fn stats(&self) -> (out: Result<GraphStats, Error>)
        ensures
            call_ensures(H::stats, (self.home(),), out),
    {
        self.home.stats()
    }
}

/// Whether `seen` holds the dedup keys of `edges`, in their order.
spec fn seen_keys(seen: Seq<(String, String, String)>, edges: Seq<Edge>) -> bool {
    &&& seen.len() == edges.len()
    &&& forall|i: int|
        0 <= i < seen.len() ==> {
            &&& (#[trigger] seen[i]).0@ == edges[i].source@
            &&& seen[i].1@ == edges[i].target@
            &&& seen[i].2@ == kind_key(edges[i].kind@)
        }
}

fn has_key(seen: &Vec<(String, String, String)>, key: &(String, String, String)) -> (out: bool)
    ensures
        out == exists|i: int|
            0 <= i < seen@.len() && (#[trigger] seen@[i]).0@ == key.0@ && seen@[i].1@ == key.1@
                && seen@[i].2@ == key.2@,
{
    let mut i: usize = 0;
    while i < seen.len()
        invariant
            i <= seen@.len(),
            forall|j: int|
                0 <= j < i ==> !((#[trigger] seen@[j]).0@ == key.0@ && seen@[j].1@ == key.1@
                    && seen@[j].2@ == key.2@),
        decreases seen@.len() - i,
    {
        if seen[i].0 == key.0 && seen[i].1 == key.1 && seen[i].2 == key.2 {
            return true;
        }
        i += 1;
    }
    false
}

proof fn lemma_seen(
    seen: Seq<(String, String, String)>,
    edges: Seq<Edge>,
    key: (String, String, String),
    edge: Edge,
)
    requires
        seen_keys(seen, edges),
        key.0@ == edge.source@,
        key.1@ == edge.target@,
        key.2@ == kind_key(edge.kind@),
        forall|other: EdgeKindView| #[trigger] kind_key(other) == key.2@ ==> other == edge.kind@,
    ensures
        (exists|i: int|
            0 <= i < seen.len() && (#[trigger] seen[i]).0@ == key.0@ && seen[i].1@ == key.1@
                && seen[i].2@ == key.2@) <==> exists|i: int|
            0 <= i < edges.len() && (#[trigger] edges[i]).relationship() == edge.relationship(),
{
    assert forall|i: int| 0 <= i < seen.len() implies (((#[trigger] seen[i]).0@ == key.0@
        && seen[i].1@ == key.1@ && seen[i].2@ == key.2@) <==> edges[i].relationship()
        == edge.relationship()) by {
        assert(kind_key(edges[i].kind@) == seen[i].2@);
    }
    if exists|i: int|
        0 <= i < edges.len() && (#[trigger] edges[i]).relationship() == edge.relationship() {
        let i = choose|i: int|
            0 <= i < edges.len() && (#[trigger] edges[i]).relationship() == edge.relationship();
        assert(seen[i].0@ == key.0@);
    }
}

} // verus!
