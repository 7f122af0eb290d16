//! The overlay over engines that reply by script.

use std::collections::BTreeMap;
use std::sync::{Arc, Mutex};

use rusqlite::types::Value;
use wicked_estate_core::{
    annotation::Annotation,
    change::Change,
    history::HistoricalEdge,
    node::{Language, Location, Node as CoreNode, NodeKind, Span},
    query::GraphStats,
    refs::UnresolvedRef,
    repo::RepoInfo,
    semantics::NodeSemantics,
    symbol::SymbolId as CoreId,
    Confidence, Edge as CoreEdge, EdgeKind as CoreKind, Error as EngineError, ResolutionTier,
    SymbolQuery, TraversalSpec,
};
use wicked_overlay::overlay::stale_marker;
use wicked_overlay::{
    BuiltinKind, CrossBudget, Depths, Direction, Edge, EdgeKind, Endpoint, Error, ForeignEngine,
    ForeignPools, HomeEngine, Node, OverlayReader, Provenance, Score, StoreCapabilities, Subgraph,
    SymbolId, XEdge, XedgeStore,
};

fn id(text: &str) -> SymbolId {
    SymbolId(text.to_string())
}

fn record(symbol: &str) -> CoreNode {
    CoreNode::new(
        CoreId(symbol.to_string()),
        NodeKind::Function,
        symbol,
        Language::new("rust"),
        Location::new("src/code.rs", Span::ZERO),
    )
}

fn node(symbol: &str) -> Node {
    Node {
        symbol: id(symbol),
        record: record(symbol),
    }
}

fn own_edge(source: &str, target: &str, kind: EdgeKind) -> Edge {
    Edge {
        source: id(source),
        target: id(target),
        kind,
        confidence: Confidence::new(1.0),
        provenance: Provenance::Parsed,
        resolved_by: "home".to_string(),
        origin: None,
    }
}

fn calls() -> EdgeKind {
    EdgeKind::Builtin(BuiltinKind::Calls)
}

fn broken() -> Error {
    Error::Engine(EngineError::Storage("broken".to_string()))
}

/// Replies by script. An id that is not in the script has no node and is not live. The id `?`
/// makes the engine fail.
#[derive(Default)]
struct Engine {
    nodes: Vec<&'static str>,
    epochs: BTreeMap<&'static str, u64>,
    edges: Vec<(&'static str, &'static str)>,
    /// Symbol and distance of what a traversal reaches.
    reached: Vec<(&'static str, Option<u32>)>,
    /// Distances on record for symbols that a traversal did not list.
    distances: Vec<(&'static str, u32)>,
    reached_edges: Vec<(&'static str, &'static str, &'static str)>,
    cut: bool,
    asked: Mutex<Vec<String>>,
}

impl Engine {
    fn ask(&self, what: &str, id: &SymbolId) -> Result<(), Error> {
        self.asked.lock().unwrap().push(format!("{what} {}", id.0));
        if id.0 == "?" {
            Err(broken())
        } else {
            Ok(())
        }
    }

    fn node(&self, id: &SymbolId) -> Result<Option<Node>, Error> {
        self.ask("node", id)?;
        Ok(self.nodes.iter().find(|n| **n == id.0).map(|n| node(n)))
    }

    fn epoch(&self, id: &SymbolId) -> Result<Option<u64>, Error> {
        self.ask("epoch", id)?;
        Ok(self.epochs.get(id.0.as_str()).copied())
    }

    fn asked(&self) -> Vec<String> {
        self.asked.lock().unwrap().clone()
    }
}

impl HomeEngine for Engine {
    fn capabilities(&self) -> StoreCapabilities {
        StoreCapabilities {
            full_text_search: true,
            vector_search: false,
            server_side_traversal: true,
            transactional_batch: true,
            shared_writers: false,
        }
    }

    fn get_node(&self, id: &SymbolId) -> Result<Option<Node>, Error> {
        self.node(id)
    }

    fn find_symbols(&self, query: &SymbolQuery) -> Result<Vec<CoreNode>, Error> {
        Ok(vec![record(query.exact_name.as_deref().unwrap())])
    }

    fn neighbors(&self, id: &SymbolId, dir: Direction) -> Result<Vec<Edge>, Error> {
        self.ask("neighbors", id)?;
        let at = |(s, t): &&(&str, &str)| match dir {
            Direction::Dependents => *t == id.0,
            Direction::Dependencies => *s == id.0,
            Direction::Both => *s == id.0 || *t == id.0,
        };
        let found = self.edges.iter().filter(at);
        Ok(found.map(|(s, t)| own_edge(s, t, calls())).collect())
    }

    fn traverse_multi(&self, starts: &[SymbolId], _: &TraversalSpec) -> Result<Subgraph, Error> {
        for start in starts {
            self.ask("traverse", start)?;
        }
        let mut depths = Depths::new();
        for (symbol, depth) in &self.reached {
            if let Some(depth) = depth {
                depths.set(symbol.to_string(), *depth);
            }
        }
        for (symbol, depth) in &self.distances {
            depths.set(symbol.to_string(), *depth);
        }
        Ok(Subgraph {
            nodes: self.reached.iter().map(|(symbol, _)| node(symbol)).collect(),
            edges: self
                .reached_edges
                .iter()
                .map(|(s, t, k)| own_edge(s, t, EdgeKind::Other(k.to_string())))
                .collect(),
            depths,
            truncated: self.cut,
        })
    }

    fn all_nodes(&self) -> Result<Vec<CoreNode>, Error> {
        Ok(vec![record("all")])
    }

    fn all_edges(&self) -> Result<Vec<CoreEdge>, Error> {
        Ok(vec![CoreEdge::new(
            "s".into(),
            "t".into(),
            CoreKind::Calls,
            ResolutionTier::Parsed,
            "all",
        )])
    }

    fn unresolved_refs_for_name(&self, _: &str) -> Result<Vec<UnresolvedRef>, Error> {
        Err(broken())
    }

    fn file_digest(&self, file: &str) -> Result<Option<String>, Error> {
        Ok(Some(format!("digest {file}")))
    }

    fn file_git_sha(&self, file: &str) -> Result<Option<String>, Error> {
        Ok(Some(format!("sha {file}")))
    }

    fn repo_info(&self) -> Result<Option<RepoInfo>, Error> {
        Err(broken())
    }

    fn edge_history(&self, _: &str) -> Result<Vec<HistoricalEdge>, Error> {
        Err(broken())
    }

    fn file_content(&self, file: &str) -> Result<Option<String>, Error> {
        Ok(Some(format!("content {file}")))
    }

    fn symbol_source(&self, node: &CoreNode) -> Result<Option<String>, Error> {
        Ok(Some(format!("source {}", node.name)))
    }

    fn changes_since(&self, _: u64) -> Result<Vec<Change>, Error> {
        Err(broken())
    }

    fn node_semantics(&self, _: &SymbolId) -> Result<Option<NodeSemantics>, Error> {
        Err(broken())
    }

    fn find_by_requirement(&self, requirement: &str) -> Result<Vec<CoreNode>, Error> {
        Ok(vec![record(requirement)])
    }

    fn annotations(&self, _: &SymbolId) -> Result<Vec<Annotation>, Error> {
        Err(broken())
    }

    fn annotations_by_type(&self, _: &str) -> Result<Vec<(SymbolId, Annotation)>, Error> {
        Err(broken())
    }

    fn annotations_stale_since(&self, _: i64) -> Result<Vec<(SymbolId, Annotation)>, Error> {
        Err(broken())
    }

    fn symbol_epoch(&self, id: &SymbolId) -> Result<Option<u64>, Error> {
        self.epoch(id)
    }

    fn stats(&self) -> Result<GraphStats, Error> {
        Ok(GraphStats {
            node_count: 17,
            ..Default::default()
        })
    }
}

impl ForeignEngine for Engine {
    fn get_node_blocking(&self, id: &SymbolId) -> Result<Option<Node>, Error> {
        self.node(id)
    }

    fn symbol_epoch_blocking(&self, id: &SymbolId) -> Result<Option<u64>, Error> {
        self.epoch(id)
    }
}

fn pools(list: Vec<(&'static str, Engine)>) -> Arc<ForeignPools<Engine>> {
    let mut pools = ForeignPools::new();
    for (tag, engine) in list {
        pools.insert(tag, engine);
    }
    Arc::new(pools)
}

fn store(edges: &[XEdge]) -> XedgeStore {
    let mut store = XedgeStore::in_memory().unwrap();
    for edge in edges {
        store.put_edge(edge).unwrap();
    }
    store
}

fn cross(source: Endpoint, target: Endpoint, rel: &str) -> XEdge {
    XEdge {
        source,
        target,
        rel: rel.to_string(),
        confidence: Score::new(Value::Real(0.5)).unwrap(),
        provenance: "script".to_string(),
    }
}

fn about() -> Vec<String> {
    vec!["about".to_string()]
}

fn budget(max_cross_hops: u32, max_cross_nodes: usize) -> CrossBudget {
    CrossBudget {
        max_cross_hops,
        max_cross_nodes,
    }
}

fn overlay<'a>(
    home: &'a Engine,
    store: &'a XedgeStore,
    others: Arc<ForeignPools<Engine>>,
) -> OverlayReader<'a, Engine, Engine> {
    OverlayReader::new(
        home,
        "estate",
        store.reader(),
        others,
        about(),
        CrossBudget::default(),
    )
}

fn home_with(epochs: &[(&'static str, u64)]) -> Engine {
    Engine {
        nodes: epochs.iter().map(|(symbol, _)| *symbol).collect(),
        epochs: epochs.iter().copied().collect(),
        reached: epochs.iter().map(|(symbol, _)| (*symbol, None)).collect(),
        ..Default::default()
    }
}

fn ends(edges: &[Edge]) -> Vec<(String, String)> {
    edges
        .iter()
        .map(|e| (e.source.0.clone(), e.target.0.clone()))
        .collect()
}

fn pair(source: &str, target: &str) -> (String, String) {
    (source.to_string(), target.to_string())
}

fn symbols(sub: &Subgraph) -> Vec<String> {
    sub.nodes.iter().map(|n| n.symbol.0.clone()).collect()
}

fn spec() -> TraversalSpec {
    TraversalSpec::blast_radius(2)
}

// ── the budget ───────────────────────────────────────────────────────────────

#[test]
fn the_default_budget_is_one_hop_and_sixty_four_nodes() {
    let budget = CrossBudget::default();
    assert_eq!(budget.max_cross_hops, 1);
    assert_eq!(budget.max_cross_nodes, 64);
}

#[test]
fn neighbors_are_cut_at_the_budget() {
    let home = home_with(&[("c", 0)]);
    let rows: Vec<XEdge> = (0..5).map(|i| XEdge::about(format!("m{i}"), "c", 0)).collect();
    let store = store(&rows);
    for max in 0..7 {
        let overlay = OverlayReader::new(
            &home,
            "estate",
            store.reader(),
            pools(vec![]),
            about(),
            budget(1, max),
        );
        let mut log = Vec::new();
        let found = overlay.neighbors(&id("c"), Direction::Dependents, &mut log).unwrap();
        assert_eq!(found.len(), max.min(5));
        assert!(log.is_empty());
    }
}

#[test]
fn a_dropped_edge_takes_no_room_in_the_budget() {
    let home = home_with(&[("c", 0)]);
    let mut rows: Vec<XEdge> = (0..3).map(|i| XEdge::about(format!("m{i}"), "c", 9)).collect();
    rows.push(XEdge::about("z", "c", 0));
    let store = store(&rows);
    let overlay = OverlayReader::new(
        &home,
        "estate",
        store.reader(),
        pools(vec![]),
        about(),
        budget(1, 1),
    );
    let found = overlay
        .neighbors(&id("c"), Direction::Dependents, &mut Vec::new())
        .unwrap();
    assert_eq!(ends(&found), [pair("z", "c")]);
}

#[test]
fn a_live_edge_crosses_however_many_stale_ones_there_are() {
    let home = home_with(&[("c", 40)]);
    let rows: Vec<XEdge> = (0..41).map(|epoch| XEdge::about("m", "c", epoch)).collect();
    let store = store(&rows);
    let others = pools(vec![("memory", home_with(&[("m", 0)]))]);
    let overlay =
        OverlayReader::new(&home, "estate", store.reader(), others, about(), budget(1, 1));
    let mut log = Vec::new();
    let found = overlay.neighbors(&id("c"), Direction::Dependents, &mut log).unwrap();
    assert_eq!(ends(&found), [pair("m", "c")]);
    let sub = overlay.traverse(&id("c"), &spec(), &mut Vec::new()).unwrap();
    assert_eq!(symbols(&sub), ["c", "m"]);
}

#[test]
fn with_room_to_spare_every_stale_edge_is_logged() {
    let home = home_with(&[("c", 40)]);
    let rows: Vec<XEdge> = (0..41).map(|epoch| XEdge::about("m", "c", epoch)).collect();
    let store = store(&rows);
    let overlay =
        OverlayReader::new(&home, "estate", store.reader(), pools(vec![]), about(), budget(1, 2));
    let mut log = Vec::new();
    let found = overlay.neighbors(&id("c"), Direction::Dependents, &mut log).unwrap();
    assert_eq!(found.len(), 1);
    assert_eq!(log.len(), 40);
}

// ── neighbors ────────────────────────────────────────────────────────────────

#[test]
fn cross_edges_follow_the_direction_and_come_after_home_edges() {
    let home = Engine {
        edges: vec![("x", "c"), ("c", "y")],
        ..home_with(&[("c", 0)])
    };
    let store = store(&[
        XEdge::about("m", "c", 0),
        cross(Endpoint::new("estate", "c", 0), Endpoint::new("memory", "n", 0), "about"),
        cross(Endpoint::new("memory", "k", 0), Endpoint::new("estate", "c", 0), "mentions"),
        XEdge::about("m", "other", 0),
    ]);
    let overlay = overlay(&home, &store, pools(vec![]));
    let ask = |dir| ends(&overlay.neighbors(&id("c"), dir, &mut Vec::new()).unwrap());
    assert_eq!(ask(Direction::Dependents), [pair("x", "c"), pair("m", "c")]);
    assert_eq!(ask(Direction::Dependencies), [pair("c", "y"), pair("c", "n")]);
    assert_eq!(
        ask(Direction::Both),
        [pair("x", "c"), pair("c", "y"), pair("m", "c"), pair("c", "n")]
    );
}

#[test]
fn both_directions_are_the_two_together() {
    let home = home_with(&[("c", 0)]);
    let store = store(&[
        XEdge::about("m", "c", 0),
        XEdge::about("m2", "c", 0),
        cross(Endpoint::new("estate", "c", 0), Endpoint::new("memory", "n", 0), "about"),
        cross(Endpoint::new("estate", "c", 0), Endpoint::new("estate", "c", 0), "about"),
    ]);
    let overlay = overlay(&home, &store, pools(vec![]));
    let ask = |dir| {
        let found = overlay.cross_neighbors(&id("c"), dir, &mut Vec::new()).unwrap();
        let mut found = ends(&found);
        found.sort();
        found
    };
    let mut two = ask(Direction::Dependents);
    assert!(two.iter().all(|(_, target)| target == "c"));
    two.extend(ask(Direction::Dependencies));
    two.sort();
    assert_eq!(ask(Direction::Both), two);
    assert_eq!(two.len(), 5);
}

#[test]
fn a_write_adds_exactly_its_edge() {
    let home = Engine {
        edges: vec![("x", "c")],
        ..home_with(&[("c", 0), ("d", 0)])
    };
    let mut store = store(&[XEdge::about("m", "c", 0), XEdge::about("m", "d", 0)]);
    let ask = |store: &XedgeStore, at: &str| {
        let overlay = overlay(&home, store, pools(vec![]));
        let found = overlay.neighbors(&id(at), Direction::Dependents, &mut Vec::new()).unwrap();
        let mut found = ends(&found);
        found.sort();
        found
    };
    let (c, d) = (ask(&store, "c"), ask(&store, "d"));
    store.put_edge(&XEdge::about("n", "c", 0)).unwrap();
    let mut want = c.clone();
    want.push(pair("n", "c"));
    want.sort();
    assert_eq!(ask(&store, "c"), want);
    assert_eq!(ask(&store, "d"), d);
    // A stale edge adds nothing.
    store.put_edge(&XEdge::about("o", "c", 9)).unwrap();
    assert_eq!(ask(&store, "c"), want);
}

#[test]
fn a_cross_edge_is_shown_with_its_confidence_and_producer() {
    let home = home_with(&[("c", 0)]);
    let row = cross(Endpoint::new("memory", "m", 0), Endpoint::new("estate", "c", 0), "about");
    let store = store(&[row]);
    let found = overlay(&home, &store, pools(vec![]))
        .neighbors(&id("c"), Direction::Dependents, &mut Vec::new())
        .unwrap();
    assert_eq!(found.len(), 1);
    assert_eq!(found[0].kind, EdgeKind::Other("about".into()));
    assert_eq!(found[0].confidence.get(), 0.5);
    assert_eq!(found[0].provenance, Provenance::Synthesizer("script".into()));
    assert_eq!(found[0].resolved_by, "xedge:about");
}

#[test]
fn a_failing_home_engine_is_handed_on() {
    let home = home_with(&[]);
    let store = store(&[]);
    let overlay = overlay(&home, &store, pools(vec![]));
    let mut log = vec!["before".to_string()];
    let out = overlay.neighbors(&id("?"), Direction::Both, &mut log);
    assert!(matches!(out, Err(Error::Engine(EngineError::Storage(t))) if t == "broken"));
    let out = overlay.traverse(&id("?"), &spec(), &mut log);
    assert!(matches!(out, Err(Error::Engine(EngineError::Storage(t))) if t == "broken"));
    assert_eq!(log, ["before"]);
}

#[test]
fn a_failing_store_is_reported() {
    let dir = tempfile::tempdir().unwrap();
    let path = dir.path().join("xedge.db").to_str().unwrap().to_string();
    let store = XedgeStore::open(&path).unwrap();
    rusqlite::Connection::open(&path)
        .unwrap()
        .execute_batch("DROP TABLE xedges;")
        .unwrap();
    let home = home_with(&[("c", 0)]);
    let overlay = overlay(&home, &store, pools(vec![]));
    for dir in [Direction::Dependents, Direction::Dependencies, Direction::Both] {
        let out = overlay.neighbors(&id("c"), dir, &mut Vec::new());
        assert!(matches!(out, Err(Error::Invalid(t)) if t.starts_with("xedge: no such table")));
    }
    let out = overlay.traverse(&id("c"), &spec(), &mut Vec::new());
    assert!(matches!(out, Err(Error::Invalid(t)) if t.starts_with("xedge: no such table")));
}

// ── stale stamps ─────────────────────────────────────────────────────────────

fn dropped(home: &Engine, others: Arc<ForeignPools<Engine>>, row: XEdge) -> Vec<String> {
    let at = row.target.stable_id.clone();
    let store = store(&[row]);
    let mut log = Vec::new();
    let found = overlay(home, &store, others)
        .neighbors(&id(&at), Direction::Dependents, &mut log)
        .unwrap_or_default();
    assert!(found.is_empty());
    log
}

#[test]
fn a_reused_id_is_dropped_with_both_epochs() {
    let home = home_with(&[("c", 12)]);
    assert_eq!(
        dropped(&home, pools(vec![]), XEdge::about("m", "c", 7)),
        ["XEDGE-STALE-EPOCH: edge to estate:c dropped (row gen=7, live gen=12 — id reused; prune queued)"]
    );
}

#[test]
fn an_id_that_is_not_live_is_dropped() {
    let home = home_with(&[]);
    assert_eq!(
        dropped(&home, pools(vec![]), XEdge::about("m", "c", 0)),
        ["XEDGE-STALE-EPOCH: edge to estate:c dropped (no live node; prune queued)"]
    );
}

#[test]
fn an_epoch_that_cannot_be_read_is_dropped() {
    let home = home_with(&[("c", 0)]);
    let row = cross(Endpoint::new("estate", "?", 0), Endpoint::new("estate", "c", 0), "about");
    assert_eq!(
        dropped(&home, pools(vec![]), row),
        ["XEDGE-STALE-EPOCH: edge to estate:? dropped (epoch read failed; prune queued)"]
    );
}

#[test]
fn the_source_is_looked_at_first_and_one_line_is_logged() {
    let home = home_with(&[("a", 1), ("c", 2)]);
    let row = cross(Endpoint::new("estate", "a", 0), Endpoint::new("estate", "c", 0), "about");
    assert_eq!(
        dropped(&home, pools(vec![]), row),
        ["XEDGE-STALE-EPOCH: edge to estate:a dropped (row gen=0, live gen=1 — id reused; prune queued)"]
    );
    assert_eq!(home.asked(), ["neighbors c", "epoch a"]);
}

#[test]
fn an_end_outside_estate_is_live_only_with_stamp_zero() {
    let home = home_with(&[("c", 0)]);
    let row = cross(Endpoint::new("memory", "m", 5), Endpoint::new("estate", "c", 0), "about");
    assert_eq!(
        dropped(&home, pools(vec![]), row),
        ["XEDGE-STALE-EPOCH: edge to memory:m dropped (row gen=5, live gen=0 — id reused; prune queued)"]
    );
}

#[test]
fn a_foreign_estate_engine_is_asked_for_epochs() {
    let home = home_with(&[]);
    let rows = [cross(
        Endpoint::new("memory", "m", 0),
        Endpoint::new("estate", "c", 3),
        "about",
    )];
    let store = store(&rows);
    let ask = |others| {
        let overlay = OverlayReader::new(
            &home,
            "memory",
            store.reader(),
            others,
            about(),
            CrossBudget::default(),
        );
        let mut log = Vec::new();
        let found = overlay.neighbors(&id("m"), Direction::Dependencies, &mut log).unwrap();
        (ends(&found), log)
    };
    assert_eq!(ask(pools(vec![("estate", home_with(&[("c", 3)]))])), (vec![pair("m", "c")], vec![]));
    let (found, log) = ask(pools(vec![("estate", home_with(&[("c", 4)]))]));
    assert!(found.is_empty());
    assert_eq!(
        log,
        ["XEDGE-STALE-EPOCH: edge to estate:c dropped (row gen=3, live gen=4 — id reused; prune queued)"]
    );
    let (found, log) = ask(pools(vec![("knowledge", home_with(&[("c", 3)]))]));
    assert!(found.is_empty());
    assert_eq!(log, ["XEDGE-STALE-EPOCH: edge to estate:c dropped (no live node; prune queued)"]);
}

#[test]
fn a_marker_says_why() {
    let end = Endpoint::new("estate", "c", u64::MAX);
    assert_eq!(stale_marker(&end, &Ok(Some(u64::MAX))), None);
    assert_eq!(
        stale_marker(&end, &Ok(Some(0))).unwrap(),
        "XEDGE-STALE-EPOCH: edge to estate:c dropped (row gen=18446744073709551615, live gen=0 — id reused; prune queued)"
    );
    assert!(stale_marker(&end, &Ok(None)).unwrap().ends_with("dropped (no live node; prune queued)"));
    assert!(stale_marker(&end, &Err(broken()))
        .unwrap()
        .ends_with("dropped (epoch read failed; prune queued)"));
}

#[test]
fn rows_are_folded_in_their_order() {
    let home = home_with(&[("c", 0)]);
    let store = store(&[]);
    let overlay = overlay(&home, &store, pools(vec![]));
    let mut log = vec!["before".to_string()];
    let out = overlay.fold_rows(
        vec![
            XEdge::about("m2", "c", 0),
            XEdge::about("m1", "c", 1),
            XEdge::about("m0", "c", 0),
        ],
        &mut log,
    );
    assert_eq!(ends(&out), [pair("m2", "c"), pair("m0", "c")]);
    assert_eq!(log.len(), 2);
    assert_eq!(log[0], "before");
}

#[test]
fn a_row_is_checked_at_both_ends() {
    let home = home_with(&[("c", 0)]);
    let store = store(&[]);
    let overlay = overlay(&home, &store, pools(vec![]));
    let mut log = Vec::new();
    assert!(overlay.epoch_valid(&XEdge::about("m", "c", 0), &mut log));
    assert!(log.is_empty());
    assert!(!overlay.epoch_valid(&XEdge::about("m", "c", 1), &mut log));
    assert_eq!(log.len(), 1);
}

// ── routing ──────────────────────────────────────────────────────────────────

#[test]
fn a_node_comes_from_the_first_engine_that_has_it() {
    let home = home_with(&[("c", 0), ("both", 4)]);
    let store = store(&[]);
    let others = pools(vec![
        ("memory", home_with(&[("m", 0), ("both", 5)])),
        ("knowledge", home_with(&[("m", 9), ("k", 6), ("both", 7)])),
    ]);
    let overlay = overlay(&home, &store, Arc::clone(&others));
    let found = |symbol: &str| overlay.get_node(&id(symbol)).unwrap().map(|n| n.symbol.0);
    assert_eq!(found("c"), Some("c".to_string()));
    assert_eq!(found("m"), Some("m".to_string()));
    assert_eq!(found("k"), Some("k".to_string()));
    assert_eq!(found("nowhere"), None);
    assert_eq!(overlay.symbol_epoch(&id("both")).unwrap(), Some(4));
    assert_eq!(overlay.symbol_epoch(&id("m")).unwrap(), Some(0));
    assert_eq!(overlay.symbol_epoch(&id("k")).unwrap(), Some(6));
    assert_eq!(overlay.symbol_epoch(&id("nowhere")).unwrap(), None);
    assert!(!others.engine(0).asked().contains(&"node c".to_string()));
    assert!(!others.engine(1).asked().contains(&"node m".to_string()));
}

#[test]
fn a_failing_engine_ends_the_search() {
    let home = home_with(&[]);
    let store = store(&[]);
    let others = pools(vec![("memory", home_with(&[("m", 0)]))]);
    let overlay = overlay(&home, &store, Arc::clone(&others));
    assert!(matches!(overlay.get_node(&id("?")), Err(Error::Engine(_))));
    assert!(matches!(overlay.symbol_epoch(&id("?")), Err(Error::Engine(_))));
    assert!(others.engine(0).asked().is_empty());
}

#[test]
fn with_nothing_armed_foreign_engines_are_not_asked() {
    let home = Engine {
        edges: vec![("x", "c")],
        ..home_with(&[("c", 0)])
    };
    let store = store(&[XEdge::about("m", "c", 0)]);
    let others = pools(vec![("memory", home_with(&[("m", 0)]))]);
    let overlay = OverlayReader::new(
        &home,
        "estate",
        store.reader(),
        Arc::clone(&others),
        vec![],
        CrossBudget::default(),
    );
    assert!(overlay.get_node(&id("m")).unwrap().is_none());
    assert_eq!(overlay.symbol_epoch(&id("m")).unwrap(), None);
    let mut log = Vec::new();
    let found = overlay.neighbors(&id("c"), Direction::Both, &mut log).unwrap();
    assert_eq!(ends(&found), [pair("x", "c")]);
    let sub = overlay.traverse(&id("c"), &spec(), &mut log).unwrap();
    assert_eq!(symbols(&sub), ["c"]);
    assert!(sub.edges.is_empty());
    assert!(log.is_empty());
    assert!(overlay.capabilities().server_side_traversal);
    assert!(others.engine(0).asked().is_empty());
}

#[test]
fn only_the_traversal_capability_changes() {
    let home = home_with(&[]);
    let store = store(&[]);
    let caps = overlay(&home, &store, pools(vec![])).capabilities();
    assert!(caps.full_text_search);
    assert!(!caps.vector_search);
    assert!(!caps.server_side_traversal);
    assert!(caps.transactional_batch);
    assert!(!caps.shared_writers);
}

#[test]
fn every_other_read_is_the_home_engines() {
    let home = home_with(&[]);
    let store = store(&[]);
    let overlay = overlay(&home, &store, pools(vec![]));
    let query = SymbolQuery {
        exact_name: Some("name".to_string()),
        ..Default::default()
    };
    assert_eq!(overlay.find_symbols(&query).unwrap(), vec![record("name")]);
    assert_eq!(overlay.all_nodes().unwrap(), vec![record("all")]);
    assert_eq!(overlay.all_edges().unwrap()[0].resolved_by, "all");
    assert!(overlay.unresolved_refs_for_name("n").is_err());
    assert_eq!(overlay.file_digest("f").unwrap().unwrap(), "digest f");
    assert_eq!(overlay.file_git_sha("f").unwrap().unwrap(), "sha f");
    assert!(overlay.repo_info().is_err());
    assert!(overlay.edge_history("f").is_err());
    assert_eq!(overlay.file_content("f").unwrap().unwrap(), "content f");
    assert_eq!(overlay.symbol_source(&record("s")).unwrap().unwrap(), "source s");
    assert!(overlay.changes_since(1).is_err());
    assert!(overlay.node_semantics(&id("s")).is_err());
    assert_eq!(overlay.find_by_requirement("r").unwrap(), vec![record("r")]);
    assert!(overlay.annotations(&id("s")).is_err());
    assert!(overlay.annotations_by_type("t").is_err());
    assert!(overlay.annotations_stale_since(1).is_err());
    assert_eq!(overlay.stats().unwrap().node_count, 17);
}

// ── traversals ───────────────────────────────────────────────────────────────

#[test]
fn a_traversal_adds_the_far_ends_one_step_beyond() {
    let home = Engine {
        reached: vec![("c", None), ("d", Some(3))],
        reached_edges: vec![("c", "d", "uses")],
        ..home_with(&[("c", 0), ("d", 0)])
    };
    let store = store(&[
        XEdge::about("m", "c", 0),
        cross(Endpoint::new("estate", "d", 0), Endpoint::new("memory", "n", 0), "about"),
    ]);
    let others = pools(vec![("memory", home_with(&[("m", 0), ("n", 0)]))]);
    let sub = overlay(&home, &store, others)
        .traverse_multi(&[id("c")], &spec(), &mut Vec::new())
        .unwrap();
    assert_eq!(symbols(&sub), ["c", "d", "m", "n"]);
    assert_eq!(ends(&sub.edges), [pair("c", "d"), pair("m", "c"), pair("d", "n")]);
    assert_eq!(sub.depths.get("c"), None);
    assert_eq!(sub.depths.get("d"), Some(3));
    assert_eq!(sub.depths.get("m"), Some(1));
    assert_eq!(sub.depths.get("n"), Some(4));
    assert!(!sub.truncated);
}

#[test]
fn a_traversal_from_one_start_is_one_from_the_list_of_it() {
    let home = home_with(&[("c", 0)]);
    let store = store(&[XEdge::about("m", "c", 0)]);
    let others = pools(vec![("memory", home_with(&[("m", 0)]))]);
    let overlay = overlay(&home, &store, others);
    let one = overlay.traverse(&id("c"), &spec(), &mut Vec::new()).unwrap();
    let many = overlay.traverse_multi(&[id("c")], &spec(), &mut Vec::new()).unwrap();
    assert_eq!(one, many);
    assert_eq!(symbols(&one), ["c", "m"]);
    assert!(home.asked().iter().filter(|q| *q == "traverse c").count() == 2);
}

#[test]
fn without_hops_or_room_a_traversal_is_the_home_engines() {
    let home = home_with(&[("c", 0)]);
    let store = store(&[XEdge::about("m", "c", 0)]);
    for budget in [budget(0, 64), budget(1, 0)] {
        let others = pools(vec![("memory", home_with(&[("m", 0)]))]);
        let overlay = OverlayReader::new(&home, "estate", store.reader(), others, about(), budget);
        let sub = overlay.traverse(&id("c"), &spec(), &mut Vec::new()).unwrap();
        assert_eq!(symbols(&sub), ["c"]);
        assert!(sub.edges.is_empty());
        assert!(!sub.truncated);
    }
}

#[test]
fn an_edge_left_over_marks_the_traversal_as_cut_short() {
    let home = home_with(&[("c", 0), ("d", 0)]);
    let memories = || pools(vec![("memory", home_with(&[("m", 0), ("n", 0), ("o", 0)]))]);
    let two = store(&[
        XEdge::about("m", "c", 0),
        cross(Endpoint::new("estate", "c", 0), Endpoint::new("memory", "n", 0), "about"),
    ]);
    let overlay =
        OverlayReader::new(&home, "estate", two.reader(), memories(), about(), budget(1, 1));
    let sub = overlay.traverse(&id("c"), &spec(), &mut Vec::new()).unwrap();
    assert_eq!(symbols(&sub), ["c", "d", "m"]);
    assert_eq!(ends(&sub.edges), [pair("m", "c")]);
    assert!(sub.truncated);

    // The budget is used up between two home nodes: the second is not looked at.
    let apart = store(&[XEdge::about("m", "c", 0), XEdge::about("n", "d", 0)]);
    let overlay =
        OverlayReader::new(&home, "estate", apart.reader(), memories(), about(), budget(1, 1));
    let sub = overlay.traverse(&id("c"), &spec(), &mut Vec::new()).unwrap();
    assert_eq!(symbols(&sub), ["c", "d", "m"]);
    assert!(!sub.truncated);
}

#[test]
fn a_traversal_that_was_cut_short_at_home_stays_so() {
    let home = Engine {
        cut: true,
        ..home_with(&[("c", 0)])
    };
    let store = store(&[]);
    let sub = overlay(&home, &store, pools(vec![]))
        .traverse(&id("c"), &spec(), &mut Vec::new())
        .unwrap();
    assert!(sub.truncated);
}

#[test]
fn a_relationship_is_added_once() {
    // The same memory about the same symbol from two engines and at home already.
    let home = Engine {
        reached: vec![("c", None)],
        reached_edges: vec![("h", "c", "about")],
        ..home_with(&[("c", 0)])
    };
    let store = store(&[
        XEdge::about("h", "c", 0),
        XEdge::about("m", "c", 0),
        cross(Endpoint::new("knowledge", "m", 0), Endpoint::new("estate", "c", 0), "about"),
    ]);
    let others = pools(vec![("memory", home_with(&[("m", 0), ("h", 0)]))]);
    let sub = overlay(&home, &store, others)
        .traverse(&id("c"), &spec(), &mut Vec::new())
        .unwrap();
    assert_eq!(symbols(&sub), ["c", "m"]);
    assert_eq!(ends(&sub.edges), [pair("h", "c"), pair("m", "c")]);
}

#[test]
fn a_node_is_added_once_and_keeps_a_nearer_distance() {
    let home = Engine {
        reached: vec![("c", Some(5)), ("d", Some(1))],
        distances: vec![("n", 2)],
        ..home_with(&[("c", 0), ("d", 0)])
    };
    let store = store(&[
        XEdge::about("m", "c", 0),
        XEdge::about("m", "d", 0),
        cross(Endpoint::new("estate", "c", 0), Endpoint::new("memory", "n", 0), "about"),
    ]);
    let others = pools(vec![("memory", home_with(&[("m", 0), ("n", 0)]))]);
    let sub = overlay(&home, &store, others)
        .traverse(&id("c"), &spec(), &mut Vec::new())
        .unwrap();
    assert_eq!(symbols(&sub), ["c", "d", "m", "n"]);
    assert_eq!(ends(&sub.edges), [pair("m", "c"), pair("c", "n"), pair("m", "d")]);
    // The first home node to reach it decides; a distance on record stays if it is nearer.
    assert_eq!(sub.depths.get("m"), Some(6));
    assert_eq!(sub.depths.get("n"), Some(2));
}

#[test]
fn a_node_stands_one_step_beyond_the_nearest_home_node() {
    // The home nodes are listed by their distance, and the last of them is not looked at any more.
    let home = Engine {
        reached: vec![("c", None), ("d", Some(1)), ("e", Some(4)), ("f", Some(5))],
        ..home_with(&[("c", 0), ("d", 0), ("e", 0), ("f", 0)])
    };
    let store = store(&[
        XEdge::about("m", "e", 0),
        XEdge::about("m", "d", 0),
        XEdge::about("n", "e", 0),
        XEdge::about("n", "f", 0),
        XEdge::about("o", "f", 0),
    ]);
    let others = pools(vec![("memory", home_with(&[("m", 0), ("n", 0), ("o", 0)]))]);
    let overlay = OverlayReader::new(&home, "estate", store.reader(), others, about(), budget(1, 2));
    let sub = overlay.traverse(&id("c"), &spec(), &mut Vec::new()).unwrap();
    assert_eq!(symbols(&sub), ["c", "d", "e", "f", "m", "n"]);
    assert_eq!(sub.depths.get("m"), Some(2));
    assert_eq!(sub.depths.get("n"), Some(5));
}

#[test]
fn a_far_end_that_no_engine_has_leaves_the_edge_alone() {
    let home = home_with(&[("c", 0)]);
    let store = store(&[XEdge::about("gone", "c", 0)]);
    let sub = overlay(&home, &store, pools(vec![]))
        .traverse(&id("c"), &spec(), &mut Vec::new())
        .unwrap();
    assert_eq!(symbols(&sub), ["c"]);
    assert_eq!(ends(&sub.edges), [pair("gone", "c")]);
}

#[test]
fn an_edge_from_a_symbol_to_itself_has_no_far_end() {
    let home = home_with(&[("c", 0)]);
    let row = cross(Endpoint::new("memory", "c", 0), Endpoint::new("estate", "c", 0), "about");
    let store = store(&[row]);
    let others = pools(vec![("memory", home_with(&[("c", 0)]))]);
    let sub = overlay(&home, &store, Arc::clone(&others))
        .traverse(&id("c"), &spec(), &mut Vec::new())
        .unwrap();
    assert_eq!(symbols(&sub), ["c"]);
    assert_eq!(ends(&sub.edges), [pair("c", "c")]);
    assert!(others.engine(0).asked().is_empty());
}

#[test]
fn a_far_end_that_cannot_be_read_ends_the_traversal() {
    let home = home_with(&[("c", 0)]);
    let store = store(&[XEdge::about("?", "c", 0)]);
    let out = overlay(&home, &store, pools(vec![])).traverse(&id("c"), &spec(), &mut Vec::new());
    assert!(matches!(out, Err(Error::Engine(_))));
}

#[test]
fn no_step_beyond_the_largest_distance() {
    let home = Engine {
        reached: vec![("c", Some(u32::MAX))],
        ..home_with(&[("c", 0)])
    };
    let store = store(&[XEdge::about("m", "c", 0)]);
    let others = pools(vec![("memory", home_with(&[("m", 0)]))]);
    let out = overlay(&home, &store, others).traverse(&id("c"), &spec(), &mut Vec::new());
    assert!(matches!(out, Err(Error::DepthOverflow)));
}

#[test]
fn a_stale_edge_adds_nothing_to_a_traversal() {
    let home = home_with(&[("c", 1)]);
    let store = store(&[XEdge::about("m", "c", 0)]);
    let others = pools(vec![("memory", home_with(&[("m", 0)]))]);
    let mut log = Vec::new();
    let sub = overlay(&home, &store, others)
        .traverse(&id("c"), &spec(), &mut log)
        .unwrap();
    assert_eq!(symbols(&sub), ["c"]);
    assert!(sub.edges.is_empty());
    assert_eq!(
        log,
        ["XEDGE-STALE-EPOCH: edge to estate:c dropped (row gen=0, live gen=1 — id reused; prune queued)"]
    );
}

#[test]
fn what_crosses_is_the_union_over_the_home_nodes() {
    let home = |reached: Vec<(&'static str, Option<u32>)>| Engine {
        reached,
        ..home_with(&[("c", 0), ("d", 0)])
    };
    let store = store(&[
        XEdge::about("m", "c", 0),
        XEdge::about("n", "d", 0),
        XEdge::about("both", "c", 0),
        XEdge::about("both", "d", 0),
    ]);
    let reach = |engine: &Engine, starts: &[SymbolId]| {
        let others = pools(vec![("memory", home_with(&[("m", 0), ("n", 0), ("both", 0)]))]);
        let sub = overlay(engine, &store, others)
            .traverse_multi(starts, &spec(), &mut Vec::new())
            .unwrap();
        let nodes = symbols(&sub).into_iter().collect::<std::collections::BTreeSet<String>>();
        let edges = ends(&sub.edges);
        (nodes, edges.into_iter().collect::<std::collections::BTreeSet<(String, String)>>())
    };
    let c = reach(&home(vec![("c", None)]), &[id("c")]);
    let d = reach(&home(vec![("d", None)]), &[id("d")]);
    let many = reach(&home(vec![("c", None), ("d", None)]), &[id("c"), id("d")]);
    assert_eq!(many.0, c.0.union(&d.0).cloned().collect());
    assert_eq!(many.1, c.1.union(&d.1).cloned().collect());
    assert_eq!(many.0.len(), 5);
    assert_eq!(many.1.len(), 4);
}

#[test]
fn a_home_subgraph_can_be_folded_on_its_own() {
    let home = home_with(&[("c", 0)]);
    let store = store(&[XEdge::about("m", "c", 0)]);
    let others = pools(vec![("memory", home_with(&[("m", 0)]))]);
    let overlay = overlay(&home, &store, others);
    let mut depths = Depths::new();
    depths.set("c".to_string(), 8);
    let sub = Subgraph {
        nodes: vec![node("c")],
        edges: vec![],
        depths,
        truncated: false,
    };
    let out = overlay.fold_subgraph(sub, &mut Vec::new()).unwrap();
    assert_eq!(symbols(&out), ["c", "m"]);
    assert_eq!(out.depths.get("m"), Some(9));
}
