//! The overlay over real engines: which reads cross the store boundary, which stay at home, which
//! are routed; and recall of a document from a code symbol with which it shares no word.
//!
//! The foreign engine is a `SqlitePool`; the home engine is a `MemStore` with code nodes.

use std::sync::{Arc, Mutex};

use tokio::runtime::Handle;
use wicked_estate_core::{
    annotation::Annotation,
    change::Change,
    edge::{
        Direction as CoreDirection, Edge as CoreEdge, EdgeKind as CoreKind,
        Provenance as CoreProvenance,
    },
    history::HistoricalEdge,
    node::{Language, Location, Node as CoreNode, NodeKind, Span},
    query::{GraphStats, Subgraph as CoreSubgraph},
    refs::UnresolvedRef,
    repo::RepoInfo,
    semantics::NodeSemantics,
    symbol::{Descriptor, Symbol, SymbolId as CoreId},
    AsyncGraphStore, GraphRead, GraphWrite, SymbolQuery, TraversalSpec,
};
use wicked_estate_store::{open_sqlite_pool, MemStore, SqlitePool, SqliteStore};
use wicked_overlay::{
    BuiltinKind, CrossBudget, Depths, Direction, Edge, EdgeKind, Error, ForeignEngine,
    ForeignPools, HomeEngine, Node, OverlayReader, Provenance, StoreCapabilities, Subgraph,
    SymbolId, XEdge, XedgeStore,
};

// ── the engines behind the overlay ───────────────────────────────────────────

fn core_id(id: &SymbolId) -> CoreId {
    CoreId(id.0.clone())
}

fn own_id(id: &CoreId) -> SymbolId {
    SymbolId(id.0.clone())
}

fn core_dir(dir: Direction) -> CoreDirection {
    match dir {
        Direction::Dependents => CoreDirection::Dependents,
        Direction::Dependencies => CoreDirection::Dependencies,
        Direction::Both => CoreDirection::Both,
    }
}

fn own_node(record: CoreNode) -> Node {
    Node {
        symbol: own_id(&record.symbol),
        record,
    }
}

fn own_kind(kind: &CoreKind) -> EdgeKind {
    EdgeKind::Builtin(match kind {
        CoreKind::Contains => BuiltinKind::Contains,
        CoreKind::Defines => BuiltinKind::Defines,
        CoreKind::Calls => BuiltinKind::Calls,
        CoreKind::Imports => BuiltinKind::Imports,
        CoreKind::References => BuiltinKind::References,
        CoreKind::Instantiates => BuiltinKind::Instantiates,
        CoreKind::Implements => BuiltinKind::Implements,
        CoreKind::Extends => BuiltinKind::Extends,
        CoreKind::Overrides => BuiltinKind::Overrides,
        CoreKind::HasType => BuiltinKind::HasType,
        CoreKind::Returns => BuiltinKind::Returns,
        CoreKind::Governs => BuiltinKind::Governs,
        CoreKind::Evaluates => BuiltinKind::Evaluates,
        CoreKind::Produces => BuiltinKind::Produces,
        CoreKind::InvokedBy => BuiltinKind::InvokedBy,
        CoreKind::Other(name) => return EdgeKind::Other(name.clone()),
    })
}

fn own_provenance(provenance: &CoreProvenance) -> Provenance {
    match provenance {
        CoreProvenance::Parsed => Provenance::Parsed,
        CoreProvenance::Tags => Provenance::Tags,
        CoreProvenance::ImportMap => Provenance::ImportMap,
        CoreProvenance::Heuristic => Provenance::Heuristic,
        CoreProvenance::Tsg => Provenance::Tsg,
        CoreProvenance::Scip => Provenance::Scip,
        CoreProvenance::Lsp => Provenance::Lsp,
        CoreProvenance::Synthesizer(name) => Provenance::Synthesizer(name.clone()),
        CoreProvenance::Extractor(name) => Provenance::Extractor(name.clone()),
    }
}

fn own_edge(record: CoreEdge) -> Edge {
    Edge {
        source: own_id(&record.source),
        target: own_id(&record.target),
        kind: own_kind(&record.kind),
        confidence: record.confidence,
        provenance: own_provenance(&record.provenance),
        resolved_by: record.resolved_by.clone(),
        origin: Some(record),
    }
}

fn own_subgraph(sub: CoreSubgraph) -> Subgraph {
    let mut depths = Depths::new();
    for (symbol, depth) in sub.depths {
        depths.set(symbol, depth);
    }
    Subgraph {
        nodes: sub.nodes.into_iter().map(own_node).collect(),
        edges: sub.edges.into_iter().map(own_edge).collect(),
        depths,
        truncated: sub.truncated,
    }
}

/// A `MemStore` in the role of the home engine.
struct Home(MemStore);

impl HomeEngine for Home {
    fn capabilities(&self) -> StoreCapabilities {
        let caps = self.0.capabilities();
        StoreCapabilities {
            full_text_search: caps.full_text_search,
            vector_search: caps.vector_search,
            server_side_traversal: caps.server_side_traversal,
            transactional_batch: caps.transactional_batch,
            shared_writers: caps.shared_writers,
        }
    }

    fn get_node(&self, id: &SymbolId) -> Result<Option<Node>, Error> {
        let found = self.0.get_node(&core_id(id)).map_err(Error::Engine)?;
        Ok(found.map(own_node))
    }

    fn find_symbols(&self, query: &SymbolQuery) -> Result<Vec<CoreNode>, Error> {
        self.0.find_symbols(query).map_err(Error::Engine)
    }

    fn neighbors(&self, id: &SymbolId, dir: Direction) -> Result<Vec<Edge>, Error> {
        let edges = self.0.neighbors(&core_id(id), core_dir(dir)).map_err(Error::Engine)?;
        Ok(edges.into_iter().map(own_edge).collect())
    }

    fn traverse_multi(&self, starts: &[SymbolId], spec: &TraversalSpec) -> Result<Subgraph, Error> {
        let starts: Vec<CoreId> = starts.iter().map(core_id).collect();
        let sub = self.0.traverse_multi(&starts, spec).map_err(Error::Engine)?;
        Ok(own_subgraph(sub))
    }

    fn all_nodes(&self) -> Result<Vec<CoreNode>, Error> {
        self.0.all_nodes().map_err(Error::Engine)
    }

    fn all_edges(&self) -> Result<Vec<CoreEdge>, Error> {
        self.0.all_edges().map_err(Error::Engine)
    }

    fn unresolved_refs_for_name(&self, name: &str) -> Result<Vec<UnresolvedRef>, Error> {
        self.0.unresolved_refs_for_name(name).map_err(Error::Engine)
    }

    fn file_digest(&self, file: &str) -> Result<Option<String>, Error> {
        self.0.file_digest(file).map_err(Error::Engine)
    }

    fn file_git_sha(&self, file: &str) -> Result<Option<String>, Error> {
        self.0.file_git_sha(file).map_err(Error::Engine)
    }

    fn repo_info(&self) -> Result<Option<RepoInfo>, Error> {
        self.0.repo_info().map_err(Error::Engine)
    }

    fn edge_history(&self, file: &str) -> Result<Vec<HistoricalEdge>, Error> {
        self.0.edge_history(file).map_err(Error::Engine)
    }

    fn file_content(&self, file: &str) -> Result<Option<String>, Error> {
        self.0.file_content(file).map_err(Error::Engine)
    }

    fn symbol_source(&self, node: &CoreNode) -> Result<Option<String>, Error> {
        self.0.symbol_source(node).map_err(Error::Engine)
    }

    fn changes_since(&self, cursor: u64) -> Result<Vec<Change>, Error> {
        self.0.changes_since(cursor).map_err(Error::Engine)
    }

    fn node_semantics(&self, symbol: &SymbolId) -> Result<Option<NodeSemantics>, Error> {
        self.0.node_semantics(&core_id(symbol)).map_err(Error::Engine)
    }

    fn find_by_requirement(&self, requirement: &str) -> Result<Vec<CoreNode>, Error> {
        self.0.find_by_requirement(requirement).map_err(Error::Engine)
    }

    fn annotations(&self, symbol: &SymbolId) -> Result<Vec<Annotation>, Error> {
        self.0.annotations(&core_id(symbol)).map_err(Error::Engine)
    }

    fn annotations_by_type(&self, ty: &str) -> Result<Vec<(SymbolId, Annotation)>, Error> {
        let found = self.0.annotations_by_type(ty).map_err(Error::Engine)?;
        Ok(found.into_iter().map(|(id, a)| (own_id(&id), a)).collect())
    }

    fn annotations_stale_since(&self, cutoff: i64) -> Result<Vec<(SymbolId, Annotation)>, Error> {
        let found = self.0.annotations_stale_since(cutoff).map_err(Error::Engine)?;
        Ok(found.into_iter().map(|(id, a)| (own_id(&id), a)).collect())
    }

    fn symbol_epoch(&self, id: &SymbolId) -> Result<Option<u64>, Error> {
        self.0.symbol_epoch(&core_id(id)).map_err(Error::Engine)
    }

    fn stats(&self) -> Result<GraphStats, Error> {
        self.0.stats().map_err(Error::Engine)
    }
}

/// A `SqlitePool` in the role of a foreign engine, read on the thread that holds it.
#[derive(Clone)]
struct Pool(Arc<SqlitePool>);

fn run_inline<F, T>(pool: &SqlitePool, f: F) -> Result<T, Error>
where
    F: for<'b> FnOnce(&'b dyn GraphRead) -> wicked_estate_core::Result<T> + Send + 'static,
    T: Send + 'static,
{
    let handle = Handle::current();
    tokio::task::block_in_place(move || {
        handle.block_on(async move { pool.with_read_inline(f).await })
    })
    .map_err(Error::Engine)
}

impl ForeignEngine for Pool {
    fn get_node_blocking(&self, id: &SymbolId) -> Result<Option<Node>, Error> {
        let id = core_id(id);
        Ok(run_inline(&self.0, move |g| g.get_node(&id))?.map(own_node))
    }

    fn symbol_epoch_blocking(&self, id: &SymbolId) -> Result<Option<u64>, Error> {
        let id = core_id(id);
        run_inline(&self.0, move |g| g.symbol_epoch(&id))
    }
}

// ── fixtures ─────────────────────────────────────────────────────────────────

fn code_id(name: &str) -> SymbolId {
    own_id(&Symbol::global("scip-ts", None, vec![Descriptor::method(name, None)]).id())
}

fn doc_id(uuid: &str) -> SymbolId {
    own_id(&Symbol::synthetic("mem", uuid).id())
}

fn code_node(name: &str) -> CoreNode {
    CoreNode::new(
        core_id(&code_id(name)),
        NodeKind::Function,
        name,
        Language::new("rust"),
        Location::new("src/code.rs", Span::ZERO),
    )
}

fn doc_node(uuid: &str, title: &str) -> CoreNode {
    CoreNode::new(
        core_id(&doc_id(uuid)),
        NodeKind::Synthetic,
        title,
        Language::new("markdown"),
        Location::new("knowledge", Span::ZERO),
    )
}

fn foreign_memory_with_docs(docs: &[CoreNode]) -> (tempfile::TempDir, Pool) {
    let dir = tempfile::tempdir().unwrap();
    let path = dir.path().join("memory.db");
    let path_str = path.to_str().unwrap().to_string();
    {
        let mut store = SqliteStore::open(&path_str).unwrap();
        store.begin_batch().unwrap();
        store.upsert_nodes(docs).unwrap();
        store.commit_batch().unwrap();
    }
    let pool = open_sqlite_pool(&path_str, 4).unwrap();
    (dir, Pool(Arc::new(pool)))
}

fn home_estate_with_code(code: &[CoreNode]) -> Home {
    let mut store = MemStore::new();
    store.begin_batch().unwrap();
    store.upsert_nodes(code).unwrap();
    store.commit_batch().unwrap();
    Home(store)
}

fn pools(list: Vec<(&'static str, Pool)>) -> Arc<ForeignPools<Pool>> {
    let mut map = ForeignPools::new();
    for (tag, pool) in list {
        map.insert(tag, pool);
    }
    Arc::new(map)
}

// ── the cross seam runs under a real multi-thread runtime ────────────────────

#[test]
fn dod_x1_cross_seam_runs_and_folds_foreign_about_edge() {
    let rt = tokio::runtime::Builder::new_multi_thread()
        .worker_threads(2)
        .enable_all()
        .build()
        .unwrap();

    rt.block_on(async {
        let (_dir, mem_pool) = foreign_memory_with_docs(&[doc_node("doc-1", "Idempotency design")]);
        let home = home_estate_with_code(&[code_node("processPayment")]);

        // doc-1 is ABOUT processPayment, epoch 0/0.
        let mut xedge = XedgeStore::in_memory().unwrap();
        xedge
            .put_edge(&XEdge::about(
                doc_id("doc-1").0,
                code_id("processPayment").0,
                0,
            ))
            .unwrap();

        let others = pools(vec![("memory", mem_pool)]);

        let folded: Vec<String> = tokio::task::spawn_blocking(move || {
            let overlay = OverlayReader::new(
                &home,
                "estate",
                xedge.reader(),
                others,
                vec!["about".to_string()],
                CrossBudget::default(),
            );
            let n = overlay
                .neighbors(
                    &code_id("processPayment"),
                    Direction::Dependents,
                    &mut Vec::new(),
                )
                .unwrap();
            n.into_iter().map(|e| e.source.0).collect()
        })
        .await
        .unwrap();

        assert!(
            folded.contains(&doc_id("doc-1").0),
            "the foreign `about` doc must fold into the code seed's dependents; got {folded:?}"
        );
    });
}

// ── home-only reads never leak foreign nodes ─────────────────────────────────

#[test]
fn dod_x8_home_only_methods_never_leak_foreign_nodes() {
    let rt = tokio::runtime::Builder::new_multi_thread()
        .worker_threads(2)
        .enable_all()
        .build()
        .unwrap();

    rt.block_on(async {
        let (_dir, mem_pool) = foreign_memory_with_docs(&[
            doc_node("doc-1", "Idempotency"),
            doc_node("doc-2", "Retry policy"),
        ]);
        let home = home_estate_with_code(&[code_node("processPayment"), code_node("refund")]);

        let mut xedge = XedgeStore::in_memory().unwrap();
        xedge
            .put_edge(&XEdge::about(
                doc_id("doc-1").0,
                code_id("processPayment").0,
                0,
            ))
            .unwrap();
        xedge
            .put_edge(&XEdge::about(doc_id("doc-2").0, code_id("refund").0, 0))
            .unwrap();

        let others = pools(vec![("memory", mem_pool)]);

        tokio::task::spawn_blocking(move || {
            let overlay = OverlayReader::new(
                &home,
                "estate",
                xedge.reader(),
                others,
                vec!["about".to_string()], // cross ARMED
                CrossBudget::default(),
            );

            // all_nodes: exactly the 2 home code nodes — no docs.
            let all: Vec<String> = overlay
                .all_nodes()
                .unwrap()
                .into_iter()
                .map(|n| n.symbol.0)
                .collect();
            assert_eq!(all.len(), 2, "all_nodes must be home-only; got {all:?}");
            assert!(
                !all.iter().any(|s| s.contains("mem synthetic")),
                "no foreign doc node may leak into all_nodes (PageRank); got {all:?}"
            );

            // all_edges: home has no edges → empty (and certainly no xedge rows).
            assert!(
                overlay.all_edges().unwrap().is_empty(),
                "all_edges must be home-only (xedge rows never appear in global analytics)"
            );

            // find_symbols: an exact-name search resolves only home code, never a doc title.
            let found = overlay
                .find_symbols(&SymbolQuery {
                    exact_name: Some("processPayment".into()),
                    ..Default::default()
                })
                .unwrap();
            assert!(
                found.iter().all(|n| !n.symbol.0.contains("mem synthetic")),
                "find_symbols must be home-only; got {found:?}"
            );
        })
        .await
        .unwrap();
    });
}

// ── with nothing armed, neighbors are the home engine's ──────────────────────

#[test]
fn cross_off_neighbors_is_home_only() {
    let home = home_estate_with_code(&[code_node("processPayment")]);
    let mut xedge = XedgeStore::in_memory().unwrap();
    xedge
        .put_edge(&XEdge::about("doc-1", code_id("processPayment").0, 0))
        .unwrap();
    let others = pools(vec![]); // no foreign engines needed when cross-OFF

    let overlay = OverlayReader::new(
        &home,
        "estate",
        xedge.reader(),
        others,
        vec![], // cross-OFF
        CrossBudget::default(),
    );
    let n = overlay
        .neighbors(
            &code_id("processPayment"),
            Direction::Dependents,
            &mut Vec::new(),
        )
        .unwrap();
    assert!(
        n.is_empty(),
        "cross-OFF: the about row must NOT fold; got {n:?}"
    );
}

// ── get_node / symbol_epoch are routed ───────────────────────────────────────

#[test]
fn route_get_node_and_symbol_epoch_dispatch_by_engine() {
    let rt = tokio::runtime::Builder::new_multi_thread()
        .worker_threads(2)
        .enable_all()
        .build()
        .unwrap();

    rt.block_on(async {
        let (_dir, mem_pool) = foreign_memory_with_docs(&[doc_node("doc-1", "Idempotency")]);
        let home = home_estate_with_code(&[code_node("processPayment")]);
        let xedge = XedgeStore::in_memory().unwrap();
        let others = pools(vec![("memory", mem_pool)]);

        tokio::task::spawn_blocking(move || {
            let overlay = OverlayReader::new(
                &home,
                "estate",
                xedge.reader(),
                others,
                vec!["about".to_string()],
                CrossBudget::default(),
            );

            // home id → resolved from home.
            let home_node = overlay.get_node(&code_id("processPayment")).unwrap();
            assert!(home_node.is_some(), "home code node routes to home");

            // foreign doc id → resolved from the foreign memory pool.
            let foreign_node = overlay.get_node(&doc_id("doc-1")).unwrap();
            assert!(
                foreign_node.is_some(),
                "foreign doc node must ROUTE to the memory pool"
            );
            assert_eq!(foreign_node.unwrap().record.name, "Idempotency");

            // unknown id → None from every engine.
            assert!(overlay.get_node(&code_id("nonexistent")).unwrap().is_none());

            // symbol_epoch: home estate id → Some(gen).
            let epoch = overlay.symbol_epoch(&code_id("processPayment")).unwrap();
            assert_eq!(epoch, Some(0), "live home id has epoch 0 (never re-added)");
        })
        .await
        .unwrap();
    });
}

// ── capabilities ─────────────────────────────────────────────────────────────

#[test]
fn capabilities_forces_client_side_traversal_when_cross_on() {
    let home = home_estate_with_code(&[code_node("processPayment")]);
    let xedge = XedgeStore::in_memory().unwrap();
    let others = pools(vec![]);

    let cross_on = OverlayReader::new(
        &home,
        "estate",
        xedge.reader(),
        Arc::clone(&others),
        vec!["about".to_string()],
        CrossBudget::default(),
    );
    assert!(
        !cross_on.capabilities().server_side_traversal,
        "cross-ON forces client-side traversal"
    );
}

// ── every read of a graph is there ───────────────────────────────────────────

/// An overlay behind `GraphRead`: each of the reads that the trait asks for is one of the overlay.
struct AsGraph {
    home: Home,
    xedge: Mutex<XedgeStore>,
    others: Arc<ForeignPools<Pool>>,
    cross_edge_kinds: Vec<String>,
}

fn engine_error(e: Error) -> wicked_estate_core::Error {
    match e {
        Error::Engine(e) => e,
        Error::Invalid(text) => wicked_estate_core::Error::Invalid(text),
        Error::DepthOverflow => wicked_estate_core::Error::Invalid("depth".into()),
    }
}

fn graph_edge(edge: Edge) -> CoreEdge {
    edge.origin.expect("an edge of the home engine")
}

fn graph_subgraph(sub: Subgraph) -> CoreSubgraph {
    CoreSubgraph {
        depths: sub.depths.entries().iter().cloned().collect(),
        nodes: sub.nodes.into_iter().map(|n| n.record).collect(),
        edges: sub.edges.into_iter().map(graph_edge).collect(),
        truncated: sub.truncated,
    }
}

impl AsGraph {
    fn read<T>(
        &self,
        f: impl FnOnce(OverlayReader<'_, Home, Pool>) -> Result<T, Error>,
    ) -> wicked_estate_core::Result<T> {
        let store = self.xedge.lock().unwrap();
        f(OverlayReader::new(
            &self.home,
            "estate",
            store.reader(),
            Arc::clone(&self.others),
            self.cross_edge_kinds.clone(),
            CrossBudget::default(),
        ))
        .map_err(engine_error)
    }
}

impl GraphRead for AsGraph {
    fn capabilities(&self) -> wicked_estate_core::StoreCapabilities {
        let caps = self.read(|o| Ok(o.capabilities())).unwrap();
        wicked_estate_core::StoreCapabilities {
            full_text_search: caps.full_text_search,
            vector_search: caps.vector_search,
            server_side_traversal: caps.server_side_traversal,
            transactional_batch: caps.transactional_batch,
            shared_writers: caps.shared_writers,
        }
    }

    fn get_node(&self, id: &CoreId) -> wicked_estate_core::Result<Option<CoreNode>> {
        Ok(self.read(|o| o.get_node(&own_id(id)))?.map(|n| n.record))
    }

    fn find_symbols(&self, query: &SymbolQuery) -> wicked_estate_core::Result<Vec<CoreNode>> {
        self.read(|o| o.find_symbols(query))
    }

    fn neighbors(
        &self,
        id: &CoreId,
        dir: CoreDirection,
    ) -> wicked_estate_core::Result<Vec<CoreEdge>> {
        let dir = match dir {
            CoreDirection::Dependents => Direction::Dependents,
            CoreDirection::Dependencies => Direction::Dependencies,
            CoreDirection::Both => Direction::Both,
        };
        let edges = self.read(|o| o.neighbors(&own_id(id), dir, &mut Vec::new()))?;
        Ok(edges.into_iter().map(graph_edge).collect())
    }

    fn traverse(
        &self,
        start: &CoreId,
        spec: &TraversalSpec,
    ) -> wicked_estate_core::Result<CoreSubgraph> {
        let sub = self.read(|o| o.traverse(&own_id(start), spec, &mut Vec::new()))?;
        Ok(graph_subgraph(sub))
    }

    fn traverse_multi(
        &self,
        starts: &[CoreId],
        spec: &TraversalSpec,
    ) -> wicked_estate_core::Result<CoreSubgraph> {
        let starts: Vec<SymbolId> = starts.iter().map(own_id).collect();
        let sub = self.read(|o| o.traverse_multi(&starts, spec, &mut Vec::new()))?;
        Ok(graph_subgraph(sub))
    }

    fn all_nodes(&self) -> wicked_estate_core::Result<Vec<CoreNode>> {
        self.read(|o| o.all_nodes())
    }

    fn all_edges(&self) -> wicked_estate_core::Result<Vec<CoreEdge>> {
        self.read(|o| o.all_edges())
    }

    fn unresolved_refs_for_name(
        &self,
        name: &str,
    ) -> wicked_estate_core::Result<Vec<UnresolvedRef>> {
        self.read(|o| o.unresolved_refs_for_name(name))
    }

    fn file_digest(&self, file: &str) -> wicked_estate_core::Result<Option<String>> {
        self.read(|o| o.file_digest(file))
    }

    fn file_git_sha(&self, file: &str) -> wicked_estate_core::Result<Option<String>> {
        self.read(|o| o.file_git_sha(file))
    }

    fn repo_info(&self) -> wicked_estate_core::Result<Option<RepoInfo>> {
        self.read(|o| o.repo_info())
    }

    fn edge_history(&self, file: &str) -> wicked_estate_core::Result<Vec<HistoricalEdge>> {
        self.read(|o| o.edge_history(file))
    }

    fn file_content(&self, file: &str) -> wicked_estate_core::Result<Option<String>> {
        self.read(|o| o.file_content(file))
    }

    fn symbol_source(&self, node: &CoreNode) -> wicked_estate_core::Result<Option<String>> {
        self.read(|o| o.symbol_source(node))
    }

    fn changes_since(&self, cursor: u64) -> wicked_estate_core::Result<Vec<Change>> {
        self.read(|o| o.changes_since(cursor))
    }

    fn node_semantics(&self, symbol: &CoreId) -> wicked_estate_core::Result<Option<NodeSemantics>> {
        self.read(|o| o.node_semantics(&own_id(symbol)))
    }

    fn find_by_requirement(&self, requirement: &str) -> wicked_estate_core::Result<Vec<CoreNode>> {
        self.read(|o| o.find_by_requirement(requirement))
    }

    fn annotations(&self, symbol: &CoreId) -> wicked_estate_core::Result<Vec<Annotation>> {
        self.read(|o| o.annotations(&own_id(symbol)))
    }

    fn annotations_by_type(
        &self,
        ty: &str,
    ) -> wicked_estate_core::Result<Vec<(CoreId, Annotation)>> {
        let found = self.read(|o| o.annotations_by_type(ty))?;
        Ok(found.into_iter().map(|(id, a)| (core_id(&id), a)).collect())
    }

    fn annotations_stale_since(
        &self,
        cutoff: i64,
    ) -> wicked_estate_core::Result<Vec<(CoreId, Annotation)>> {
        let found = self.read(|o| o.annotations_stale_since(cutoff))?;
        Ok(found.into_iter().map(|(id, a)| (core_id(&id), a)).collect())
    }

    fn symbol_epoch(&self, id: &CoreId) -> wicked_estate_core::Result<Option<u64>> {
        self.read(|o| o.symbol_epoch(&own_id(id)))
    }

    fn stats(&self) -> wicked_estate_core::Result<GraphStats> {
        self.read(|o| o.stats())
    }
}

#[test]
fn overlay_implements_full_graphread_trait_object() {
    let overlay = AsGraph {
        home: Home(MemStore::new()),
        xedge: Mutex::new(XedgeStore::in_memory().unwrap()),
        others: pools(vec![]),
        cross_edge_kinds: vec![],
    };
    let as_trait: &dyn GraphRead = &overlay;
    assert!(as_trait.all_nodes().unwrap().is_empty());
    assert!(as_trait.stats().unwrap().node_count == 0);
    assert!(matches!(
        as_trait.capabilities().server_side_traversal,
        true | false
    ));
    assert!(as_trait
        .neighbors(&core_id(&code_id("x")), CoreDirection::Both)
        .unwrap()
        .is_empty());
    assert!(as_trait
        .symbol_epoch(&core_id(&code_id("x")))
        .unwrap()
        .is_none());
}

// ── corpus: 4 (code seed, document) pairs with no word in common ─────────────

struct Pair {
    code: &'static str,
    doc_uuid: &'static str,
    doc_title: &'static str,
}

const CORPUS: &[Pair] = &[
    Pair {
        code: "charge_card",
        doc_uuid: "k-001",
        doc_title: "Idempotent retry windows for billing settlement",
    },
    Pair {
        code: "rotate_keys",
        doc_uuid: "k-002",
        doc_title: "Envelope encryption and HSM custody policy",
    },
    Pair {
        code: "evict_session",
        doc_uuid: "k-003",
        doc_title: "Sliding-window TTL self-heal for token caches",
    },
    Pair {
        code: "shard_ledger",
        doc_uuid: "k-004",
        doc_title: "Partition rebalancing under hot-key skew",
    },
];

fn shared(store: XedgeStore) -> Arc<Mutex<XedgeStore>> {
    Arc::new(Mutex::new(store))
}

fn build_corpus() -> (tempfile::TempDir, Arc<Home>, Arc<Mutex<XedgeStore>>, Pool) {
    // scope: the documents live ONLY here.
    let dir = tempfile::tempdir().unwrap();
    let path = dir.path().join("scope-memory.db");
    let path_str = path.to_str().unwrap().to_string();
    {
        let mut scope = SqliteStore::open(&path_str).unwrap();
        scope.begin_batch().unwrap();
        let docs: Vec<CoreNode> = CORPUS
            .iter()
            .map(|p| doc_node(p.doc_uuid, p.doc_title))
            .collect();
        scope.upsert_nodes(&docs).unwrap();
        scope.commit_batch().unwrap();
    }
    let scope = Pool(Arc::new(open_sqlite_pool(&path_str, 4).unwrap()));

    // main: the code seeds + lexical distractor code.
    let mut main = MemStore::new();
    main.begin_batch().unwrap();
    let mut code: Vec<CoreNode> = CORPUS.iter().map(|p| code_node(p.code)).collect();
    for d in ["parse_args", "open_socket", "format_row", "hash_blob"] {
        code.push(code_node(d));
    }
    main.upsert_nodes(&code).unwrap();
    main.commit_batch().unwrap();

    // xedge: each document is ABOUT its code seed, epoch 0/0.
    let mut xedge = XedgeStore::in_memory().unwrap();
    for p in CORPUS {
        xedge
            .put_edge(&XEdge::about(doc_id(p.doc_uuid).0, code_id(p.code).0, 0))
            .unwrap();
    }

    (dir, Arc::new(Home(main)), shared(xedge), scope)
}

/// For each code seed, whether the neighbors of the overlay surface its document. The fraction of
/// hits. Without `cross_edge_kinds` nothing crosses.
fn cross_engine_recall_at_k(
    main: Arc<Home>,
    scope: Pool,
    xedge: &Arc<Mutex<XedgeStore>>,
    cross_edge_kinds: Vec<String>,
) -> f64 {
    let others = pools(vec![("memory", scope)]);
    let rt = tokio::runtime::Builder::new_multi_thread()
        .worker_threads(2)
        .enable_all()
        .build()
        .unwrap();
    let xedge = Arc::clone(xedge);
    rt.block_on(async move {
        tokio::task::spawn_blocking(move || {
            let store = xedge.lock().unwrap();
            let overlay = OverlayReader::new(
                &*main,
                "estate",
                store.reader(),
                others,
                cross_edge_kinds,
                CrossBudget::default(),
            );
            let mut hits = 0usize;
            for p in CORPUS {
                let gold = doc_id(p.doc_uuid).0;
                let neighbors = overlay
                    .neighbors(&code_id(p.code), Direction::Dependents, &mut Vec::new())
                    .unwrap();
                if neighbors.iter().any(|e| e.source.0 == gold) {
                    hits += 1;
                }
            }
            hits as f64 / CORPUS.len() as f64
        })
        .await
        .unwrap()
    })
}

#[test]
fn cross_engine_recall_is_nonzero_on_zero_overlap_corpus() {
    let (_dir, main, xedge, scope) = build_corpus();

    let cross_off = cross_engine_recall_at_k(Arc::clone(&main), scope.clone(), &xedge, vec![]);
    let cross_on = cross_engine_recall_at_k(
        Arc::clone(&main),
        scope.clone(),
        &xedge,
        vec!["about".to_string()],
    );

    assert_eq!(
        cross_off, 0.0,
        "cross-OFF baseline must be 0 — the gold docs live ONLY in `scope`, unreachable without the overlay"
    );
    assert!(
        cross_on > 0.0,
        "cross-ON recall must be > 0 — the about-arm surfaces the grounding doc from the code seed"
    );
    // Strong form: with one about row per pair, recall is perfect.
    assert_eq!(cross_on, 1.0, "every code seed resolves its gold doc (4/4)");
    assert!(
        cross_on >= cross_off + 0.5,
        "the differentiator lift (cross_on - cross_off) clears the bench margin M=0.5"
    );
}

#[test]
fn recall_lift_vanishes_when_xedge_rows_absent() {
    let (_dir, main, _full_xedge, scope) = build_corpus();
    // An EMPTY xedge overlay (no about rows) — same engines, no bridge.
    let empty_xedge = shared(XedgeStore::in_memory().unwrap());
    let cross_on_no_rows =
        cross_engine_recall_at_k(main, scope, &empty_xedge, vec!["about".to_string()]);
    assert_eq!(
        cross_on_no_rows, 0.0,
        "with NO xedge about rows the lift must vanish — proves the lift is sourced from xedge, not co-residence"
    );
}

#[test]
fn overlay_traverse_multi_matches_union_of_traverse() {
    let (_dir, main, xedge, scope) = build_corpus();
    let others = pools(vec![("memory", scope)]);

    let rt = tokio::runtime::Builder::new_multi_thread()
        .worker_threads(2)
        .enable_all()
        .build()
        .unwrap();
    rt.block_on(async move {
        tokio::task::spawn_blocking(move || {
            let store = xedge.lock().unwrap();
            let overlay = OverlayReader::new(
                &*main,
                "estate",
                store.reader(),
                others,
                vec!["about".to_string()],
                CrossBudget::default(),
            );
            let seeds = [code_id("charge_card"), code_id("rotate_keys")];
            let mut spec = TraversalSpec::blast_radius(2);
            spec.direction = CoreDirection::Both;

            let multi = overlay
                .traverse_multi(&seeds, &spec, &mut Vec::new())
                .unwrap();

            // Reference: union of single-seed traverse over the same overlay.
            let mut union_nodes = std::collections::BTreeSet::new();
            for s in &seeds {
                for n in overlay.traverse(s, &spec, &mut Vec::new()).unwrap().nodes {
                    union_nodes.insert(n.symbol.0);
                }
            }
            let multi_nodes: std::collections::BTreeSet<String> =
                multi.nodes.iter().map(|n| n.symbol.0.clone()).collect();

            assert_eq!(
                multi_nodes, union_nodes,
                "overlay traverse_multi node set must equal the union of single-seed traverse"
            );
            // The fold pulled the two gold docs across the boundary (one per seed).
            assert!(multi_nodes.contains(&doc_id("k-001").0));
            assert!(multi_nodes.contains(&doc_id("k-002").0));
        })
        .await
        .unwrap();
    });
}

#[test]
fn stale_epoch_about_edge_is_dropped_fail_closed() {
    let (_dir, main, _xedge, scope) = build_corpus();
    let mut stale = XedgeStore::in_memory().unwrap();
    // Stamp the target (estate) endpoint with a NON-matching epoch (7) — MemStore live gen is 0.
    stale
        .put_edge(&XEdge::about(
            doc_id("k-001").0,
            code_id("charge_card").0,
            7,
        ))
        .unwrap();

    let recall = cross_engine_recall_at_k(main, scope, &shared(stale), vec!["about".to_string()]);
    assert_eq!(
        recall, 0.0,
        "a stale-epoch about edge (row gen=7, live gen=0) must be dropped fail-closed — never resolves"
    );
}
