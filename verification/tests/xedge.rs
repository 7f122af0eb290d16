//! The cross-edge store.

use rusqlite::types::Value;
use std::sync::{Arc, Mutex};
use wicked_overlay::sql::{select_statement, EndpointSide};
use wicked_overlay::store::{count_reply, done_reply, edges_reply, version_reply};
use wicked_overlay::{
    EdgeKind, Endpoint, Error, Provenance, Score, SymbolId, XEdge, XedgeStore, MEMORY_EPOCH,
    XEDGE_SCHEMA_VERSION,
};

fn score(number: f64) -> Score {
    Score::new(Value::Real(number)).unwrap()
}

fn number(score: &Score) -> f64 {
    match score.value() {
        Value::Real(number) => *number,
        other => panic!("{other:?}"),
    }
}

#[test]
fn schema_version_stamped_day_one() {
    let store = XedgeStore::in_memory().unwrap();
    assert_eq!(store.schema_version().unwrap(), XEDGE_SCHEMA_VERSION);
}

#[test]
fn put_edge_in_edges_roundtrip_to_core_edge() {
    let mut store = XedgeStore::in_memory().unwrap();
    let e = XEdge::about("mem-uuid-1", "estate-code-1", 3);
    store.put_edge(&e).unwrap();

    let reader = store.reader();
    let got = reader
        .in_edges("estate", "estate-code-1", &["about"])
        .unwrap();
    assert_eq!(got.len(), 1, "exactly one about edge targets the code id");
    assert_eq!(got[0], e);
    assert_eq!(got[0].target.epoch, 3, "estate endpoint epoch round-trips");
    assert_eq!(
        got[0].source.epoch, MEMORY_EPOCH,
        "memory endpoint is epoch 0"
    );

    let ce = got[0].to_core_edge();
    assert_eq!(ce.source, SymbolId("mem-uuid-1".into()));
    assert_eq!(ce.target, SymbolId("estate-code-1".into()));
    assert_eq!(ce.kind, EdgeKind::Other("about".into()));
    assert_eq!(ce.confidence.get(), 1.0);
    assert_eq!(ce.resolved_by, "xedge:about");
    assert!(matches!(ce.provenance, Provenance::Synthesizer(_)));
}

#[test]
fn in_edges_filters_by_rel_and_endpoint() {
    let mut store = XedgeStore::in_memory().unwrap();
    store.put_edge(&XEdge::about("m1", "c1", 0)).unwrap();
    store
        .put_edge(&XEdge {
            source: Endpoint::new("memory", "m2", 0),
            target: Endpoint::new("estate", "c1", 0),
            rel: "mentions".into(),
            confidence: score(0.5),
            provenance: "t".into(),
        })
        .unwrap();
    let reader = store.reader();

    // rel filter: only the about edge.
    let only_about = reader.in_edges("estate", "c1", &["about"]).unwrap();
    assert_eq!(only_about.len(), 1);
    assert_eq!(only_about[0].rel, "about");

    // empty rels = any rel: both edges.
    let any = reader.in_edges("estate", "c1", &[]).unwrap();
    assert_eq!(any.len(), 2);

    // wrong endpoint: none.
    let none = reader.in_edges("estate", "c-other", &["about"]).unwrap();
    assert!(none.is_empty());

    // out_edges from the memory source side.
    let out = reader.out_edges("memory", "m1", &["about"]).unwrap();
    assert_eq!(out.len(), 1);
    assert_eq!(out[0].target.stable_id, "c1");
}

#[test]
fn epoch_is_part_of_the_key() {
    let mut store = XedgeStore::in_memory().unwrap();
    store.put_edge(&XEdge::about("m1", "c1", 0)).unwrap();
    store.put_edge(&XEdge::about("m1", "c1", 1)).unwrap();
    assert_eq!(
        store.len().unwrap(),
        2,
        "different tgt_epoch => distinct rows"
    );
}

/// A reader that shares the store with its writer.
struct SharedReader(Arc<Mutex<XedgeStore>>);

impl SharedReader {
    fn in_edges(&self, engine: &str, id: &str, rels: &[&str]) -> Vec<XEdge> {
        let store = self.0.lock().unwrap();
        let found = store.reader().in_edges(engine, id, rels);
        found.unwrap()
    }
}

/// A reader that was minted before a write sees the write, as does one that was minted after it.
#[test]
fn reader_shares_the_store_database() {
    let store = Arc::new(Mutex::new(XedgeStore::in_memory().unwrap()));
    let reader = SharedReader(Arc::clone(&store)); // minted BEFORE the write
    assert!(reader.in_edges("estate", "c1", &["about"]).is_empty());
    let e = XEdge::about("m1", "c1", 0);
    store.lock().unwrap().put_edge(&e).unwrap();
    let got = reader.in_edges("estate", "c1", &["about"]);
    assert_eq!(got.len(), 1, "reader sees writes through the shared Arc");
    let later = SharedReader(store); // minted AFTER it
    assert_eq!(later.in_edges("estate", "c1", &["about"]), vec![e]);
}

// ── round trips ──────────────────────────────────────────────────────────────

fn edge(source: Endpoint, target: Endpoint, rel: &str, confidence: f64, by: &str) -> XEdge {
    XEdge {
        source,
        target,
        rel: rel.into(),
        confidence: score(confidence),
        provenance: by.into(),
    }
}

#[test]
fn every_part_of_an_edge_survives_the_database() {
    let mut store = XedgeStore::in_memory().unwrap();
    let e = edge(
        Endpoint::new("knowledge", "doc \"1\"; ünïcode", u64::MAX),
        Endpoint::new(String::from("estate"), String::from("code'1"), 1u64 << 63),
        "governs",
        0.25,
        "subscriber-9",
    );
    store.put_edge(&e).unwrap();
    let from_target = store.reader().in_edges("estate", "code'1", &[]).unwrap();
    assert_eq!(from_target, vec![e.clone()]);
    let from_source = store
        .reader()
        .out_edges("knowledge", "doc \"1\"; ünïcode", &["governs"])
        .unwrap();
    assert_eq!(from_source, vec![e]);
}

#[test]
fn a_second_put_with_the_same_key_replaces_the_first() {
    let mut store = XedgeStore::in_memory().unwrap();
    assert!(store.is_empty().unwrap());
    assert_eq!(store.len().unwrap(), 0);
    let ends = || (Endpoint::new("memory", "m", 0), Endpoint::new("estate", "c", 4));
    store
        .put_edge(&edge(ends().0, ends().1, "about", 0.5, "first"))
        .unwrap();
    store
        .put_edge(&edge(ends().0, ends().1, "about", 0.75, "second"))
        .unwrap();
    assert_eq!(store.len().unwrap(), 1);
    assert!(!store.is_empty().unwrap());
    let got = store.reader().in_edges("estate", "c", &["about"]).unwrap();
    assert_eq!(got.len(), 1);
    assert_eq!(number(&got[0].confidence), 0.75);
    assert_eq!(got[0].provenance, "second");
}

#[test]
fn puts_that_differ_in_any_part_of_the_key_keep_apart() {
    let mut store = XedgeStore::in_memory().unwrap();
    let put = |store: &mut XedgeStore, se: &str, si: &str, sg, te: &str, ti: &str, tg, rel: &str| {
        let e = edge(Endpoint::new(se, si, sg), Endpoint::new(te, ti, tg), rel, 1.0, "p");
        store.put_edge(&e).unwrap();
    };
    put(&mut store, "memory", "m", 0, "estate", "c", 0, "about");
    put(&mut store, "knowledge", "m", 0, "estate", "c", 0, "about");
    put(&mut store, "memory", "m2", 0, "estate", "c", 0, "about");
    put(&mut store, "memory", "m", 1, "estate", "c", 0, "about");
    put(&mut store, "memory", "m", 0, "memory", "c", 0, "about");
    put(&mut store, "memory", "m", 0, "estate", "c2", 0, "about");
    put(&mut store, "memory", "m", 0, "estate", "c", 1, "about");
    put(&mut store, "memory", "m", 0, "estate", "c", 0, "mentions");
    assert_eq!(store.len().unwrap(), 8);
}

#[test]
fn an_edge_stays_until_its_key_is_written_again() {
    let mut store = XedgeStore::in_memory().unwrap();
    let e = XEdge::about("m", "c", u64::MAX);
    store.put_edge(&e).unwrap();
    store.put_edge(&XEdge::about("m", "c", 0)).unwrap();
    store.put_edge(&XEdge::about("m2", "c", u64::MAX)).unwrap();
    let bad = edge(e.source.clone(), e.target.clone(), "about", f64::NAN, "p");
    assert!(store.put_edge(&bad).is_err());
    for side in [EndpointSide::Target, EndpointSide::Source] {
        let (engine, id) = match side {
            EndpointSide::Target => ("estate", "c"),
            EndpointSide::Source => ("memory", "m"),
        };
        let found = store.reader().query_by_endpoint(side, engine, id, &["about"]).unwrap();
        assert!(found.contains(&e));
    }
}

#[test]
fn a_store_has_its_tables_from_the_start() {
    let dir = tempfile::tempdir().unwrap();
    let path = file_in(&dir);
    let _store = XedgeStore::open(&path).unwrap();
    let conn = rusqlite::Connection::open(&path).unwrap();
    for name in ["meta", "xedges", "idx_xedges_tgt", "idx_xedges_src"] {
        let found: i64 = conn
            .query_row("SELECT COUNT(*) FROM sqlite_master WHERE name = ?1", [name], |r| r.get(0))
            .unwrap();
        assert_eq!(found, 1, "{name}");
    }
}

#[test]
fn naming_relationships_narrows_the_answer() {
    let mut store = XedgeStore::in_memory().unwrap();
    for rel in ["about", "mentions", "governs"] {
        let e = edge(Endpoint::new("memory", "m", 0), Endpoint::new("estate", "c", 0), rel, 1.0, "p");
        store.put_edge(&e).unwrap();
    }
    let rels = |names: &[&str]| {
        let mut found: Vec<String> = store
            .reader()
            .in_edges("estate", "c", names)
            .unwrap()
            .into_iter()
            .map(|e| e.rel)
            .collect();
        found.sort();
        found
    };
    assert_eq!(rels(&[]), ["about", "governs", "mentions"]);
    assert_eq!(rels(&["governs", "about"]), ["about", "governs"]);
    assert_eq!(rels(&["nothing"]), Vec::<String>::new());
    assert_eq!(rels(&["about", "about"]), ["about"]);
    assert_eq!(rels(&["about", "governs"]), rels(&["governs", "about", "governs"]));
    // The answer to two lists together is the union of the two.
    assert_eq!(rels(&["mentions"]), ["mentions"]);
    assert_eq!(rels(&["about", "governs", "mentions"]), rels(&[]));
}

#[test]
fn an_about_edge_has_these_parts() {
    let e = XEdge::about(String::from("m"), "c", 9);
    assert_eq!(e.source, Endpoint::new("memory", "m", 0));
    assert_eq!(e.target, Endpoint::new("estate", "c", 9));
    assert_eq!(e.rel, "about");
    assert_eq!(number(&e.confidence), 1.0);
    assert_eq!(e.provenance, "capture_about");
    let shown = e.to_core_edge();
    assert_eq!(shown.provenance, Provenance::Synthesizer("capture_about".into()));
    assert!(shown.origin.is_none());
}

#[test]
fn a_score_is_a_real_number() {
    assert_eq!(Score::new(Value::Integer(1)), None);
    assert_eq!(Score::new(Value::Null), None);
    assert_eq!(Score::new(Value::Text("0.5".into())), None);
    assert_eq!(Score::new(Value::Real(0.5)), Some(score(0.5)));
    assert_ne!(score(0.5), score(0.25));
    assert_eq!(*score(0.5).clone().value(), Value::Real(0.5));
}

#[test]
fn a_score_comes_back_as_it_was_and_is_shown_between_zero_and_one() {
    for (written, shown) in [
        (2.5, 1.0),
        (-1.0, 0.0),
        (0.0, 0.0),
        (1.0, 1.0),
        (0.1, 0.1f32),
        (f64::INFINITY, 1.0),
        (1e300, 1.0),
    ] {
        let mut store = XedgeStore::in_memory().unwrap();
        let e = edge(Endpoint::new("memory", "m", 0), Endpoint::new("estate", "c", 0), "about", written, "p");
        store.put_edge(&e).unwrap();
        let got = store.reader().in_edges("estate", "c", &["about"]).unwrap();
        assert_eq!(got, vec![e]);
        assert_eq!(number(&got[0].confidence).to_bits(), written.to_bits());
        assert_eq!(got[0].to_core_edge().confidence.get(), shown);
    }
}

#[test]
fn a_score_of_negative_zero_comes_back_as_zero() {
    let mut store = XedgeStore::in_memory().unwrap();
    let e = edge(Endpoint::new("memory", "m", 0), Endpoint::new("estate", "c", 0), "about", -0.0, "p");
    assert!(number(&e.confidence).is_sign_negative());
    store.put_edge(&e).unwrap();
    let got = store.reader().in_edges("estate", "c", &["about"]).unwrap();
    assert_eq!(got, vec![e]);
    assert!(number(&got[0].confidence).is_sign_positive());
}

#[test]
fn a_score_that_another_program_wrote_is_read_as_it_is() {
    let dir = tempfile::tempdir().unwrap();
    let path = file_in(&dir);
    let mut store = XedgeStore::open(&path).unwrap();
    store.put_edge(&XEdge::about("m", "c", 0)).unwrap();
    rusqlite::Connection::open(&path)
        .unwrap()
        .execute("UPDATE xedges SET confidence = 2.5", [])
        .unwrap();
    let got = store.reader().in_edges("estate", "c", &["about"]).unwrap();
    assert_eq!(number(&got[0].confidence), 2.5);
    assert_eq!(got[0].to_core_edge().confidence.get(), 1.0);
}

// ── files ────────────────────────────────────────────────────────────────────

fn file_in(dir: &tempfile::TempDir) -> String {
    dir.path().join("xedge.db").to_str().unwrap().to_string()
}

#[test]
fn a_file_store_keeps_its_edges() {
    let dir = tempfile::tempdir().unwrap();
    let path = file_in(&dir);
    let e = XEdge::about("m", "c", 2);
    {
        let mut store = XedgeStore::open(&path).unwrap();
        assert!(store.is_empty().unwrap());
        store.put_edge(&e).unwrap();
    }
    let store = XedgeStore::open(&path).unwrap();
    assert_eq!(store.schema_version().unwrap(), XEDGE_SCHEMA_VERSION);
    assert_eq!(store.len().unwrap(), 1);
    assert_eq!(store.reader().in_edges("estate", "c", &["about"]).unwrap(), vec![e]);
}

#[test]
fn two_paths_are_two_stores() {
    let dir = tempfile::tempdir().unwrap();
    let path = file_in(&dir);
    let other = dir.path().join("other.db");
    let mut store = XedgeStore::open(&path).unwrap();
    store.put_edge(&XEdge::about("m", "c", 0)).unwrap();
    let empty = XedgeStore::open(other.to_str().unwrap()).unwrap();
    assert!(other.exists());
    assert!(empty.is_empty().unwrap());
    assert_eq!(XedgeStore::open(&path).unwrap().len().unwrap(), 1);
}

#[test]
fn a_version_on_record_is_not_overwritten() {
    let dir = tempfile::tempdir().unwrap();
    let path = file_in(&dir);
    drop(XedgeStore::open(&path).unwrap());
    let set = |value: &str| {
        let conn = rusqlite::Connection::open(&path).unwrap();
        conn.execute("UPDATE meta SET value = ?1", [value]).unwrap();
    };
    set("41");
    assert_eq!(XedgeStore::open(&path).unwrap().schema_version().unwrap(), 41);
    set("not a number");
    assert_eq!(XedgeStore::open(&path).unwrap().schema_version().unwrap(), 0);
}

#[test]
fn a_missing_version_reads_as_zero() {
    let dir = tempfile::tempdir().unwrap();
    let path = file_in(&dir);
    let store = XedgeStore::open(&path).unwrap();
    rusqlite::Connection::open(&path)
        .unwrap()
        .execute("DELETE FROM meta", [])
        .unwrap();
    assert_eq!(store.schema_version().unwrap(), 0);
}

// ── failures ─────────────────────────────────────────────────────────────────

fn message<T>(out: Result<T, Error>) -> String {
    match out {
        Err(Error::Invalid(text)) => text,
        Err(e) => panic!("another error: {e:?}"),
        Ok(_) => panic!("no error"),
    }
}

#[test]
fn a_path_that_cannot_be_opened_is_reported() {
    let dir = tempfile::tempdir().unwrap();
    let path = dir.path().join("missing").join("xedge.db");
    let text = message(XedgeStore::open(path.to_str().unwrap()));
    assert!(text.starts_with("xedge: "), "{text}");
    assert!(text.contains("unable to open database file"), "{text}");
}

#[test]
fn a_put_that_fails_is_reported_and_leaves_no_row() {
    let mut store = XedgeStore::in_memory().unwrap();
    let e = edge(Endpoint::new("memory", "m", 0), Endpoint::new("estate", "c", 0), "about", f64::NAN, "p");
    let text = message(store.put_edge(&e));
    assert_eq!(text, "xedge: NOT NULL constraint failed: xedges.confidence");
    assert!(store.is_empty().unwrap());
}

#[test]
fn reads_of_a_broken_database_are_reported() {
    let dir = tempfile::tempdir().unwrap();
    let path = file_in(&dir);
    let store = XedgeStore::open(&path).unwrap();
    rusqlite::Connection::open(&path)
        .unwrap()
        .execute_batch("DROP TABLE xedges; DROP TABLE meta;")
        .unwrap();
    assert!(message(store.len()).starts_with("xedge: no such table: xedges"));
    assert!(message(store.is_empty()).starts_with("xedge: no such table: xedges"));
    assert!(message(store.schema_version()).starts_with("xedge: no such table: meta"));
    let found = store.reader().in_edges("estate", "c", &["about"]);
    assert!(message(found).starts_with("xedge: no such table: xedges"));
    let found = store.reader().out_edges("estate", "c", &[]);
    assert!(message(found).starts_with("xedge: no such table: xedges"));
}

// ── replies ──────────────────────────────────────────────────────────────────

fn failure() -> rusqlite::Error {
    rusqlite::Error::InvalidQuery
}

#[test]
fn replies_are_read_as_stated() {
    assert!(done_reply(Ok(1)).is_ok());
    assert_eq!(message(done_reply(Err(failure()))), "xedge: Query is not read-only");

    assert_eq!(version_reply(Ok(Some("12".into()))).unwrap(), 12);
    assert_eq!(version_reply(Ok(Some("-3".into()))).unwrap(), -3);
    assert_eq!(version_reply(Ok(Some("12a".into()))).unwrap(), 0);
    assert_eq!(version_reply(Ok(None)).unwrap(), 0);
    assert_eq!(message(version_reply(Err(failure()))), "xedge: Query is not read-only");

    assert_eq!(count_reply(Ok(7)).unwrap(), 7);
    assert_eq!(message(count_reply(Err(failure()))), "xedge: Query is not read-only");

    let e = XEdge::about("m", "c", u64::MAX);
    assert_eq!(e.to_row().tgt_epoch, -1);
    assert_eq!(edges_reply(Ok(vec![e.to_row()])).unwrap(), vec![e]);
    assert_eq!(message(edges_reply(Err(failure()))), "xedge: Query is not read-only");
}

#[test]
fn select_statements_have_this_text() {
    let columns = "SELECT src_engine, src_id, src_epoch, tgt_engine, tgt_id,
    tgt_epoch, rel, confidence, provenance
FROM xedges WHERE ";
    assert_eq!(
        select_statement(EndpointSide::Target, 0),
        format!("{columns}tgt_engine = ?1 AND tgt_id = ?2")
    );
    assert_eq!(
        select_statement(EndpointSide::Source, 1),
        format!("{columns}src_engine = ?1 AND src_id = ?2 AND rel IN (?3)")
    );
    assert_eq!(
        select_statement(EndpointSide::Target, 3),
        format!("{columns}tgt_engine = ?1 AND tgt_id = ?2 AND rel IN (?3, ?4, ?5)")
    );
}
