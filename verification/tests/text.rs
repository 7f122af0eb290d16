//! Decimal text, and the values that keep things by text.

use wicked_overlay::text::{parse_i64, push_decimal, same_text};
use wicked_overlay::{BuiltinKind, Depths, Edge, EdgeKind, Endpoint, ForeignPools, SymbolId, XEdge};

fn decimal(n: u128) -> String {
    let mut out = String::from("<");
    push_decimal(&mut out, n);
    out
}

#[test]
fn numbers_are_written_in_decimal() {
    assert_eq!(decimal(0), "<0");
    assert_eq!(decimal(9), "<9");
    assert_eq!(decimal(10), "<10");
    assert_eq!(decimal(u64::MAX as u128), "<18446744073709551615");
    assert_eq!(decimal(u128::MAX), "<340282366920938463463374607431768211455");
}

#[test]
fn numbers_are_read_as_the_standard_library_reads_them() {
    for text in [
        "", "+", "-", "0", "-0", "+5", "007", "1", "-1", " 1", "1 ", "1_0", "12x", "++1", "１",
        "9223372036854775807", "9223372036854775808", "-9223372036854775808",
        "-9223372036854775809", "99999999999999999999999999999999999999999999",
        "00000000000000000000000000000000000000000000000000000000000001",
    ] {
        assert_eq!(parse_i64(text), text.parse::<i64>().ok(), "{text:?}");
    }
}

#[test]
fn reading_undoes_writing() {
    for n in [0u128, 1, 10, 123_456_789, i64::MAX as u128] {
        let text = decimal(n);
        assert_eq!(parse_i64(&text[1..]), Some(n as i64));
    }
}

#[test]
fn texts_are_the_same_character_by_character() {
    assert!(same_text("estate", "estate"));
    assert!(!same_text("estate", "estates"));
    assert!(!same_text("estate", "Estate"));
}

#[test]
fn a_distance_is_set_in_place() {
    let mut depths = Depths::new();
    assert_eq!(depths.get("a"), None);
    depths.set("a".into(), 3);
    depths.set("b".into(), 1);
    depths.set("a".into(), 2);
    assert_eq!(depths.get("a"), Some(2));
    assert_eq!(depths.get("b"), Some(1));
    assert_eq!(depths.get("c"), None);
    assert_eq!(depths.entries().len(), 2);
}

#[test]
fn engines_are_kept_by_tag() {
    let mut pools: ForeignPools<u32> = ForeignPools::new();
    pools.insert("memory", 1);
    pools.insert("knowledge", 2);
    assert_eq!(pools.len(), 2);
    pools.insert("memory", 3);
    assert_eq!(pools.len(), 2);
    assert_eq!(*pools.engine(0), 3);
    assert_eq!(*pools.engine(1), 2);
    assert_eq!(pools.get("memory"), Some(&3));
    assert_eq!(pools.get("estate"), None);
}

fn shown(kind: EdgeKind) -> Edge {
    let mut edge = XEdge::about("m", "c", 0).to_core_edge();
    edge.kind = kind;
    edge
}

#[test]
fn dedup_keys_have_this_text() {
    let key = |kind| shown(kind).dedup_key();
    let with = |third: &str| ("m".to_string(), "c".to_string(), third.to_string());
    assert_eq!(key(EdgeKind::Other("about".into())), with("{\"other\":\"about\"}"));
    assert_eq!(key(EdgeKind::Other("a\"b".into())), with("{\"other\":\"a\\\"b\"}"));
    assert_eq!(key(EdgeKind::Other("calls".into())), with("{\"other\":\"calls\"}"));
    let builtin = [
        (BuiltinKind::Contains, "\"contains\""),
        (BuiltinKind::Defines, "\"defines\""),
        (BuiltinKind::Calls, "\"calls\""),
        (BuiltinKind::Imports, "\"imports\""),
        (BuiltinKind::References, "\"references\""),
        (BuiltinKind::Instantiates, "\"instantiates\""),
        (BuiltinKind::Implements, "\"implements\""),
        (BuiltinKind::Extends, "\"extends\""),
        (BuiltinKind::Overrides, "\"overrides\""),
        (BuiltinKind::HasType, "\"has_type\""),
        (BuiltinKind::Returns, "\"returns\""),
        (BuiltinKind::Governs, "\"governs\""),
        (BuiltinKind::Evaluates, "\"evaluates\""),
        (BuiltinKind::Produces, "\"produces\""),
        (BuiltinKind::InvokedBy, "\"invoked_by\""),
    ];
    for (kind, text) in builtin {
        assert_eq!(key(EdgeKind::Builtin(kind)), with(text));
    }
}

#[test]
fn symbols_and_ends_compare_by_their_parts() {
    let id = SymbolId("x".into());
    assert!(id.equals(&id.clone()));
    assert!(!id.equals(&SymbolId("y".into())));
    assert_eq!(id.as_str(), "x");
    let end = Endpoint::new("estate", "x", 1);
    assert_eq!(end.clone(), end);
    assert_ne!(Endpoint::new("estate", "x", 2), end);
}
