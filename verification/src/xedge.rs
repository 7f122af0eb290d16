//! Cross-edges: directed, epoch-stamped relationships between symbols of two engines.
//!
//! `(source engine, source id @ epoch) --rel--> (target engine, target id @ epoch)`. The source is
//! the dependent and the target the dependency, so "memory M is about code C" is the row
//! `(memory, M) --about--> (estate, C)`, and M is among the dependents of C.

use crate::graph::{
    Edge, EdgeKind, EdgeKindView, EdgeView, Provenance, ProvenanceView, Relationship, SymbolId,
};
use crate::sql::{is_negative_zero, is_real, whole, whole_value, Score};
use rusqlite::types::{FromSql, Value};
use vstd::prelude::*;
use wicked_estate_core::Confidence;

verus! {

/// The version of the database schema.
pub const XEDGE_SCHEMA_VERSION: i64 = 1;

/// The epoch of every endpoint outside the estate engine. Their ids are never used again, so they
/// never go stale.
pub const MEMORY_EPOCH: u64 = 0;

/// The engine tag of the code graph, the one engine whose ids can be used again.
pub const ESTATE_ENGINE: &'static str = "estate";

/// The engine tag of the memory engine.
pub const MEMORY_ENGINE: &'static str = "memory";

/// The relationship name of an `about` edge.
pub const ABOUT: &'static str = "about";

/// The provenance of an `about` edge.
pub const CAPTURE_ABOUT: &'static str = "capture_about";

/// One end of a cross-edge: an id within an engine, stamped with the epoch it had at write time.
#[derive(Debug, PartialEq, Eq)]
pub struct Endpoint {
    /// The engine that owns the id.
    pub engine: String,
    /// The id within that engine.
    pub stable_id: String,
    /// The epoch of the id when the edge was written.
    pub epoch: u64,
}

impl Clone for Endpoint {
    fn clone(&self) -> (out: Self)
        ensures
            out == *self,
    {
        Endpoint {
            engine: self.engine.clone(),
            stable_id: self.stable_id.clone(),
            epoch: self.epoch,
        }
    }
}

impl Endpoint {
    /// An endpoint with these parts.
    pub fn new<E: Into<String>, I: Into<String>>(engine: E, stable_id: I, epoch: u64) -> (out: Self)
        ensures
            call_ensures(<E as Into<String>>::into, (engine,), out.engine),
            call_ensures(<I as Into<String>>::into, (stable_id,), out.stable_id),
            out.epoch == epoch,
    {
        Endpoint { engine: engine.into(), stable_id: stable_id.into(), epoch }
    }
}

/// A cross-store edge.
#[derive(Debug, PartialEq)]
pub struct XEdge {
    pub source: Endpoint,
    pub target: Endpoint,
    /// The relationship name, such as `about`, `mentions` or `governs`.
    pub rel: String,
    /// How sure the edge is. A graph edge has the number moved between zero and one.
    pub confidence: Score,
    /// Who produced the edge.
    pub provenance: String,
}

impl Clone for XEdge {
    fn clone(&self) -> (out: Self)
        ensures
            out == *self,
    {
        XEdge {
            source: self.source.clone(),
            target: self.target.clone(),
            rel: self.rel.clone(),
            confidence: self.confidence.clone(),
            provenance: self.provenance.clone(),
        }
    }
}

/// The confidence that `wicked_estate_core::Confidence::new` makes of a real number.
pub uninterp spec fn confidence_of(value: Value) -> Confidence;

/// Calls `wicked_estate_core::Confidence::new` on a real number, which
/// `rusqlite::types::FromSql::column_result` takes out of its value.
///
/// Claimed: the result depends on the number alone. (It is the number in single precision, moved
/// to the nearer of zero and one where it lies outside them.)
#[verifier::external_body]
fn clamped(value: &Value) -> (out: Confidence)
    requires
        is_real(*value),
    ensures
        out == confidence_of(*value),
{
    Confidence::new(FromSql::column_result(value.into()).unwrap_or_default())
}

impl XEdge {
    /// An `about` edge: memory `mem_id` is about the estate symbol `code_id`, as of `code_epoch`,
    /// with full confidence.
    pub fn about<M: Into<String>, C: Into<String>>(mem_id: M, code_id: C, code_epoch: u64) -> (out:
        Self)
        ensures
            call_ensures(<M as Into<String>>::into, (mem_id,), out.source.stable_id),
            call_ensures(<C as Into<String>>::into, (code_id,), out.target.stable_id),
            out.is_about(out.source.stable_id@, out.target.stable_id@, code_epoch),
            out.source.engine@ == "memory"@,
            out.source.epoch == 0,
            out.target.engine@ == "estate"@,
            out.target.epoch == code_epoch,
            out.rel@ == "about"@,
            out.provenance@ == "capture_about"@,
            out.confidence@ == whole(1),
            !is_negative_zero(out.confidence@),
            out.provenance@ == CAPTURE_ABOUT@,
    {
        XEdge {
            source: Endpoint::new(MEMORY_ENGINE, mem_id, MEMORY_EPOCH),
            target: Endpoint::new(ESTATE_ENGINE, code_id, code_epoch),
            rel: ABOUT.to_string(),
            confidence: Score::of_real(whole_value(1)),
            provenance: CAPTURE_ABOUT.to_string(),
        }
    }

    /// Whether both edges say the same: the same ends, stamps, relationship, confidence and
    /// producer.
    pub open spec fn same_as(self, other: XEdge) -> bool {
        &&& self.source.engine@ == other.source.engine@
        &&& self.source.stable_id@ == other.source.stable_id@
        &&& self.source.epoch == other.source.epoch
        &&& self.target.engine@ == other.target.engine@
        &&& self.target.stable_id@ == other.target.stable_id@
        &&& self.target.epoch == other.target.epoch
        &&& self.rel@ == other.rel@
        &&& self.confidence@ == other.confidence@
        &&& self.provenance@ == other.provenance@
    }

    /// The edge as the database keeps it: as it is, except that a confidence of negative zero is
    /// kept as zero.
    pub open spec fn kept(self) -> XEdge {
        XEdge { confidence: self.confidence.kept(), ..self }
    }

    /// Whether this is an `about` edge: memory `mem_id` is about the estate symbol `code_id`, as of
    /// `code_epoch`.
    pub open spec fn is_about(
        self,
        mem_id: Seq<char>,
        code_id: Seq<char>,
        code_epoch: u64,
    ) -> bool {
        &&& self.source.engine@ == MEMORY_ENGINE@
        &&& self.source.stable_id@ == mem_id
        &&& self.source.epoch == MEMORY_EPOCH
        &&& self.target.engine@ == ESTATE_ENGINE@
        &&& self.target.stable_id@ == code_id
        &&& self.target.epoch == code_epoch
        &&& self.rel@ == ABOUT@
    }

    /// The relationship that the cross-edge states.
    pub open spec fn relationship(self) -> Relationship {
        Relationship {
            source: self.source.stable_id@,
            target: self.target.stable_id@,
            kind: EdgeKindView::Other(self.rel@),
        }
    }

    /// How the cross-edge appears in the graph.
    pub open spec fn shown(self) -> EdgeView {
        EdgeView {
            source: self.source.stable_id@,
            target: self.target.stable_id@,
            kind: EdgeKindView::Other(self.rel@),
            confidence: confidence_of(self.confidence@),
            provenance: ProvenanceView::Synthesizer(self.provenance@),
            resolved_by: "xedge:"@ + self.rel@,
            origin: None,
        }
    }

    /// Whether `edge` is how this cross-edge appears in the graph.
    pub open spec fn appears_as(self, edge: Edge) -> bool {
        edge@ == self.shown()
    }

    /// The cross-edge as a graph edge. The relationship name becomes the kind, the producer a
    /// synthesizer provenance, and the resolver is `xedge:` and the relationship name.
    pub fn to_core_edge(&self) -> (out: Edge)
        ensures
            self.appears_as(out),
            out.source@ == self.source.stable_id@,
            out.target@ == self.target.stable_id@,
            out.kind@ == EdgeKindView::Other(self.rel@),
            out.confidence == confidence_of(self.confidence@),
            out.provenance@ == ProvenanceView::Synthesizer(self.provenance@),
            out.resolved_by@ == "xedge:"@ + self.rel@,
            out.origin is None,
    {
        let mut resolved_by: String = "xedge:".to_string();
        resolved_by.append(self.rel.as_str());
        Edge {
            source: SymbolId(self.source.stable_id.clone()),
            target: SymbolId(self.target.stable_id.clone()),
            kind: EdgeKind::Other(self.rel.clone()),
            confidence: clamped(self.confidence.value()),
            provenance: Provenance::Synthesizer(self.provenance.clone()),
            resolved_by,
            origin: None,
        }
    }
}

/// A graph edge carries its cross-edge over: the two ids, the relationship name as its kind, the
/// confidence moved between zero and one, the producer as a synthesizer, and the resolver that
/// names the relationship. It was read from no stored edge. This holds whatever the relationship
/// is.
pub proof fn law_graph_edge_carries_the_cross_edge(row: XEdge, edge: Edge)
    requires
        row.appears_as(edge),
    ensures
        edge.source.0@ == row.source.stable_id@,
        edge.target.0@ == row.target.stable_id@,
        edge.kind matches EdgeKind::Other(name) && name@ == row.rel@,
        edge.confidence == confidence_of(row.confidence@),
        edge.provenance matches Provenance::Synthesizer(name) && name@ == row.provenance@,
        edge.resolved_by@ == "xedge:"@ + row.rel@,
        edge.origin is None,
        row.relationship() == edge.relationship(),
        row.relationship().source == row.source.stable_id@,
        row.relationship().target == row.target.stable_id@,
        row.relationship().kind == EdgeKindView::Other(row.rel@),
{
}

} // verus!
