//! The graph values that the overlay reads and hands out: nodes, edges, and the subgraph of a
//! traversal. What the overlay decides on is held in plain fields; the rest of a stored node or
//! edge is carried along as the record it came in.

use crate::error::Error;
use vstd::prelude::*;
use wicked_estate_core::Confidence;
use wicked_estate_core::Edge as EdgeRecord;
use wicked_estate_core::EdgeKind as RecordKind;
use wicked_estate_core::Node as NodeRecord;
use wicked_estate_core::ResolutionTier;

verus! {

/// A confidence score between zero and one, carried as an opaque value.
#[verifier::external_type_specification]
#[verifier::external_body]
pub struct ExConfidence(Confidence);

/// A stored edge, carried as an opaque value.
#[verifier::external_type_specification]
#[verifier::external_body]
pub struct ExEdgeRecord(EdgeRecord);

/// A stored node, carried as an opaque value.
#[verifier::external_type_specification]
#[verifier::external_body]
pub struct ExNodeRecord(NodeRecord);

/// The stable identity of a symbol, in its text form.
#[derive(Debug, PartialEq, Eq)]
pub struct SymbolId(pub String);

impl Clone for SymbolId {
    fn clone(&self) -> (out: Self)
        ensures
            out == *self,
    {
        SymbolId(self.0.clone())
    }
}

impl View for SymbolId {
    type V = Seq<char>;

    open spec fn view(&self) -> Seq<char> {
        self.0@
    }
}

impl SymbolId {
    /// The text form.
    pub fn as_str(&self) -> (text: &str)
        ensures
            text@ == self@,
    {
        self.0.as_str()
    }

    /// Whether both are the same identity.
    pub fn equals(&self, other: &SymbolId) -> (same: bool)
        ensures
            same == (self@ == other@),
    {
        self.0 == other.0
    }
}

/// Which end of an edge a query is anchored on.
#[derive(Debug, Clone, Copy, PartialEq, Eq, Structural)]
pub enum Direction {
    /// Edges that point at the node: what depends on it.
    Dependents,
    /// Edges that leave the node: what it depends on.
    Dependencies,
    /// Both of these.
    Both,
}

/// The kinds of relationship that every engine knows.
#[derive(Debug, Clone, Copy, PartialEq, Eq, Structural)]
pub enum BuiltinKind {
    Contains,
    Defines,
    Calls,
    Imports,
    References,
    Instantiates,
    Implements,
    Extends,
    Overrides,
    HasType,
    Returns,
    Governs,
    Evaluates,
    Produces,
    InvokedBy,
}

/// The kind of a relationship.
#[derive(Debug, PartialEq, Eq)]
pub enum EdgeKind {
    /// One of the kinds that every engine knows.
    Builtin(BuiltinKind),
    /// Any other kind, by name.
    Other(String),
}

/// The model of an `EdgeKind`.
pub enum EdgeKindView {
    Builtin(BuiltinKind),
    Other(Seq<char>),
}

impl View for EdgeKind {
    type V = EdgeKindView;

    open spec fn view(&self) -> EdgeKindView {
        match self {
            EdgeKind::Builtin(kind) => EdgeKindView::Builtin(*kind),
            EdgeKind::Other(name) => EdgeKindView::Other(name@),
        }
    }
}

/// How an edge was produced.
#[derive(Debug, PartialEq, Eq)]
pub enum Provenance {
    Parsed,
    Tags,
    ImportMap,
    Heuristic,
    Tsg,
    Scip,
    Lsp,
    /// A synthesizer, by name.
    Synthesizer(String),
    /// A drop-in extractor, by name.
    Extractor(String),
}

/// The model of a `Provenance`.
pub enum ProvenanceView {
    Parsed,
    Tags,
    ImportMap,
    Heuristic,
    Tsg,
    Scip,
    Lsp,
    Synthesizer(Seq<char>),
    Extractor(Seq<char>),
}

impl View for Provenance {
    type V = ProvenanceView;

    open spec fn view(&self) -> ProvenanceView {
        match self {
            Provenance::Parsed => ProvenanceView::Parsed,
            Provenance::Tags => ProvenanceView::Tags,
            Provenance::ImportMap => ProvenanceView::ImportMap,
            Provenance::Heuristic => ProvenanceView::Heuristic,
            Provenance::Tsg => ProvenanceView::Tsg,
            Provenance::Scip => ProvenanceView::Scip,
            Provenance::Lsp => ProvenanceView::Lsp,
            Provenance::Synthesizer(name) => ProvenanceView::Synthesizer(name@),
            Provenance::Extractor(name) => ProvenanceView::Extractor(name@),
        }
    }
}

/// What identifies a relationship: its two ends and its kind.
pub struct Relationship {
    pub source: Seq<char>,
    pub target: Seq<char>,
    pub kind: EdgeKindView,
}

/// A directed edge. The source is the dependent, the target is the dependency.
#[derive(Debug, PartialEq)]
pub struct Edge {
    pub source: SymbolId,
    pub target: SymbolId,
    pub kind: EdgeKind,
    pub confidence: Confidence,
    pub provenance: Provenance,
    /// Which resolver produced the edge.
    pub resolved_by: String,
    /// The stored edge this one was read from, with its location and metadata. An edge that was
    /// built from a cross-edge row has neither, and no record.
    pub origin: Option<EdgeRecord>,
}

/// The model of an `Edge`.
#[verifier::ext_equal]
pub struct EdgeView {
    pub source: Seq<char>,
    pub target: Seq<char>,
    pub kind: EdgeKindView,
    pub confidence: Confidence,
    pub provenance: ProvenanceView,
    pub resolved_by: Seq<char>,
    pub origin: Option<EdgeRecord>,
}

impl View for Edge {
    type V = EdgeView;

    open spec fn view(&self) -> EdgeView {
        EdgeView {
            source: self.source@,
            target: self.target@,
            kind: self.kind@,
            confidence: self.confidence,
            provenance: self.provenance@,
            resolved_by: self.resolved_by@,
            origin: self.origin,
        }
    }
}

/// The text that stands for an edge kind in `wicked_estate_core::Edge::dedup_key`.
pub uninterp spec fn kind_key(kind: EdgeKindView) -> Seq<char>;

/// Calls `wicked_estate_core::Edge::dedup_key` on an edge with these ends and this kind.
///
/// Claimed: the first two parts of the key are the ends as they are, the third depends on the kind
/// alone, and no two kinds share it. (It is the kind's JSON form: a distinct name for each of the
/// fixed kinds, an object that holds the escaped name for any other.)
#[verifier::external_body]
fn record_dedup_key(source: &str, target: &str, kind: &EdgeKind) -> (key: (String, String, String))
    ensures
        key.0@ == source@,
        key.1@ == target@,
        key.2@ == kind_key(kind@),
        forall|other: EdgeKindView| #[trigger] kind_key(other) == key.2@ ==> other == kind@,
{
    let kind = match kind {
        EdgeKind::Builtin(kind) => match kind {
            BuiltinKind::Contains => RecordKind::Contains, BuiltinKind::Defines => RecordKind::Defines,
            BuiltinKind::Calls => RecordKind::Calls, BuiltinKind::Imports => RecordKind::Imports,
            BuiltinKind::References => RecordKind::References, BuiltinKind::Instantiates => RecordKind::Instantiates,
            BuiltinKind::Implements => RecordKind::Implements, BuiltinKind::Extends => RecordKind::Extends,
            BuiltinKind::Overrides => RecordKind::Overrides, BuiltinKind::HasType => RecordKind::HasType,
            BuiltinKind::Returns => RecordKind::Returns, BuiltinKind::Governs => RecordKind::Governs,
            BuiltinKind::Evaluates => RecordKind::Evaluates, BuiltinKind::Produces => RecordKind::Produces,
            BuiltinKind::InvokedBy => RecordKind::InvokedBy,
        },
        EdgeKind::Other(name) => RecordKind::Other(name.clone()),
    };
    EdgeRecord::new(source.into(), target.into(), kind, ResolutionTier::Parsed, "").dedup_key()
}

impl Edge {
    /// The relationship the edge states.
    pub open spec fn relationship(self) -> Relationship {
        Relationship { source: self.source@, target: self.target@, kind: self.kind@ }
    }

    /// The text form of the relationship, by which edges are deduplicated.
    pub fn dedup_key(&self) -> (key: (String, String, String))
        ensures
            key.0@ == self.source@,
            key.1@ == self.target@,
            key.2@ == kind_key(self.kind@),
            forall|other: EdgeKindView|
                #[trigger] kind_key(other) == key.2@ ==> other == self.kind@,
    {
        record_dedup_key(self.source.as_str(), self.target.as_str(), &self.kind)
    }
}

/// A node of the graph.
#[derive(Debug, PartialEq)]
pub struct Node {
    pub symbol: SymbolId,
    /// The stored node.
    pub record: NodeRecord,
}

/// Distances from the start of a traversal, by symbol. No symbol occurs twice.
#[derive(Debug, PartialEq, Eq)]
pub struct Depths {
    entries: Vec<(String, u32)>,
}

spec fn entry_map(entries: Seq<(String, u32)>) -> Map<Seq<char>, u32>
    decreases entries.len(),
{
    if entries.len() == 0 {
        Map::empty()
    } else {
        entry_map(entries.drop_last()).insert(entries.last().0@, entries.last().1)
    }
}

spec fn keys_distinct(entries: Seq<(String, u32)>) -> bool {
    forall|i: int, j: int|
        0 <= i < j < entries.len() ==> (#[trigger] entries[i]).0@ != (#[trigger] entries[j]).0@
}

proof fn lemma_entry_map(entries: Seq<(String, u32)>)
    requires
        keys_distinct(entries),
    ensures
        forall|i: int|
            0 <= i < entries.len() ==> {
                &&& entry_map(entries).contains_key((#[trigger] entries[i]).0@)
                &&& entry_map(entries)[entries[i].0@] == entries[i].1
            },
        forall|k: Seq<char>|
            #[trigger] entry_map(entries).contains_key(k) ==> exists|i: int|
                0 <= i < entries.len() && (#[trigger] entries[i]).0@ == k,
    decreases entries.len(),
{
    if entries.len() > 0 {
        let rest = entries.drop_last();
        lemma_entry_map(rest);
        assert forall|i: int| 0 <= i < entries.len() implies {
            &&& entry_map(entries).contains_key((#[trigger] entries[i]).0@)
            &&& entry_map(entries)[entries[i].0@] == entries[i].1
        } by {
            if i < rest.len() {
                assert(rest[i] == entries[i]);
            }
        }
        assert forall|k: Seq<char>| #[trigger] entry_map(entries).contains_key(k) implies exists|
            i: int,
        | 0 <= i < entries.len() && (#[trigger] entries[i]).0@ == k by {
            if k == entries.last().0@ {
                assert(entries[entries.len() - 1].0@ == k);
            } else {
                assert(entry_map(rest).contains_key(k));
                let i = choose|i: int| 0 <= i < rest.len() && (#[trigger] rest[i]).0@ == k;
                assert(entries[i] == rest[i]);
            }
        }
    }
}

impl View for Depths {
    type V = Map<Seq<char>, u32>;

    closed spec fn view(&self) -> Map<Seq<char>, u32> {
        entry_map(self.entries@)
    }
}

impl Depths {
    #[verifier::type_invariant]
    spec fn no_symbol_twice(self) -> bool {
        keys_distinct(self.entries@)
    }

    /// No distances.
    pub fn new() -> (out: Self)
        ensures
            out@ == Map::<Seq<char>, u32>::empty(),
    {
        Depths { entries: Vec::new() }
    }

    fn position(&self, symbol: &str) -> (out: Option<usize>)
        ensures
            match out {
                Some(i) => i < self.entries@.len() && self.entries@[i as int].0@ == symbol@,
                None => forall|i: int|
                    0 <= i < self.entries@.len() ==> (#[trigger] self.entries@[i]).0@ != symbol@,
            },
    {
        let wanted: String = symbol.to_string();
        let mut i: usize = 0;
        while i < self.entries.len()
            invariant
                i <= self.entries@.len(),
                wanted@ == symbol@,
                forall|j: int| 0 <= j < i ==> (#[trigger] self.entries@[j]).0@ != symbol@,
            decreases self.entries@.len() - i,
        {
            if self.entries[i].0 == wanted {
                return Some(i);
            }
            i += 1;
        }
        None
    }

    /// The distance of `symbol`, if it has one.
    pub fn get(&self, symbol: &str) -> (out: Option<u32>)
        ensures
            out == self@.get(symbol@),
    {
        proof {
            use_type_invariant(self);
            lemma_entry_map(self.entries@);
        }
        match self.position(symbol) {
            Some(i) => {
                assert(self@.contains_key(self.entries@[i as int].0@));
                Some(self.entries[i].1)
            },
            None => {
                assert(!self@.contains_key(symbol@));
                None
            },
        }
    }

    /// Sets the distance of `symbol`, in place of the one it may have.
    pub fn set(&mut self, symbol: String, depth: u32)
        ensures
            final(self)@ == old(self)@.insert(symbol@, depth),
    {
        proof {
            use_type_invariant(&*self);
            lemma_entry_map(self.entries@);
        }
        let found: Option<usize> = self.position(symbol.as_str());
        let mut entries: Vec<(String, u32)> = Vec::new();
        std::mem::swap(&mut entries, &mut self.entries);
        let ghost before = entries@;
        match found {
            Some(i) => {
                let key: String = entries[i].0.clone();
                entries[i] = (key, depth);
                proof {
                    assert(keys_distinct(entries@));
                    lemma_entry_map(entries@);
                    let after = entry_map(entries@);
                    let want = entry_map(before).insert(symbol@, depth);
                    assert forall|k: Seq<char>| #[trigger]
                        after.dom().contains(k) == want.dom().contains(k) by {
                        lemma_same_entries(before, entries@, i as int, k);
                    }
                    assert forall|k: Seq<char>| #[trigger]
                        after.dom().contains(k) implies after[k] == want[k] by {
                        lemma_same_entries(before, entries@, i as int, k);
                    }
                    assert(after =~= want);
                }
            },
            None => {
                let ghost name = symbol@;
                entries.push((symbol, depth));
                proof {
                    assert(entries@.drop_last() =~= before);
                    assert(keys_distinct(entries@));
                }
            },
        }
        self.entries = entries;
    }

    /// The entries, in no particular order.
    pub fn entries(&self) -> (out: &Vec<(String, u32)>)
        ensures
            forall|i: int|
                0 <= i < out@.len() ==> self@.contains_key((#[trigger] out@[i]).0@)
                    && self@[out@[i].0@] == out@[i].1,
            forall|k: Seq<char>|
                #[trigger] self@.contains_key(k) ==> exists|i: int|
                    0 <= i < out@.len() && (#[trigger] out@[i]).0@ == k,
            forall|i: int, j: int|
                0 <= i < j < out@.len() ==> (#[trigger] out@[i]).0@ != (#[trigger] out@[j]).0@,
    {
        proof {
            use_type_invariant(self);
            lemma_entry_map(self.entries@);
        }
        &self.entries
    }
}

proof fn lemma_same_entries(a: Seq<(String, u32)>, b: Seq<(String, u32)>, i: int, k: Seq<char>)
    requires
        keys_distinct(a),
        keys_distinct(b),
        a.len() == b.len(),
        0 <= i < a.len(),
        a[i].0@ == b[i].0@,
        forall|j: int| 0 <= j < a.len() && j != i ==> #[trigger] a[j] == b[j],
    ensures
        entry_map(b).contains_key(k) == entry_map(a).insert(b[i].0@, b[i].1).contains_key(k),
        entry_map(b).contains_key(k) ==> entry_map(b)[k] == entry_map(a).insert(b[i].0@, b[i].1)[k],
{
    lemma_entry_map(a);
    lemma_entry_map(b);
    if entry_map(b).contains_key(k) {
        let j = choose|j: int| 0 <= j < b.len() && (#[trigger] b[j]).0@ == k;
        assert(a[j].0@ == k);
    }
    if entry_map(a).contains_key(k) {
        let j = choose|j: int| 0 <= j < a.len() && (#[trigger] a[j]).0@ == k;
        assert(b[j].0@ == k);
    }
}

/// What a traversal reached.
#[derive(Debug, PartialEq)]
pub struct Subgraph {
    pub nodes: Vec<Node>,
    pub edges: Vec<Edge>,
    /// Distance from the start, by symbol.
    pub depths: Depths,
    /// Whether a cap cut the result short.
    pub truncated: bool,
}

/// The model of a `Subgraph`.
#[verifier::ext_equal]
pub struct SubgraphView {
    pub nodes: Seq<Node>,
    pub edges: Seq<Edge>,
    pub depths: Map<Seq<char>, u32>,
    pub truncated: bool,
}

impl View for Subgraph {
    type V = SubgraphView;

    open spec fn view(&self) -> SubgraphView {
        SubgraphView {
            nodes: self.nodes@,
            edges: self.edges@,
            depths: self.depths@,
            truncated: self.truncated,
        }
    }
}

impl SubgraphView {
    /// Whether a node with this symbol is in the subgraph.
    pub open spec fn has_node(self, symbol: Seq<char>) -> bool {
        exists|i: int| 0 <= i < self.nodes.len() && (#[trigger] self.nodes[i]).symbol@ == symbol
    }

    /// Whether an edge that states this relationship is in the subgraph.
    pub open spec fn has_relationship(self, r: Relationship) -> bool {
        exists|i: int| 0 <= i < self.edges.len() && (#[trigger] self.edges[i]).relationship() == r
    }

    /// The distance of a node: zero for one that has none on record, as a start has.
    pub open spec fn depth_of(self, symbol: Seq<char>) -> u32 {
        if self.depths.contains_key(symbol) {
            self.depths[symbol]
        } else {
            0
        }
    }

    /// Distances with `symbol` at `depth`, or nearer if it was nearer.
    pub open spec fn depths_with(self, symbol: Seq<char>, depth: u32) -> Map<Seq<char>, u32> {
        if self.depths.contains_key(symbol) && self.depths[symbol] < depth {
            self.depths
        } else {
            self.depths.insert(symbol, depth)
        }
    }

    /// The subgraph with `edge` added, and with the node at its far end one step beyond `depth`,
    /// if that node was found and is not in the subgraph yet. `None` where no such step is left.
    pub open spec fn with_edge(self, depth: u32, edge: Edge, far: Option<Node>) -> Option<Self> {
        match far {
            Some(node) if !self.has_node(node.symbol@) => if depth == u32::MAX {
                None
            } else {
                Some(
                    SubgraphView {
                        nodes: self.nodes.push(node),
                        edges: self.edges.push(edge),
                        depths: self.depths_with(node.symbol@, (depth + 1) as u32),
                        truncated: self.truncated,
                    },
                )
            },
            _ => Some(SubgraphView { edges: self.edges.push(edge), ..self }),
        }
    }
}

impl Subgraph {
    /// Whether a node with this symbol is in the subgraph.
    pub fn has_node(&self, symbol: &SymbolId) -> (found: bool)
        ensures
            found == self@.has_node(symbol@),
    {
        let mut i: usize = 0;
        while i < self.nodes.len()
            invariant
                i <= self.nodes@.len(),
                forall|j: int| 0 <= j < i ==> (#[trigger] self.nodes@[j]).symbol@ != symbol@,
            decreases self.nodes@.len() - i,
        {
            if self.nodes[i].symbol.equals(symbol) {
                assert(self@.nodes[i as int].symbol@ == symbol@);
                return true;
            }
            i += 1;
        }
        false
    }

    /// Adds a cross-store edge, and the node at its far end one step beyond `depth` unless it is
    /// missing or already there. Fails, and changes nothing, where no such step is left.
    pub fn fold_edge(&mut self, depth: u32, edge: Edge, far: Option<Node>) -> (out: Result<
        (),
        Error,
    >)
        ensures
            match old(self)@.with_edge(depth, edge, far) {
                Some(next) => out is Ok && final(self)@ == next,
                None => out == Err::<(), Error>(Error::DepthOverflow) && final(self)@ == old(
                    self,
                )@,
            },
    {
        match far {
            Some(node) => {
                if !self.has_node(&node.symbol) {
                    if depth == u32::MAX {
                        return Err(Error::DepthOverflow);
                    }
                    let step: u32 = depth + 1;
                    let nearer: bool = match self.depths.get(node.symbol.as_str()) {
                        Some(known) => known < step,
                        None => false,
                    };
                    if !nearer {
                        self.depths.set(node.symbol.0.clone(), step);
                    }
                    self.nodes.push(node);
                }
            },
            None => {},
        }
        self.edges.push(edge);
        Ok(())
    }
}

/// Two edges state the same relationship exactly if they have the same ends and the same kind.
/// Nothing else of an edge matters for that.
pub proof fn law_relationship_is_ends_and_kind(a: Edge, b: Edge)
    ensures
        a.relationship() == b.relationship() <==> {
            &&& a.source.0@ == b.source.0@
            &&& a.target.0@ == b.target.0@
            &&& match (a.kind, b.kind) {
                (EdgeKind::Builtin(x), EdgeKind::Builtin(y)) => x == y,
                (EdgeKind::Other(x), EdgeKind::Other(y)) => x@ == y@,
                _ => false,
            }
        },
{
}

/// The distance of a symbol is the one on record, or zero where none is.
pub proof fn law_distance_is_the_one_on_record(sub: SubgraphView, symbol: Seq<char>)
    ensures
        sub.depths.contains_key(symbol) ==> sub.depth_of(symbol) == sub.depths[symbol],
        !sub.depths.contains_key(symbol) ==> sub.depth_of(symbol) == 0,
{
}

/// Adding an edge adds it behind the others, with the node at its far end behind the others if that
/// was found and has a new symbol. A new node stands one step beyond, or at the distance on record
/// for it if that is less; every other distance, and whether the subgraph is cut short, stays. It
/// cannot be done only where a new node would have to stand beyond the largest distance.
pub proof fn law_edge_is_added_behind(
    sub: SubgraphView,
    depth: u32,
    edge: Edge,
    far: Option<Node>,
)
    ensures
        ({
            let new = far is Some && forall|i: int|
                0 <= i < sub.nodes.len() ==> (#[trigger] sub.nodes[i]).symbol.0@
                    != far->Some_0.symbol.0@;
            let symbol = far->Some_0.symbol.0@;
            match sub.with_edge(depth, edge, far) {
                None => new && depth == u32::MAX,
                Some(next) => {
                    &&& !(new && depth == u32::MAX)
                    &&& next.edges == sub.edges.push(edge)
                    &&& next.truncated == sub.truncated
                    &&& !new ==> next.nodes == sub.nodes && next.depths == sub.depths
                    &&& new ==> {
                        &&& next.nodes == sub.nodes.push(far->Some_0)
                        &&& next.depths == sub.depths.insert(
                            symbol,
                            if sub.depths.contains_key(symbol) && sub.depths[symbol] <= depth {
                                sub.depths[symbol]
                            } else {
                                (depth + 1) as u32
                            },
                        )
                    }
                },
            }
        }),
{
    if far is Some {
        let symbol = far->Some_0.symbol@;
        if sub.depths.contains_key(symbol) {
            assert(sub.depths.insert(symbol, sub.depths[symbol]) =~= sub.depths);
        }
    }
}

} // verus!
