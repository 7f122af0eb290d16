//! The engines that the overlay reads: the home engine that it wraps, and the foreign engines that
//! it reaches across the store boundary.

use crate::error::Error;
use crate::graph::{Direction, Edge, Node, Subgraph, SymbolId};
use vstd::prelude::*;
use wicked_estate_core::annotation::Annotation;
use wicked_estate_core::change::Change;
use wicked_estate_core::history::HistoricalEdge;
use wicked_estate_core::query::GraphStats;
use wicked_estate_core::refs::UnresolvedRef;
use wicked_estate_core::repo::RepoInfo;
use wicked_estate_core::semantics::NodeSemantics;
use wicked_estate_core::{Edge as EdgeRecord, Node as NodeRecord, SymbolQuery, TraversalSpec};

verus! {

/// A symbol search, handed to the home engine as it is.
#[verifier::external_type_specification]
#[verifier::external_body]
pub struct ExSymbolQuery(SymbolQuery);

/// The bounds of a traversal, handed to the home engine as they are.
#[verifier::external_type_specification]
#[verifier::external_body]
pub struct ExTraversalSpec(TraversalSpec);

/// An unresolved reference, handed back as it is.
#[verifier::external_type_specification]
#[verifier::external_body]
pub struct ExUnresolvedRef(UnresolvedRef);

/// Repository provenance, handed back as it is.
#[verifier::external_type_specification]
#[verifier::external_body]
pub struct ExRepoInfo(RepoInfo);

/// An edge of an earlier file version, handed back as it is.
#[verifier::external_type_specification]
#[verifier::external_body]
pub struct ExHistoricalEdge(HistoricalEdge);

/// An entry of the change log, handed back as it is.
#[verifier::external_type_specification]
#[verifier::external_body]
pub struct ExChange(Change);

/// The semantics of a node, handed back as they are.
#[verifier::external_type_specification]
#[verifier::external_body]
pub struct ExNodeSemantics(NodeSemantics);

/// An annotation, handed back as it is.
#[verifier::external_type_specification]
#[verifier::external_body]
pub struct ExAnnotation(Annotation);

/// Counts over a graph, handed back as they are.
#[verifier::external_type_specification]
#[verifier::external_body]
pub struct ExGraphStats(GraphStats);

/// What an engine does natively.
#[derive(Debug, Clone, Copy, PartialEq, Eq, Structural)]
pub struct StoreCapabilities {
    pub full_text_search: bool,
    pub vector_search: bool,
    /// Whether a traversal runs inside the engine.
    pub server_side_traversal: bool,
    pub transactional_batch: bool,
    pub shared_writers: bool,
}

/// The engine that an overlay wraps. Nothing is taken for granted of its replies: the same question
/// may be answered differently from one call to the next.
pub trait HomeEngine {
    fn capabilities(&self) -> StoreCapabilities;

    fn get_node(&self, id: &SymbolId) -> Result<Option<Node>, Error>;

    fn find_symbols(&self, query: &SymbolQuery) -> Result<Vec<NodeRecord>, Error>;

    fn neighbors(&self, id: &SymbolId, dir: Direction) -> Result<Vec<Edge>, Error>;

    fn traverse_multi(&self, starts: &[SymbolId], spec: &TraversalSpec) -> Result<Subgraph, Error>;

    fn all_nodes(&self) -> Result<Vec<NodeRecord>, Error>;

    fn all_edges(&self) -> Result<Vec<EdgeRecord>, Error>;

    fn unresolved_refs_for_name(&self, name: &str) -> Result<Vec<UnresolvedRef>, Error>;

    fn file_digest(&self, file: &str) -> Result<Option<String>, Error>;

    fn file_git_sha(&self, file: &str) -> Result<Option<String>, Error>;

    fn repo_info(&self) -> Result<Option<RepoInfo>, Error>;

    fn edge_history(&self, file: &str) -> Result<Vec<HistoricalEdge>, Error>;

    fn file_content(&self, file: &str) -> Result<Option<String>, Error>;

    fn symbol_source(&self, node: &NodeRecord) -> Result<Option<String>, Error>;

    fn changes_since(&self, cursor: u64) -> Result<Vec<Change>, Error>;

    fn node_semantics(&self, symbol: &SymbolId) -> Result<Option<NodeSemantics>, Error>;

    fn find_by_requirement(&self, requirement: &str) -> Result<Vec<NodeRecord>, Error>;

    fn annotations(&self, symbol: &SymbolId) -> Result<Vec<Annotation>, Error>;

    fn annotations_by_type(&self, ty: &str) -> Result<Vec<(SymbolId, Annotation)>, Error>;

    fn annotations_stale_since(&self, cutoff: i64) -> Result<Vec<(SymbolId, Annotation)>, Error>;

    /// The current epoch of a live symbol; `None` where no such symbol is live.
    fn symbol_epoch(&self, id: &SymbolId) -> Result<Option<u64>, Error>;

    fn stats(&self) -> Result<GraphStats, Error>;
}

/// A foreign engine. It is read from the thread that holds it, without leaving that thread.
pub trait ForeignEngine: Send + Sync {
    fn get_node_blocking(&self, id: &SymbolId) -> Result<Option<Node>, Error>;

    fn symbol_epoch_blocking(&self, id: &SymbolId) -> Result<Option<u64>, Error>;
}

/// The foreign engine with this tag.
pub open spec fn find_engine<F>(pools: Seq<(Seq<char>, F)>, tag: Seq<char>) -> Option<F>
    decreases pools.len(),
{
    if pools.len() == 0 {
        None
    } else if pools.last().0 == tag {
        Some(pools.last().1)
    } else {
        find_engine(pools.drop_last(), tag)
    }
}

/// Whether no two engines share a tag.
pub open spec fn tags_distinct<F>(pools: Seq<(Seq<char>, F)>) -> bool {
    forall|i: int, j: int|
        0 <= i < j < pools.len() ==> (#[trigger] pools[i]).0 != (#[trigger] pools[j]).0
}

/// An engine is found by its tag: where one has the tag it is that one, and where none has it none
/// is found.
pub proof fn law_engine_is_found_by_its_tag<F>(pools: Seq<(Seq<char>, F)>, tag: Seq<char>)
    requires
        tags_distinct(pools),
    ensures
        forall|i: int|
            0 <= i < pools.len() && (#[trigger] pools[i]).0 == tag ==> find_engine(pools, tag)
                == Some(pools[i].1),
        (forall|i: int| 0 <= i < pools.len() ==> (#[trigger] pools[i]).0 != tag) ==> find_engine(
            pools,
            tag,
        ) is None,
    decreases pools.len(),
{
    if pools.len() > 0 {
        let rest = pools.drop_last();
        assert forall|i: int, j: int| 0 <= i < j < rest.len() implies (#[trigger] rest[i]).0 != (
        #[trigger] rest[j]).0 by {
            assert(rest[i] == pools[i] && rest[j] == pools[j]);
        }
        law_engine_is_found_by_its_tag(rest, tag);
        assert forall|i: int| 0 <= i < pools.len() && (#[trigger] pools[i]).0 == tag implies
            find_engine(pools, tag) == Some(pools[i].1) by {
            if i < rest.len() {
                assert(rest[i] == pools[i]);
                assert(pools[pools.len() - 1].0 != tag);
            }
        }
        if forall|i: int| 0 <= i < pools.len() ==> (#[trigger] pools[i]).0 != tag {
            assert(pools[pools.len() - 1].0 != tag);
            assert forall|i: int| 0 <= i < rest.len() implies (#[trigger] rest[i]).0 != tag by {
                assert(rest[i] == pools[i]);
            }
        }
    }
}

/// The foreign engines of an overlay, by tag. No tag occurs twice.
pub struct ForeignPools<F> {
    entries: Vec<(String, F)>,
}

spec fn tagged<F>(entries: Seq<(String, F)>) -> Seq<(Seq<char>, F)> {
    Seq::new(entries.len(), |i: int| (entries[i].0@, entries[i].1))
}

impl<F> View for ForeignPools<F> {
    type V = Seq<(Seq<char>, F)>;

    closed spec fn view(&self) -> Seq<(Seq<char>, F)> {
        tagged(self.entries@)
    }
}

fn position<F>(entries: &Vec<(String, F)>, tag: &str) -> (out: Option<usize>)
    ensures
        match out {
            Some(i) => i < entries@.len() && entries@[i as int].0@ == tag@,
            None => forall|i: int| 0 <= i < entries@.len() ==> (#[trigger] entries@[i]).0@ != tag@,
        },
{
    let wanted: String = tag.to_string();
    let mut i: usize = 0;
    while i < entries.len()
        invariant
            i <= entries@.len(),
            wanted@ == tag@,
            forall|j: int| 0 <= j < i ==> (#[trigger] entries@[j]).0@ != tag@,
        decreases entries@.len() - i,
    {
        if entries[i].0 == wanted {
            return Some(i);
        }
        i += 1;
    }
    None
}

impl<F> ForeignPools<F> {
    #[verifier::type_invariant]
    spec fn no_tag_twice(self) -> bool {
        tags_distinct(tagged(self.entries@))
    }

    /// No engines.
    pub fn new() -> (out: Self)
        ensures
            out@ == Seq::<(Seq<char>, F)>::empty(),
    {
        let out = ForeignPools { entries: Vec::new() };
        assert(out@ =~= Seq::<(Seq<char>, F)>::empty());
        out
    }

    /// The number of engines.
    pub fn len(&self) -> (out: usize)
        ensures
            out == self@.len(),
    {
        self.entries.len()
    }

    /// The engine at a position.
    pub fn engine(&self, i: usize) -> (out: &F)
        requires
            i < self@.len(),
        ensures
            *out == self@[i as int].1,
    {
        &self.entries[i].1
    }

    /// The engine with this tag, if there is one.
    pub fn get(&self, tag: &str) -> (out: Option<&F>)
        ensures
            match out {
                Some(engine) => find_engine(self@, tag@) == Some(*engine),
                None => find_engine(self@, tag@) is None,
            },
    {
        proof {
            use_type_invariant(self);
            law_engine_is_found_by_its_tag(self@, tag@);
        }
        match position(&self.entries, tag) {
            Some(i) => {
                assert(self@[i as int].0 == tag@);
                Some(&self.entries[i].1)
            },
            None => None,
        }
    }

    /// Adds an engine under `tag`, in place of the one that may be there. The engines keep the
    /// order in which their tags were first used.
    pub fn insert(&mut self, tag: &str, engine: F)
        ensures
            match find_engine(old(self)@, tag@) {
                Some(_) => {
                    &&& final(self)@.len() == old(self)@.len()
                    &&& forall|i: int|
                        0 <= i < old(self)@.len() ==> #[trigger] final(self)@[i] == if old(
                            self,
                        )@[i].0 == tag@ {
                            (tag@, engine)
                        } else {
                            old(self)@[i]
                        }
                },
                None => final(self)@ == old(self)@.push((tag@, engine)),
            },
    {
        proof {
            use_type_invariant(&*self);
            law_engine_is_found_by_its_tag(self@, tag@);
        }
        let ghost before = self@;
        let mut entries: Vec<(String, F)> = Vec::new();
        std::mem::swap(&mut entries, &mut self.entries);
        match position(&entries, tag) {
            Some(i) => {
                assert(before[i as int].0 == tag@);
                entries[i] = (tag.to_string(), engine);
                assert forall|j: int| 0 <= j < before.len() implies (#[trigger] tagged(
                    entries@,
                )[j]).0 == before[j].0 by {}
                assert(tags_distinct(tagged(entries@)));
            },
            None => {
                assert forall|j: int| 0 <= j < before.len() implies (#[trigger] before[j]).0
                    != tag@ by {
                    assert(entries@[j].0@ != tag@);
                }
                let ghost added = (tag@, engine);
                entries.push((tag.to_string(), engine));
                assert(tagged(entries@) =~= before.push(added));
                assert(tags_distinct(tagged(entries@)));
            },
        }
        self.entries = entries;
    }
}

} // verus!
