//! What the formatter is given: a graph and how it was written down.
use crate::graph::{graph_all_triples, graph_triples, lists_exactly};
use crate::term::{RdfTriple, Subject};
use vstd::prelude::*;

verus! {

/// A parsed document.
pub struct Input {
    /// The base IRI, if any.
    pub base: Option<String>,
    /// Prefix and namespace of each declared prefix, ordered by prefix.
    pub prefixes: Vec<(String, String)>,
    /// The subjects in the order in which they first appear.
    pub subjects_in_order: Vec<Subject>,
    /// The blank nodes that are objects, in the order in which they first
    /// appear as such.
    pub bn_objects_input_order: Vec<String>,
    /// The triples.
    pub graph: oxrdf::Graph,
}

impl Input {
    /// The subject of every triple of the graph, once per triple.
    #[must_use]
    pub fn extract_subjects(&self) -> (r: Vec<Subject>)
        ensures
            exists|listed: Seq<RdfTriple>|
                lists_exactly(listed, graph_triples(self.graph)) && r.len() == listed.len()
                    && forall|i: int| 0 <= i < r.len() ==> (#[trigger] r[i])@ == listed[i].subject@,
    {
        let listed = graph_all_triples(&self.graph);
        let mut subjects: Vec<Subject> = Vec::new();
        let mut i: usize = 0;
        while i < listed.len()
            invariant
                i <= listed.len(),
                subjects.len() == i,
                forall|j: int| 0 <= j < i ==> (#[trigger] subjects[j])@ == listed[j].subject@,
            decreases listed.len() - i,
        {
            subjects.push(listed[i].subject.clone());
            i += 1;
        }
        assert(lists_exactly(listed@, graph_triples(self.graph)));
        subjects
    }
}

} // verus!
