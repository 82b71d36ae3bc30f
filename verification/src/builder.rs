//! Building the document tree from a classified graph.
//!
//! What a finished tree owes the graph is stated by [`subject_ok`],
//! [`object_ok`] and [`predicates_ok`]: every node stands for a term of the
//! graph, every visible triple of a subject is written exactly once under
//! it, and a blank node is written inline exactly where the classification
//! allows it. The order of the predicates of a subject and of the objects
//! of a predicate is left open; sorting fixes it later.
use crate::ast::{
    is_string_datatype, TBlankNode, TBlankNodeRef, TCollection, TCollectionRef, TLiteralRef, TNamedNode,
    TObject, TPredicateCont, TRoot, TSubject, TSubjectCont, TTriple,
};
use crate::classify::{
    contains_label, evaluate_nestable_and_unreferenced_blank_nodes, has_label, is_duplicated, is_nested,
    is_object_in, is_pinned, is_unreferenced, nested_blank_nodes, without_pinned,
};
use crate::collections::{
    collection_at, contains_triple, extract_non_empty_collections, has_collection, has_triple,
    holds_collections, is_consumed, term_views,
};
use crate::graph::{graph_len, graph_triples, graph_triples_for_subject, lists_exactly, triples_of_subject};
use crate::input::Input;
use crate::naming::named_node_of;
use crate::term::{RdfTerm, RdfTermView, RdfTriple, RdfTripleView, Subject, SubjectView};
use crate::text::str_eq;
use crate::vocab::{RDF_LANG_STRING, RDF_NIL, XSD_STRING};
use vstd::prelude::*;

verus! {

/// What is known of a graph when its tree is built.
pub struct Classes {
    /// The triples of the graph.
    pub graph: Set<RdfTripleView>,
    /// The declared prefixes, each with its namespace.
    pub prefixes: Seq<(String, String)>,
    /// The base IRI.
    pub base: Option<String>,
    /// The elements of each collection, under the label of its head.
    pub collections: Map<Seq<char>, Seq<RdfTermView>>,
    /// The blank nodes that are written inline.
    pub inline: Set<Seq<char>>,
    /// The triples that are written as part of a collection.
    pub consumed: Set<RdfTripleView>,
}

impl Classes {
    /// The triples of the subject that are written under it.
    pub open spec fn visible(self, s: SubjectView) -> Set<RdfTripleView> {
        Set::new(|t: RdfTripleView| self.graph.contains(t) && t.subject == s && !self.consumed.contains(t))
    }

    /// How the IRI is written.
    pub open spec fn name(self, iri: Seq<char>) -> crate::ast::TNamedNodeView {
        named_node_of(self.prefixes, self.base, iri)
    }

    /// The blank node is written as a collection or inline, where there is
    /// fuel left to do so.
    pub open spec fn expands(self, fuel: nat, b: Seq<char>) -> bool {
        fuel > 0 && (self.collections.dom().contains(b) || self.inline.contains(b))
    }
}

/// The node that a subject of the tree stands for.
pub open spec fn subject_term(s: TSubject) -> SubjectView {
    match s {
        TSubject::NamedNode(n) => SubjectView::NamedNode(n@.iri()),
        TSubject::BlankNodeLabel(b) => SubjectView::BlankNode(b.0@),
        TSubject::BlankNodeAnonymous(bn) => SubjectView::BlankNode(bn.node.0@),
        TSubject::Collection(TCollection::WithContent(c)) => SubjectView::BlankNode(c.node.node.0@),
        TSubject::Collection(TCollection::Empty) => SubjectView::NamedNode(RDF_NIL@),
        TSubject::Triple(_) => SubjectView::NamedNode(Seq::empty()),
    }
}

/// The term that an object of the tree stands for.
pub open spec fn object_term(o: TObject) -> RdfTermView
    decreases o,
{
    match o {
        TObject::NamedNode(n) => RdfTermView::NamedNode(n@.iri()),
        TObject::BlankNodeLabel(b) => RdfTermView::BlankNode(b.0@),
        TObject::BlankNodeAnonymous(bn) => RdfTermView::BlankNode(bn.node.0@),
        TObject::Collection(TCollection::WithContent(c)) => RdfTermView::BlankNode(c.node.node.0@),
        TObject::Collection(TCollection::Empty) => RdfTermView::NamedNode(RDF_NIL@),
        TObject::Literal(l) => RdfTermView::Literal(l.0@),
        TObject::Triple(t) => RdfTermView::Triple(Box::new(triple_term(*t))),
    }
}

/// The triple that a quoted triple of the tree stands for.
pub open spec fn triple_term(t: TTriple) -> RdfTripleView
    decreases t,
{
    RdfTripleView { subject: subject_term(t.0), predicate: t.1@.iri(), object: object_term(t.2) }
}

/// The triple that the `j`-th object of a predicate of the subject `s`
/// stands for.
pub open spec fn entry_triple(s: SubjectView, p: TPredicateCont, j: int) -> RdfTripleView {
    RdfTripleView { subject: s, predicate: p.predicate@.iri(), object: object_term(p.objects@[j]) }
}

/// The triple is written under one of the predicates.
pub open spec fn covered(ps: Seq<TPredicateCont>, s: SubjectView, t: RdfTripleView) -> bool {
    exists|k: int, j: int|
        0 <= k < ps.len() && 0 <= j < ps[k].objects.len() && #[trigger] entry_triple(s, ps[k], j) == t
}

/// The literal carries its datatype as it is written, unless it is a plain
/// or a language-tagged string, which carries none.
pub open spec fn literal_ok(c: Classes, l: TLiteralRef) -> bool {
    match l.1 {
        None => is_string_datatype(l.0.datatype@),
        Some(n) => !is_string_datatype(l.0.datatype@) && n@ == c.name(l.0.datatype@),
    }
}

/// The object is as the classification wants it, with all that is nested
/// in it.
pub open spec fn object_ok(c: Classes, fuel: nat, o: TObject) -> bool
    decreases o,
{
    match o {
        TObject::NamedNode(n) => n@ == c.name(n@.iri()) && n@.iri() != RDF_NIL@,
        TObject::BlankNodeLabel(b) => !c.expands(fuel, b.0@),
        TObject::BlankNodeAnonymous(bn) => inline_ok(c, fuel, bn),
        TObject::Collection(TCollection::WithContent(col)) => collection_ok(c, fuel, col),
        TObject::Collection(TCollection::Empty) => true,
        TObject::Literal(l) => literal_ok(c, l),
        TObject::Triple(t) => triple_ok(c, fuel, *t),
    }
}

/// The subject is as the classification wants it, with all that is nested
/// in it.
pub open spec fn subject_ok(c: Classes, fuel: nat, s: TSubject) -> bool
    decreases s,
{
    match s {
        TSubject::NamedNode(n) => n@ == c.name(n@.iri()) && n@.iri() != RDF_NIL@,
        TSubject::BlankNodeLabel(b) => !c.expands(fuel, b.0@),
        TSubject::BlankNodeAnonymous(bn) => inline_ok(c, fuel, bn),
        TSubject::Collection(TCollection::WithContent(col)) => collection_ok(c, fuel, col),
        TSubject::Collection(TCollection::Empty) => true,
        TSubject::Triple(_) => false,
    }
}

/// The quoted triple is as the classification wants it: its nodes are
/// written as nodes are where nothing is nested, blank nodes by their
/// labels.
pub open spec fn triple_ok(c: Classes, fuel: nat, t: TTriple) -> bool
    decreases t,
{
    subject_ok(c, 0, t.0) && t.1@ == c.name(t.1@.iri()) && object_ok(c, 0, t.2)
}

/// The blank node may be written inline, is no collection, and holds its
/// visible triples.
pub open spec fn inline_ok(c: Classes, fuel: nat, bn: TBlankNode) -> bool
    decreases bn,
{
    &&& fuel > 0
    &&& !c.collections.dom().contains(bn.node.0@)
    &&& c.inline.contains(bn.node.0@)
    &&& predicates_ok(c, (fuel - 1) as nat, SubjectView::BlankNode(bn.node.0@), bn.predicates@)
}

/// The collection holds the elements of the chain of its head, in their
/// order, and its head holds the triples that are no part of the chain.
pub open spec fn collection_ok(c: Classes, fuel: nat, col: TCollectionRef) -> bool
    decreases col,
{
    &&& fuel > 0
    &&& c.collections.dom().contains(col.node.node.0@)
    &&& col.rest.len() == c.collections[col.node.node.0@].len()
    &&& forall|i: int|
        0 <= i < col.rest.len() ==> object_term(#[trigger] col.rest@[i]) == c.collections[col.node.node.0@][i]
            && object_ok(c, (fuel - 1) as nat, col.rest@[i])
    &&& predicates_ok(c, (fuel - 1) as nat, SubjectView::BlankNode(col.node.node.0@), col.node.predicates@)
}

/// The predicate of the subject `s` is written as it should be, has
/// objects, and each of them stands for another visible triple of `s`.
pub open spec fn predicate_ok(c: Classes, fuel: nat, s: SubjectView, p: TPredicateCont) -> bool
    decreases p,
{
    &&& p.predicate@ == c.name(p.predicate@.iri())
    &&& p.objects.len() > 0
    &&& forall|j: int|
        0 <= j < p.objects.len() ==> c.visible(s).contains(#[trigger] entry_triple(s, p, j)) && object_ok(
            c,
            fuel,
            p.objects@[j],
        )
    &&& forall|i: int, j: int|
        0 <= i < j < p.objects.len() ==> object_term(#[trigger] p.objects@[i]) != object_term(
            #[trigger] p.objects@[j],
        )
}

/// The predicates hold the visible triples of the subject `s`, each once,
/// grouped by predicate.
pub open spec fn predicates_ok(c: Classes, fuel: nat, s: SubjectView, ps: Seq<TPredicateCont>) -> bool
    decreases ps,
{
    &&& forall|k: int| 0 <= k < ps.len() ==> predicate_ok(c, fuel, s, #[trigger] ps[k])
    &&& forall|i: int, j: int|
        0 <= i < j < ps.len() ==> (#[trigger] ps[i]).predicate@.iri() != (#[trigger] ps[j]).predicate@.iri()
    &&& forall|t: RdfTripleView| #[trigger] c.visible(s).contains(t) ==> covered(ps, s, t)
}

/// The subject with its predicates is as the classification wants it.
pub open spec fn subject_cont_ok(c: Classes, fuel: nat, sc: TSubjectCont) -> bool {
    subject_ok(c, fuel, sc.subject) && predicates_ok(c, fuel, subject_term(sc.subject), sc.predicates@)
}

/// What the construction of tree nodes is given.
pub struct CreationContext<'a> {
    pub input: &'a Input,
    /// The collections: head and elements of each.
    pub non_empty_valid_cols: &'a Vec<(String, Vec<RdfTerm>)>,
    pub nestable_blank_nodes: &'a Vec<String>,
    pub unreferenced_blank_nodes: &'a Vec<String>,
    /// The triples that make up the structure of the collections.
    pub col_involved_triples: &'a Vec<RdfTriple>,
}

/// Where the collection with head `b` stands in the list.
pub open spec fn collection_index(cols: Seq<(String, Vec<RdfTerm>)>, b: Seq<char>) -> int {
    choose|k: int| 0 <= k < cols.len() && (#[trigger] cols[k]).0@ == b
}

impl<'a> CreationContext<'a> {
    /// The classification that the context holds.
    pub open spec fn classes(&self) -> Classes {
        Classes {
            graph: graph_triples(self.input.graph),
            prefixes: self.input.prefixes@,
            base: self.input.base,
            collections: Map::new(
                |b: Seq<char>| has_collection(self.non_empty_valid_cols@, b),
                |b: Seq<char>|
                    term_views(
                        self.non_empty_valid_cols@[collection_index(self.non_empty_valid_cols@, b)].1@,
                    ),
            ),
            inline: Set::new(
                |b: Seq<char>|
                    has_label(self.nestable_blank_nodes@, b) || has_label(self.unreferenced_blank_nodes@, b),
            ),
            consumed: Set::new(|t: RdfTripleView| has_triple(self.col_involved_triples@, t)),
        }
    }

    /// No two collections of the context have the same head.
    pub open spec fn wf(&self) -> bool {
        forall|i: int, j: int|
            0 <= i < j < self.non_empty_valid_cols.len() ==> self.non_empty_valid_cols[i].0@
                != self.non_empty_valid_cols[j].0@
    }
}

/// A blank node written inline, or a collection.
pub enum TBlankNodeOrCollection {
    BlankNode(TBlankNode),
    Collection(TCollectionRef),
}

/// How deep quoted triples are nested in the object position of the term.
pub open spec fn term_depth(t: RdfTerm) -> nat
    decreases t,
{
    match t {
        RdfTerm::Triple(inner) => 1 + term_depth(inner.object),
        _ => 0,
    }
}

/// Where the collection with head `b` stands in the list, if it is there.
fn find_collection(cols: &Vec<(String, Vec<RdfTerm>)>, b: &str) -> (r: Option<usize>)
    ensures
        match r {
            Some(k) => k < cols.len() && cols[k as int].0@ == b@,
            None => !has_collection(cols@, b@),
        },
{
    let mut i: usize = 0;
    while i < cols.len()
        invariant
            i <= cols.len(),
            forall|j: int| 0 <= j < i ==> (#[trigger] cols@[j]).0@ != b@,
        decreases cols.len() - i,
    {
        if str_eq(cols[i].0.as_str(), b) {
            return Some(i);
        }
        i += 1;
    }
    None
}

/// Where the predicate with the IRI stands in the list, if it is there.
fn find_predicate(ps: &Vec<TPredicateCont>, iri: &str) -> (r: Option<usize>)
    ensures
        match r {
            Some(k) => k < ps.len() && ps[k as int].predicate@.iri() == iri@,
            None => forall|k: int| 0 <= k < ps.len() ==> (#[trigger] ps[k]).predicate@.iri() != iri@,
        },
{
    let mut i: usize = 0;
    while i < ps.len()
        invariant
            i <= ps.len(),
            forall|j: int| 0 <= j < i ==> (#[trigger] ps@[j]).predicate@.iri() != iri@,
        decreases ps.len() - i,
    {
        if str_eq(ps[i].predicate.as_named_node_ref().as_str(), iri) {
            return Some(i);
        }
        i += 1;
    }
    None
}

impl TObject {
    /// The object that stands for the term. A blank node is written as a
    /// collection or inline where the context says so and `fuel`, the
    /// number of blank nodes that may still be nested in one another,
    /// is not used up; else by its label.
    pub fn from(ctx: &CreationContext, other: &RdfTerm, fuel: usize) -> (r: TObject)
        requires
            ctx.wf(),
        ensures
            object_term(r) == other@,
            object_ok(ctx.classes(), fuel as nat, r),
        decreases fuel, 0nat, 2 * term_depth(*other) + 1,
    {
        match other {
            RdfTerm::NamedNode(iri) => {
                if str_eq(iri.as_str(), RDF_NIL) {
                    TObject::Collection(TCollection::Empty)
                } else {
                    TObject::NamedNode(TNamedNode::from(&ctx.input.prefixes, &ctx.input.base, iri.as_str()))
                }
            },
            RdfTerm::BlankNode(b) => {
                match blank_node_label_or_collection(ctx, b.as_str(), fuel) {
                    Some(TBlankNodeOrCollection::BlankNode(bn)) => TObject::BlankNodeAnonymous(bn),
                    Some(TBlankNodeOrCollection::Collection(col)) => TObject::Collection(
                        TCollection::WithContent(col),
                    ),
                    None => TObject::BlankNodeLabel(TBlankNodeRef(b.clone())),
                }
            },
            RdfTerm::Literal(l) => {
                let nice = if str_eq(l.datatype.as_str(), XSD_STRING) || str_eq(
                    l.datatype.as_str(),
                    RDF_LANG_STRING,
                ) {
                    None
                } else {
                    Some(TNamedNode::from(&ctx.input.prefixes, &ctx.input.base, l.datatype.as_str()))
                };
                TObject::Literal(TLiteralRef(l.clone(), nice))
            },
            RdfTerm::Triple(t) => TObject::Triple(Box::new(TTriple::from(ctx, t, fuel))),
        }
    }
}

impl TSubject {
    /// The subject that stands for the node. A blank node is written as a
    /// collection or inline where the context says so and `fuel` is not
    /// used up; else by its label.
    pub fn from(ctx: &CreationContext, other: &Subject, fuel: usize) -> (r: TSubject)
        requires
            ctx.wf(),
        ensures
            subject_term(r) == other@,
            subject_ok(ctx.classes(), fuel as nat, r),
        decreases fuel, 0nat, 1nat,
    {
        match other {
            Subject::NamedNode(iri) => {
                if str_eq(iri.as_str(), RDF_NIL) {
                    TSubject::Collection(TCollection::Empty)
                } else {
                    TSubject::NamedNode(TNamedNode::from(&ctx.input.prefixes, &ctx.input.base, iri.as_str()))
                }
            },
            Subject::BlankNode(b) => {
                match blank_node_label_or_collection(ctx, b.as_str(), fuel) {
                    Some(TBlankNodeOrCollection::BlankNode(bn)) => TSubject::BlankNodeAnonymous(bn),
                    Some(TBlankNodeOrCollection::Collection(col)) => TSubject::Collection(
                        TCollection::WithContent(col),
                    ),
                    None => TSubject::BlankNodeLabel(TBlankNodeRef(b.clone())),
                }
            },
        }
    }
}

impl TTriple {
    /// The quoted triple that stands for the triple, its subject and
    /// object made without fuel: in a quoted triple nothing is nested.
    pub fn from(ctx: &CreationContext, other: &RdfTriple, fuel: usize) -> (r: TTriple)
        requires
            ctx.wf(),
        ensures
            triple_term(r) == other@,
            triple_ok(ctx.classes(), fuel as nat, r),
        decreases fuel, 0nat, 2 * term_depth(other.object) + 2,
    {
        TTriple(
            TSubject::from(ctx, &other.subject, 0),
            TNamedNode::from(&ctx.input.prefixes, &ctx.input.base, other.predicate.as_str()),
            TObject::from(ctx, &other.object, 0),
        )
    }
}

/// The blank node as it is written where it is referenced: as a collection
/// if it is the head of one, inline if it may be nested or is referenced
/// nowhere, and else (no result) by its label. Without fuel it is written
/// by its label.
pub fn blank_node_label_or_collection(ctx: &CreationContext, bn: &str, fuel: usize) -> (r: Option<
    TBlankNodeOrCollection,
>)
    requires
        ctx.wf(),
    ensures
        match r {
            Some(TBlankNodeOrCollection::BlankNode(n)) => n.node.0@ == bn@ && inline_ok(
                ctx.classes(),
                fuel as nat,
                n,
            ),
            Some(TBlankNodeOrCollection::Collection(col)) => col.node.node.0@ == bn@ && collection_ok(
                ctx.classes(),
                fuel as nat,
                col,
            ),
            None => !ctx.classes().expands(fuel as nat, bn@),
        },
    decreases fuel, 0nat, 0nat,
{
    if fuel == 0 {
        return None;
    }
    let ghost c = ctx.classes();
    let subject = Subject::BlankNode(bn.to_owned());
    match find_collection(ctx.non_empty_valid_cols, bn) {
        Some(k) => {
            let predicates = create_graph_entry(ctx, &subject, fuel - 1);
            let elems = &ctx.non_empty_valid_cols[k].1;
            proof {
                assert(has_collection(ctx.non_empty_valid_cols@, bn@));
                let k2 = collection_index(ctx.non_empty_valid_cols@, bn@);
                assert(k2 == k) by {
                    if k2 < k {
                        assert(ctx.non_empty_valid_cols[k2].0@ != ctx.non_empty_valid_cols[k as int].0@);
                    } else if k < k2 {
                        assert(ctx.non_empty_valid_cols[k as int].0@ != ctx.non_empty_valid_cols[k2].0@);
                    }
                }
                assert(c.collections.dom().contains(bn@));
                assert(c.collections[bn@] == term_views(elems@));
            }
            let mut rest: Vec<TObject> = Vec::new();
            let mut i: usize = 0;
            while i < elems.len()
                invariant
                    i <= elems.len(),
                    fuel > 0,
                    ctx.wf(),
                    c == ctx.classes(),
                    rest.len() == i,
                    forall|j: int|
                        0 <= j < i ==> object_term(#[trigger] rest@[j]) == elems@[j]@ && object_ok(
                            c,
                            (fuel - 1) as nat,
                            rest@[j],
                        ),
                decreases elems.len() - i,
            {
                let o = TObject::from(ctx, &elems[i], fuel - 1);
                rest.push(o);
                i += 1;
            }
            let col = TCollectionRef {
                node: TBlankNode { node: TBlankNodeRef(bn.to_owned()), predicates },
                rest,
            };
            Some(TBlankNodeOrCollection::Collection(col))
        },
        None => {
            if contains_label(ctx.nestable_blank_nodes, bn) || contains_label(
                ctx.unreferenced_blank_nodes,
                bn,
            ) {
                let predicates = create_graph_entry(ctx, &subject, fuel - 1);
                assert(c.inline.contains(bn@));
                assert(!c.collections.dom().contains(bn@));
                Some(
                    TBlankNodeOrCollection::BlankNode(
                        TBlankNode { node: TBlankNodeRef(bn.to_owned()), predicates },
                    ),
                )
            } else {
                assert(!c.inline.contains(bn@));
                assert(!c.collections.dom().contains(bn@));
                None
            }
        },
    }
}

/// One of the first `n` triples of the list is `t`.
pub open spec fn from_level(level: Seq<RdfTriple>, n: int, t: RdfTripleView) -> bool {
    exists|idx: int| 0 <= idx < n && idx < level.len() && (#[trigger] level[idx])@ == t
}

/// The predicate is as [`predicate_ok`] wants it, with every object taken
/// from the first `n` triples of `level`.
pub open spec fn predicate_part(
    c: Classes,
    fuel: nat,
    s: SubjectView,
    p: TPredicateCont,
    level: Seq<RdfTriple>,
    n: int,
) -> bool {
    &&& p.predicate@ == c.name(p.predicate@.iri())
    &&& p.objects.len() > 0
    &&& forall|j: int|
        0 <= j < p.objects.len() ==> from_level(level, n, #[trigger] entry_triple(s, p, j))
            && !c.consumed.contains(entry_triple(s, p, j)) && object_ok(c, fuel, p.objects@[j])
    &&& forall|i: int, j: int|
        0 <= i < j < p.objects.len() ==> object_term(#[trigger] p.objects@[i]) != object_term(
            #[trigger] p.objects@[j],
        )
}

/// No triple occurs twice in the list.
pub open spec fn no_repeat(level: Seq<RdfTriple>) -> bool {
    forall|i: int, j: int| 0 <= i < j < level.len() ==> level[i]@ != level[j]@
}

/// The predicates hold, grouped by predicate, the triples among the first
/// `n` of `level` that are not consumed.
pub open spec fn predicates_part(
    c: Classes,
    fuel: nat,
    s: SubjectView,
    ps: Seq<TPredicateCont>,
    level: Seq<RdfTriple>,
    n: int,
) -> bool {
    &&& forall|k: int| 0 <= k < ps.len() ==> predicate_part(c, fuel, s, #[trigger] ps[k], level, n)
    &&& forall|i: int, j: int|
        0 <= i < j < ps.len() ==> (#[trigger] ps[i]).predicate@.iri() != (#[trigger] ps[j]).predicate@.iri()
    &&& forall|idx: int|
        0 <= idx < n && idx < level.len() && !c.consumed.contains((#[trigger] level[idx])@) ==> covered(
            ps,
            s,
            level[idx]@,
        )
}

/// The visible triples of the subject, grouped by predicate, each object
/// as it is written, with `fuel` for what is nested in it. The predicates
/// stand in the order in which the graph hands out their first triple.
pub fn create_graph_entry(ctx: &CreationContext, subject: &Subject, fuel: usize) -> (r: Vec<TPredicateCont>)
    requires
        ctx.wf(),
    ensures
        predicates_ok(ctx.classes(), fuel as nat, subject@, r@),
    decreases fuel, 1nat, 0nat,
{
    let ghost c = ctx.classes();
    let ghost s = subject@;
    let level = graph_triples_for_subject(&ctx.input.graph, subject);
    let mut ps: Vec<TPredicateCont> = Vec::new();
    let mut i: usize = 0;
    while i < level.len()
        invariant
            i <= level.len(),
            ctx.wf(),
            c == ctx.classes(),
            s == subject@,
            lists_exactly(level@, triples_of_subject(c.graph, s)),
            predicates_part(c, fuel as nat, s, ps@, level@, i as int),
        decreases level.len() - i,
    {
        let ghost before = ps@;
        let ghost t = level@[i as int]@;
        assert(triples_of_subject(c.graph, s).contains(t));
        if !contains_triple(ctx.col_involved_triples, &level[i]) {
            let o = TObject::from(ctx, &level[i].object, fuel);
            match find_predicate(&ps, level[i].predicate.as_str()) {
                Some(k) => {
                    ps[k].objects.push(o);
                    proof {
                        assert(no_repeat(level@));
                        lemma_object_added(c, fuel as nat, s, before, ps@, level@, i as int, k as int, o);
                    }
                },
                None => {
                    let predicate = TNamedNode::from(
                        &ctx.input.prefixes,
                        &ctx.input.base,
                        level[i].predicate.as_str(),
                    );
                    let mut objects: Vec<TObject> = Vec::new();
                    objects.push(o);
                    let entry = TPredicateCont { predicate, objects };
                    ps.push(entry);
                    proof {
                        lemma_predicate_added(c, fuel as nat, s, before, ps@, level@, i as int, entry);
                    }
                },
            }
        } else {
            proof {
                lemma_triple_skipped(c, fuel as nat, s, ps@, level@, i as int);
            }
        }
        i += 1;
    }
    proof {
        lemma_predicates_done(c, fuel as nat, s, ps@, level@);
    }
    ps
}

proof fn lemma_from_level_grows(level: Seq<RdfTriple>, n: int, t: RdfTripleView)
    requires
        from_level(level, n, t),
    ensures
        from_level(level, n + 1, t),
{
    let idx = choose|idx: int| 0 <= idx < n && idx < level.len() && (#[trigger] level[idx])@ == t;
    assert(0 <= idx < n + 1 && idx < level.len() && level[idx]@ == t);
}

proof fn lemma_triple_skipped(
    c: Classes,
    fuel: nat,
    s: SubjectView,
    ps: Seq<TPredicateCont>,
    level: Seq<RdfTriple>,
    n: int,
)
    requires
        0 <= n < level.len(),
        predicates_part(c, fuel, s, ps, level, n),
        c.consumed.contains(level[n]@),
    ensures
        predicates_part(c, fuel, s, ps, level, n + 1),
{
    assert forall|k: int| 0 <= k < ps.len() implies predicate_part(c, fuel, s, #[trigger] ps[k], level, n + 1) by {
        let p = ps[k];
        assert(predicate_part(c, fuel, s, p, level, n));
        assert forall|j: int| 0 <= j < p.objects.len() implies from_level(
            level,
            n + 1,
            #[trigger] entry_triple(s, p, j),
        ) by {
            lemma_from_level_grows(level, n, entry_triple(s, p, j));
        }
    }
}

proof fn lemma_object_added(
    c: Classes,
    fuel: nat,
    s: SubjectView,
    before: Seq<TPredicateCont>,
    after: Seq<TPredicateCont>,
    level: Seq<RdfTriple>,
    n: int,
    k: int,
    o: TObject,
)
    requires
        0 <= n < level.len(),
        0 <= k < before.len(),
        no_repeat(level),
        predicates_part(c, fuel, s, before, level, n),
        level[n]@.subject == s,
        !c.consumed.contains(level[n]@),
        before[k].predicate@.iri() == level[n]@.predicate,
        object_term(o) == level[n]@.object,
        object_ok(c, fuel, o),
        after.len() == before.len(),
        forall|m: int| 0 <= m < before.len() && m != k ==> after[m] == before[m],
        after[k].predicate == before[k].predicate,
        after[k].objects@ == before[k].objects@.push(o),
    ensures
        predicates_part(c, fuel, s, after, level, n + 1),
{
    let t = level[n]@;
    let last = before[k].objects.len() as int;
    assert forall|m: int| 0 <= m < after.len() implies predicate_part(
        c,
        fuel,
        s,
        #[trigger] after[m],
        level,
        n + 1,
    ) by {
        let p = after[m];
        let q = before[m];
        assert(predicate_part(c, fuel, s, q, level, n));
        assert forall|j: int| 0 <= j < p.objects.len() implies from_level(
            level,
            n + 1,
            #[trigger] entry_triple(s, p, j),
        ) && !c.consumed.contains(entry_triple(s, p, j)) && object_ok(c, fuel, p.objects@[j]) by {
            if m == k && j == last {
                assert(p.objects@[j] == o);
                assert(entry_triple(s, p, j) == t);
                assert(0 <= n < n + 1 && n < level.len() && level[n]@ == t);
            } else {
                assert(p.objects@[j] == q.objects@[j]);
                assert(entry_triple(s, p, j) == entry_triple(s, q, j));
                lemma_from_level_grows(level, n, entry_triple(s, q, j));
            }
        }
        assert forall|i: int, j: int| 0 <= i < j < p.objects.len() implies object_term(
            #[trigger] p.objects@[i],
        ) != object_term(#[trigger] p.objects@[j]) by {
            if m == k && j == last {
                assert(p.objects@[i] == q.objects@[i]);
                assert(p.objects@[j] == o);
                if object_term(q.objects@[i]) == object_term(o) {
                    let e = entry_triple(s, q, i);
                    assert(from_level(level, n, e));
                    let idx = choose|idx: int| 0 <= idx < n && idx < level.len() && (#[trigger] level[idx])@ == e;
                    assert(e == t);
                    assert(level[idx]@ != level[n]@);
                    assert(false);
                }
            } else {
                assert(p.objects@[i] == q.objects@[i]);
                assert(p.objects@[j] == q.objects@[j]);
            }
        }
    }
    assert forall|x: int, y: int| 0 <= x < y < after.len() implies (#[trigger] after[x]).predicate@.iri() != (
    #[trigger] after[y]).predicate@.iri() by {
        assert(before[x].predicate@.iri() != before[y].predicate@.iri());
    }
    assert forall|idx: int|
        0 <= idx < n + 1 && idx < level.len() && !c.consumed.contains((#[trigger] level[idx])@) implies covered(
        after,
        s,
        level[idx]@,
    ) by {
        if idx < n {
            assert(covered(before, s, level[idx]@));
            let (m, j) = choose|m: int, j: int|
                0 <= m < before.len() && 0 <= j < before[m].objects.len() && #[trigger] entry_triple(
                    s,
                    before[m],
                    j,
                ) == level[idx]@;
            assert(after[m].objects@[j] == before[m].objects@[j]);
            assert(entry_triple(s, after[m], j) == level[idx]@);
        } else {
            assert(after[k].objects@[last] == o);
            assert(entry_triple(s, after[k], last) == t);
        }
    }
}

proof fn lemma_predicate_added(
    c: Classes,
    fuel: nat,
    s: SubjectView,
    before: Seq<TPredicateCont>,
    after: Seq<TPredicateCont>,
    level: Seq<RdfTriple>,
    n: int,
    entry: TPredicateCont,
)
    requires
        0 <= n < level.len(),
        predicates_part(c, fuel, s, before, level, n),
        level[n]@.subject == s,
        !c.consumed.contains(level[n]@),
        forall|k: int| 0 <= k < before.len() ==> (#[trigger] before[k]).predicate@.iri() != level[n]@.predicate,
        entry.predicate@ == c.name(level[n]@.predicate),
        entry.predicate@.iri() == level[n]@.predicate,
        entry.objects.len() == 1,
        object_term(entry.objects@[0]) == level[n]@.object,
        object_ok(c, fuel, entry.objects@[0]),
        after == before.push(entry),
    ensures
        predicates_part(c, fuel, s, after, level, n + 1),
{
    let t = level[n]@;
    let last = before.len() as int;
    assert forall|m: int| 0 <= m < after.len() implies predicate_part(
        c,
        fuel,
        s,
        #[trigger] after[m],
        level,
        n + 1,
    ) by {
        let p = after[m];
        if m < last {
            assert(p == before[m]);
            assert(predicate_part(c, fuel, s, p, level, n));
            assert forall|j: int| 0 <= j < p.objects.len() implies from_level(
                level,
                n + 1,
                #[trigger] entry_triple(s, p, j),
            ) by {
                lemma_from_level_grows(level, n, entry_triple(s, p, j));
            }
        } else {
            assert(p == entry);
            assert forall|j: int| 0 <= j < p.objects.len() implies from_level(
                level,
                n + 1,
                #[trigger] entry_triple(s, p, j),
            ) && !c.consumed.contains(entry_triple(s, p, j)) && object_ok(c, fuel, p.objects@[j]) by {
                assert(entry_triple(s, p, j) == t);
                assert(0 <= n < n + 1 && n < level.len() && level[n]@ == t);
            }
        }
    }
    assert forall|x: int, y: int| 0 <= x < y < after.len() implies (#[trigger] after[x]).predicate@.iri() != (
    #[trigger] after[y]).predicate@.iri() by {
        if y < last {
            assert(before[x].predicate@.iri() != before[y].predicate@.iri());
        } else {
            assert(after[x] == before[x]);
        }
    }
    assert forall|idx: int|
        0 <= idx < n + 1 && idx < level.len() && !c.consumed.contains((#[trigger] level[idx])@) implies covered(
        after,
        s,
        level[idx]@,
    ) by {
        if idx < n {
            assert(covered(before, s, level[idx]@));
            let (m, j) = choose|m: int, j: int|
                0 <= m < before.len() && 0 <= j < before[m].objects.len() && #[trigger] entry_triple(
                    s,
                    before[m],
                    j,
                ) == level[idx]@;
            assert(after[m] == before[m]);
            assert(entry_triple(s, after[m], j) == level[idx]@);
        } else {
            assert(after[last] == entry);
            assert(entry_triple(s, after[last], 0) == t);
        }
    }
}

proof fn lemma_predicates_done(
    c: Classes,
    fuel: nat,
    s: SubjectView,
    ps: Seq<TPredicateCont>,
    level: Seq<RdfTriple>,
)
    requires
        predicates_part(c, fuel, s, ps, level, level.len() as int),
        lists_exactly(level, triples_of_subject(c.graph, s)),
    ensures
        predicates_ok(c, fuel, s, ps),
{
    let n = level.len() as int;
    let own = triples_of_subject(c.graph, s);
    assert forall|k: int| 0 <= k < ps.len() implies predicate_ok(c, fuel, s, #[trigger] ps[k]) by {
        let p = ps[k];
        assert(predicate_part(c, fuel, s, p, level, n));
        assert forall|j: int| 0 <= j < p.objects.len() implies c.visible(s).contains(
            #[trigger] entry_triple(s, p, j),
        ) && object_ok(c, fuel, p.objects@[j]) by {
            let t = entry_triple(s, p, j);
            let idx = choose|idx: int| 0 <= idx < n && idx < level.len() && (#[trigger] level[idx])@ == t;
            assert(own.contains(level[idx]@));
        }
    }
    assert forall|t: RdfTripleView| #[trigger] c.visible(s).contains(t) implies covered(ps, s, t) by {
        assert(own.contains(t));
        let idx = choose|idx: int| 0 <= idx < level.len() && (#[trigger] level[idx])@ == t;
        assert(covered(ps, s, level[idx]@));
    }
}

/// How many blank nodes may be nested in one another when the tree of a
/// graph is built: one more than the graph has triples, which is more than
/// any nesting without a circle needs.
pub open spec fn nesting_fuel(g: Set<RdfTripleView>) -> nat {
    if g.len() < usize::MAX {
        g.len() + 1
    } else {
        g.len()
    }
}

/// What the tree of the input is built from.
///
/// With `max_nesting` the collections of the graph are written as such,
/// and the blank nodes that can be nested and are reached from a node with
/// a block of its own, with those of `unreferenced`, are written inline,
/// but for those that stand in a quoted triple, which keep their labels.
/// Without it every blank node is written by its label.
pub open spec fn graph_classes(input: Input, unreferenced: Seq<String>, max_nesting: bool) -> Classes {
    let g = graph_triples(input.graph);
    Classes {
        graph: g,
        prefixes: input.prefixes@,
        base: input.base,
        collections: Map::new(
            |b: Seq<char>| max_nesting && collection_at(g, b) is Some,
            |b: Seq<char>| collection_at(g, b).unwrap(),
        ),
        inline: Set::new(
            |b: Seq<char>| max_nesting && (is_nested(g, b) || (has_label(unreferenced, b) && !is_pinned(g, b))),
        ),
        consumed: Set::new(|t: RdfTripleView| max_nesting && is_consumed(g, t)),
    }
}

/// The subject is a blank node that is written where it is referenced, and
/// so has no block of its own.
pub open spec fn is_nested_subject(g: Set<RdfTripleView>, max_nesting: bool, s: SubjectView) -> bool {
    match s {
        SubjectView::BlankNode(b) => max_nesting && is_nested(g, b),
        _ => false,
    }
}

/// A triple of the subject is written under it: one that is no part of
/// the structure of a collection.
pub open spec fn has_visible(g: Set<RdfTripleView>, max_nesting: bool, s: SubjectView) -> bool {
    exists|t: RdfTripleView| #[trigger] g.contains(t) && t.subject == s && !(max_nesting && is_consumed(g, t))
}

/// The subject gets no block of its own: it is written where it is
/// referenced, or none of its triples is written under it.
pub open spec fn has_no_block(g: Set<RdfTripleView>, max_nesting: bool, s: SubjectView) -> bool {
    is_nested_subject(g, max_nesting, s) || !has_visible(g, max_nesting, s)
}

/// The predicates of a subject are none exactly if none of its triples is
/// written under it.
proof fn lemma_empty_block(input: Input, unreferenced: Seq<String>, max_nesting: bool, fuel: nat, s: SubjectView, ps: Seq<TPredicateCont>)
    requires
        predicates_ok(graph_classes(input, unreferenced, max_nesting), fuel, s, ps),
    ensures
        ps.len() > 0 <==> has_visible(graph_triples(input.graph), max_nesting, s),
{
    let c = graph_classes(input, unreferenced, max_nesting);
    let g = graph_triples(input.graph);
    if ps.len() > 0 {
        assert(predicate_ok(c, fuel, s, ps[0]));
        let t = entry_triple(s, ps[0], 0);
        assert(c.visible(s).contains(t));
        assert(g.contains(t) && t.subject == s && !(max_nesting && is_consumed(g, t)));
    }
    if has_visible(g, max_nesting, s) {
        let t = choose|t: RdfTripleView|
            #[trigger] g.contains(t) && t.subject == s && !(max_nesting && is_consumed(g, t));
        assert(c.visible(s).contains(t));
        assert(covered(ps, s, t));
    }
}

/// The subjects that get a block of their own, in their order.
pub open spec fn top_subjects(subjects: Seq<Subject>, g: Set<RdfTripleView>, max_nesting: bool) -> Seq<
    SubjectView,
>
    decreases subjects.len(),
{
    if subjects.len() == 0 {
        Seq::empty()
    } else {
        let front = top_subjects(subjects.drop_last(), g, max_nesting);
        if has_no_block(g, max_nesting, subjects.last()@) {
            front
        } else {
            front.push(subjects.last()@)
        }
    }
}

/// The blocks `added` are those of the subjects `top`, in their order,
/// each as the classification wants it.
pub open spec fn blocks_ok(c: Classes, fuel: nat, top: Seq<SubjectView>, added: Seq<TSubjectCont>) -> bool {
    &&& added.len() == top.len()
    &&& forall|i: int|
        0 <= i < added.len() ==> subject_term((#[trigger] added[i]).subject) == top[i] && subject_cont_ok(
            c,
            fuel,
            added[i],
        )
}

/// Creates the tree for the given input: the blocks of its subjects are
/// added to `tree_root`, in the order in which the subjects first appear.
///
/// A blank node that is written where it is referenced has no block of
/// its own, nor has a subject none of whose triples is written under it:
/// a node of a collection. With `max_nesting` the blank nodes that no
/// triple refers to are added to `unreferenced_blank_nodes`; they are
/// written without a label, unless they stand in a quoted triple. The list
/// may hold such blank nodes before, and no others.
///
/// No blank node that two or more triples refer to is written without its
/// label, inline or as a collection, anywhere in the blocks.
pub fn construct_tree(
    tree_root: &mut TRoot,
    unreferenced_blank_nodes: &mut Vec<String>,
    input: &Input,
    max_nesting: bool,
)
    requires
        forall|x: Seq<char>|
            #![trigger has_label(old(unreferenced_blank_nodes)@, x)]
            has_label(old(unreferenced_blank_nodes)@, x) ==> is_unreferenced(graph_triples(input.graph), x),
    ensures
        forall|b: Seq<char>|
            #![trigger has_label(final(unreferenced_blank_nodes)@, b)]
            has_label(final(unreferenced_blank_nodes)@, b) <==> has_label(old(unreferenced_blank_nodes)@, b) || (
            max_nesting && is_unreferenced(graph_triples(input.graph), b)),
        forall|k: int, b: Seq<char>|
            old(tree_root).subjects@.len() <= k < final(tree_root).subjects@.len() && #[trigger] unlabelled_in_block(
                final(tree_root).subjects@[k],
                b,
            ) ==> !is_duplicated(graph_triples(input.graph), b),
        final(tree_root).subjects@.len() >= old(tree_root).subjects@.len(),
        final(tree_root).subjects@.subrange(0, old(tree_root).subjects@.len() as int) == old(
            tree_root,
        ).subjects@,
        blocks_ok(
            graph_classes(*input, final(unreferenced_blank_nodes)@, max_nesting),
            nesting_fuel(graph_triples(input.graph)),
            top_subjects(input.subjects_in_order@, graph_triples(input.graph), max_nesting),
            final(tree_root).subjects@.subrange(
                old(tree_root).subjects@.len() as int,
                final(tree_root).subjects@.len() as int,
            ),
        ),
{
    let ghost g = graph_triples(input.graph);
    let mut col_involved_triples: Vec<RdfTriple> = Vec::new();
    let mut non_empty_valid_cols: Vec<(String, Vec<RdfTerm>)> = Vec::new();
    let mut nestable_blank_nodes: Vec<String> = Vec::new();
    let mut free_blank_nodes: Vec<String> = Vec::new();
    if max_nesting {
        non_empty_valid_cols = extract_non_empty_collections(&input.graph, &mut col_involved_triples);
        let _ = evaluate_nestable_and_unreferenced_blank_nodes(&input.graph, unreferenced_blank_nodes);
        nestable_blank_nodes = nested_blank_nodes(&input.graph);
        free_blank_nodes = without_pinned(unreferenced_blank_nodes, &input.graph);
    }
    let len = graph_len(&input.graph);
    let fuel: usize = if len < usize::MAX {
        len + 1
    } else {
        len
    };
    let ctx = CreationContext {
        input,
        non_empty_valid_cols: &non_empty_valid_cols,
        nestable_blank_nodes: &nestable_blank_nodes,
        unreferenced_blank_nodes: &free_blank_nodes,
        col_involved_triples: &col_involved_triples,
    };
    let ghost c = graph_classes(*input, unreferenced_blank_nodes@, max_nesting);
    proof {
        let cc = ctx.classes();
        assert(cc.collections =~= c.collections) by {
            if max_nesting {
                assert(holds_collections(g, non_empty_valid_cols@));
                assert forall|b: Seq<char>| #[trigger]
                    cc.collections.dom().contains(b) implies cc.collections[b] == c.collections[b] by {
                    let k = collection_index(non_empty_valid_cols@, b);
                    assert(collection_at(g, non_empty_valid_cols@[k].0@) == Some(
                        term_views(non_empty_valid_cols@[k].1@),
                    ));
                }
            }
        }
        assert(cc.inline =~= c.inline);
        assert(cc.consumed =~= c.consumed);
        assert(cc == c);
    }
    let ghost start = tree_root.subjects@;
    let mut i: usize = 0;
    while i < input.subjects_in_order.len()
        invariant
            i <= input.subjects_in_order.len(),
            ctx.wf(),
            ctx.classes() == c,
            c == graph_classes(*input, unreferenced_blank_nodes@, max_nesting),
            ctx.input == input,
            g == graph_triples(input.graph),
            fuel as nat == nesting_fuel(g),
            max_nesting ==> forall|b: Seq<char>|
                #![trigger has_label(nestable_blank_nodes@, b)]
                has_label(nestable_blank_nodes@, b) <==> is_nested(g, b),
            ctx.nestable_blank_nodes == &nestable_blank_nodes,
            tree_root.subjects@.len() >= start.len(),
            tree_root.subjects@.subrange(0, start.len() as int) == start,
            blocks_ok(
                c,
                fuel as nat,
                top_subjects(input.subjects_in_order@.subrange(0, i as int), g, max_nesting),
                tree_root.subjects@.subrange(start.len() as int, tree_root.subjects@.len() as int),
            ),
        decreases input.subjects_in_order.len() - i,
    {
        let subj = &input.subjects_in_order[i];
        let ghost seen = input.subjects_in_order@.subrange(0, i as int);
        let ghost next = input.subjects_in_order@.subrange(0, i + 1);
        let ghost before = tree_root.subjects@;
        proof {
            assert(next.drop_last() =~= seen);
            assert(next.last() == *subj);
        }
        let nested = match subj {
            Subject::BlankNode(b) => max_nesting && contains_label(&nestable_blank_nodes, b.as_str()),
            _ => false,
        };
        assert(nested == is_nested_subject(g, max_nesting, subj@));
        let predicates = if nested {
            Vec::new()
        } else {
            create_graph_entry(&ctx, subj, fuel)
        };
        proof {
            if !nested {
                lemma_empty_block(*input, unreferenced_blank_nodes@, max_nesting, fuel as nat, subj@, predicates@);
            }
        }
        if predicates.len() > 0 {
            let subject = TSubject::from(&ctx, subj, fuel);
            let parent = TSubjectCont { subject, predicates };
            tree_root.subjects.push(parent);
            proof {
                let added_before = before.subrange(start.len() as int, before.len() as int);
                let added = tree_root.subjects@.subrange(start.len() as int, tree_root.subjects@.len() as int);
                assert(added =~= added_before.push(parent));
                assert(tree_root.subjects@.subrange(0, start.len() as int) =~= before.subrange(
                    0,
                    start.len() as int,
                ));
                let top = top_subjects(next, g, max_nesting);
                assert(top == top_subjects(seen, g, max_nesting).push(subj@));
                assert forall|j: int| 0 <= j < added.len() implies subject_term((#[trigger] added[j]).subject)
                    == top[j] && subject_cont_ok(c, fuel as nat, added[j]) by {
                    if j < added_before.len() {
                        assert(added[j] == added_before[j]);
                    }
                }
            }
        }
        i += 1;
    }
    proof {
        assert(input.subjects_in_order@.subrange(0, i as int) =~= input.subjects_in_order@);
        let added = tree_root.subjects@.subrange(start.len() as int, tree_root.subjects@.len() as int);
        assert forall|k: int, b: Seq<char>|
            start.len() <= k < tree_root.subjects@.len() && #[trigger] unlabelled_in_block(
                tree_root.subjects@[k],
                b,
            ) implies !is_duplicated(g, b) by {
            assert(added[k - start.len()] == tree_root.subjects@[k]);
            assert(subject_cont_ok(c, fuel as nat, added[k - start.len()]));
            lemma_no_unsafe_nesting(
                *input,
                unreferenced_blank_nodes@,
                max_nesting,
                fuel as nat,
                tree_root.subjects@[k],
                b,
            );
        }
    }
}

/// The blank node `b` is written without a label somewhere in the object:
/// as an anonymous blank node or as a collection.
pub open spec fn unlabelled_in_object(o: TObject, b: Seq<char>) -> bool
    decreases o,
{
    match o {
        TObject::BlankNodeAnonymous(bn) => unlabelled_in_blank_node(bn, b),
        TObject::Collection(TCollection::WithContent(col)) => unlabelled_in_collection(col, b),
        TObject::Triple(t) => unlabelled_in_subject(t.0, b) || unlabelled_in_object(t.2, b),
        _ => false,
    }
}

/// The blank node `b` is written without a label somewhere in the subject.
pub open spec fn unlabelled_in_subject(s: TSubject, b: Seq<char>) -> bool
    decreases s,
{
    match s {
        TSubject::BlankNodeAnonymous(bn) => unlabelled_in_blank_node(bn, b),
        TSubject::Collection(TCollection::WithContent(col)) => unlabelled_in_collection(col, b),
        TSubject::Triple(t) => unlabelled_in_subject(t.0, b) || unlabelled_in_object(t.2, b),
        _ => false,
    }
}

/// The blank node `b` is this anonymous blank node, or is written without a
/// label somewhere in it.
pub open spec fn unlabelled_in_blank_node(bn: TBlankNode, b: Seq<char>) -> bool
    decreases bn,
{
    bn.node.0@ == b || unlabelled_in_predicates(bn.predicates@, b)
}

/// The blank node `b` is the head of this collection, or is written
/// without a label somewhere in it.
pub open spec fn unlabelled_in_collection(col: TCollectionRef, b: Seq<char>) -> bool
    decreases col,
{
    ||| col.node.node.0@ == b
    ||| unlabelled_in_predicates(col.node.predicates@, b)
    ||| exists|i: int| 0 <= i < col.rest.len() && unlabelled_in_object(#[trigger] col.rest@[i], b)
}

/// The blank node `b` is written without a label under one of the
/// predicates.
pub open spec fn unlabelled_in_predicates(ps: Seq<TPredicateCont>, b: Seq<char>) -> bool
    decreases ps,
{
    exists|k: int, j: int|
        0 <= k < ps.len() && 0 <= j < ps[k].objects.len() && unlabelled_in_object(
            #[trigger] ps[k].objects@[j],
            b,
        )
}

/// The blank node `b` is written without a label somewhere in the block.
pub open spec fn unlabelled_in_block(sc: TSubjectCont, b: Seq<char>) -> bool {
    unlabelled_in_subject(sc.subject, b) || unlabelled_in_predicates(sc.predicates@, b)
}

proof fn lemma_unlabelled_object(c: Classes, fuel: nat, o: TObject, b: Seq<char>)
    requires
        object_ok(c, fuel, o),
        unlabelled_in_object(o, b),
    ensures
        c.inline.contains(b) || c.collections.dom().contains(b),
    decreases o,
{
    match o {
        TObject::BlankNodeAnonymous(bn) => {
            lemma_unlabelled_blank_node(c, fuel, bn, b);
        },
        TObject::Collection(TCollection::WithContent(col)) => {
            lemma_unlabelled_collection(c, fuel, col, b);
        },
        TObject::Triple(t) => {
            if unlabelled_in_subject(t.0, b) {
                lemma_unlabelled_subject(c, 0, t.0, b);
            } else {
                lemma_unlabelled_object(c, 0, t.2, b);
            }
        },
        _ => {},
    }
}

proof fn lemma_unlabelled_subject(c: Classes, fuel: nat, s: TSubject, b: Seq<char>)
    requires
        subject_ok(c, fuel, s),
        unlabelled_in_subject(s, b),
    ensures
        c.inline.contains(b) || c.collections.dom().contains(b),
    decreases s,
{
    match s {
        TSubject::BlankNodeAnonymous(bn) => {
            lemma_unlabelled_blank_node(c, fuel, bn, b);
        },
        TSubject::Collection(TCollection::WithContent(col)) => {
            lemma_unlabelled_collection(c, fuel, col, b);
        },
        _ => {},
    }
}

proof fn lemma_unlabelled_blank_node(c: Classes, fuel: nat, bn: TBlankNode, b: Seq<char>)
    requires
        inline_ok(c, fuel, bn),
        unlabelled_in_blank_node(bn, b),
    ensures
        c.inline.contains(b) || c.collections.dom().contains(b),
    decreases bn,
{
    if bn.node.0@ != b {
        lemma_unlabelled_predicates(
            c,
            (fuel - 1) as nat,
            SubjectView::BlankNode(bn.node.0@),
            bn.predicates@,
            b,
        );
    }
}

proof fn lemma_unlabelled_collection(c: Classes, fuel: nat, col: TCollectionRef, b: Seq<char>)
    requires
        collection_ok(c, fuel, col),
        unlabelled_in_collection(col, b),
    ensures
        c.inline.contains(b) || c.collections.dom().contains(b),
    decreases col,
{
    if col.node.node.0@ == b {
    } else if unlabelled_in_predicates(col.node.predicates@, b) {
        lemma_unlabelled_predicates(
            c,
            (fuel - 1) as nat,
            SubjectView::BlankNode(col.node.node.0@),
            col.node.predicates@,
            b,
        );
    } else {
        let i = choose|i: int| 0 <= i < col.rest.len() && unlabelled_in_object(#[trigger] col.rest@[i], b);
        lemma_unlabelled_object(c, (fuel - 1) as nat, col.rest@[i], b);
    }
}

proof fn lemma_unlabelled_predicates(
    c: Classes,
    fuel: nat,
    s: SubjectView,
    ps: Seq<TPredicateCont>,
    b: Seq<char>,
)
    requires
        predicates_ok(c, fuel, s, ps),
        unlabelled_in_predicates(ps, b),
    ensures
        c.inline.contains(b) || c.collections.dom().contains(b),
    decreases ps,
{
    let (k, j) = choose|k: int, j: int|
        0 <= k < ps.len() && 0 <= j < ps[k].objects.len() && unlabelled_in_object(
            #[trigger] ps[k].objects@[j],
            b,
        );
    assert(predicate_ok(c, fuel, s, ps[k]));
    assert(c.visible(s).contains(entry_triple(s, ps[k], j)) && object_ok(c, fuel, ps[k].objects@[j]));
    lemma_unlabelled_object(c, fuel, ps[k].objects@[j], b);
}

/// No unsafe nesting: in a block that is as the classification of the
/// graph wants it, a blank node that is written without a label, inline or
/// as a collection, is the object of at most one triple.
pub proof fn lemma_no_unsafe_nesting(
    input: Input,
    unreferenced: Seq<String>,
    max_nesting: bool,
    fuel: nat,
    block: TSubjectCont,
    b: Seq<char>,
)
    requires
        forall|x: Seq<char>|
            #![trigger has_label(unreferenced, x)]
            has_label(unreferenced, x) ==> is_unreferenced(graph_triples(input.graph), x),
        subject_cont_ok(graph_classes(input, unreferenced, max_nesting), fuel, block),
        unlabelled_in_block(block, b),
    ensures
        !is_duplicated(graph_triples(input.graph), b),
{
    let c = graph_classes(input, unreferenced, max_nesting);
    let g = graph_triples(input.graph);
    if unlabelled_in_subject(block.subject, b) {
        lemma_unlabelled_subject(c, fuel, block.subject, b);
    } else {
        lemma_unlabelled_predicates(c, fuel, subject_term(block.subject), block.predicates@, b);
    }
    if c.collections.dom().contains(b) {
        assert(crate::collections::head_writable(g, b));
    } else {
        assert(c.inline.contains(b));
    }
    if is_duplicated(g, b) {
        let (t1, t2) = choose|t1: RdfTripleView, t2: RdfTripleView|
            g.contains(t1) && g.contains(t2) && t1 != t2 && #[trigger] t1.object == RdfTermView::BlankNode(b)
                && #[trigger] t2.object == RdfTermView::BlankNode(b);
        assert(is_object_in(g, b));
    }
}

/// A blank node that two or more triples refer to is neither written
/// inline nor as a collection: an object or a subject that stands for it
/// is its label.
pub proof fn lemma_shared_node_is_labelled(
    input: Input,
    unreferenced: Seq<String>,
    max_nesting: bool,
    fuel: nat,
    b: Seq<char>,
)
    requires
        forall|x: Seq<char>|
            #![trigger has_label(unreferenced, x)]
            has_label(unreferenced, x) ==> is_unreferenced(graph_triples(input.graph), x),
        is_duplicated(graph_triples(input.graph), b),
    ensures
        !graph_classes(input, unreferenced, max_nesting).inline.contains(b),
        !graph_classes(input, unreferenced, max_nesting).collections.dom().contains(b),
        forall|o: TObject|
            #[trigger] object_ok(graph_classes(input, unreferenced, max_nesting), fuel, o) && object_term(o)
                == RdfTermView::BlankNode(b) ==> o is BlankNodeLabel,
        forall|s: TSubject|
            #[trigger] subject_ok(graph_classes(input, unreferenced, max_nesting), fuel, s) && subject_term(s)
                == SubjectView::BlankNode(b) ==> s is BlankNodeLabel,
{
    let c = graph_classes(input, unreferenced, max_nesting);
    let g = graph_triples(input.graph);
    let (t1, t2) = choose|t1: RdfTripleView, t2: RdfTripleView|
        g.contains(t1) && g.contains(t2) && t1 != t2 && #[trigger] t1.object == RdfTermView::BlankNode(b)
            && #[trigger] t2.object == RdfTermView::BlankNode(b);
    assert(is_object_in(g, b));
    if c.collections.dom().contains(b) {
        assert(crate::collections::head_writable(g, b));
    }
    assert forall|o: TObject| #[trigger] object_ok(c, fuel, o) && object_term(o) == RdfTermView::BlankNode(
        b,
    ) implies o is BlankNodeLabel by {
        match o {
            TObject::BlankNodeAnonymous(bn) => {
                assert(inline_ok(c, fuel, bn));
            },
            TObject::Collection(TCollection::WithContent(col)) => {
                assert(collection_ok(c, fuel, col));
            },
            _ => {},
        }
    }
    assert forall|s: TSubject| #[trigger] subject_ok(c, fuel, s) && subject_term(s) == SubjectView::BlankNode(
        b,
    ) implies s is BlankNodeLabel by {
        match s {
            TSubject::BlankNodeAnonymous(bn) => {
                assert(inline_ok(c, fuel, bn));
            },
            TSubject::Collection(TCollection::WithContent(col)) => {
                assert(collection_ok(c, fuel, col));
            },
            _ => {},
        }
    }
}

/// A subject that is listed, is no blank node that is written where it is
/// referenced, and has a triple that is written under it, is among the
/// subjects that get a block.
pub proof fn lemma_top_subjects_has(
    subjects: Seq<Subject>,
    g: Set<RdfTripleView>,
    max_nesting: bool,
    s: SubjectView,
)
    requires
        exists|i: int| 0 <= i < subjects.len() && (#[trigger] subjects[i])@ == s,
        !has_no_block(g, max_nesting, s),
    ensures
        top_subjects(subjects, g, max_nesting).contains(s),
    decreases subjects.len(),
{
    let i = choose|i: int| 0 <= i < subjects.len() && (#[trigger] subjects[i])@ == s;
    let front = subjects.drop_last();
    let top_front = top_subjects(front, g, max_nesting);
    if i == subjects.len() - 1 {
        assert(subjects.last()@ == s);
        assert(top_front.push(s)[top_front.len() as int] == s);
    } else {
        assert(front[i]@ == s);
        lemma_top_subjects_has(front, g, max_nesting, s);
        let k = choose|k: int| 0 <= k < top_front.len() && top_front[k] == s;
        if !has_no_block(g, max_nesting, subjects.last()@) {
            assert(top_front.push(subjects.last()@)[k] == s);
        }
    }
}

/// A blank node that no triple refers to, and that stands in no quoted
/// triple, is never written by its label as a subject: where blank nodes
/// are nested and there is fuel, a subject that stands for it is an inline
/// blank node or a collection.
pub proof fn lemma_unreferenced_is_never_labelled(
    input: Input,
    unreferenced: Seq<String>,
    fuel: nat,
    s: TSubject,
    b: Seq<char>,
)
    requires
        fuel > 0,
        has_label(unreferenced, b),
        !is_pinned(graph_triples(input.graph), b),
        subject_ok(graph_classes(input, unreferenced, true), fuel, s),
        subject_term(s) == SubjectView::BlankNode(b),
    ensures
        s is BlankNodeAnonymous || s is Collection,
{
    let c = graph_classes(input, unreferenced, true);
    assert(c.inline.contains(b));
    assert(c.expands(fuel, b));
}

} // verus!
