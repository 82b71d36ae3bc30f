//! The canonical order of sibling nodes at every level of the tree.
//!
//! Each comparison has a specification function of the same shape, to
//! which the executable comparison is proved equal: the order is a
//! function of the nodes and of the sorting context alone.
use crate::ast::{
    TBlankNode, TBlankNodeRef, TCollection, TCollectionRef, TLiteralRef, TNamedNode, TObject, TPredicateCont,
    TSubject, TSubjectCont, TTriple,
};
use crate::graph::graph_triples;
use crate::options::FormatOptions;
use crate::ranks::{
    extract_topmost_sorting_id_by_types, find_position, find_rank, find_sorting_id, position_of, rank_of,
    sorting_id_of, topmost_rank,
};
use crate::text::{str_eq, str_order, text_order};
use crate::vocab::RDF_TYPE;
use std::cmp::Ordering;
use vstd::prelude::*;

verus! {

/// What the order of nodes depends on besides the nodes.
pub struct SortingContext<'a> {
    pub options: &'a FormatOptions,
    pub graph: &'a oxrdf::Graph,
    /// The sorting id (`prtr:sortingId`) of each blank node that states
    /// one, or nothing where what it states is no such number.
    pub bn_sorting_ids: Vec<(String, Option<u32>)>,
    /// The blank nodes that are objects, in the order in which they first
    /// appear in the input.
    pub bn_objects_input_order: &'a Vec<String>,
    /// The IRIs of the predicates that come first, in their order. Empty
    /// where no order is configured; `rdf:type` then comes first.
    pub predicate_order: Vec<String>,
    /// The IRIs of the types whose subjects come first, in their order.
    pub subject_type_order: Option<Vec<String>>,
}

/// The order of two integers.
pub open spec fn int_order(a: int, b: int) -> Ordering {
    if a < b {
        Ordering::Less
    } else if a == b {
        Ordering::Equal
    } else {
        Ordering::Greater
    }
}

/// The order of two optional ranks: a rank comes before none, and a lower
/// rank before a higher one.
pub open spec fn rank_order(a: Option<int>, b: Option<int>) -> Ordering {
    match (a, b) {
        (Some(x), Some(y)) => int_order(x, y),
        (Some(_), None) => Ordering::Less,
        (None, Some(_)) => Ordering::Greater,
        (None, None) => Ordering::Equal,
    }
}

/// `first` unless it is `Equal`, in which case `second`.
pub open spec fn first_or(first: Ordering, second: Ordering) -> Ordering {
    match first {
        Ordering::Equal => second,
        _ => first,
    }
}

fn usize_order(a: usize, b: usize) -> (r: Ordering)
    ensures
        r == int_order(a + 0, b + 0),
{
    if a < b {
        Ordering::Less
    } else if a == b {
        Ordering::Equal
    } else {
        Ordering::Greater
    }
}

fn u32_order(a: u32, b: u32) -> (r: Ordering)
    ensures
        r == int_order(a + 0, b + 0),
{
    if a < b {
        Ordering::Less
    } else if a == b {
        Ordering::Equal
    } else {
        Ordering::Greater
    }
}

fn is_equal(o: Ordering) -> (r: bool)
    ensures
        r == (o == Ordering::Equal),
{
    match o {
        Ordering::Equal => true,
        _ => false,
    }
}

/// The rank of the way a named node is written: with a prefix first, then
/// relative to the base, then in full.
pub open spec fn named_node_kind(n: TNamedNode) -> int {
    match n {
        TNamedNode::Prefixed(..) => 0,
        TNamedNode::Based(..) => 1,
        TNamedNode::Plain(..) => 2,
    }
}

/// The order of two named nodes: by the way they are written, then by
/// what is written (prefix and local name, what follows the base, or the
/// IRI).
pub open spec fn named_nodes_order(a: TNamedNode, b: TNamedNode) -> Ordering {
    if a@ == b@ {
        Ordering::Equal
    } else {
        match (a, b) {
            (TNamedNode::Plain(x), TNamedNode::Plain(y)) => text_order(x@, y@),
            (TNamedNode::Prefixed(_, ap, al), TNamedNode::Prefixed(_, bp, bl)) => first_or(
                text_order(ap@, bp@),
                text_order(al@, bl@),
            ),
            (TNamedNode::Based(_, ar), TNamedNode::Based(_, br)) => text_order(ar@, br@),
            _ => int_order(named_node_kind(a), named_node_kind(b)),
        }
    }
}

fn named_node_kind_of(n: &TNamedNode) -> (r: usize)
    ensures
        r == named_node_kind(*n),
{
    match n {
        TNamedNode::Prefixed(..) => 0,
        TNamedNode::Based(..) => 1,
        TNamedNode::Plain(..) => 2,
    }
}

/// Compares two named nodes.
#[must_use]
pub fn named_nodes(_context: &SortingContext, a: &TNamedNode, b: &TNamedNode) -> (r: Ordering)
    ensures
        r == named_nodes_order(*a, *b),
{
    if a.same(b) {
        return Ordering::Equal;
    }
    match (a, b) {
        (TNamedNode::Plain(x), TNamedNode::Plain(y)) => str_order(x.as_str(), y.as_str()),
        (TNamedNode::Prefixed(_, ap, al), TNamedNode::Prefixed(_, bp, bl)) => {
            let by_prefix = str_order(ap.as_str(), bp.as_str());
            if !is_equal(by_prefix) {
                return by_prefix;
            }
            str_order(al.as_str(), bl.as_str())
        },
        (TNamedNode::Based(_, ar), TNamedNode::Based(_, br)) => str_order(ar.as_str(), br.as_str()),
        _ => usize_order(named_node_kind_of(a), named_node_kind_of(b)),
    }
}

/// Compares two blank nodes by the order of the input: neither comes
/// first, so that sorting leaves them as they stand.
#[must_use]
pub fn blank_node_refs_by_input_order(_context: &SortingContext, _a: &str, _b: &str) -> (r: Ordering)
    ensures
        r == Ordering::Equal,
{
    Ordering::Equal
}

/// The order of two blank nodes by their sorting ids: one that has an id
/// comes before one that has none, and a lower id before a higher one.
pub open spec fn blank_nodes_with_prtr_order(ctx: SortingContext, a: Seq<char>, b: Seq<char>) -> Ordering {
    rank_order(sorting_id_of(ctx.bn_sorting_ids@, a), sorting_id_of(ctx.bn_sorting_ids@, b))
}

/// The order of two blank nodes: by their sorting ids where the options
/// ask for that, and else that of the input.
pub open spec fn blank_nodes_order(ctx: SortingContext, a: Seq<char>, b: Seq<char>) -> Ordering {
    if ctx.options.prtr_sorting {
        blank_nodes_with_prtr_order(ctx, a, b)
    } else {
        Ordering::Equal
    }
}

/// The sorting id of the blank node, if it has one.
#[must_use]
fn fetch_prtr_sorting_id(context: &SortingContext, bn: &str) -> (r: Option<u32>)
    ensures
        match r {
            Some(id) => sorting_id_of(context.bn_sorting_ids@, bn@) == Some(id + 0),
            None => sorting_id_of(context.bn_sorting_ids@, bn@) is None,
        },
{
    find_sorting_id(&context.bn_sorting_ids, bn)
}

/// Compares two blank nodes by their sorting ids.
#[must_use]
pub fn blank_node_refs_with_prtr(context: &SortingContext, a: &str, b: &str) -> (r: Ordering)
    ensures
        r == blank_nodes_with_prtr_order(*context, a@, b@),
{
    let a_sorting_id_opt = fetch_prtr_sorting_id(context, a);
    let b_sorting_id_opt = fetch_prtr_sorting_id(context, b);
    match (a_sorting_id_opt, b_sorting_id_opt) {
        (Some(a_sorting_id), Some(b_sorting_id)) => u32_order(a_sorting_id, b_sorting_id),
        (None, Some(_)) => Ordering::Greater,
        (Some(_), None) => Ordering::Less,
        (None, None) => blank_node_refs_by_input_order(context, a, b),
    }
}

/// Compares two blank nodes.
#[must_use]
pub fn blank_node_refs(context: &SortingContext, a: &str, b: &str) -> (r: Ordering)
    ensures
        r == blank_nodes_order(*context, a@, b@),
{
    if context.options.prtr_sorting {
        blank_node_refs_with_prtr(context, a, b)
    } else {
        blank_node_refs_by_input_order(context, a, b)
    }
}

/// Compares two blank nodes by their labels.
#[must_use]
pub fn blank_node_refs_by_label(_context: &SortingContext, a: &str, b: &str) -> (r: Ordering)
    ensures
        r == text_order(a@, b@),
{
    str_order(a, b)
}

/// Compares two inline blank nodes, as blank nodes.
#[must_use]
pub fn t_blank_nodes(context: &SortingContext, a: &TBlankNode, b: &TBlankNode) -> (r: Ordering)
    ensures
        r == blank_nodes_order(*context, a.node.0@, b.node.0@),
{
    blank_node_refs(context, a.node.0.as_str(), b.node.0.as_str())
}

/// The order of two blank nodes by where they first appear as an object in
/// the input. One that never does comes last.
pub open spec fn object_input_order(ctx: SortingContext, a: Seq<char>, b: Seq<char>) -> Ordering {
    rank_order(position_of(ctx.bn_objects_input_order@, a), position_of(ctx.bn_objects_input_order@, b))
}

#[must_use]
fn t_blank_nodes_by_object_input_order(context: &SortingContext, a: &TBlankNode, b: &TBlankNode) -> (r:
    Ordering)
    ensures
        r == object_input_order(*context, a.node.0@, b.node.0@),
{
    let a_idx = find_position(context.bn_objects_input_order, a.node.0.as_str());
    let b_idx = find_position(context.bn_objects_input_order, b.node.0.as_str());
    match (a_idx, b_idx) {
        (Some(x), Some(y)) => usize_order(x, y),
        (Some(_), None) => Ordering::Less,
        (None, Some(_)) => Ordering::Greater,
        (None, None) => Ordering::Equal,
    }
}

/// The order of two literals: by the datatype as it is written (one that
/// has such a datatype first), then by the datatype IRI, then by the
/// language tag (one that has a tag first), then by the lexical value.
pub open spec fn literals_order(a: TLiteralRef, b: TLiteralRef) -> Ordering {
    let by_nice = match (a.1, b.1) {
        (Some(x), Some(y)) => named_nodes_order(x, y),
        (Some(_), None) => Ordering::Less,
        (None, Some(_)) => Ordering::Greater,
        (None, None) => Ordering::Equal,
    };
    let by_language = match (a.0.language, b.0.language) {
        (Some(x), Some(y)) => text_order(x@, y@),
        (Some(_), None) => Ordering::Less,
        (None, Some(_)) => Ordering::Greater,
        (None, None) => Ordering::Equal,
    };
    first_or(
        by_nice,
        first_or(text_order(a.0.datatype@, b.0.datatype@), first_or(by_language, text_order(a.0.value@, b.0.value@))),
    )
}

/// Compares two literals.
#[must_use]
pub fn literals(context: &SortingContext, a: &TLiteralRef, b: &TLiteralRef) -> (r: Ordering)
    ensures
        r == literals_order(*a, *b),
{
    let nice_dt_cmp = match (&a.1, &b.1) {
        (Some(x), Some(y)) => named_nodes(context, x, y),
        (Some(_), None) => Ordering::Less,
        (None, Some(_)) => Ordering::Greater,
        (None, None) => Ordering::Equal,
    };
    if !is_equal(nice_dt_cmp) {
        return nice_dt_cmp;
    }
    let datatype_cmp = str_order(a.0.datatype.as_str(), b.0.datatype.as_str());
    if !is_equal(datatype_cmp) {
        return datatype_cmp;
    }
    let language_cmp = match (&a.0.language, &b.0.language) {
        (Some(x), Some(y)) => str_order(x.as_str(), y.as_str()),
        (Some(_), None) => Ordering::Less,
        (None, Some(_)) => Ordering::Greater,
        (None, None) => Ordering::Equal,
    };
    if !is_equal(language_cmp) {
        return language_cmp;
    }
    str_order(a.0.value.as_str(), b.0.value.as_str())
}

/// The rank of a predicate: its rank in the list of ranked predicates;
/// where that list is empty, no order being configured, `rdf:type` alone
/// has a rank.
pub open spec fn predicate_rank(order: Seq<String>, iri: Seq<char>) -> Option<int> {
    if order.len() == 0 {
        if iri == RDF_TYPE@ {
            Some(0)
        } else {
            None
        }
    } else {
        rank_of(order, iri)
    }
}

/// The order of two predicates: one with a rank comes before one without,
/// a lower rank before a higher one, and two without a rank go by the
/// order of named nodes. So `rdf:type` comes first where no order is
/// configured.
pub open spec fn pred_order(ctx: SortingContext, a: TNamedNode, b: TNamedNode) -> Ordering {
    match (predicate_rank(ctx.predicate_order@, a@.iri()), predicate_rank(ctx.predicate_order@, b@.iri())) {
        (Some(x), Some(y)) => int_order(x, y),
        (Some(_), None) => Ordering::Less,
        (None, Some(_)) => Ordering::Greater,
        (None, None) => named_nodes_order(a, b),
    }
}

fn predicate_rank_of(order: &Vec<String>, iri: &str) -> (r: Option<usize>)
    ensures
        match r {
            Some(i) => predicate_rank(order@, iri@) == Some(i + 0),
            None => predicate_rank(order@, iri@) is None,
        },
{
    if order.len() == 0 {
        if str_eq(iri, RDF_TYPE) {
            Some(0)
        } else {
            None
        }
    } else {
        find_rank(order, iri)
    }
}

/// Compares two predicates.
#[must_use]
pub fn pred_ref(context: &SortingContext, a: &TNamedNode, b: &TNamedNode) -> (r: Ordering)
    ensures
        r == pred_order(*context, *a, *b),
{
    match (
        predicate_rank_of(&context.predicate_order, a.as_named_node_ref().as_str()),
        predicate_rank_of(&context.predicate_order, b.as_named_node_ref().as_str()),
    ) {
        (Some(x), Some(y)) => usize_order(x, y),
        (Some(_), None) => Ordering::Less,
        (None, Some(_)) => Ordering::Greater,
        (None, None) => named_nodes(context, a, b),
    }
}

/// Compares two predicates with their objects, by the predicates.
#[must_use]
pub fn t_pred_cont(context: &SortingContext, a: &TPredicateCont, b: &TPredicateCont) -> (r: Ordering)
    ensures
        r == pred_order(*context, a.predicate, b.predicate),
{
    pred_ref(context, &a.predicate, &b.predicate)
}

/// The order of two named subjects: by the best rank of their types where
/// an order of subject types is configured (a subject with a ranked type
/// first), then by the order of named nodes.
pub open spec fn named_subjects_order(ctx: SortingContext, a: TNamedNode, b: TNamedNode) -> Ordering {
    match ctx.subject_type_order {
        Some(order) => first_or(
            rank_order(
                topmost_rank(graph_triples(*ctx.graph), order@, a@.iri()),
                topmost_rank(graph_triples(*ctx.graph), order@, b@.iri()),
            ),
            named_nodes_order(a, b),
        ),
        None => named_nodes_order(a, b),
    }
}

fn named_subjects(context: &SortingContext, a: &TNamedNode, b: &TNamedNode) -> (r: Ordering)
    ensures
        r == named_subjects_order(*context, *a, *b),
{
    match &context.subject_type_order {
        Some(subject_type_order) => {
            let a_best = extract_topmost_sorting_id_by_types(
                context.graph,
                subject_type_order,
                a.as_named_node_ref().as_str(),
            );
            let b_best = extract_topmost_sorting_id_by_types(
                context.graph,
                subject_type_order,
                b.as_named_node_ref().as_str(),
            );
            let by_type = match (a_best, b_best) {
                (Some(x), Some(y)) => usize_order(x, y),
                (Some(_), None) => Ordering::Less,
                (None, Some(_)) => Ordering::Greater,
                (None, None) => Ordering::Equal,
            };
            if !is_equal(by_type) {
                return by_type;
            }
        },
        None => {},
    }
    named_nodes(context, a, b)
}

/// The rank of the kind of a subject: named nodes first, then quoted
/// triples, collections, inline blank nodes, labelled blank nodes.
pub open spec fn subject_kind(s: TSubject) -> int {
    match s {
        TSubject::NamedNode(_) => 0,
        TSubject::Triple(_) => 1,
        TSubject::Collection(_) => 2,
        TSubject::BlankNodeAnonymous(_) => 3,
        TSubject::BlankNodeLabel(_) => 4,
    }
}

/// The rank of the kind of an object: named nodes first, then quoted
/// triples, collections, inline blank nodes, labelled blank nodes,
/// literals.
pub open spec fn object_kind(o: TObject) -> int {
    match o {
        TObject::NamedNode(_) => 0,
        TObject::Triple(_) => 1,
        TObject::Collection(_) => 2,
        TObject::BlankNodeAnonymous(_) => 3,
        TObject::BlankNodeLabel(_) => 4,
        TObject::Literal(_) => 5,
    }
}

fn subject_kind_of(s: &TSubject) -> (r: usize)
    ensures
        r == subject_kind(*s),
{
    match s {
        TSubject::NamedNode(_) => 0,
        TSubject::Triple(_) => 1,
        TSubject::Collection(_) => 2,
        TSubject::BlankNodeAnonymous(_) => 3,
        TSubject::BlankNodeLabel(_) => 4,
    }
}

fn object_kind_of(o: &TObject) -> (r: usize)
    ensures
        r == object_kind(*o),
{
    match o {
        TObject::NamedNode(_) => 0,
        TObject::Triple(_) => 1,
        TObject::Collection(_) => 2,
        TObject::BlankNodeAnonymous(_) => 3,
        TObject::BlankNodeLabel(_) => 4,
        TObject::Literal(_) => 5,
    }
}

/// The order of two objects: two of a kind by the order of that kind, two
/// of different kinds by the rank of their kinds. Two inline blank nodes
/// that are equal as blank nodes go by where they first appear as an
/// object in the input.
pub open spec fn object_order(ctx: SortingContext, a: TObject, b: TObject) -> Ordering
    decreases a, 0nat,
{
    match (a, b) {
        (TObject::NamedNode(x), TObject::NamedNode(y)) => named_nodes_order(x, y),
        (TObject::BlankNodeLabel(x), TObject::BlankNodeLabel(y)) => blank_nodes_order(ctx, x.0@, y.0@),
        (TObject::BlankNodeAnonymous(x), TObject::BlankNodeAnonymous(y)) => first_or(
            blank_nodes_order(ctx, x.node.0@, y.node.0@),
            object_input_order(ctx, x.node.0@, y.node.0@),
        ),
        (TObject::Collection(x), TObject::Collection(y)) => collections_order(ctx, x, y),
        (TObject::Literal(x), TObject::Literal(y)) => literals_order(x, y),
        (TObject::Triple(x), TObject::Triple(y)) => triples_order(ctx, *x, *y),
        _ => int_order(object_kind(a), object_kind(b)),
    }
}

/// The order of two subjects: two of a kind by the order of that kind, two
/// of different kinds by the rank of their kinds.
pub open spec fn subject_order(ctx: SortingContext, a: TSubject, b: TSubject) -> Ordering
    decreases a, 0nat,
{
    match (a, b) {
        (TSubject::NamedNode(x), TSubject::NamedNode(y)) => named_subjects_order(ctx, x, y),
        (TSubject::BlankNodeLabel(x), TSubject::BlankNodeLabel(y)) => blank_nodes_order(ctx, x.0@, y.0@),
        (TSubject::BlankNodeAnonymous(x), TSubject::BlankNodeAnonymous(y)) => blank_nodes_order(
            ctx,
            x.node.0@,
            y.node.0@,
        ),
        (TSubject::Collection(x), TSubject::Collection(y)) => collections_order(ctx, x, y),
        (TSubject::Triple(x), TSubject::Triple(y)) => triples_order(ctx, *x, *y),
        _ => int_order(subject_kind(a), subject_kind(b)),
    }
}

/// The order of two quoted triples: by subject, then predicate, then
/// object.
pub open spec fn triples_order(ctx: SortingContext, a: TTriple, b: TTriple) -> Ordering
    decreases a, 0nat,
{
    first_or(subject_order(ctx, a.0, b.0), first_or(pred_order(ctx, a.1, b.1), object_order(ctx, a.2, b.2)))
}

/// The order of two collections: the empty one first.
pub open spec fn collections_order(ctx: SortingContext, a: TCollection, b: TCollection) -> Ordering
    decreases a, 0nat,
{
    match (a, b) {
        (TCollection::Empty, TCollection::Empty) => Ordering::Equal,
        (TCollection::Empty, TCollection::WithContent(_)) => Ordering::Less,
        (TCollection::WithContent(_), TCollection::Empty) => Ordering::Greater,
        (TCollection::WithContent(x), TCollection::WithContent(y)) => collection_refs_order(ctx, x, y),
    }
}

/// The order of two collections with content: by their elements one after
/// the other, a collection coming before the longer ones that begin with
/// it, and at last by their head nodes.
pub open spec fn collection_refs_order(ctx: SortingContext, a: TCollectionRef, b: TCollectionRef) -> Ordering
    decreases a, 0nat,
{
    first_or(elements_order(ctx, a.rest@, b.rest@, 0), blank_nodes_order(ctx, a.node.node.0@, b.node.node.0@))
}

/// The order of two lists of elements from the `i`-th element on.
pub open spec fn elements_order(ctx: SortingContext, a: Seq<TObject>, b: Seq<TObject>, i: int) -> Ordering
    decreases a, a.len() - i,
{
    if i < 0 {
        Ordering::Equal
    } else if i >= a.len() {
        if i >= b.len() {
            Ordering::Equal
        } else {
            Ordering::Less
        }
    } else if i >= b.len() {
        Ordering::Greater
    } else {
        first_or(object_order(ctx, a[i], b[i]), elements_order(ctx, a, b, i + 1))
    }
}

/// Compares two objects.
#[must_use]
pub fn t_obj(context: &SortingContext, a: &TObject, b: &TObject) -> (r: Ordering)
    ensures
        r == object_order(*context, *a, *b),
    decreases a,
{
    match (a, b) {
        (TObject::NamedNode(x), TObject::NamedNode(y)) => named_nodes(context, x, y),
        (TObject::BlankNodeLabel(x), TObject::BlankNodeLabel(y)) => blank_node_refs(
            context,
            x.0.as_str(),
            y.0.as_str(),
        ),
        (TObject::BlankNodeAnonymous(x), TObject::BlankNodeAnonymous(y)) => {
            let bn_cmp = t_blank_nodes(context, x, y);
            if !is_equal(bn_cmp) {
                return bn_cmp;
            }
            t_blank_nodes_by_object_input_order(context, x, y)
        },
        (TObject::Collection(x), TObject::Collection(y)) => t_collections(context, x, y),
        (TObject::Literal(x), TObject::Literal(y)) => literals(context, x, y),
        (TObject::Triple(x), TObject::Triple(y)) => triples(context, x, y),
        _ => usize_order(object_kind_of(a), object_kind_of(b)),
    }
}

/// Compares two subjects.
#[must_use]
pub fn t_subj(context: &SortingContext, a: &TSubject, b: &TSubject) -> (r: Ordering)
    ensures
        r == subject_order(*context, *a, *b),
    decreases a,
{
    match (a, b) {
        (TSubject::NamedNode(x), TSubject::NamedNode(y)) => named_subjects(context, x, y),
        (TSubject::BlankNodeLabel(x), TSubject::BlankNodeLabel(y)) => blank_node_refs(
            context,
            x.0.as_str(),
            y.0.as_str(),
        ),
        (TSubject::BlankNodeAnonymous(x), TSubject::BlankNodeAnonymous(y)) => t_blank_nodes(context, x, y),
        (TSubject::Collection(x), TSubject::Collection(y)) => t_collections(context, x, y),
        (TSubject::Triple(x), TSubject::Triple(y)) => triples(context, x, y),
        _ => usize_order(subject_kind_of(a), subject_kind_of(b)),
    }
}

/// Compares two subjects with their predicates, by the subjects.
#[must_use]
pub fn t_subj_cont(context: &SortingContext, a: &TSubjectCont, b: &TSubjectCont) -> (r: Ordering)
    ensures
        r == subject_order(*context, a.subject, b.subject),
{
    t_subj(context, &a.subject, &b.subject)
}

/// Compares two quoted triples.
#[must_use]
pub fn triples(context: &SortingContext, a: &TTriple, b: &TTriple) -> (r: Ordering)
    ensures
        r == triples_order(*context, *a, *b),
    decreases a,
{
    let cmp_subj = t_subj(context, &a.0, &b.0);
    if !is_equal(cmp_subj) {
        return cmp_subj;
    }
    let cmp_pred = pred_ref(context, &a.1, &b.1);
    if !is_equal(cmp_pred) {
        return cmp_pred;
    }
    t_obj(context, &a.2, &b.2)
}

/// Compares two collections.
#[must_use]
pub fn t_collections(context: &SortingContext, a: &TCollection, b: &TCollection) -> (r: Ordering)
    ensures
        r == collections_order(*context, *a, *b),
    decreases a,
{
    match (a, b) {
        (TCollection::Empty, TCollection::Empty) => Ordering::Equal,
        (TCollection::Empty, TCollection::WithContent(_)) => Ordering::Less,
        (TCollection::WithContent(_), TCollection::Empty) => Ordering::Greater,
        (TCollection::WithContent(x), TCollection::WithContent(y)) => t_collection_refs(context, x, y),
    }
}

/// Compares two collections with content. The order of their elements is
/// taken as it is.
#[must_use]
pub fn t_collection_refs(context: &SortingContext, a: &TCollectionRef, b: &TCollectionRef) -> (r: Ordering)
    ensures
        r == collection_refs_order(*context, *a, *b),
    decreases a,
{
    let mut i: usize = 0;
    let ghost mut gi: int = 0;
    while i < a.rest.len()
        invariant
            gi == i,
            i <= a.rest.len(),
            elements_order(*context, a.rest@, b.rest@, 0) == elements_order(*context, a.rest@, b.rest@, gi),
        decreases a.rest.len() - i,
    {
        if i >= b.rest.len() {
            return Ordering::Greater;
        }
        let cmp_item = t_obj(context, &a.rest[i], &b.rest[i]);
        if !is_equal(cmp_item) {
            return cmp_item;
        }
        i += 1;
        proof {
            gi = gi + 1;
        }
    }
    if i < b.rest.len() {
        return Ordering::Less;
    }
    t_blank_nodes(context, &a.node, &b.node)
}

/// The order of an optional text against another: a text comes before
/// none.
pub open spec fn optional_text_order(a: Option<String>, b: Option<String>) -> Ordering {
    match (a, b) {
        (Some(x), Some(y)) => text_order(x@, y@),
        (Some(_), None) => Ordering::Less,
        (None, Some(_)) => Ordering::Greater,
        (None, None) => Ordering::Equal,
    }
}

/// The order of named nodes of its own: nodes written in full first, then
/// those relative to the base, then those with a prefix; two of a kind by
/// what is written.
pub open spec fn named_node_natural_order(a: TNamedNode, b: TNamedNode) -> Ordering {
    match (a, b) {
        (TNamedNode::Plain(x), TNamedNode::Plain(y)) => text_order(x@, y@),
        (TNamedNode::Prefixed(_, ap, al), TNamedNode::Prefixed(_, bp, bl)) => first_or(
            text_order(ap@, bp@),
            text_order(al@, bl@),
        ),
        (TNamedNode::Based(_, ar), TNamedNode::Based(_, br)) => text_order(ar@, br@),
        _ => int_order(named_node_kind(b), named_node_kind(a)),
    }
}

/// The order of literals of its own: by lexical value, then datatype, then
/// language tag, a literal with a tag before one without.
pub open spec fn literal_natural_order(a: TLiteralRef, b: TLiteralRef) -> Ordering {
    first_or(
        text_order(a.0.value@, b.0.value@),
        first_or(text_order(a.0.datatype@, b.0.datatype@), optional_text_order(a.0.language, b.0.language)),
    )
}

impl TNamedNode {
    /// Compares two named nodes by the way they are written and by what
    /// is written.
    pub fn cmp(&self, other: &Self) -> (r: Ordering)
        ensures
            r == named_node_natural_order(*self, *other),
    {
        match (self, other) {
            (TNamedNode::Plain(x), TNamedNode::Plain(y)) => str_order(x.as_str(), y.as_str()),
            (TNamedNode::Prefixed(_, ap, al), TNamedNode::Prefixed(_, bp, bl)) => {
                let prefix_cmp = str_order(ap.as_str(), bp.as_str());
                if !is_equal(prefix_cmp) {
                    return prefix_cmp;
                }
                str_order(al.as_str(), bl.as_str())
            },
            (TNamedNode::Based(_, ar), TNamedNode::Based(_, br)) => str_order(ar.as_str(), br.as_str()),
            _ => usize_order(named_node_kind_of(other), named_node_kind_of(self)),
        }
    }
}

impl TBlankNodeRef {
    /// Compares two blank nodes by their labels.
    pub fn cmp(&self, other: &Self) -> (r: Ordering)
        ensures
            r == text_order(self.0@, other.0@),
    {
        str_order(self.0.as_str(), other.0.as_str())
    }
}

impl TLiteralRef {
    /// Compares two literals by value, datatype and language tag.
    pub fn cmp(&self, other: &Self) -> (r: Ordering)
        ensures
            r == literal_natural_order(*self, *other),
    {
        let cmp_value = str_order(self.0.value.as_str(), other.0.value.as_str());
        if !is_equal(cmp_value) {
            return cmp_value;
        }
        let cmp_datatype = str_order(self.0.datatype.as_str(), other.0.datatype.as_str());
        if !is_equal(cmp_datatype) {
            return cmp_datatype;
        }
        match (&self.0.language, &other.0.language) {
            (Some(a), Some(b)) => str_order(a.as_str(), b.as_str()),
            (Some(_), None) => Ordering::Less,
            (None, Some(_)) => Ordering::Greater,
            (None, None) => Ordering::Equal,
        }
    }
}

} // verus!
