//! Where collections stand in a tree, and what holds of each of them,
//! however deep it stands.
use crate::ast::{TCollection, TCollectionRef, TObject, TPredicateCont, TSubject, TSubjectCont};
use crate::builder::{
    collection_ok, entry_triple, graph_classes, inline_ok, object_ok, object_term, predicate_ok, predicates_ok,
    subject_cont_ok, subject_ok, subject_term, Classes,
};
use crate::arrange::sorted_arrangement;
use crate::classify::is_object_in;
use crate::compare::SortingContext;
use crate::sorting::{
    collection_sorted, is_item, lemma_sorted_items, object_sorted, objects_sorted, predicates_sorted, sorted_seq,
    subject_cont_sorted, subject_sorted, subjects_sorted,
};
use crate::collections::{
    chain_nodes, collection_at, head_writable, is_consumed, is_consumed_by, is_link_triple, link_ok, only_links,
};
use crate::graph::graph_triples;
use crate::input::Input;
use crate::term::{RdfTripleView, SubjectView};
use vstd::prelude::*;

verus! {

/// The collection `col` stands somewhere in the object.
pub open spec fn collection_in_object(o: TObject, col: TCollectionRef) -> bool
    decreases o,
{
    match o {
        TObject::BlankNodeAnonymous(bn) => collection_in_predicates(bn.predicates@, col),
        TObject::Collection(TCollection::WithContent(outer)) => collection_in_collection(outer, col),
        TObject::Triple(t) => collection_in_subject(t.0, col) || collection_in_object(t.2, col),
        _ => false,
    }
}

/// The collection `col` stands somewhere in the subject.
pub open spec fn collection_in_subject(s: TSubject, col: TCollectionRef) -> bool
    decreases s,
{
    match s {
        TSubject::BlankNodeAnonymous(bn) => collection_in_predicates(bn.predicates@, col),
        TSubject::Collection(TCollection::WithContent(outer)) => collection_in_collection(outer, col),
        TSubject::Triple(t) => collection_in_subject(t.0, col) || collection_in_object(t.2, col),
        _ => false,
    }
}

/// The collection `col` is `outer`, or stands somewhere in it.
pub open spec fn collection_in_collection(outer: TCollectionRef, col: TCollectionRef) -> bool
    decreases outer,
{
    ||| outer == col
    ||| collection_in_predicates(outer.node.predicates@, col)
    ||| exists|i: int| 0 <= i < outer.rest.len() && collection_in_object(#[trigger] outer.rest@[i], col)
}

/// The collection `col` stands somewhere under one of the predicates.
pub open spec fn collection_in_predicates(ps: Seq<TPredicateCont>, col: TCollectionRef) -> bool
    decreases ps,
{
    exists|k: int, j: int|
        0 <= k < ps.len() && 0 <= j < ps[k].objects.len() && collection_in_object(
            #[trigger] ps[k].objects@[j],
            col,
        )
}

/// The collection `col` stands somewhere in the block.
pub open spec fn collection_in_block(sc: TSubjectCont, col: TCollectionRef) -> bool {
    collection_in_subject(sc.subject, col) || collection_in_predicates(sc.predicates@, col)
}

/// The collection is as the classification wants it, at some depth.
pub open spec fn collection_fits(c: Classes, col: TCollectionRef) -> bool {
    exists|fuel: nat| #[trigger] collection_ok(c, fuel, col)
}

proof fn lemma_collection_in_object(c: Classes, fuel: nat, o: TObject, col: TCollectionRef)
    requires
        object_ok(c, fuel, o),
        collection_in_object(o, col),
    ensures
        collection_fits(c, col),
    decreases o,
{
    match o {
        TObject::BlankNodeAnonymous(bn) => {
            assert(inline_ok(c, fuel, bn));
            lemma_collection_in_predicates(
                c,
                (fuel - 1) as nat,
                SubjectView::BlankNode(bn.node.0@),
                bn.predicates@,
                col,
            );
        },
        TObject::Collection(TCollection::WithContent(outer)) => {
            lemma_collection_in_collection(c, fuel, outer, col);
        },
        TObject::Triple(t) => {
            if collection_in_subject(t.0, col) {
                lemma_collection_in_subject(c, 0, t.0, col);
            } else {
                lemma_collection_in_object(c, 0, t.2, col);
            }
        },
        _ => {},
    }
}

proof fn lemma_collection_in_subject(c: Classes, fuel: nat, s: TSubject, col: TCollectionRef)
    requires
        subject_ok(c, fuel, s),
        collection_in_subject(s, col),
    ensures
        collection_fits(c, col),
    decreases s,
{
    match s {
        TSubject::BlankNodeAnonymous(bn) => {
            assert(inline_ok(c, fuel, bn));
            lemma_collection_in_predicates(
                c,
                (fuel - 1) as nat,
                SubjectView::BlankNode(bn.node.0@),
                bn.predicates@,
                col,
            );
        },
        TSubject::Collection(TCollection::WithContent(outer)) => {
            lemma_collection_in_collection(c, fuel, outer, col);
        },
        _ => {},
    }
}

proof fn lemma_collection_in_collection(c: Classes, fuel: nat, outer: TCollectionRef, col: TCollectionRef)
    requires
        collection_ok(c, fuel, outer),
        collection_in_collection(outer, col),
    ensures
        collection_fits(c, col),
    decreases outer,
{
    if outer == col {
        assert(collection_ok(c, fuel, col));
    } else if collection_in_predicates(outer.node.predicates@, col) {
        lemma_collection_in_predicates(
            c,
            (fuel - 1) as nat,
            SubjectView::BlankNode(outer.node.node.0@),
            outer.node.predicates@,
            col,
        );
    } else {
        let i = choose|i: int| 0 <= i < outer.rest.len() && collection_in_object(#[trigger] outer.rest@[i], col);
        lemma_collection_in_object(c, (fuel - 1) as nat, outer.rest@[i], col);
    }
}

proof fn lemma_collection_in_predicates(
    c: Classes,
    fuel: nat,
    s: SubjectView,
    ps: Seq<TPredicateCont>,
    col: TCollectionRef,
)
    requires
        predicates_ok(c, fuel, s, ps),
        collection_in_predicates(ps, col),
    ensures
        collection_fits(c, col),
    decreases ps,
{
    let (k, j) = choose|k: int, j: int|
        0 <= k < ps.len() && 0 <= j < ps[k].objects.len() && collection_in_object(
            #[trigger] ps[k].objects@[j],
            col,
        );
    assert(predicate_ok(c, fuel, s, ps[k]));
    assert(c.visible(s).contains(entry_triple(s, ps[k], j)) && object_ok(c, fuel, ps[k].objects@[j]));
    lemma_collection_in_object(c, fuel, ps[k].objects@[j], col);
}

/// A collection that stands anywhere in a block that is as the
/// classification wants it is so itself.
pub proof fn lemma_collection_in_block(c: Classes, fuel: nat, block: TSubjectCont, col: TCollectionRef)
    requires
        subject_cont_ok(c, fuel, block),
        collection_in_block(block, col),
    ensures
        collection_fits(c, col),
{
    if collection_in_subject(block.subject, col) {
        lemma_collection_in_subject(c, fuel, block.subject, col);
    } else {
        lemma_collection_in_predicates(c, fuel, subject_term(block.subject), block.predicates@, col);
    }
}

/// The collection `b` is the collection `a` with its elements in their
/// places: it is `a` itself, or `a` with each element sorted within
/// itself.
pub open spec fn places_kept(ctx: SortingContext, a: TCollectionRef, b: TCollectionRef) -> bool {
    b == a || collection_sorted(ctx, a, b)
}

/// The collection `a` stands in the object with its elements in their
/// places.
pub open spec fn stays_in_object(ctx: SortingContext, n: TObject, a: TCollectionRef) -> bool {
    exists|b: TCollectionRef| #[trigger] collection_in_object(n, b) && places_kept(ctx, a, b)
}

/// The collection `a` stands in the subject with its elements in their
/// places.
pub open spec fn stays_in_subject(ctx: SortingContext, n: TSubject, a: TCollectionRef) -> bool {
    exists|b: TCollectionRef| #[trigger] collection_in_subject(n, b) && places_kept(ctx, a, b)
}

/// The collection `a` stands in the collection `y` with its elements in
/// their places.
pub open spec fn stays_in_collection(ctx: SortingContext, y: TCollectionRef, a: TCollectionRef) -> bool {
    exists|b: TCollectionRef| #[trigger] collection_in_collection(y, b) && places_kept(ctx, a, b)
}

/// The collection `a` stands under the predicates with its elements in
/// their places.
pub open spec fn stays_in_predicates(ctx: SortingContext, new: Seq<TPredicateCont>, a: TCollectionRef) -> bool {
    exists|b: TCollectionRef| #[trigger] collection_in_predicates(new, b) && places_kept(ctx, a, b)
}

/// The collection `a` stands in one of the blocks with its elements in
/// their places.
pub open spec fn stays_in_blocks(ctx: SortingContext, new: Seq<TSubjectCont>, a: TCollectionRef) -> bool {
    exists|k: int, b: TCollectionRef|
        0 <= k < new.len() && #[trigger] collection_in_block(new[k], b) && places_kept(ctx, a, b)
}

proof fn lemma_stays_in_object(ctx: SortingContext, o: TObject, n: TObject, a: TCollectionRef)
    requires
        object_sorted(ctx, o, n),
        collection_in_object(o, a),
    ensures
        stays_in_object(ctx, n, a),
    decreases o,
{
    match o {
        TObject::Collection(TCollection::WithContent(x)) => {
            let y = n->Collection_0->WithContent_0;
            lemma_stays_in_collection(ctx, x, y, a);
            let b = choose|b: TCollectionRef| #[trigger] collection_in_collection(y, b) && places_kept(ctx, a, b);
            assert(collection_in_object(n, b));
        },
        TObject::BlankNodeAnonymous(x) => {
            let y = n->BlankNodeAnonymous_0;
            lemma_stays_in_predicates(ctx, x.predicates@, y.predicates@, a);
            let b = choose|b: TCollectionRef|
                #[trigger] collection_in_predicates(y.predicates@, b) && places_kept(ctx, a, b);
            assert(collection_in_object(n, b));
        },
        TObject::Triple(x) => {
            let y = n->Triple_0;
            if collection_in_subject(x.0, a) {
                assert(collection_in_object(n, a));
            } else {
                lemma_stays_in_object(ctx, x.2, y.2, a);
                let b = choose|b: TCollectionRef| #[trigger] collection_in_object(y.2, b) && places_kept(ctx, a, b);
                assert(collection_in_object(n, b));
            }
        },
        _ => {},
    }
}

proof fn lemma_stays_in_collection(ctx: SortingContext, x: TCollectionRef, y: TCollectionRef, a: TCollectionRef)
    requires
        collection_sorted(ctx, x, y),
        collection_in_collection(x, a),
    ensures
        stays_in_collection(ctx, y, a),
    decreases x,
{
    if x == a {
        assert(collection_in_collection(y, y) && places_kept(ctx, a, y));
    } else if collection_in_predicates(x.node.predicates@, a) {
        assert(collection_in_collection(y, a) && places_kept(ctx, a, a));
    } else {
        let i = choose|i: int| 0 <= i < x.rest.len() && collection_in_object(#[trigger] x.rest@[i], a);
        assert(object_sorted(ctx, x.rest@[i], y.rest@[i]));
        lemma_stays_in_object(ctx, x.rest@[i], y.rest@[i], a);
        let b = choose|b: TCollectionRef| #[trigger] collection_in_object(y.rest@[i], b) && places_kept(ctx, a, b);
        assert(collection_in_collection(y, b));
    }
}

proof fn lemma_stays_in_objects(ctx: SortingContext, old: Seq<TObject>, new: Seq<TObject>, j0: int, a: TCollectionRef)
    requires
        objects_sorted(ctx, old, new),
        0 <= j0 < old.len(),
        collection_in_object(old[j0], a),
    ensures
        exists|j: int, b: TCollectionRef|
            0 <= j < new.len() && #[trigger] collection_in_object(new[j], b) && places_kept(ctx, a, b),
    decreases old,
{
    let t = sorted_seq(ctx, old);
    let (from, to) = sorted_arrangement(ctx, old);
    lemma_sorted_items(ctx, old);
    let j = to[j0];
    assert(from[j] == j0);
    assert(is_item(old, t[j]) && object_sorted(ctx, t[j], new[j]));
    assert(t[j] == old[j0]);
    lemma_stays_in_object(ctx, t[j], new[j], a);
    let b = choose|b: TCollectionRef| #[trigger] collection_in_object(new[j], b) && places_kept(ctx, a, b);
    assert(0 <= j < new.len() && collection_in_object(new[j], b) && places_kept(ctx, a, b));
}

proof fn lemma_stays_in_predicates(
    ctx: SortingContext,
    old: Seq<TPredicateCont>,
    new: Seq<TPredicateCont>,
    a: TCollectionRef,
)
    requires
        predicates_sorted(ctx, old, new),
        collection_in_predicates(old, a),
    ensures
        stays_in_predicates(ctx, new, a),
    decreases old,
{
    let (k0, j0) = choose|k0: int, j0: int|
        0 <= k0 < old.len() && 0 <= j0 < old[k0].objects.len() && collection_in_object(
            #[trigger] old[k0].objects@[j0],
            a,
        );
    let t = sorted_seq(ctx, old);
    let (from, to) = sorted_arrangement(ctx, old);
    lemma_sorted_items(ctx, old);
    let k = to[k0];
    assert(from[k] == k0);
    assert(new[k].predicate == t[k].predicate && is_item(old, t[k]) && objects_sorted(
        ctx,
        t[k].objects@,
        new[k].objects@,
    ));
    assert(t[k] == old[k0]);
    lemma_stays_in_objects(ctx, t[k].objects@, new[k].objects@, j0, a);
    let (j, b) = choose|j: int, b: TCollectionRef|
        0 <= j < new[k].objects@.len() && #[trigger] collection_in_object(new[k].objects@[j], b) && places_kept(
            ctx,
            a,
            b,
        );
    assert(collection_in_object(new[k].objects@[j], b));
    assert(collection_in_predicates(new, b));
}

proof fn lemma_stays_in_subject(ctx: SortingContext, s: TSubject, n: TSubject, a: TCollectionRef)
    requires
        subject_sorted(ctx, s, n),
        collection_in_subject(s, a),
    ensures
        stays_in_subject(ctx, n, a),
{
    match s {
        TSubject::Collection(TCollection::WithContent(x)) => {
            let y = n->Collection_0->WithContent_0;
            lemma_stays_in_collection(ctx, x, y, a);
            let b = choose|b: TCollectionRef| #[trigger] collection_in_collection(y, b) && places_kept(ctx, a, b);
            assert(collection_in_subject(n, b));
        },
        TSubject::BlankNodeAnonymous(x) => {
            let y = n->BlankNodeAnonymous_0;
            lemma_stays_in_predicates(ctx, x.predicates@, y.predicates@, a);
            let b = choose|b: TCollectionRef|
                #[trigger] collection_in_predicates(y.predicates@, b) && places_kept(ctx, a, b);
            assert(collection_in_subject(n, b));
        },
        TSubject::Triple(x) => {
            let y = n->Triple_0;
            if collection_in_subject(x.0, a) {
                assert(collection_in_subject(n, a));
            } else {
                lemma_stays_in_object(ctx, x.2, y.2, a);
                let b = choose|b: TCollectionRef| #[trigger] collection_in_object(y.2, b) && places_kept(ctx, a, b);
                assert(collection_in_subject(n, b));
            }
        },
        _ => {},
    }
}

/// Sorting never reorders the elements of a collection, however deep the
/// collection stands: a collection that stands anywhere in the blocks
/// before they are sorted stands in the sorted blocks with as many
/// elements, each in its place, and each at most sorted within itself.
pub proof fn lemma_sorting_keeps_every_collection(
    ctx: SortingContext,
    old: Seq<TSubjectCont>,
    new: Seq<TSubjectCont>,
    k0: int,
    a: TCollectionRef,
)
    requires
        subjects_sorted(ctx, old, new),
        0 <= k0 < old.len(),
        collection_in_block(old[k0], a),
    ensures
        stays_in_blocks(ctx, new, a),
{
    let t = sorted_seq(ctx, old);
    let (from, to) = sorted_arrangement(ctx, old);
    let k = to[k0];
    assert(from[k] == k0);
    assert(t[k] == old[k0]);
    assert(subject_cont_sorted(ctx, t[k], new[k]));
    if collection_in_subject(old[k0].subject, a) {
        lemma_stays_in_subject(ctx, t[k].subject, new[k].subject, a);
        let b = choose|b: TCollectionRef| #[trigger] collection_in_subject(new[k].subject, b) && places_kept(ctx, a, b);
        assert(collection_in_block(new[k], b));
    } else {
        lemma_stays_in_predicates(ctx, t[k].predicates@, new[k].predicates@, a);
        let b = choose|b: TCollectionRef|
            #[trigger] collection_in_predicates(new[k].predicates@, b) && places_kept(ctx, a, b);
        assert(collection_in_block(new[k], b));
    }
}

/// The elements of a collection are those of the chain of its head in the
/// graph, in the order of the chain.
pub open spec fn lists_its_chain(g: Set<RdfTripleView>, col: TCollectionRef) -> bool {
    match collection_at(g, col.node.node.0@) {
        Some(elements) => col.rest.len() == elements.len() && forall|i: int|
            0 <= i < elements.len() ==> object_term(#[trigger] col.rest@[i]) == elements[i],
        None => false,
    }
}

/// A collection that is as the classification of the graph wants it
/// holds the elements of the chain of its head, in the order of the chain.
/// If a triple of the graph refers to its head, it holds no triple of its
/// own: the head then has none besides those of the list.
pub proof fn lemma_collection_lists_its_chain(
    input: Input,
    unreferenced: Seq<String>,
    max_nesting: bool,
    col: TCollectionRef,
)
    requires
        collection_fits(graph_classes(input, unreferenced, max_nesting), col),
    ensures
        lists_its_chain(graph_triples(input.graph), col),
        is_object_in(graph_triples(input.graph), col.node.node.0@) ==> col.node.predicates.len() == 0,
{
    let c = graph_classes(input, unreferenced, max_nesting);
    let g = graph_triples(input.graph);
    let b = col.node.node.0@;
    let fuel = choose|fuel: nat| #[trigger] collection_ok(c, fuel, col);
    assert(c.collections.dom().contains(b));
    assert(c.collections[b] == collection_at(g, b).unwrap());
    if is_object_in(g, b) && col.node.predicates.len() > 0 {
        let s = SubjectView::BlankNode(b);
        let p = col.node.predicates@[0];
        assert(predicate_ok(c, (fuel - 1) as nat, s, p));
        let t = entry_triple(s, p, 0);
        assert(c.visible(s).contains(t));
        assert(head_writable(g, b));
        assert(only_links(g, b));
        assert(is_link_triple(t));
        assert(link_ok(g, b, true));
        assert(chain_nodes(g, b, true, g.len())[0] == b);
        assert(is_consumed_by(g, b, t));
        assert(is_consumed(g, t));
    }
}

} // verus!
