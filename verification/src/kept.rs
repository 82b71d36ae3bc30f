//! Sorting keeps a tree true to its graph.
//!
//! A tree that is as the classification of the graph wants it is still so
//! after sorting: every node stands for the term it stood for, and every
//! visible triple of a subject is still written exactly once under it.
use crate::arrange::{is_arrangement, rearranged, sorted_arrangement};
use crate::ast::{
    TBlankNode, TCollection, TCollectionRef, TObject, TPredicateCont, TSubject, TSubjectCont, TTriple,
};
use crate::builder::{
    blocks_ok, collection_ok, covered, entry_triple, inline_ok, object_ok, object_term, predicate_ok,
    predicates_ok, subject_cont_ok, subject_ok, subject_term, triple_ok, triple_term, Classes,
};
use crate::compare::SortingContext;
use crate::sorting::{
    blank_node_sorted, collection_sorted, is_item, lemma_sorted_items, object_sorted, objects_sorted,
    predicates_sorted, sorted_seq, subject_cont_sorted, subject_sorted, subjects_sorted, triple_sorted,
};
use crate::term::{RdfTripleView, SubjectView};
use vstd::prelude::*;

verus! {

/// An object that is as it should be is still so after sorting, and stands
/// for the same term.
pub proof fn lemma_object_kept(c: Classes, fuel: nat, ctx: SortingContext, o: TObject, n: TObject)
    requires
        object_ok(c, fuel, o),
        object_sorted(ctx, o, n),
    ensures
        object_ok(c, fuel, n),
        object_term(n) == object_term(o),
    decreases o,
{
    match o {
        TObject::Collection(TCollection::WithContent(a)) => {
            let b = n->Collection_0->WithContent_0;
            lemma_collection_kept(c, fuel, ctx, a, b);
        },
        TObject::BlankNodeAnonymous(a) => {
            let b = n->BlankNodeAnonymous_0;
            lemma_blank_node_kept(c, fuel, ctx, a, b);
        },
        TObject::Triple(a) => {
            let b = n->Triple_0;
            lemma_triple_kept(c, fuel, ctx, *a, *b);
        },
        _ => {},
    }
}

/// A collection that is as it should be is still so after sorting.
pub proof fn lemma_collection_kept(c: Classes, fuel: nat, ctx: SortingContext, a: TCollectionRef, b: TCollectionRef)
    requires
        collection_ok(c, fuel, a),
        collection_sorted(ctx, a, b),
    ensures
        collection_ok(c, fuel, b),
        b.node == a.node,
    decreases a,
{
    assert forall|i: int| 0 <= i < b.rest.len() implies object_term(#[trigger] b.rest@[i])
        == c.collections[b.node.node.0@][i] && object_ok(c, (fuel - 1) as nat, b.rest@[i]) by {
        assert(object_sorted(ctx, a.rest@[i], b.rest@[i]));
        assert(object_term(a.rest@[i]) == c.collections[a.node.node.0@][i]);
        lemma_object_kept(c, (fuel - 1) as nat, ctx, a.rest@[i], b.rest@[i]);
    }
}

/// An inline blank node that is as it should be is still so after sorting.
pub proof fn lemma_blank_node_kept(c: Classes, fuel: nat, ctx: SortingContext, a: TBlankNode, b: TBlankNode)
    requires
        inline_ok(c, fuel, a),
        blank_node_sorted(ctx, a, b),
    ensures
        inline_ok(c, fuel, b),
        b.node == a.node,
    decreases a,
{
    lemma_predicates_kept(
        c,
        (fuel - 1) as nat,
        ctx,
        SubjectView::BlankNode(a.node.0@),
        a.predicates@,
        b.predicates@,
    );
}

/// A quoted triple that is as it should be is still so after sorting, and
/// stands for the same triple.
pub proof fn lemma_triple_kept(c: Classes, fuel: nat, ctx: SortingContext, a: TTriple, b: TTriple)
    requires
        triple_ok(c, fuel, a),
        triple_sorted(ctx, a, b),
    ensures
        triple_ok(c, fuel, b),
        triple_term(b) == triple_term(a),
    decreases a,
{
    lemma_object_kept(c, 0, ctx, a.2, b.2);
}

/// A predicate with its objects that is as it should be is still so when
/// its objects are sorted, and its objects stand for the same triples.
pub proof fn lemma_predicate_kept(
    c: Classes,
    fuel: nat,
    ctx: SortingContext,
    s: SubjectView,
    p: TPredicateCont,
    q: TPredicateCont,
)
    requires
        predicate_ok(c, fuel, s, p),
        q.predicate == p.predicate,
        objects_sorted(ctx, p.objects@, q.objects@),
    ensures
        predicate_ok(c, fuel, s, q),
        forall|j0: int|
            0 <= j0 < p.objects.len() ==> exists|j: int|
                0 <= j < q.objects.len() && entry_triple(s, q, j) == #[trigger] entry_triple(s, p, j0),
    decreases p,
{
    let old = p.objects@;
    let new = q.objects@;
    let t = sorted_seq(ctx, old);
    let (from, to) = sorted_arrangement(ctx, old);
    lemma_sorted_items(ctx, old);
    assert forall|j: int| 0 <= j < new.len() implies object_ok(c, fuel, #[trigger] new[j]) && object_term(
        new[j],
    ) == object_term(old[from[j]]) by {
        assert(is_item(old, t[j]) && object_sorted(ctx, t[j], new[j]));
        assert(t[j] == old[from[j]]);
        assert(c.visible(s).contains(entry_triple(s, p, from[j])) && object_ok(c, fuel, old[from[j]]));
        lemma_object_kept(c, fuel, ctx, t[j], new[j]);
    }
    assert forall|j: int| 0 <= j < q.objects.len() implies c.visible(s).contains(
        #[trigger] entry_triple(s, q, j),
    ) && object_ok(c, fuel, q.objects@[j]) by {
        assert(object_ok(c, fuel, new[j]));
        assert(entry_triple(s, q, j) == entry_triple(s, p, from[j]));
    }
    assert forall|i: int, j: int| 0 <= i < j < q.objects.len() implies object_term(
        #[trigger] q.objects@[i],
    ) != object_term(#[trigger] q.objects@[j]) by {
        assert(object_ok(c, fuel, new[i]) && object_ok(c, fuel, new[j]));
        let x = from[i];
        let y = from[j];
        assert(to[x] == i && to[y] == j);
        if x < y {
            assert(object_term(p.objects@[x]) != object_term(p.objects@[y]));
        } else {
            assert(object_term(p.objects@[y]) != object_term(p.objects@[x]));
        }
    }
    assert forall|j0: int| 0 <= j0 < p.objects.len() implies exists|j: int|
        0 <= j < q.objects.len() && entry_triple(s, q, j) == #[trigger] entry_triple(s, p, j0) by {
        let j = to[j0];
        assert(from[j] == j0);
        assert(object_ok(c, fuel, new[j]));
        assert(entry_triple(s, q, j) == entry_triple(s, p, j0));
    }
}

/// The predicates of a subject that are as they should be are still so
/// after sorting.
pub proof fn lemma_predicates_kept(
    c: Classes,
    fuel: nat,
    ctx: SortingContext,
    s: SubjectView,
    old: Seq<TPredicateCont>,
    new: Seq<TPredicateCont>,
)
    requires
        predicates_ok(c, fuel, s, old),
        predicates_sorted(ctx, old, new),
    ensures
        predicates_ok(c, fuel, s, new),
    decreases old,
{
    let t = sorted_seq(ctx, old);
    let (from, to) = sorted_arrangement(ctx, old);
    lemma_sorted_items(ctx, old);
    assert forall|k: int| 0 <= k < new.len() implies predicate_ok(c, fuel, s, #[trigger] new[k]) && (forall|
        j0: int,
    |
        0 <= j0 < t[k].objects.len() ==> exists|j: int|
            0 <= j < new[k].objects.len() && entry_triple(s, new[k], j) == #[trigger] entry_triple(
                s,
                t[k],
                j0,
            )) by {
        assert(new[k].predicate == t[k].predicate && is_item(old, t[k]) && objects_sorted(
            ctx,
            t[k].objects@,
            new[k].objects@,
        ));
        assert(t[k] == old[from[k]]);
        assert(predicate_ok(c, fuel, s, old[from[k]]));
        lemma_predicate_kept(c, fuel, ctx, s, t[k], new[k]);
    }
    assert forall|i: int, j: int| 0 <= i < j < new.len() implies (#[trigger] new[i]).predicate@.iri() != (
    #[trigger] new[j]).predicate@.iri() by {
        assert(new[i].predicate == t[i].predicate && new[j].predicate == t[j].predicate);
        let x = from[i];
        let y = from[j];
        assert(to[x] == i && to[y] == j);
        assert(t[i] == old[x] && t[j] == old[y]);
        if x < y {
            assert(old[x].predicate@.iri() != old[y].predicate@.iri());
        } else {
            assert(old[y].predicate@.iri() != old[x].predicate@.iri());
        }
    }
    assert forall|x: RdfTripleView| #[trigger] c.visible(s).contains(x) implies covered(new, s, x) by {
        assert(covered(old, s, x));
        let (k0, j0) = choose|k0: int, j0: int|
            0 <= k0 < old.len() && 0 <= j0 < old[k0].objects.len() && #[trigger] entry_triple(s, old[k0], j0)
                == x;
        let k = to[k0];
        assert(from[k] == k0);
        assert(t[k] == old[k0]);
        assert(predicate_ok(c, fuel, s, new[k]));
        let j = choose|j: int|
            0 <= j < new[k].objects.len() && entry_triple(s, new[k], j) == entry_triple(s, t[k], j0);
        assert(entry_triple(s, new[k], j) == x);
    }
}

/// A subject that is as it should be is still so after sorting, and stands
/// for the same node.
pub proof fn lemma_subject_kept(c: Classes, fuel: nat, ctx: SortingContext, a: TSubject, b: TSubject)
    requires
        subject_ok(c, fuel, a),
        subject_sorted(ctx, a, b),
    ensures
        subject_ok(c, fuel, b),
        subject_term(b) == subject_term(a),
{
    match a {
        TSubject::Collection(TCollection::WithContent(x)) => {
            let y = b->Collection_0->WithContent_0;
            lemma_collection_kept(c, fuel, ctx, x, y);
        },
        TSubject::BlankNodeAnonymous(x) => {
            let y = b->BlankNodeAnonymous_0;
            lemma_blank_node_kept(c, fuel, ctx, x, y);
        },
        _ => {},
    }
}

/// A block that is as it should be is still so after sorting, and is the
/// block of the same subject.
pub proof fn lemma_block_kept(c: Classes, fuel: nat, ctx: SortingContext, a: TSubjectCont, b: TSubjectCont)
    requires
        subject_cont_ok(c, fuel, a),
        subject_cont_sorted(ctx, a, b),
    ensures
        subject_cont_ok(c, fuel, b),
        subject_term(b.subject) == subject_term(a.subject),
{
    lemma_subject_kept(c, fuel, ctx, a.subject, b.subject);
    lemma_predicates_kept(c, fuel, ctx, subject_term(a.subject), a.predicates@, b.predicates@);
}

/// The blocks are those of the subjects `top`, in some order, each as the
/// classification wants it.
pub open spec fn blocks_kept(c: Classes, fuel: nat, top: Seq<SubjectView>, blocks: Seq<TSubjectCont>) -> bool {
    exists|from: Seq<int>, to: Seq<int>| #[trigger] blocks_arranged(c, fuel, top, blocks, from, to)
}

/// The blocks are those of the subjects `top`, rearranged as `from` and
/// `to` say, each as the classification wants it.
pub open spec fn blocks_arranged(
    c: Classes,
    fuel: nat,
    top: Seq<SubjectView>,
    blocks: Seq<TSubjectCont>,
    from: Seq<int>,
    to: Seq<int>,
) -> bool {
    &&& is_arrangement(from, to, top.len())
    &&& blocks.len() == top.len()
    &&& forall|k: int|
        0 <= k < blocks.len() ==> subject_term((#[trigger] blocks[k]).subject) == top[from[k]]
            && subject_cont_ok(c, fuel, blocks[k])
}

/// The blocks of a document that are as they should be are still so after
/// sorting: they are the blocks of the same subjects, in another order.
pub proof fn lemma_blocks_kept(
    c: Classes,
    fuel: nat,
    ctx: SortingContext,
    top: Seq<SubjectView>,
    built: Seq<TSubjectCont>,
    sorted: Seq<TSubjectCont>,
)
    requires
        blocks_ok(c, fuel, top, built),
        subjects_sorted(ctx, built, sorted),
    ensures
        blocks_kept(c, fuel, top, sorted),
{
    let t = sorted_seq(ctx, built);
    let (from, to) = sorted_arrangement(ctx, built);
    assert forall|k: int| 0 <= k < sorted.len() implies subject_term((#[trigger] sorted[k]).subject)
        == top[from[k]] && subject_cont_ok(c, fuel, sorted[k]) by {
        assert(subject_cont_sorted(ctx, t[k], sorted[k]));
        assert(t[k] == built[from[k]]);
        assert(subject_term(built[from[k]].subject) == top[from[k]] && subject_cont_ok(
            c,
            fuel,
            built[from[k]],
        ));
        lemma_block_kept(c, fuel, ctx, t[k], sorted[k]);
    }
    assert(blocks_arranged(c, fuel, top, sorted, from, to));
}

} // verus!
