//! The canonical order is a total order of ties: read the other way round
//! it is reversed, and it is transitive. So every sorted list of the tree
//! is in order.
use crate::ast::{
    TCollection, TCollectionRef, TLiteralRef, TNamedNode, TObject, TPredicateCont, TSubject, TSubjectCont,
    TTriple,
};
use crate::compare::{
    collections_order, elements_order, literals_order, named_subjects_order, object_kind, object_order,
    subject_order, triples_order, SortingContext,
};
use crate::laws::{
    lemma_ordered_stays, lemma_named_nodes_reversed, lemma_named_nodes_squeezed, lemma_pred_order_reversed,
    lemma_pred_order_squeezed, lemma_sorted_is_ordered, lemma_text_order_reversed,
    lemma_text_order_transitive, not_after, ordered, orders, reversed,
};
use crate::sorting::{
    collection_sorted, is_item, lemma_sorted_items, object_sorted, objects_sorted, predicates_sorted,
    sorted_seq, subject_cont_sorted, subject_sorted, subjects_sorted, triple_sorted, Sortable,
};
use std::cmp::Ordering;
use vstd::prelude::*;

verus! {

/// Of three items, the first may stand before the second and the second
/// before the third; `ab`, `bc` and `ac` are their orders. Then the first
/// may stand before the third, and if those two are equal in order, all
/// three are.
pub open spec fn squeezed(ab: Ordering, bc: Ordering, ac: Ordering) -> bool {
    not_after(ab) && not_after(bc) ==> not_after(ac) && (ac == Ordering::Equal ==> ab == Ordering::Equal && bc
        == Ordering::Equal)
}

/// The order of literals, read the other way round.
pub proof fn lemma_literals_reversed(a: TLiteralRef, b: TLiteralRef)
    ensures
        literals_order(b, a) == reversed(literals_order(a, b)),
{
    match (a.1, b.1) {
        (Some(x), Some(y)) => {
            lemma_named_nodes_reversed(x, y);
        },
        _ => {},
    }
    lemma_text_order_reversed(a.0.datatype@, b.0.datatype@);
    match (a.0.language, b.0.language) {
        (Some(x), Some(y)) => {
            lemma_text_order_reversed(x@, y@);
        },
        _ => {},
    }
    lemma_text_order_reversed(a.0.value@, b.0.value@);
}

/// The order of literals is transitive.
pub proof fn lemma_literals_squeezed(a: TLiteralRef, b: TLiteralRef, c: TLiteralRef)
    ensures
        squeezed(literals_order(a, b), literals_order(b, c), literals_order(a, c)),
{
    match (a.1, b.1, c.1) {
        (Some(x), Some(y), Some(z)) => {
            lemma_named_nodes_squeezed(x, y, z);
        },
        _ => {},
    }
    lemma_text_squeezed(a.0.datatype@, b.0.datatype@, c.0.datatype@);
    match (a.0.language, b.0.language, c.0.language) {
        (Some(x), Some(y), Some(z)) => {
            lemma_text_squeezed(x@, y@, z@);
        },
        _ => {},
    }
    lemma_text_squeezed(a.0.value@, b.0.value@, c.0.value@);
}

/// The order of texts is transitive.
pub proof fn lemma_text_squeezed(a: Seq<char>, b: Seq<char>, c: Seq<char>)
    ensures
        squeezed(
            crate::text::text_order(a, b),
            crate::text::text_order(b, c),
            crate::text::text_order(a, c),
        ),
{
    if not_after(crate::text::text_order(a, b)) && not_after(crate::text::text_order(b, c)) {
        lemma_text_order_transitive(a, b, c);
    }
}

/// The order of named subjects, read the other way round.
pub proof fn lemma_named_subjects_reversed(ctx: SortingContext, a: TNamedNode, b: TNamedNode)
    ensures
        named_subjects_order(ctx, b, a) == reversed(named_subjects_order(ctx, a, b)),
{
    lemma_named_nodes_reversed(a, b);
}

/// The order of named subjects is transitive.
pub proof fn lemma_named_subjects_squeezed(ctx: SortingContext, a: TNamedNode, b: TNamedNode, c: TNamedNode)
    ensures
        squeezed(
            named_subjects_order(ctx, a, b),
            named_subjects_order(ctx, b, c),
            named_subjects_order(ctx, a, c),
        ),
{
    lemma_named_nodes_squeezed(a, b, c);
}

/// The order of objects, read the other way round.
pub proof fn lemma_object_reversed(ctx: SortingContext, a: TObject, b: TObject)
    ensures
        object_order(ctx, b, a) == reversed(object_order(ctx, a, b)),
    decreases a, 0nat,
{
    match (a, b) {
        (TObject::NamedNode(x), TObject::NamedNode(y)) => {
            lemma_named_nodes_reversed(x, y);
        },
        (TObject::Collection(x), TObject::Collection(y)) => {
            lemma_collections_reversed(ctx, x, y);
        },
        (TObject::Literal(x), TObject::Literal(y)) => {
            lemma_literals_reversed(x, y);
        },
        (TObject::Triple(x), TObject::Triple(y)) => {
            lemma_triples_reversed(ctx, *x, *y);
        },
        _ => {},
    }
}

/// The order of subjects, read the other way round.
pub proof fn lemma_subject_reversed(ctx: SortingContext, a: TSubject, b: TSubject)
    ensures
        subject_order(ctx, b, a) == reversed(subject_order(ctx, a, b)),
    decreases a, 0nat,
{
    match (a, b) {
        (TSubject::NamedNode(x), TSubject::NamedNode(y)) => {
            lemma_named_subjects_reversed(ctx, x, y);
        },
        (TSubject::Collection(x), TSubject::Collection(y)) => {
            lemma_collections_reversed(ctx, x, y);
        },
        (TSubject::Triple(x), TSubject::Triple(y)) => {
            lemma_triples_reversed(ctx, *x, *y);
        },
        _ => {},
    }
}

/// The order of quoted triples, read the other way round.
pub proof fn lemma_triples_reversed(ctx: SortingContext, a: TTriple, b: TTriple)
    ensures
        triples_order(ctx, b, a) == reversed(triples_order(ctx, a, b)),
    decreases a, 0nat,
{
    lemma_subject_reversed(ctx, a.0, b.0);
    lemma_pred_order_reversed(ctx, a.1, b.1);
    lemma_object_reversed(ctx, a.2, b.2);
}

/// The order of collections, read the other way round.
pub proof fn lemma_collections_reversed(ctx: SortingContext, a: TCollection, b: TCollection)
    ensures
        collections_order(ctx, b, a) == reversed(collections_order(ctx, a, b)),
    decreases a, 0nat,
{
    match (a, b) {
        (TCollection::WithContent(x), TCollection::WithContent(y)) => {
            lemma_elements_reversed(ctx, x.rest@, y.rest@, 0);
        },
        _ => {},
    }
}

/// The order of lists of elements, read the other way round.
pub proof fn lemma_elements_reversed(ctx: SortingContext, a: Seq<TObject>, b: Seq<TObject>, i: int)
    requires
        0 <= i,
    ensures
        elements_order(ctx, b, a, i) == reversed(elements_order(ctx, a, b, i)),
    decreases a, a.len() - i,
{
    if i < a.len() && i < b.len() {
        lemma_object_reversed(ctx, a[i], b[i]);
        lemma_elements_reversed(ctx, a, b, i + 1);
    }
}

/// An object is equal to itself in order.
pub proof fn lemma_object_reflexive(ctx: SortingContext, a: TObject)
    ensures
        object_order(ctx, a, a) == Ordering::Equal,
{
    lemma_object_reversed(ctx, a, a);
}

/// A subject is equal to itself in order.
pub proof fn lemma_subject_reflexive(ctx: SortingContext, a: TSubject)
    ensures
        subject_order(ctx, a, a) == Ordering::Equal,
{
    lemma_subject_reversed(ctx, a, a);
}

/// The order of objects is transitive.
pub proof fn lemma_object_squeezed(ctx: SortingContext, a: TObject, b: TObject, c: TObject)
    ensures
        squeezed(object_order(ctx, a, b), object_order(ctx, b, c), object_order(ctx, a, c)),
    decreases a, 0nat,
{
    match (a, b, c) {
        (TObject::NamedNode(x), TObject::NamedNode(y), TObject::NamedNode(z)) => {
            lemma_named_nodes_squeezed(x, y, z);
        },
        (TObject::Collection(x), TObject::Collection(y), TObject::Collection(z)) => {
            lemma_collections_squeezed(ctx, x, y, z);
        },
        (TObject::Literal(x), TObject::Literal(y), TObject::Literal(z)) => {
            lemma_literals_squeezed(x, y, z);
        },
        (TObject::Triple(x), TObject::Triple(y), TObject::Triple(z)) => {
            lemma_triples_squeezed(ctx, *x, *y, *z);
        },
        _ => {},
    }
}

/// The order of subjects is transitive.
pub proof fn lemma_subject_squeezed(ctx: SortingContext, a: TSubject, b: TSubject, c: TSubject)
    ensures
        squeezed(subject_order(ctx, a, b), subject_order(ctx, b, c), subject_order(ctx, a, c)),
    decreases a, 0nat,
{
    match (a, b, c) {
        (TSubject::NamedNode(x), TSubject::NamedNode(y), TSubject::NamedNode(z)) => {
            lemma_named_subjects_squeezed(ctx, x, y, z);
        },
        (TSubject::Collection(x), TSubject::Collection(y), TSubject::Collection(z)) => {
            lemma_collections_squeezed(ctx, x, y, z);
        },
        (TSubject::Triple(x), TSubject::Triple(y), TSubject::Triple(z)) => {
            lemma_triples_squeezed(ctx, *x, *y, *z);
        },
        _ => {},
    }
}

/// The order of quoted triples is transitive.
pub proof fn lemma_triples_squeezed(ctx: SortingContext, a: TTriple, b: TTriple, c: TTriple)
    ensures
        squeezed(triples_order(ctx, a, b), triples_order(ctx, b, c), triples_order(ctx, a, c)),
    decreases a, 0nat,
{
    lemma_subject_squeezed(ctx, a.0, b.0, c.0);
    lemma_pred_order_squeezed(ctx, a.1, b.1, c.1);
    lemma_object_squeezed(ctx, a.2, b.2, c.2);
}

/// The order of collections is transitive.
pub proof fn lemma_collections_squeezed(ctx: SortingContext, a: TCollection, b: TCollection, c: TCollection)
    ensures
        squeezed(collections_order(ctx, a, b), collections_order(ctx, b, c), collections_order(ctx, a, c)),
    decreases a, 0nat,
{
    match (a, b, c) {
        (TCollection::WithContent(x), TCollection::WithContent(y), TCollection::WithContent(z)) => {
            lemma_elements_squeezed(ctx, x.rest@, y.rest@, z.rest@, 0);
        },
        _ => {},
    }
}

/// The order of lists of elements is transitive.
pub proof fn lemma_elements_squeezed(
    ctx: SortingContext,
    a: Seq<TObject>,
    b: Seq<TObject>,
    c: Seq<TObject>,
    i: int,
)
    requires
        0 <= i,
    ensures
        squeezed(elements_order(ctx, a, b, i), elements_order(ctx, b, c, i), elements_order(ctx, a, c, i)),
    decreases a, a.len() - i,
{
    if i < a.len() && i < b.len() && i < c.len() {
        lemma_object_squeezed(ctx, a[i], b[i], c[i]);
        lemma_elements_squeezed(ctx, a, b, c, i + 1);
    }
}

/// The comparison of objects is an order among any objects: every sorted
/// list of objects is in order.
pub proof fn lemma_objects_are_ordered(ctx: SortingContext, list: Seq<TObject>)
    ensures
        orders(ctx, list),
        ordered(ctx, sorted_seq(ctx, list)),
{
    assert forall|a: TObject, b: TObject|
        is_item(list, a) && is_item(list, b) && #[trigger] TObject::comes_after(
            ctx,
            a,
            b,
        ) implies !TObject::comes_after(ctx, b, a) by {
        lemma_object_reversed(ctx, a, b);
    }
    assert forall|a: TObject, b: TObject, c: TObject|
        is_item(list, a) && is_item(list, b) && is_item(list, c) && !(#[trigger] TObject::comes_after(
            ctx,
            a,
            b,
        )) && !(#[trigger] TObject::comes_after(ctx, b, c)) implies !TObject::comes_after(ctx, a, c) by {
        lemma_object_squeezed(ctx, a, b, c);
    }
    lemma_sorted_is_ordered(ctx, list);
}

/// The comparison of blocks is an order among any blocks: every sorted
/// list of blocks is in order.
pub proof fn lemma_blocks_are_ordered(ctx: SortingContext, list: Seq<TSubjectCont>)
    ensures
        orders(ctx, list),
        ordered(ctx, sorted_seq(ctx, list)),
{
    assert forall|a: TSubjectCont, b: TSubjectCont|
        is_item(list, a) && is_item(list, b) && #[trigger] TSubjectCont::comes_after(
            ctx,
            a,
            b,
        ) implies !TSubjectCont::comes_after(ctx, b, a) by {
        lemma_subject_reversed(ctx, a.subject, b.subject);
    }
    assert forall|a: TSubjectCont, b: TSubjectCont, c: TSubjectCont|
        is_item(list, a) && is_item(list, b) && is_item(list, c) && !(#[trigger] TSubjectCont::comes_after(
            ctx,
            a,
            b,
        )) && !(#[trigger] TSubjectCont::comes_after(ctx, b, c)) implies !TSubjectCont::comes_after(
        ctx,
        a,
        c,
    ) by {
        lemma_subject_squeezed(ctx, a.subject, b.subject, c.subject);
    }
    lemma_sorted_is_ordered(ctx, list);
}

/// The order of two objects is the same after both are sorted within
/// themselves.
pub proof fn lemma_object_blind(ctx: SortingContext, a: TObject, a2: TObject, b: TObject, b2: TObject)
    requires
        object_sorted(ctx, a, a2),
        object_sorted(ctx, b, b2),
    ensures
        object_order(ctx, a2, b2) == object_order(ctx, a, b),
        object_kind(a2) == object_kind(a),
    decreases a, 0nat,
{
    match (a, b) {
        (TObject::Collection(x), TObject::Collection(y)) => {
            let x2 = a2->Collection_0;
            let y2 = b2->Collection_0;
            lemma_collections_blind(ctx, x, x2, y, y2);
        },
        (TObject::Triple(x), TObject::Triple(y)) => {
            lemma_triples_blind(ctx, *x, *a2->Triple_0, *y, *b2->Triple_0);
        },
        _ => {},
    }
}

/// `b` is the collection `a`, sorted within itself.
pub open spec fn whole_collection_sorted(ctx: SortingContext, a: TCollection, b: TCollection) -> bool {
    match a {
        TCollection::WithContent(x) => b is WithContent && collection_sorted(ctx, x, b->WithContent_0),
        TCollection::Empty => b is Empty,
    }
}

/// The order of two collections is the same after both are sorted within
/// themselves.
pub proof fn lemma_collections_blind(
    ctx: SortingContext,
    a: TCollection,
    a2: TCollection,
    b: TCollection,
    b2: TCollection,
)
    requires
        whole_collection_sorted(ctx, a, a2),
        whole_collection_sorted(ctx, b, b2),
    ensures
        collections_order(ctx, a2, b2) == collections_order(ctx, a, b),
    decreases a, 0nat,
{
    match (a, b) {
        (TCollection::WithContent(x), TCollection::WithContent(y)) => {
            let x2 = a2->WithContent_0;
            let y2 = b2->WithContent_0;
            lemma_elements_blind(ctx, x.rest@, x2.rest@, y.rest@, y2.rest@, 0);
        },
        _ => {},
    }
}

/// The order of two lists of elements is the same after every element is
/// sorted within itself.
pub proof fn lemma_elements_blind(
    ctx: SortingContext,
    a: Seq<TObject>,
    a2: Seq<TObject>,
    b: Seq<TObject>,
    b2: Seq<TObject>,
    i: int,
)
    requires
        0 <= i,
        a2.len() == a.len(),
        b2.len() == b.len(),
        forall|k: int| 0 <= k < a.len() ==> object_sorted(ctx, #[trigger] a[k], a2[k]),
        forall|k: int| 0 <= k < b.len() ==> object_sorted(ctx, #[trigger] b[k], b2[k]),
    ensures
        elements_order(ctx, a2, b2, i) == elements_order(ctx, a, b, i),
    decreases a, a.len() - i,
{
    if i < a.len() && i < b.len() {
        lemma_object_blind(ctx, a[i], a2[i], b[i], b2[i]);
        lemma_elements_blind(ctx, a, a2, b, b2, i + 1);
    }
}

/// The order of two quoted triples is the same after both are sorted
/// within themselves.
pub proof fn lemma_triples_blind(ctx: SortingContext, a: TTriple, a2: TTriple, b: TTriple, b2: TTriple)
    requires
        triple_sorted(ctx, a, a2),
        triple_sorted(ctx, b, b2),
    ensures
        triples_order(ctx, a2, b2) == triples_order(ctx, a, b),
    decreases a, 0nat,
{
    lemma_object_blind(ctx, a.2, a2.2, b.2, b2.2);
}

/// The order of two subjects is the same after both are sorted within
/// themselves.
pub proof fn lemma_subject_blind(ctx: SortingContext, a: TSubject, a2: TSubject, b: TSubject, b2: TSubject)
    requires
        subject_sorted(ctx, a, a2),
        subject_sorted(ctx, b, b2),
    ensures
        subject_order(ctx, a2, b2) == subject_order(ctx, a, b),
{
    match (a, b) {
        (TSubject::Collection(x), TSubject::Collection(y)) => {
            lemma_collections_blind(ctx, x, a2->Collection_0, y, b2->Collection_0);
        },
        (TSubject::Triple(x), TSubject::Triple(y)) => {
            lemma_triples_blind(ctx, *x, *a2->Triple_0, *y, *b2->Triple_0);
        },
        _ => {},
    }
}

/// After sorting, the objects of a predicate are in order.
pub proof fn lemma_sorted_objects_in_order(ctx: SortingContext, old: Seq<TObject>, new: Seq<TObject>)
    requires
        objects_sorted(ctx, old, new),
    ensures
        ordered(ctx, new),
{
    let s = sorted_seq(ctx, old);
    lemma_objects_are_ordered(ctx, old);
    lemma_sorted_items(ctx, old);
    assert forall|i: int, j: int| 0 <= i < j < new.len() implies !TObject::comes_after(
        ctx,
        #[trigger] new[i],
        #[trigger] new[j],
    ) by {
        assert(object_sorted(ctx, s[i], new[i]) && object_sorted(ctx, s[j], new[j]));
        lemma_object_blind(ctx, s[i], new[i], s[j], new[j]);
        assert(!TObject::comes_after(ctx, s[i], s[j]));
    }
}

/// After sorting, the predicates of a node are in order.
pub proof fn lemma_sorted_predicates_in_order(
    ctx: SortingContext,
    old: Seq<TPredicateCont>,
    new: Seq<TPredicateCont>,
)
    requires
        predicates_sorted(ctx, old, new),
    ensures
        ordered(ctx, new),
{
    let s = sorted_seq(ctx, old);
    crate::laws::lemma_predicates_are_ordered(ctx, old);
    lemma_sorted_items(ctx, old);
    assert forall|i: int, j: int| 0 <= i < j < new.len() implies !TPredicateCont::comes_after(
        ctx,
        #[trigger] new[i],
        #[trigger] new[j],
    ) by {
        assert(new[i].predicate == s[i].predicate && new[j].predicate == s[j].predicate);
        assert(!TPredicateCont::comes_after(ctx, s[i], s[j]));
    }
}

/// After sorting, the blocks of a document are in order.
pub proof fn lemma_sorted_blocks_in_order(ctx: SortingContext, old: Seq<TSubjectCont>, new: Seq<TSubjectCont>)
    requires
        subjects_sorted(ctx, old, new),
    ensures
        ordered(ctx, new),
{
    let s = sorted_seq(ctx, old);
    lemma_blocks_are_ordered(ctx, old);
    lemma_sorted_items(ctx, old);
    assert forall|i: int, j: int| 0 <= i < j < new.len() implies !TSubjectCont::comes_after(
        ctx,
        #[trigger] new[i],
        #[trigger] new[j],
    ) by {
        assert(subject_cont_sorted(ctx, s[i], new[i]) && subject_cont_sorted(ctx, s[j], new[j]));
        lemma_subject_blind(ctx, s[i].subject, new[i].subject, s[j].subject, new[j].subject);
        assert(!TSubjectCont::comes_after(ctx, s[i], s[j]));
    }
}

/// Every list of predicates and of objects in the object is in order. The
/// elements of a collection are left out: they keep the order of the
/// chain.
pub open spec fn object_in_order(ctx: SortingContext, o: TObject) -> bool
    decreases o,
{
    match o {
        TObject::BlankNodeAnonymous(bn) => predicates_in_order(ctx, bn.predicates@),
        TObject::Collection(TCollection::WithContent(col)) => forall|i: int|
            0 <= i < col.rest.len() ==> object_in_order(ctx, #[trigger] col.rest@[i]),
        TObject::Triple(t) => object_in_order(ctx, t.2),
        _ => true,
    }
}

/// The predicates are in order, the objects of each are, and so is every
/// list within them.
pub open spec fn predicates_in_order(ctx: SortingContext, ps: Seq<TPredicateCont>) -> bool
    decreases ps,
{
    &&& ordered(ctx, ps)
    &&& forall|k: int| 0 <= k < ps.len() ==> ordered(ctx, (#[trigger] ps[k]).objects@)
    &&& forall|k: int, j: int|
        0 <= k < ps.len() && 0 <= j < ps[k].objects.len() ==> object_in_order(
            ctx,
            #[trigger] ps[k].objects@[j],
        )
}

/// Every list within the subject is in order.
pub open spec fn subject_in_order(ctx: SortingContext, s: TSubject) -> bool {
    match s {
        TSubject::BlankNodeAnonymous(bn) => predicates_in_order(ctx, bn.predicates@),
        TSubject::Collection(TCollection::WithContent(col)) => forall|i: int|
            0 <= i < col.rest.len() ==> object_in_order(ctx, #[trigger] col.rest@[i]),
        TSubject::Triple(t) => object_in_order(ctx, t.2),
        _ => true,
    }
}

/// The blocks are in order, and so is every list within them.
pub open spec fn blocks_in_order(ctx: SortingContext, blocks: Seq<TSubjectCont>) -> bool {
    &&& ordered(ctx, blocks)
    &&& forall|k: int|
        0 <= k < blocks.len() ==> subject_in_order(ctx, (#[trigger] blocks[k]).subject) && predicates_in_order(
            ctx,
            blocks[k].predicates@,
        )
}

/// After sorting, every list within an object is in order.
pub proof fn lemma_object_in_order(ctx: SortingContext, old: TObject, new: TObject)
    requires
        object_sorted(ctx, old, new),
    ensures
        object_in_order(ctx, new),
    decreases old,
{
    match old {
        TObject::BlankNodeAnonymous(a) => {
            lemma_predicates_in_order(ctx, a.predicates@, new->BlankNodeAnonymous_0.predicates@);
        },
        TObject::Collection(TCollection::WithContent(a)) => {
            lemma_collection_in_order(ctx, a, new->Collection_0->WithContent_0);
        },
        TObject::Triple(a) => {
            lemma_object_in_order(ctx, a.2, new->Triple_0.2);
        },
        _ => {},
    }
}

/// After sorting, every list within the elements of a collection is in
/// order.
pub proof fn lemma_collection_in_order(ctx: SortingContext, a: TCollectionRef, b: TCollectionRef)
    requires
        collection_sorted(ctx, a, b),
    ensures
        forall|i: int| 0 <= i < b.rest.len() ==> object_in_order(ctx, #[trigger] b.rest@[i]),
    decreases a,
{
    assert forall|i: int| 0 <= i < b.rest.len() implies object_in_order(ctx, #[trigger] b.rest@[i]) by {
        assert(object_sorted(ctx, a.rest@[i], b.rest@[i]));
        lemma_object_in_order(ctx, a.rest@[i], b.rest@[i]);
    }
}

/// After sorting, the predicates of a node are in order, and so is every
/// list within them.
pub proof fn lemma_predicates_in_order(ctx: SortingContext, old: Seq<TPredicateCont>, new: Seq<TPredicateCont>)
    requires
        predicates_sorted(ctx, old, new),
    ensures
        predicates_in_order(ctx, new),
    decreases old,
{
    let s = sorted_seq(ctx, old);
    lemma_sorted_predicates_in_order(ctx, old, new);
    lemma_sorted_items(ctx, old);
    assert forall|k: int| 0 <= k < new.len() implies ordered(ctx, (#[trigger] new[k]).objects@) && (forall|
        j: int,
    |
        0 <= j < new[k].objects.len() ==> object_in_order(ctx, #[trigger] new[k].objects@[j])) by {
        assert(is_item(old, s[k]) && objects_sorted(ctx, s[k].objects@, new[k].objects@));
        let objs = s[k].objects@;
        let t = sorted_seq(ctx, objs);
        lemma_sorted_objects_in_order(ctx, objs, new[k].objects@);
        lemma_sorted_items(ctx, objs);
        assert forall|j: int| 0 <= j < new[k].objects.len() implies object_in_order(
            ctx,
            #[trigger] new[k].objects@[j],
        ) by {
            assert(is_item(objs, t[j]) && object_sorted(ctx, t[j], new[k].objects@[j]));
            lemma_object_in_order(ctx, t[j], new[k].objects@[j]);
        }
    }
}

/// The sorted tree is in order: its blocks are, the predicates of every
/// node are, and the objects of every predicate are.
pub proof fn lemma_blocks_in_order(ctx: SortingContext, old: Seq<TSubjectCont>, new: Seq<TSubjectCont>)
    requires
        subjects_sorted(ctx, old, new),
    ensures
        blocks_in_order(ctx, new),
{
    let s = sorted_seq(ctx, old);
    lemma_sorted_blocks_in_order(ctx, old, new);
    assert forall|k: int| 0 <= k < new.len() implies subject_in_order(ctx, (#[trigger] new[k]).subject)
        && predicates_in_order(ctx, new[k].predicates@) by {
        assert(subject_cont_sorted(ctx, s[k], new[k]));
        lemma_predicates_in_order(ctx, s[k].predicates@, new[k].predicates@);
        match s[k].subject {
            TSubject::BlankNodeAnonymous(a) => {
                lemma_predicates_in_order(ctx, a.predicates@, new[k].subject->BlankNodeAnonymous_0.predicates@);
            },
            TSubject::Collection(TCollection::WithContent(a)) => {
                lemma_collection_in_order(ctx, a, new[k].subject->Collection_0->WithContent_0);
            },
            TSubject::Triple(a) => {
                lemma_object_in_order(ctx, a.2, new[k].subject->Triple_0.2);
            },
            _ => {},
        }
    }
}

/// An object in which every list is in order is its own sorted form.
pub proof fn lemma_object_fixed(ctx: SortingContext, a: TObject)
    requires
        object_in_order(ctx, a),
    ensures
        object_sorted(ctx, a, a),
    decreases a,
{
    match a {
        TObject::BlankNodeAnonymous(bn) => {
            lemma_predicates_fixed(ctx, bn.predicates@);
        },
        TObject::Collection(TCollection::WithContent(col)) => {
            lemma_collection_fixed(ctx, col);
        },
        TObject::Triple(t) => {
            lemma_object_fixed(ctx, t.2);
        },
        _ => {},
    }
}

/// A collection whose elements are in order within themselves is its own
/// sorted form.
pub proof fn lemma_collection_fixed(ctx: SortingContext, col: TCollectionRef)
    requires
        forall|i: int| 0 <= i < col.rest.len() ==> object_in_order(ctx, #[trigger] col.rest@[i]),
    ensures
        collection_sorted(ctx, col, col),
    decreases col,
{
    assert forall|i: int| 0 <= i < col.rest.len() implies object_sorted(
        ctx,
        #[trigger] col.rest@[i],
        col.rest@[i],
    ) by {
        lemma_object_fixed(ctx, col.rest@[i]);
    }
}

/// Predicates that are in order, with every list within them, are their
/// own sorted form.
pub proof fn lemma_predicates_fixed(ctx: SortingContext, ps: Seq<TPredicateCont>)
    requires
        predicates_in_order(ctx, ps),
    ensures
        predicates_sorted(ctx, ps, ps),
    decreases ps,
{
    lemma_ordered_stays(ctx, ps);
    assert(sorted_seq(ctx, ps) == ps);
    assert forall|k: int| 0 <= k < ps.len() implies is_item(ps, #[trigger] ps[k]) && objects_sorted(
        ctx,
        ps[k].objects@,
        ps[k].objects@,
    ) by {
        let objs = ps[k].objects@;
        assert(ordered(ctx, objs));
        lemma_ordered_stays(ctx, objs);
        assert(sorted_seq(ctx, objs) == objs);
        assert forall|j: int| 0 <= j < objs.len() implies is_item(objs, #[trigger] objs[j]) && object_sorted(
            ctx,
            objs[j],
            objs[j],
        ) by {
            assert(object_in_order(ctx, ps[k].objects@[j]));
            lemma_object_fixed(ctx, objs[j]);
        }
    }
}

/// Sorting is idempotent: blocks that are in order, with every list within
/// them, are their own sorted form. So a tree that was sorted is not
/// changed by sorting it again.
pub proof fn lemma_blocks_fixed(ctx: SortingContext, blocks: Seq<TSubjectCont>)
    requires
        blocks_in_order(ctx, blocks),
    ensures
        subjects_sorted(ctx, blocks, blocks),
{
    lemma_ordered_stays(ctx, blocks);
    assert forall|i: int| 0 <= i < blocks.len() implies subject_cont_sorted(ctx, blocks[i], #[trigger] blocks[i]) by {
        lemma_predicates_fixed(ctx, blocks[i].predicates@);
        match blocks[i].subject {
            TSubject::BlankNodeAnonymous(bn) => {
                lemma_predicates_fixed(ctx, bn.predicates@);
            },
            TSubject::Collection(TCollection::WithContent(col)) => {
                lemma_collection_fixed(ctx, col);
            },
            TSubject::Triple(t) => {
                lemma_object_fixed(ctx, t.2);
            },
            _ => {},
        }
    }
}

} // verus!
