//! Laws of the canonical order and of sorting.
use crate::ast::{TCollection, TLiteralRef, TNamedNode, TObject, TPredicateCont};
use crate::builder::{graph_classes, object_ok, object_term, Classes};
use crate::collections::collection_at;
use crate::formatter::{text_object, Style};
use crate::graph::graph_triples;
use crate::input::Input;
use crate::kept::lemma_object_kept;
use crate::sorting::object_sorted;
use crate::term::RdfTermView;
use crate::vocab::RDF_NIL;
use crate::compare::{
    first_or, int_order, literals_order, named_node_kind, named_nodes_order, pred_order, SortingContext,
};
use crate::compare::predicate_rank;
use crate::sorting::{insert_sorted, is_item, sorted_seq, Sortable};
use crate::text::{
    lemma_lex_asymmetric, lemma_lex_irreflexive, lemma_lex_total, lemma_lex_transitive, text_order,
};
use std::cmp::Ordering;
use vstd::prelude::*;
use vstd::seq_lib::to_multiset_build;

verus! {

/// The opposite of an order.
pub open spec fn reversed(o: Ordering) -> Ordering {
    match o {
        Ordering::Less => Ordering::Greater,
        Ordering::Equal => Ordering::Equal,
        Ordering::Greater => Ordering::Less,
    }
}

/// `a` does not come after `b`.
pub open spec fn not_after(o: Ordering) -> bool {
    o != Ordering::Greater
}

/// The order of texts is that of `text_order` read the other way round.
pub proof fn lemma_text_order_reversed(a: Seq<char>, b: Seq<char>)
    ensures
        text_order(b, a) == reversed(text_order(a, b)),
{
    lemma_lex_total(a, b);
    lemma_lex_asymmetric(a, b);
    lemma_lex_asymmetric(b, a);
    lemma_lex_irreflexive(a);
}

/// Texts are equal in order only if they are the same.
pub proof fn lemma_text_order_equal(a: Seq<char>, b: Seq<char>)
    ensures
        text_order(a, b) == Ordering::Equal <==> a == b,
{
    lemma_lex_total(a, b);
    lemma_lex_irreflexive(a);
}

/// The order of texts is transitive.
pub proof fn lemma_text_order_transitive(a: Seq<char>, b: Seq<char>, c: Seq<char>)
    requires
        not_after(text_order(a, b)),
        not_after(text_order(b, c)),
    ensures
        not_after(text_order(a, c)),
        text_order(a, c) == Ordering::Equal ==> text_order(a, b) == Ordering::Equal && text_order(b, c)
            == Ordering::Equal,
{
    lemma_lex_total(a, b);
    lemma_lex_total(b, c);
    lemma_lex_total(a, c);
    lemma_lex_irreflexive(a);
    lemma_lex_irreflexive(b);
    lemma_lex_asymmetric(a, c);
    if a != b && b != c {
        lemma_lex_asymmetric(a, b);
        lemma_lex_asymmetric(b, c);
        lemma_lex_transitive(a, b, c);
    }
    if a == c && a != b {
        lemma_lex_asymmetric(a, b);
    }
}

/// A named node is equal to itself in order.
pub proof fn lemma_named_nodes_reflexive(a: TNamedNode)
    ensures
        named_nodes_order(a, a) == Ordering::Equal,
{
}

/// The order of named nodes, read the other way round.
pub proof fn lemma_named_nodes_reversed(a: TNamedNode, b: TNamedNode)
    ensures
        named_nodes_order(b, a) == reversed(named_nodes_order(a, b)),
{
    match (a, b) {
        (TNamedNode::Plain(x), TNamedNode::Plain(y)) => {
            lemma_text_order_reversed(x@, y@);
        },
        (TNamedNode::Prefixed(_, ap, al), TNamedNode::Prefixed(_, bp, bl)) => {
            lemma_text_order_reversed(ap@, bp@);
            lemma_text_order_reversed(al@, bl@);
        },
        (TNamedNode::Based(_, ar), TNamedNode::Based(_, br)) => {
            lemma_text_order_reversed(ar@, br@);
        },
        _ => {},
    }
}

/// What two named nodes are compared by when they are written the same
/// way: a pair of texts.
pub open spec fn named_node_key(n: TNamedNode) -> (Seq<char>, Seq<char>) {
    match n {
        TNamedNode::Plain(iri) => (iri@, Seq::empty()),
        TNamedNode::Prefixed(_, prefix, local) => (prefix@, local@),
        TNamedNode::Based(_, rest) => (rest@, Seq::empty()),
    }
}

/// The order of two named nodes with different views is that of their
/// kinds, or for one kind that of their keys.
proof fn lemma_named_nodes_by_key(a: TNamedNode, b: TNamedNode)
    ensures
        a@ != b@ ==> named_nodes_order(a, b) == (if named_node_kind(a) != named_node_kind(b) {
            int_order(named_node_kind(a), named_node_kind(b))
        } else {
            first_or(
                text_order(named_node_key(a).0, named_node_key(b).0),
                text_order(named_node_key(a).1, named_node_key(b).1),
            )
        }),
        a@ == b@ ==> named_node_kind(a) == named_node_kind(b) && named_node_key(a) == named_node_key(b),
{
    lemma_text_order_equal(Seq::<char>::empty(), Seq::<char>::empty());
}

/// The order of named nodes is transitive.
pub proof fn lemma_named_nodes_transitive(a: TNamedNode, b: TNamedNode, c: TNamedNode)
    requires
        not_after(named_nodes_order(a, b)),
        not_after(named_nodes_order(b, c)),
    ensures
        not_after(named_nodes_order(a, c)),
{
    lemma_named_nodes_by_key(a, b);
    lemma_named_nodes_by_key(b, c);
    lemma_named_nodes_by_key(a, c);
    let (a0, a1) = named_node_key(a);
    let (b0, b1) = named_node_key(b);
    let (c0, c1) = named_node_key(c);
    lemma_text_order_equal(a0, b0);
    lemma_text_order_equal(b0, c0);
    lemma_text_order_equal(a0, c0);
    lemma_text_order_equal(a1, b1);
    lemma_text_order_equal(b1, c1);
    lemma_text_order_equal(a1, c1);
    if named_node_kind(a) == named_node_kind(b) && named_node_kind(b) == named_node_kind(c) {
        if not_after(text_order(a0, b0)) && not_after(text_order(b0, c0)) {
            lemma_text_order_transitive(a0, b0, c0);
            if text_order(a0, c0) == Ordering::Equal {
                if not_after(text_order(a1, b1)) && not_after(text_order(b1, c1)) {
                    lemma_text_order_transitive(a1, b1, c1);
                }
            }
        }
    }
}

/// The order of named nodes is transitive, and if the first and the third
/// of three are equal in order, all three are.
pub proof fn lemma_named_nodes_squeezed(a: TNamedNode, b: TNamedNode, c: TNamedNode)
    ensures
        not_after(named_nodes_order(a, b)) && not_after(named_nodes_order(b, c)) ==> not_after(
            named_nodes_order(a, c),
        ) && (named_nodes_order(a, c) == Ordering::Equal ==> named_nodes_order(a, b) == Ordering::Equal
            && named_nodes_order(b, c) == Ordering::Equal),
{
    if not_after(named_nodes_order(a, b)) && not_after(named_nodes_order(b, c)) {
        lemma_named_nodes_transitive(a, b, c);
        if named_nodes_order(a, c) == Ordering::Equal {
            lemma_named_nodes_reversed(a, c);
            lemma_named_nodes_reversed(a, b);
            lemma_named_nodes_reversed(b, c);
            // c may stand before a, and a before b: so c before b
            lemma_named_nodes_transitive(c, a, b);
            lemma_named_nodes_transitive(b, c, a);
        }
    }
}

/// The order of predicates is transitive, and if the first and the third
/// of three are equal in order, all three are.
pub proof fn lemma_pred_order_squeezed(ctx: SortingContext, a: TNamedNode, b: TNamedNode, c: TNamedNode)
    ensures
        not_after(pred_order(ctx, a, b)) && not_after(pred_order(ctx, b, c)) ==> not_after(
            pred_order(ctx, a, c),
        ) && (pred_order(ctx, a, c) == Ordering::Equal ==> pred_order(ctx, a, b) == Ordering::Equal
            && pred_order(ctx, b, c) == Ordering::Equal),
{
    lemma_named_nodes_squeezed(a, b, c);
}

/// A predicate is equal to itself in order.
pub proof fn lemma_pred_order_reflexive(ctx: SortingContext, a: TNamedNode)
    ensures
        pred_order(ctx, a, a) == Ordering::Equal,
{
}

/// The order of predicates, read the other way round.
pub proof fn lemma_pred_order_reversed(ctx: SortingContext, a: TNamedNode, b: TNamedNode)
    ensures
        pred_order(ctx, b, a) == reversed(pred_order(ctx, a, b)),
{
    lemma_named_nodes_reversed(a, b);
}

/// The order of predicates is transitive.
pub proof fn lemma_pred_order_transitive(ctx: SortingContext, a: TNamedNode, b: TNamedNode, c: TNamedNode)
    requires
        not_after(pred_order(ctx, a, b)),
        not_after(pred_order(ctx, b, c)),
    ensures
        not_after(pred_order(ctx, a, c)),
{
    let ra = predicate_rank(ctx.predicate_order@, a@.iri());
    let rb = predicate_rank(ctx.predicate_order@, b@.iri());
    let rc = predicate_rank(ctx.predicate_order@, c@.iri());
    if ra is None && rb is None && rc is None {
        lemma_named_nodes_transitive(a, b, c);
    }
}

/// Where no order of predicates is configured, `rdf:type` comes before
/// every other predicate.
pub proof fn lemma_type_first_without_order(ctx: SortingContext, a: TNamedNode, b: TNamedNode)
    requires
        ctx.predicate_order@.len() == 0,
        a@.iri() == crate::vocab::RDF_TYPE@,
        b@.iri() != crate::vocab::RDF_TYPE@,
    ensures
        pred_order(ctx, a, b) == Ordering::Less,
        pred_order(ctx, b, a) == Ordering::Greater,
{
}

/// Predicate ordering: a predicate with a rank in the configured order
/// comes before every predicate without one, and before every predicate
/// with a higher rank.
pub proof fn lemma_ranked_predicates_first(ctx: SortingContext, a: TNamedNode, b: TNamedNode)
    requires
        predicate_rank(ctx.predicate_order@, a@.iri()) is Some,
        match predicate_rank(ctx.predicate_order@, b@.iri()) {
            Some(j) => predicate_rank(ctx.predicate_order@, a@.iri())->Some_0 < j,
            None => true,
        },
    ensures
        pred_order(ctx, a, b) == Ordering::Less,
        pred_order(ctx, b, a) == Ordering::Greater,
{
}

/// The literal with another lexical value.
pub open spec fn same_but_value(a: TLiteralRef, b: TLiteralRef) -> bool {
    a.1 == b.1 && a.0.datatype == b.0.datatype && a.0.language == b.0.language && a.0.direction
        == b.0.direction
}

/// Literal ordering: two literals of different datatypes are ordered by
/// their datatypes, whatever their lexical values are.
pub proof fn lemma_literals_by_datatype_before_value(
    a: TLiteralRef,
    b: TLiteralRef,
    a2: TLiteralRef,
    b2: TLiteralRef,
)
    requires
        a.0.datatype@ != b.0.datatype@,
        same_but_value(a, a2),
        same_but_value(b, b2),
    ensures
        literals_order(a2, b2) == literals_order(a, b),
        literals_order(a, b) != Ordering::Equal,
{
    lemma_text_order_equal(a.0.datatype@, b.0.datatype@);
}

/// A literal is equal to itself in order.
pub proof fn lemma_literals_reflexive(a: TLiteralRef)
    ensures
        literals_order(a, a) == Ordering::Equal,
{
}

/// Putting an item into its place adds that item and no other.
pub proof fn lemma_insert_adds<T: Sortable>(ctx: SortingContext, s: Seq<T>, x: T)
    ensures
        insert_sorted(ctx, s, x).to_multiset() == s.to_multiset().insert(x),
    decreases s.len(),
{
    if s.len() == 0 {
        to_multiset_build(s, x);
        assert(seq![x] =~= s.push(x));
    } else if T::comes_after(ctx, s.last(), x) {
        let front = s.drop_last();
        lemma_insert_adds(ctx, front, x);
        to_multiset_build(insert_sorted(ctx, front, x), s.last());
        to_multiset_build(front, s.last());
        assert(front.push(s.last()) =~= s);
        assert(front.to_multiset().insert(x).insert(s.last()) =~= front.to_multiset().insert(s.last()).insert(
            x,
        ));
    } else {
        to_multiset_build(s, x);
    }
}

/// Sorting neither adds an item nor loses one: the sorted list holds every
/// item as often as the list does.
pub proof fn lemma_sorted_is_permutation<T: Sortable>(ctx: SortingContext, s: Seq<T>)
    ensures
        sorted_seq(ctx, s).to_multiset() == s.to_multiset(),
    decreases s.len(),
{
    if s.len() > 0 {
        let front = s.drop_last();
        lemma_sorted_is_permutation(ctx, front);
        lemma_insert_adds(ctx, sorted_seq(ctx, front), s.last());
        to_multiset_build(front, s.last());
        assert(front.push(s.last()) =~= s);
    }
}

/// No item of the list has to stand after an item behind it.
pub open spec fn ordered<T: Sortable>(ctx: SortingContext, s: Seq<T>) -> bool {
    forall|i: int, j: int| 0 <= i < j < s.len() ==> !T::comes_after(ctx, #[trigger] s[i], #[trigger] s[j])
}

/// Among the items of the list, "has to stand after" is an order: never
/// both ways round, and if `a` may stand before `b` and `b` before `c`,
/// `a` may stand before `c`.
pub open spec fn orders<T: Sortable>(ctx: SortingContext, s: Seq<T>) -> bool {
    &&& forall|a: T, b: T|
        is_item(s, a) && is_item(s, b) && #[trigger] T::comes_after(ctx, a, b) ==> !T::comes_after(ctx, b, a)
    &&& forall|a: T, b: T, c: T|
        is_item(s, a) && is_item(s, b) && is_item(s, c) && !(#[trigger] T::comes_after(ctx, a, b)) && !(
        #[trigger] T::comes_after(ctx, b, c)) ==> !T::comes_after(ctx, a, c)
}

proof fn lemma_insert_ordered<T: Sortable>(ctx: SortingContext, all: Seq<T>, s: Seq<T>, x: T)
    requires
        orders(ctx, all),
        is_item(all, x),
        forall|i: int| 0 <= i < s.len() ==> is_item(all, #[trigger] s[i]),
        ordered(ctx, s),
    ensures
        ordered(ctx, insert_sorted(ctx, s, x)),
        forall|i: int| 0 <= i < s.len() + 1 ==> is_item(all, #[trigger] insert_sorted(ctx, s, x)[i]),
        insert_sorted(ctx, s, x).len() == s.len() + 1,
        forall|y: T|
            is_item(all, y) && (forall|i: int| 0 <= i < s.len() ==> !T::comes_after(ctx, #[trigger] s[i], y))
                && !T::comes_after(ctx, x, y) ==> forall|i: int|
                0 <= i < s.len() + 1 ==> !T::comes_after(ctx, #[trigger] insert_sorted(ctx, s, x)[i], y),
    decreases s.len(),
{
    let r = insert_sorted(ctx, s, x);
    if s.len() == 0 {
    } else if T::comes_after(ctx, s.last(), x) {
        let front = s.drop_last();
        let last = s.last();
        assert forall|i: int| 0 <= i < front.len() implies is_item(all, #[trigger] front[i]) by {
            assert(front[i] == s[i]);
        }
        assert(ordered(ctx, front)) by {
            assert forall|i: int, j: int| 0 <= i < j < front.len() implies !T::comes_after(
                ctx,
                #[trigger] front[i],
                #[trigger] front[j],
            ) by {
                assert(front[i] == s[i] && front[j] == s[j]);
            }
        }
        lemma_insert_ordered(ctx, all, front, x);
        let inner = insert_sorted(ctx, front, x);
        assert(is_item(all, last));
        // nothing of `front` and not `x` has to stand after `last`
        assert(!T::comes_after(ctx, x, last));
        assert forall|i: int| 0 <= i < front.len() implies !T::comes_after(ctx, #[trigger] front[i], last) by {
            assert(front[i] == s[i]);
            assert(last == s[s.len() - 1]);
        }
        assert forall|i: int, j: int| 0 <= i < j < r.len() implies !T::comes_after(
            ctx,
            #[trigger] r[i],
            #[trigger] r[j],
        ) by {
            if j < inner.len() {
                assert(r[i] == inner[i] && r[j] == inner[j]);
            } else {
                assert(r[i] == inner[i]);
                assert(r[j] == last);
            }
        }
        assert forall|i: int| 0 <= i < s.len() + 1 implies is_item(all, #[trigger] r[i]) by {
            if i < inner.len() {
                assert(r[i] == inner[i]);
            }
        }
        assert forall|y: T|
            is_item(all, y) && (forall|i: int| 0 <= i < s.len() ==> !T::comes_after(ctx, #[trigger] s[i], y))
                && !T::comes_after(ctx, x, y) implies forall|i: int|
            0 <= i < s.len() + 1 ==> !T::comes_after(ctx, #[trigger] r[i], y) by {
            assert forall|i: int| 0 <= i < front.len() implies !T::comes_after(ctx, #[trigger] front[i], y) by {
                assert(front[i] == s[i]);
            }
            assert forall|i: int| 0 <= i < s.len() + 1 implies !T::comes_after(ctx, #[trigger] r[i], y) by {
                if i < inner.len() {
                    assert(r[i] == inner[i]);
                } else {
                    assert(r[i] == s[s.len() - 1]);
                }
            }
        }
    } else {
        assert forall|i: int, j: int| 0 <= i < j < r.len() implies !T::comes_after(
            ctx,
            #[trigger] r[i],
            #[trigger] r[j],
        ) by {
            if j < s.len() {
                assert(r[i] == s[i] && r[j] == s[j]);
            } else {
                assert(r[j] == x);
                assert(r[i] == s[i]);
                if i < s.len() - 1 {
                    // s[i] may stand before the last item, which may stand
                    // before x
                    assert(!T::comes_after(ctx, s[i], s[s.len() - 1]));
                    assert(is_item(all, s[i]) && is_item(all, s[s.len() - 1]));
                }
            }
        }
        assert forall|i: int| 0 <= i < s.len() + 1 implies is_item(all, #[trigger] r[i]) by {
            if i < s.len() {
                assert(r[i] == s[i]);
            }
        }
        assert forall|y: T|
            is_item(all, y) && (forall|i: int| 0 <= i < s.len() ==> !T::comes_after(ctx, #[trigger] s[i], y))
                && !T::comes_after(ctx, x, y) implies forall|i: int|
            0 <= i < s.len() + 1 ==> !T::comes_after(ctx, #[trigger] r[i], y) by {
            assert forall|i: int| 0 <= i < s.len() + 1 implies !T::comes_after(ctx, #[trigger] r[i], y) by {
                if i < s.len() {
                    assert(r[i] == s[i]);
                }
            }
        }
    }
}

proof fn lemma_sorted_ordered_within<T: Sortable>(ctx: SortingContext, all: Seq<T>, s: Seq<T>)
    requires
        orders(ctx, all),
        forall|i: int| 0 <= i < s.len() ==> is_item(all, #[trigger] s[i]),
    ensures
        ordered(ctx, sorted_seq(ctx, s)),
        sorted_seq(ctx, s).len() == s.len(),
        forall|i: int| 0 <= i < s.len() ==> is_item(all, #[trigger] sorted_seq(ctx, s)[i]),
    decreases s.len(),
{
    if s.len() > 0 {
        let front = s.drop_last();
        assert forall|i: int| 0 <= i < front.len() implies is_item(all, #[trigger] front[i]) by {
            assert(front[i] == s[i]);
        }
        lemma_sorted_ordered_within(ctx, all, front);
        assert(is_item(all, s[s.len() - 1]));
        lemma_insert_ordered(ctx, all, sorted_seq(ctx, front), s.last());
    }
}

/// Where the comparison is an order among the items of a list, the sorted
/// list is in order: no item has to stand after one behind it.
pub proof fn lemma_sorted_is_ordered<T: Sortable>(ctx: SortingContext, s: Seq<T>)
    requires
        orders(ctx, s),
    ensures
        ordered(ctx, sorted_seq(ctx, s)),
{
    assert forall|i: int| 0 <= i < s.len() implies is_item(s, #[trigger] s[i]) by {}
    lemma_sorted_ordered_within(ctx, s, s);
}

/// A list that is in order stays as it is when it is sorted.
pub proof fn lemma_ordered_stays<T: Sortable>(ctx: SortingContext, s: Seq<T>)
    requires
        ordered(ctx, s),
    ensures
        sorted_seq(ctx, s) == s,
    decreases s.len(),
{
    if s.len() > 0 {
        let front = s.drop_last();
        assert forall|i: int, j: int| 0 <= i < j < front.len() implies !T::comes_after(
            ctx,
            #[trigger] front[i],
            #[trigger] front[j],
        ) by {
            assert(front[i] == s[i] && front[j] == s[j]);
        }
        lemma_ordered_stays(ctx, front);
        if front.len() > 0 {
            assert(front.last() == s[s.len() - 2]);
            assert(s.last() == s[s.len() - 1]);
            assert(!T::comes_after(ctx, s[s.len() - 2], s[s.len() - 1]));
        }
        assert(front.push(s.last()) =~= s);
    }
}

/// Sorting twice is sorting once, where the comparison is an order among
/// the items of the list.
pub proof fn lemma_sorting_is_idempotent<T: Sortable>(ctx: SortingContext, s: Seq<T>)
    requires
        orders(ctx, s),
    ensures
        sorted_seq(ctx, sorted_seq(ctx, s)) == sorted_seq(ctx, s),
{
    lemma_sorted_is_ordered(ctx, s);
    lemma_ordered_stays(ctx, sorted_seq(ctx, s));
}

/// The comparison of predicates is an order among any predicates.
pub proof fn lemma_predicates_are_ordered(ctx: SortingContext, ps: Seq<TPredicateCont>)
    ensures
        orders(ctx, ps),
        ordered(ctx, sorted_seq(ctx, ps)),
{
    assert forall|a: TPredicateCont, b: TPredicateCont|
        is_item(ps, a) && is_item(ps, b) && #[trigger] TPredicateCont::comes_after(
            ctx,
            a,
            b,
        ) implies !TPredicateCont::comes_after(ctx, b, a) by {
        lemma_pred_order_reversed(ctx, a.predicate, b.predicate);
    }
    assert forall|a: TPredicateCont, b: TPredicateCont, c: TPredicateCont|
        is_item(ps, a) && is_item(ps, b) && is_item(ps, c) && !(#[trigger] TPredicateCont::comes_after(
            ctx,
            a,
            b,
        )) && !(#[trigger] TPredicateCont::comes_after(ctx, b, c)) implies !TPredicateCont::comes_after(
        ctx,
        a,
        c,
    ) by {
        lemma_pred_order_transitive(ctx, a.predicate, b.predicate, c.predicate);
    }
    lemma_sorted_is_ordered(ctx, ps);
}

/// Predicate ordering: in the sorted list of the predicates of a subject,
/// a predicate with a rank in the configured order stands before every
/// predicate without one, and before every predicate with a higher rank.
pub proof fn lemma_sorted_predicates_by_rank(ctx: SortingContext, ps: Seq<TPredicateCont>, i: int, j: int)
    requires
        0 <= i < ps.len(),
        0 <= j < ps.len(),
        predicate_rank(ctx.predicate_order@, sorted_seq(ctx, ps)[i].predicate@.iri()) is Some,
        match predicate_rank(ctx.predicate_order@, sorted_seq(ctx, ps)[j].predicate@.iri()) {
            Some(r) => predicate_rank(ctx.predicate_order@, sorted_seq(ctx, ps)[i].predicate@.iri())->Some_0 < r,
            None => true,
        },
    ensures
        i < j,
{
    let sorted = sorted_seq(ctx, ps);
    lemma_predicates_are_ordered(ctx, ps);
    crate::sorting::lemma_sorted_items(ctx, ps);
    lemma_ranked_predicates_first(ctx, sorted[i].predicate, sorted[j].predicate);
    if j < i {
        assert(!TPredicateCont::comes_after(ctx, sorted[j], sorted[i]));
    }
}

/// Empty collection: an object that stands for `rdf:nil` is written as
/// `()`.
pub proof fn lemma_nil_is_written_as_empty_collection(c: Classes, fuel: nat, st: Style, o: TObject)
    requires
        object_ok(c, fuel, o),
        object_term(o) == RdfTermView::NamedNode(RDF_NIL@),
    ensures
        o == TObject::Collection(TCollection::Empty),
        text_object(st, Seq::empty(), o) == seq!['(', ')'],
{
    reveal_strlit("(");
    reveal_strlit(")");
    assert(Seq::<char>::empty() + "("@ + ")"@ =~= seq!['(', ')']);
}

/// Collection fidelity: in a sorted tree, an object that stands for a
/// blank node is a collection exactly if the blank node is the head of a
/// well-formed chain of the graph, and then holds one element for every
/// element of the chain, in the order of the chain.
pub proof fn lemma_collection_fidelity(
    input: Input,
    unreferenced: Seq<String>,
    fuel: nat,
    ctx: SortingContext,
    built: TObject,
    sorted: TObject,
    b: Seq<char>,
)
    requires
        fuel > 0,
        object_ok(graph_classes(input, unreferenced, true), fuel, built),
        object_term(built) == RdfTermView::BlankNode(b),
        object_sorted(ctx, built, sorted),
    ensures
        match collection_at(graph_triples(input.graph), b) {
            Some(elements) => sorted is Collection && sorted->Collection_0 is WithContent && sorted->Collection_0->WithContent_0.rest.len()
                == elements.len() && forall|i: int|
                0 <= i < elements.len() ==> object_term(
                    #[trigger] sorted->Collection_0->WithContent_0.rest@[i],
                ) == elements[i],
            None => !(sorted is Collection),
        },
{
    let c = graph_classes(input, unreferenced, true);
    lemma_object_kept(c, fuel, ctx, built, sorted);
    match collection_at(graph_triples(input.graph), b) {
        Some(elements) => {
            assert(c.collections.dom().contains(b));
            assert(c.collections[b] == elements);
            assert(c.expands(fuel, b));
        },
        None => {
            assert(!c.collections.dom().contains(b));
        },
    }
}

} // verus!
