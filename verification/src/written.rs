//! Nothing is lost where blank nodes are nested and collections are
//! written as such: every triple of the graph that is no part of the
//! structure of a collection is written in the tree under its subject, and
//! every collection of the graph stands in the tree.
use crate::ast::{TBlankNode, TCollection, TCollectionRef, TObject, TPredicateCont, TSubject, TSubjectCont};
use crate::builder::{
    collection_ok, covered, entry_triple, graph_classes, has_no_block, has_visible, inline_ok,
    lemma_top_subjects_has, object_ok, object_term, predicate_ok, predicates_ok, subject_cont_ok, subject_ok,
    subject_term, top_subjects, Classes,
};
use crate::classify::{is_anchored, is_duplicated, is_nestable, is_nested, is_object_in, is_pinned, referrer};
use crate::collections::{
    chain, chain_nodes, collection_at, first_of, head_writable, is_consumed, is_consumed_by, is_head, is_single,
    link, link_ok, only_links, rest_of,
};
use crate::graph::{graph_triples, objects_of, subjects_of};
use crate::input::Input;
use crate::kept::{blocks_arranged, blocks_kept};
use crate::parser::has_subject;
use crate::term::{RdfTermView, RdfTripleView, SubjectView};
use crate::vocab::{RDF_FIRST, RDF_NIL, RDF_REST};
use vstd::prelude::*;

verus! {

/// The object `x` is `o`, or stands somewhere in it.
pub open spec fn object_in_object(o: TObject, x: TObject) -> bool
    decreases o,
{
    o == x || match o {
        TObject::BlankNodeAnonymous(bn) => object_in_predicates(bn.predicates@, x),
        TObject::Collection(TCollection::WithContent(col)) => object_in_collection(col, x),
        TObject::Triple(t) => object_in_subject(t.0, x) || object_in_object(t.2, x),
        _ => false,
    }
}

/// The object `x` stands somewhere in the subject.
pub open spec fn object_in_subject(s: TSubject, x: TObject) -> bool
    decreases s,
{
    match s {
        TSubject::BlankNodeAnonymous(bn) => object_in_predicates(bn.predicates@, x),
        TSubject::Collection(TCollection::WithContent(col)) => object_in_collection(col, x),
        TSubject::Triple(t) => object_in_subject(t.0, x) || object_in_object(t.2, x),
        _ => false,
    }
}

/// The object `x` stands somewhere in the collection.
pub open spec fn object_in_collection(col: TCollectionRef, x: TObject) -> bool
    decreases col,
{
    ||| object_in_predicates(col.node.predicates@, x)
    ||| exists|i: int| 0 <= i < col.rest.len() && object_in_object(#[trigger] col.rest@[i], x)
}

/// The object `x` stands somewhere under one of the predicates.
pub open spec fn object_in_predicates(ps: Seq<TPredicateCont>, x: TObject) -> bool
    decreases ps,
{
    exists|k: int, j: int|
        0 <= k < ps.len() && 0 <= j < ps[k].objects.len() && object_in_object(#[trigger] ps[k].objects@[j], x)
}

/// The object `x` stands somewhere in the block.
pub open spec fn object_in_block(sc: TSubjectCont, x: TObject) -> bool {
    object_in_subject(sc.subject, x) || object_in_predicates(sc.predicates@, x)
}

/// The object `y` stands directly in the object `x`: as an object of the
/// inline blank node `x`, or as an element of the collection `x`.
pub open spec fn stands_in(x: TObject, y: TObject) -> bool {
    match x {
        TObject::BlankNodeAnonymous(bn) => exists|k: int, j: int|
            0 <= k < bn.predicates.len() && 0 <= j < bn.predicates[k].objects.len()
                && #[trigger] bn.predicates[k].objects@[j] == y,
        TObject::Collection(TCollection::WithContent(col)) => exists|i: int|
            0 <= i < col.rest.len() && #[trigger] col.rest@[i] == y,
        _ => false,
    }
}

proof fn lemma_stands_in_itself(x: TObject, y: TObject)
    requires
        stands_in(x, y),
    ensures
        object_in_object(x, y),
{
    match x {
        TObject::BlankNodeAnonymous(bn) => {
            let (k, j) = choose|k: int, j: int|
                0 <= k < bn.predicates.len() && 0 <= j < bn.predicates[k].objects.len()
                    && #[trigger] bn.predicates[k].objects@[j] == y;
            assert(object_in_object(bn.predicates@[k].objects@[j], y));
            assert(object_in_predicates(bn.predicates@, y));
        },
        TObject::Collection(TCollection::WithContent(col)) => {
            let i = choose|i: int| 0 <= i < col.rest.len() && #[trigger] col.rest@[i] == y;
            assert(object_in_object(col.rest@[i], y));
            assert(object_in_collection(col, y));
        },
        _ => {},
    }
}

proof fn lemma_step_in_object(o: TObject, x: TObject, y: TObject)
    requires
        object_in_object(o, x),
        stands_in(x, y),
    ensures
        object_in_object(o, y),
    decreases o,
{
    if o == x {
        lemma_stands_in_itself(x, y);
    } else {
        match o {
            TObject::BlankNodeAnonymous(bn) => {
                lemma_step_in_predicates(bn.predicates@, x, y);
            },
            TObject::Collection(TCollection::WithContent(col)) => {
                lemma_step_in_collection(col, x, y);
            },
            TObject::Triple(t) => {
                if object_in_subject(t.0, x) {
                    lemma_step_in_subject(t.0, x, y);
                } else {
                    lemma_step_in_object(t.2, x, y);
                }
            },
            _ => {},
        }
    }
}

proof fn lemma_step_in_subject(s: TSubject, x: TObject, y: TObject)
    requires
        object_in_subject(s, x),
        stands_in(x, y),
    ensures
        object_in_subject(s, y),
    decreases s,
{
    match s {
        TSubject::BlankNodeAnonymous(bn) => {
            lemma_step_in_predicates(bn.predicates@, x, y);
        },
        TSubject::Collection(TCollection::WithContent(col)) => {
            lemma_step_in_collection(col, x, y);
        },
        TSubject::Triple(t) => {
            if object_in_subject(t.0, x) {
                lemma_step_in_subject(t.0, x, y);
            } else {
                lemma_step_in_object(t.2, x, y);
            }
        },
        _ => {},
    }
}

proof fn lemma_step_in_collection(col: TCollectionRef, x: TObject, y: TObject)
    requires
        object_in_collection(col, x),
        stands_in(x, y),
    ensures
        object_in_collection(col, y),
    decreases col,
{
    if object_in_predicates(col.node.predicates@, x) {
        lemma_step_in_predicates(col.node.predicates@, x, y);
    } else {
        let i = choose|i: int| 0 <= i < col.rest.len() && object_in_object(#[trigger] col.rest@[i], x);
        lemma_step_in_object(col.rest@[i], x, y);
    }
}

proof fn lemma_step_in_predicates(ps: Seq<TPredicateCont>, x: TObject, y: TObject)
    requires
        object_in_predicates(ps, x),
        stands_in(x, y),
    ensures
        object_in_predicates(ps, y),
    decreases ps,
{
    let (k, j) = choose|k: int, j: int|
        0 <= k < ps.len() && 0 <= j < ps[k].objects.len() && object_in_object(#[trigger] ps[k].objects@[j], x);
    lemma_step_in_object(ps[k].objects@[j], x, y);
}

/// An object that stands in a block still does so with each object that
/// stands directly in it.
pub proof fn lemma_step_in_block(sc: TSubjectCont, x: TObject, y: TObject)
    requires
        object_in_block(sc, x),
        stands_in(x, y),
    ensures
        object_in_block(sc, y),
{
    if object_in_subject(sc.subject, x) {
        lemma_step_in_subject(sc.subject, x, y);
    } else {
        lemma_step_in_predicates(sc.predicates@, x, y);
    }
}

/// The object `o` stands in the block at `k`, stands for the blank node
/// `b`, and is as the classification wants it with `fuel`, which is left
/// to write it inline or as a collection.
pub open spec fn shows(c: Classes, blocks: Seq<TSubjectCont>, b: Seq<char>, k: int, o: TObject, fuel: nat) -> bool {
    &&& 0 <= k < blocks.len()
    &&& object_in_block(blocks[k], o)
    &&& object_term(o) == RdfTermView::BlankNode(b)
    &&& object_ok(c, fuel, o)
    &&& fuel > 0
}

/// The blank node `b` is written somewhere in the blocks as an object, as
/// the classification wants it with a fuel of `low` at least.
pub open spec fn is_shown(c: Classes, blocks: Seq<TSubjectCont>, b: Seq<char>, low: int) -> bool {
    exists|k: int, o: TObject, fuel: nat| #[trigger] shows(c, blocks, b, k, o, fuel) && fuel >= low
}

/// The collection `col` has the head `h`, is as the classification wants
/// it with `fuel`, and stands in the block at `k`: somewhere as an object,
/// or as its subject.
pub open spec fn holds(c: Classes, blocks: Seq<TSubjectCont>, h: Seq<char>, k: int, col: TCollectionRef, fuel: nat) -> bool {
    &&& 0 <= k < blocks.len()
    &&& col.node.node.0@ == h
    &&& collection_ok(c, fuel, col)
    &&& (object_in_block(blocks[k], TObject::Collection(TCollection::WithContent(col))) || blocks[k].subject
        == TSubject::Collection(TCollection::WithContent(col)))
}

/// The collection with the head `h` stands somewhere in the blocks, as the
/// classification wants it with a fuel of `low` at least.
pub open spec fn is_held(c: Classes, blocks: Seq<TSubjectCont>, h: Seq<char>, low: int) -> bool {
    exists|k: int, col: TCollectionRef, fuel: nat| #[trigger] holds(c, blocks, h, k, col, fuel) && fuel >= low
}

/// The triple is written in the blocks under its subject: in the block of
/// its subject, or under an inline blank node that stands somewhere in a
/// block.
pub open spec fn is_written(blocks: Seq<TSubjectCont>, t: RdfTripleView) -> bool {
    ||| exists|k: int|
        0 <= k < blocks.len() && subject_term((#[trigger] blocks[k]).subject) == t.subject && covered(
            blocks[k].predicates@,
            t.subject,
            t,
        )
    ||| exists|k: int, bn: TBlankNode|
        0 <= k < blocks.len() && #[trigger] object_in_block(blocks[k], TObject::BlankNodeAnonymous(bn))
            && SubjectView::BlankNode(bn.node.0@) == t.subject && covered(bn.predicates@, t.subject, t)
}

/// The nodes of the chain of the head `h`.
pub open spec fn nodes_of(g: Set<RdfTripleView>, h: Seq<char>) -> Seq<Seq<char>> {
    chain_nodes(g, h, true, g.len())
}

/// `h` is the head of a collection of the graph, and its chain has a node
/// at `i`.
pub open spec fn in_chain(g: Set<RdfTripleView>, h: Seq<char>, i: int) -> bool {
    collection_at(g, h) is Some && 0 <= i < nodes_of(g, h).len()
}

/// The blank node is a node of a collection of the graph, behind its head.
pub open spec fn is_inner(g: Set<RdfTripleView>, y: Seq<char>) -> bool {
    exists|h: Seq<char>, i: int| in_chain(g, h, i) && i > 0 && #[trigger] nodes_of(g, h)[i] == y
}

/// A member of a set with one member is that member.
proof fn lemma_the_one<T>(s: Set<T>, x: T)
    requires
        is_single(s),
        s.contains(x),
    ensures
        crate::collections::the_one(s) == x,
{
}

/// What holds of the node at `i` of a chain that reaches `rdf:nil`.
proof fn lemma_chain_at(g: Set<RdfTripleView>, b: Seq<char>, head: bool, fuel: nat, i: int)
    requires
        chain(g, b, head, fuel) is Some,
        0 <= i < chain_nodes(g, b, head, fuel).len(),
    ensures
        chain(g, b, head, fuel).unwrap().len() == chain_nodes(g, b, head, fuel).len(),
        chain(g, b, head, fuel).unwrap()[i] == first_of(g, chain_nodes(g, b, head, fuel)[i]),
        link_ok(g, chain_nodes(g, b, head, fuel)[i], head && i == 0),
        chain_nodes(g, b, head, fuel)[0] == b,
        i + 1 < chain_nodes(g, b, head, fuel).len() ==> rest_of(g, chain_nodes(g, b, head, fuel)[i])
            == RdfTermView::BlankNode(chain_nodes(g, b, head, fuel)[i + 1]),
        i + 1 == chain_nodes(g, b, head, fuel).len() ==> rest_of(g, chain_nodes(g, b, head, fuel)[i])
            == RdfTermView::NamedNode(RDF_NIL@),
    decreases fuel,
{
    match rest_of(g, b) {
        RdfTermView::BlankNode(next) => {
            let rest_fuel = (fuel - 1) as nat;
            assert(chain(g, next, false, rest_fuel) is Some);
            assert(chain_nodes(g, next, false, rest_fuel).len() > 0);
            lemma_chain_at(g, next, false, rest_fuel, 0);
            if i > 0 {
                lemma_chain_at(g, next, false, rest_fuel, i - 1);
            }
        },
        _ => {},
    }
}

/// What the graph holds of the node at `i` of a collection.
proof fn lemma_node_at(g: Set<RdfTripleView>, h: Seq<char>, i: int)
    requires
        in_chain(g, h, i),
    ensures
        collection_at(g, h).unwrap().len() == nodes_of(g, h).len(),
        nodes_of(g, h)[0] == h,
        link_ok(g, nodes_of(g, h)[i], i == 0),
        forall|o: RdfTermView|
            g.contains(#[trigger] link(nodes_of(g, h)[i], RDF_FIRST@, o)) <==> o == collection_at(g, h).unwrap()[i],
        forall|o: RdfTermView|
            g.contains(#[trigger] link(nodes_of(g, h)[i], RDF_REST@, o)) <==> o == (if i + 1 < nodes_of(g, h).len() {
                RdfTermView::BlankNode(nodes_of(g, h)[i + 1])
            } else {
                RdfTermView::NamedNode(RDF_NIL@)
            }),
{
    lemma_chain_at(g, h, true, g.len(), i);
    let n = nodes_of(g, h)[i];
    let firsts = objects_of(g, SubjectView::BlankNode(n), RDF_FIRST@);
    let rests = objects_of(g, SubjectView::BlankNode(n), RDF_REST@);
    assert(is_single(firsts) && is_single(rests));
    let f = choose|x: RdfTermView| #[trigger] firsts.contains(x) && forall|y: RdfTermView| #[trigger] firsts.contains(y) ==> y == x;
    let r = choose|x: RdfTermView| #[trigger] rests.contains(x) && forall|y: RdfTermView| #[trigger] rests.contains(y) ==> y == x;
    lemma_the_one(firsts, f);
    lemma_the_one(rests, r);
    assert forall|o: RdfTermView| g.contains(#[trigger] link(n, RDF_FIRST@, o)) <==> o == collection_at(
        g,
        h,
    ).unwrap()[i] by {
        if g.contains(link(n, RDF_FIRST@, o)) {
            assert(firsts.contains(o));
        }
        assert(firsts.contains(f));
        assert(g.contains(link(n, RDF_FIRST@, f)));
    }
    assert forall|o: RdfTermView| g.contains(#[trigger] link(n, RDF_REST@, o)) <==> o == (if i + 1 < nodes_of(
        g,
        h,
    ).len() {
        RdfTermView::BlankNode(nodes_of(g, h)[i + 1])
    } else {
        RdfTermView::NamedNode(RDF_NIL@)
    }) by {
        if g.contains(link(n, RDF_REST@, o)) {
            assert(rests.contains(o));
        }
        assert(rests.contains(r));
        assert(g.contains(link(n, RDF_REST@, r)));
    }
}

/// A blank node that one triple only refers to is referred to by the
/// subject of any triple that refers to it.
proof fn lemma_one_referrer(g: Set<RdfTripleView>, y: Seq<char>, r: RdfTripleView)
    requires
        !is_duplicated(g, y),
        g.contains(r),
        r.object == RdfTermView::BlankNode(y),
    ensures
        referrer(g, y) == r.subject,
        forall|t: RdfTripleView| g.contains(t) && #[trigger] t.object == RdfTermView::BlankNode(y) ==> t == r,
{
    assert forall|t: RdfTripleView| g.contains(t) && #[trigger] t.object == RdfTermView::BlankNode(y) implies t
        == r by {
        if t != r {
            assert(g.contains(t) && g.contains(r) && t != r && t.object == RdfTermView::BlankNode(y) && r.object
                == RdfTermView::BlankNode(y));
            assert(is_duplicated(g, y));
        }
    }
    let t = choose|t: RdfTripleView| g.contains(t) && #[trigger] t.object == RdfTermView::BlankNode(y);
    assert(t == r);
}

/// A blank node that is anchored within some number of steps is so within
/// any greater number.
pub proof fn lemma_anchored_grows(g: Set<RdfTripleView>, b: Seq<char>, f: nat, f2: nat)
    requires
        is_anchored(g, b, f),
        f <= f2,
    ensures
        is_anchored(g, b, f2),
    decreases f,
{
    match referrer(g, b) {
        SubjectView::BlankNode(s) => {
            if is_nestable(g, s) {
                lemma_anchored_grows(g, s, (f - 1) as nat, (f2 - 1) as nat);
            }
        },
        _ => {},
    }
}

/// What the laws of this file take of a graph, its classification and the
/// blocks of its tree: the graph is finite, each of its subjects is
/// listed, the blocks are those of the subjects that get one, each as the
/// classification wants it, and the fuel exceeds the number of triples.
pub open spec fn is_tree_for(input: Input, unreferenced: Seq<String>, fuel: nat, blocks: Seq<TSubjectCont>) -> bool {
    &&& graph_triples(input.graph).finite()
    &&& forall|t: RdfTripleView|
        #[trigger] graph_triples(input.graph).contains(t) ==> has_subject(input.subjects_in_order@, t.subject)
    &&& blocks_kept(
        graph_classes(input, unreferenced, true),
        fuel,
        top_subjects(input.subjects_in_order@, graph_triples(input.graph), true),
        blocks,
    )
    &&& fuel > graph_triples(input.graph).len()
}

/// The block of a subject that has one.
proof fn lemma_block_of(input: Input, unreferenced: Seq<String>, fuel: nat, blocks: Seq<TSubjectCont>, t: RdfTripleView) -> (k: int)
    requires
        is_tree_for(input, unreferenced, fuel, blocks),
        graph_triples(input.graph).contains(t),
        !is_consumed(graph_triples(input.graph), t),
        !crate::builder::is_nested_subject(graph_triples(input.graph), true, t.subject),
    ensures
        0 <= k < blocks.len(),
        subject_term(blocks[k].subject) == t.subject,
        subject_cont_ok(graph_classes(input, unreferenced, true), fuel, blocks[k]),
        covered(blocks[k].predicates@, t.subject, t),
{
    let g = graph_triples(input.graph);
    let c = graph_classes(input, unreferenced, true);
    let top = top_subjects(input.subjects_in_order@, g, true);
    let s = t.subject;
    assert(has_visible(g, true, s));
    assert(!has_no_block(g, true, s));
    assert(has_subject(input.subjects_in_order@, s));
    lemma_top_subjects_has(input.subjects_in_order@, g, true, s);
    let (from, to) = choose|from: Seq<int>, to: Seq<int>| #[trigger] blocks_arranged(c, fuel, top, blocks, from, to);
    let i = choose|i: int| 0 <= i < top.len() && top[i] == s;
    let k = to[i];
    assert(from[k] == i);
    assert(subject_cont_ok(c, fuel, blocks[k]));
    assert(c.visible(s).contains(t));
    k
}

/// The object that stands for a visible triple under the predicates of
/// its subject.
proof fn lemma_object_for(c: Classes, fuel: nat, s: SubjectView, ps: Seq<TPredicateCont>, r: RdfTripleView) -> (kj: (int, int))
    requires
        predicates_ok(c, fuel, s, ps),
        c.visible(s).contains(r),
    ensures
        0 <= kj.0 < ps.len(),
        0 <= kj.1 < ps[kj.0].objects.len(),
        object_term(ps[kj.0].objects@[kj.1]) == r.object,
        object_ok(c, fuel, ps[kj.0].objects@[kj.1]),
{
    assert(covered(ps, s, r));
    let (k, j) = choose|k: int, j: int|
        0 <= k < ps.len() && 0 <= j < ps[k].objects.len() && #[trigger] entry_triple(s, ps[k], j) == r;
    assert(predicate_ok(c, fuel, s, ps[k]));
    assert(c.visible(s).contains(entry_triple(s, ps[k], j)) && object_ok(c, fuel, ps[k].objects@[j]));
    (k, j)
}

/// A node of a collection has no triple that is written under it, if a
/// triple refers to it.
proof fn lemma_node_is_consumed(g: Set<RdfTripleView>, h: Seq<char>, i: int, t: RdfTripleView)
    requires
        in_chain(g, h, i),
        g.contains(t),
        t.subject == SubjectView::BlankNode(nodes_of(g, h)[i]),
        is_object_in(g, nodes_of(g, h)[i]),
    ensures
        is_consumed(g, t),
{
    lemma_node_at(g, h, i);
    let n = nodes_of(g, h)[i];
    if i == 0 {
        assert(head_writable(g, h));
        assert(only_links(g, h));
    } else {
        assert(only_links(g, n));
    }
    assert(nodes_of(g, h).contains(n));
    assert(is_consumed_by(g, h, t));
}

/// No triple of a blank node that two or more triples refer to is part of
/// the structure of a collection: such a node is no node of one.
pub proof fn lemma_shared_node_is_no_list_node(g: Set<RdfTripleView>, b: Seq<char>, t: RdfTripleView)
    requires
        is_duplicated(g, b),
        g.contains(t),
        t.subject == SubjectView::BlankNode(b),
    ensures
        !is_consumed(g, t),
{
    if is_consumed(g, t) {
        let h = choose|h: Seq<char>| is_consumed_by(g, h, t);
        let i = choose|i: int| 0 <= i < nodes_of(g, h).len() && nodes_of(g, h)[i] == b;
        assert(in_chain(g, h, i));
        lemma_node_at(g, h, i);
        let (t1, t2) = choose|t1: RdfTripleView, t2: RdfTripleView|
            g.contains(t1) && g.contains(t2) && t1 != t2 && #[trigger] t1.object == RdfTermView::BlankNode(b)
                && #[trigger] t2.object == RdfTermView::BlankNode(b);
        assert(is_object_in(g, b));
        if i == 0 {
            assert(head_writable(g, h));
            assert(is_nested(g, b));
        } else {
            assert(is_nestable(g, b));
        }
    }
}

/// A blank node that is written where it is referenced, and is no node of
/// a collection behind its head, is written somewhere in the blocks as an
/// object, without its label.
proof fn lemma_shown(input: Input, unreferenced: Seq<String>, fuel: nat, blocks: Seq<TSubjectCont>, y: Seq<char>, f: nat)
    requires
        is_tree_for(input, unreferenced, fuel, blocks),
        is_anchored(graph_triples(input.graph), y, f),
        !is_pinned(graph_triples(input.graph), y),
        f <= graph_triples(input.graph).len(),
        !is_inner(graph_triples(input.graph), y),
    ensures
        is_shown(graph_classes(input, unreferenced, true), blocks, y, fuel - f),
    decreases f, 0nat,
{
    let g = graph_triples(input.graph);
    let c = graph_classes(input, unreferenced, true);
    let r = choose|t: RdfTripleView| g.contains(t) && #[trigger] t.object == RdfTermView::BlankNode(y);
    assert(is_object_in(g, y));
    lemma_one_referrer(g, y, r);
    let s = r.subject;
    lemma_anchored_grows(g, y, f, g.len());
    assert(is_nested(g, y));
    assert(c.expands(1, y)) by {
        assert(c.inline.contains(y));
    }
    if is_consumed(g, r) {
        let h = choose|h: Seq<char>| is_consumed_by(g, h, r);
        let n = s->BlankNode_0;
        let i = choose|i: int| 0 <= i < nodes_of(g, h).len() && nodes_of(g, h)[i] == n;
        assert(in_chain(g, h, i));
        lemma_node_at(g, h, i);
        assert(r == link(n, r.predicate, r.object));
        if r.predicate == RDF_REST@ {
            assert(g.contains(link(nodes_of(g, h)[i], RDF_REST@, RdfTermView::BlankNode(y))));
            assert(i + 1 < nodes_of(g, h).len());
            assert(in_chain(g, h, i + 1) && nodes_of(g, h)[i + 1] == y);
            assert(is_inner(g, y));
        } else if r.predicate == RDF_FIRST@ {
            assert(g.contains(link(nodes_of(g, h)[i], RDF_FIRST@, RdfTermView::BlankNode(y))));
            assert(collection_at(g, h).unwrap()[i] == RdfTermView::BlankNode(y));
            if i == 0 {
                assert(n == h);
            } else {
                assert(is_nestable(g, n));
            }
            assert((i == 0 && !is_nestable(g, h)) || is_anchored(g, n, (f - 1) as nat));
            lemma_held(input, unreferenced, fuel, blocks, h, i, (f - 1) as nat);
            let (k, col, high) = choose|k: int, col: TCollectionRef, high: nat| #[trigger]
                holds(c, blocks, h, k, col, high) && high >= fuel - (f - 1);
            assert(c.collections[h] == collection_at(g, h).unwrap());
            let o = col.rest@[i];
            assert(object_term(o) == RdfTermView::BlankNode(y) && object_ok(c, (high - 1) as nat, o));
            let whole = TObject::Collection(TCollection::WithContent(col));
            if object_in_block(blocks[k], whole) {
                assert(exists|i2: int| 0 <= i2 < col.rest.len() && #[trigger] col.rest@[i2] == o);
                assert(whole matches TObject::Collection(TCollection::WithContent(c2)) && c2 == col);
                assert(stands_in(whole, o));
                lemma_step_in_block(blocks[k], whole, o);
            } else {
                assert(object_in_object(col.rest@[i], o));
                assert(object_in_collection(col, o));
                assert(object_in_subject(blocks[k].subject, o));
            }
            assert(shows(c, blocks, y, k, o, (high - 1) as nat));
        } else {
            assert(crate::collections::is_list_type_triple(r));
        }
    } else {
        assert(c.visible(s).contains(r));
        let walks = match s {
            SubjectView::BlankNode(x) => is_nestable(g, x) && !is_pinned(g, x),
            _ => false,
        };
        if walks {
            let x = s->BlankNode_0;
            assert(is_anchored(g, x, (f - 1) as nat));
            assert(!is_inner(g, x)) by {
                if is_inner(g, x) {
                    let (h, i) = choose|h: Seq<char>, i: int|
                        in_chain(g, h, i) && i > 0 && #[trigger] nodes_of(g, h)[i] == x;
                    lemma_node_is_consumed(g, h, i, r);
                }
            }
            assert(!c.collections.dom().contains(x)) by {
                if collection_at(g, x) is Some {
                    assert(chain_nodes(g, x, true, g.len()).len() > 0);
                    assert(in_chain(g, x, 0));
                    lemma_node_at(g, x, 0);
                    lemma_node_is_consumed(g, x, 0, r);
                }
            }
            lemma_anchored_grows(g, x, (f - 1) as nat, g.len());
            lemma_shown(input, unreferenced, fuel, blocks, x, (f - 1) as nat);
            let (k, outer, high) = choose|k: int, outer: TObject, high: nat| #[trigger]
                shows(c, blocks, x, k, outer, high) && high >= fuel - (f - 1);
            assert(c.inline.contains(x));
            assert(c.expands(high, x));
            match outer {
                TObject::BlankNodeAnonymous(bn) => {
                    assert(inline_ok(c, high, bn));
                    let (k2, j2) = lemma_object_for(c, (high - 1) as nat, s, bn.predicates@, r);
                    let o = bn.predicates@[k2].objects@[j2];
                    assert(stands_in(outer, o));
                    lemma_step_in_block(blocks[k], outer, o);
                    assert(shows(c, blocks, y, k, o, (high - 1) as nat));
                },
                _ => {
                    assert(false);
                },
            }
        } else {
            assert(!crate::builder::is_nested_subject(g, true, s)) by {
                match s {
                    SubjectView::BlankNode(x) => {
                        assert(!is_nestable(g, x) || is_pinned(g, x));
                    },
                    _ => {},
                }
            }
            let k = lemma_block_of(input, unreferenced, fuel, blocks, r);
            let (k2, j2) = lemma_object_for(c, fuel, s, blocks[k].predicates@, r);
            let o = blocks[k].predicates@[k2].objects@[j2];
            assert(object_in_object(o, o));
            assert(object_in_predicates(blocks[k].predicates@, o));
            assert(shows(c, blocks, y, k, o, fuel));
        }
    }
}

/// A collection whose node at `i` is written where it is referenced, or
/// whose head no triple refers to, stands somewhere in the blocks.
proof fn lemma_held(
    input: Input,
    unreferenced: Seq<String>,
    fuel: nat,
    blocks: Seq<TSubjectCont>,
    h: Seq<char>,
    i: int,
    f: nat,
)
    requires
        is_tree_for(input, unreferenced, fuel, blocks),
        in_chain(graph_triples(input.graph), h, i),
        (i == 0 && !is_nestable(graph_triples(input.graph), h)) || is_anchored(
            graph_triples(input.graph),
            nodes_of(graph_triples(input.graph), h)[i],
            f,
        ),
        f <= graph_triples(input.graph).len(),
    ensures
        is_held(graph_classes(input, unreferenced, true), blocks, h, fuel - f),
    decreases f, 1nat,
{
    let g = graph_triples(input.graph);
    let c = graph_classes(input, unreferenced, true);
    lemma_node_at(g, h, i);
    assert(c.collections.dom().contains(h));
    if i == 0 {
        if is_nestable(g, h) {
            assert(!is_inner(g, h)) by {
                if is_inner(g, h) {
                    let (h2, i2) = choose|h2: Seq<char>, i2: int|
                        in_chain(g, h2, i2) && i2 > 0 && #[trigger] nodes_of(g, h2)[i2] == h;
                    assert(in_chain(g, h2, i2 - 1));
                    lemma_node_at(g, h2, i2 - 1);
                    let prev = nodes_of(g, h2)[i2 - 1];
                    assert(g.contains(link(prev, RDF_REST@, RdfTermView::BlankNode(h))));
                    assert(subjects_of(g, RDF_REST@, RdfTermView::BlankNode(h)).contains(SubjectView::BlankNode(prev)));
                    assert(is_head(g, h));
                }
            }
            lemma_shown(input, unreferenced, fuel, blocks, h, f);
            let (k, o, high) = choose|k: int, o: TObject, high: nat| #[trigger]
                shows(c, blocks, h, k, o, high) && high >= fuel - f;
            assert(c.expands(high, h));
            match o {
                TObject::Collection(TCollection::WithContent(col)) => {
                    assert(holds(c, blocks, h, k, col, high));
                },
                _ => {
                    assert(false);
                },
            }
        } else {
            assert(head_writable(g, h));
            if is_object_in(g, h) {
                assert(is_nested(g, h));
                assert(is_nestable(g, h));
            }
            assert(!only_links(g, h));
            let t = choose|t: RdfTripleView|
                #[trigger] g.contains(t) && t.subject == SubjectView::BlankNode(h) && !crate::collections::is_link_triple(t);
            assert(!is_consumed(g, t)) by {
                if is_consumed(g, t) {
                    let h2 = choose|h2: Seq<char>| is_consumed_by(g, h2, t);
                }
            }
            let k = lemma_block_of(input, unreferenced, fuel, blocks, t);
            assert(subject_ok(c, fuel, blocks[k].subject));
            assert(c.expands(fuel, h));
            match blocks[k].subject {
                TSubject::Collection(TCollection::WithContent(col)) => {
                    assert(holds(c, blocks, h, k, col, fuel));
                },
                _ => {
                    assert(false);
                },
            }
        }
    } else {
        let n = nodes_of(g, h)[i];
        assert(in_chain(g, h, i - 1));
        lemma_node_at(g, h, i - 1);
        let prev = nodes_of(g, h)[i - 1];
        let r = link(prev, RDF_REST@, RdfTermView::BlankNode(n));
        assert(g.contains(r));
        assert(is_nestable(g, n));
        lemma_one_referrer(g, n, r);
        if i - 1 > 0 {
            assert(is_nestable(g, prev));
        }
        lemma_held(input, unreferenced, fuel, blocks, h, i - 1, (f - 1) as nat);
        let (k, col, high) = choose|k: int, col: TCollectionRef, high: nat| #[trigger]
            holds(c, blocks, h, k, col, high) && high >= fuel - (f - 1);
        assert(holds(c, blocks, h, k, col, high) && high >= fuel - f);
    }
}

/// Nothing is lost: every triple of the graph that is no part of the
/// structure of a collection is written in the blocks, in the block of its
/// subject or under its subject where that is written inline. Blank nodes
/// that refer to each other in a circle are no exception: they have blocks.
pub proof fn lemma_every_triple_is_written(
    input: Input,
    unreferenced: Seq<String>,
    fuel: nat,
    blocks: Seq<TSubjectCont>,
    t: RdfTripleView,
)
    requires
        is_tree_for(input, unreferenced, fuel, blocks),
        graph_triples(input.graph).contains(t),
        !is_consumed(graph_triples(input.graph), t),
    ensures
        is_written(blocks, t),
{
    let g = graph_triples(input.graph);
    let c = graph_classes(input, unreferenced, true);
    let s = t.subject;
    if crate::builder::is_nested_subject(g, true, s) {
        let b = s->BlankNode_0;
        assert(is_nested(g, b));
        assert(is_object_in(g, b));
        assert(!is_inner(g, b)) by {
            if is_inner(g, b) {
                let (h, i) = choose|h: Seq<char>, i: int|
                    in_chain(g, h, i) && i > 0 && #[trigger] nodes_of(g, h)[i] == b;
                lemma_node_is_consumed(g, h, i, t);
            }
        }
        assert(!c.collections.dom().contains(b)) by {
            if collection_at(g, b) is Some {
                assert(chain_nodes(g, b, true, g.len()).len() > 0);
                assert(in_chain(g, b, 0));
                lemma_node_at(g, b, 0);
                lemma_node_is_consumed(g, b, 0, t);
            }
        }
        lemma_shown(input, unreferenced, fuel, blocks, b, g.len());
        let (k, o, high) = choose|k: int, o: TObject, high: nat| #[trigger]
            shows(c, blocks, b, k, o, high) && high >= fuel - g.len();
        assert(c.inline.contains(b));
        assert(c.expands(high, b));
        match o {
            TObject::BlankNodeAnonymous(bn) => {
                assert(inline_ok(c, high, bn));
                assert(c.visible(s).contains(t));
                assert(covered(bn.predicates@, s, t));
                assert(object_in_block(blocks[k], TObject::BlankNodeAnonymous(bn)) && SubjectView::BlankNode(
                    bn.node.0@,
                ) == t.subject && covered(bn.predicates@, t.subject, t));
            },
            _ => {
                assert(false);
            },
        }
    } else {
        let k = lemma_block_of(input, unreferenced, fuel, blocks, t);
        assert(subject_term(blocks[k].subject) == t.subject && covered(blocks[k].predicates@, t.subject, t));
    }
}

/// Every collection of the graph stands somewhere in the blocks, as an
/// object or as the subject of a block.
pub proof fn lemma_every_collection_is_written(
    input: Input,
    unreferenced: Seq<String>,
    fuel: nat,
    blocks: Seq<TSubjectCont>,
    h: Seq<char>,
)
    requires
        is_tree_for(input, unreferenced, fuel, blocks),
        collection_at(graph_triples(input.graph), h) is Some,
    ensures
        is_held(graph_classes(input, unreferenced, true), blocks, h, 1),
{
    let g = graph_triples(input.graph);
    assert(chain_nodes(g, h, true, g.len()).len() > 0);
    assert(in_chain(g, h, 0));
    lemma_node_at(g, h, 0);
    if is_nestable(g, h) {
        assert(head_writable(g, h));
        assert(is_nested(g, h));
    }
    lemma_held(input, unreferenced, fuel, blocks, h, 0, g.len());
}

} // verus!
