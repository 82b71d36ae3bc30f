//! RDF collections: chains of `rdf:first` and `rdf:rest` that end in
//! `rdf:nil`.
//!
//! A chain starts at a blank node that has an `rdf:first` and is the
//! `rdf:rest` of no node. Every node of it has exactly one `rdf:first` and
//! exactly one `rdf:rest`; every node but the head has no other triple, but
//! for the statement that it is an `rdf:List`, and is referred to by the
//! `rdf:rest` that leads to it only. No node stands in a quoted triple,
//! where it would need a label. The head is written where the one
//! triple that refers to it stands, and has no other triple either; or no
//! triple refers to it and it has other triples: the collection then
//! heads a block, in which they stand. A chain that fails any of this, or
//! that is longer than the graph has triples (it runs in a circle), is no
//! collection, and its triples are written as they are.
use crate::graph::{
    counts, graph_all_triples, graph_len, graph_objects_for_subject_predicate,
    graph_subjects_for_predicate_object, graph_triples, graph_triples_for_subject, lists_exactly, objects_of,
    subjects_of, triples_of_subject,
};
use crate::term::{RdfTerm, RdfTermView, RdfTriple, RdfTripleView, Subject, SubjectView};
use crate::classify::{
    contains_label, has_label, is_nestable, is_nested, is_object_elsewhere, is_object_in, is_pinned, is_pinned_in,
    is_referred_once, nested_blank_nodes,
};
use crate::text::str_eq;
use crate::vocab::{RDF_FIRST, RDF_LIST, RDF_NIL, RDF_REST, RDF_TYPE};
use vstd::prelude::*;

verus! {

/// The set has exactly one member.
pub open spec fn is_single<T>(s: Set<T>) -> bool {
    exists|x: T| #[trigger] s.contains(x) && forall|y: T| #[trigger] s.contains(y) ==> y == x
}

/// A member of the set.
pub open spec fn the_one<T>(s: Set<T>) -> T {
    choose|x: T| s.contains(x)
}

/// The views of a list of terms.
pub open spec fn term_views(v: Seq<RdfTerm>) -> Seq<RdfTermView> {
    Seq::new(v.len(), |i: int| v[i]@)
}

/// The triple states that its subject is an `rdf:List`.
pub open spec fn is_list_type_triple(t: RdfTripleView) -> bool {
    t.predicate == RDF_TYPE@ && t.object == RdfTermView::NamedNode(RDF_LIST@)
}

/// The triple belongs to the structure of a list: its `rdf:first`, its
/// `rdf:rest`, or the statement that the node is an `rdf:List`.
pub open spec fn is_link_triple(t: RdfTripleView) -> bool {
    t.predicate == RDF_FIRST@ || t.predicate == RDF_REST@ || is_list_type_triple(t)
}

/// The node `b` has the shape of a list node: one `rdf:first` and one
/// `rdf:rest`. A node behind the head has no triple besides those of the
/// list, one triple only refers to it, the `rdf:rest` that leads to it,
/// and it stands in no quoted triple: written as a collection, the node
/// has no label that anything else could name.
pub open spec fn link_ok(g: Set<RdfTripleView>, b: Seq<char>, head: bool) -> bool {
    &&& is_single(objects_of(g, SubjectView::BlankNode(b), RDF_FIRST@))
    &&& is_single(objects_of(g, SubjectView::BlankNode(b), RDF_REST@))
    &&& head || (only_links(g, b) && is_nestable(g, b) && !is_pinned(g, b))
}

/// The `rdf:first` of a list node.
pub open spec fn first_of(g: Set<RdfTripleView>, b: Seq<char>) -> RdfTermView {
    the_one(objects_of(g, SubjectView::BlankNode(b), RDF_FIRST@))
}

/// The `rdf:rest` of a list node.
pub open spec fn rest_of(g: Set<RdfTripleView>, b: Seq<char>) -> RdfTermView {
    the_one(objects_of(g, SubjectView::BlankNode(b), RDF_REST@))
}

/// The elements of the chain that starts at `b`, if it reaches `rdf:nil`
/// within `fuel` nodes, each of the right shape.
pub open spec fn chain(g: Set<RdfTripleView>, b: Seq<char>, head: bool, fuel: nat) -> Option<Seq<RdfTermView>>
    decreases fuel,
{
    if fuel == 0 || !link_ok(g, b, head) {
        None
    } else {
        match rest_of(g, b) {
            RdfTermView::NamedNode(n) => if n == RDF_NIL@ {
                Some(seq![first_of(g, b)])
            } else {
                None
            },
            RdfTermView::BlankNode(next) => match chain(g, next, false, (fuel - 1) as nat) {
                Some(s) => Some(seq![first_of(g, b)] + s),
                None => None,
            },
            _ => None,
        }
    }
}

/// The nodes of the chain that starts at `b`, as far as it goes.
pub open spec fn chain_nodes(g: Set<RdfTripleView>, b: Seq<char>, head: bool, fuel: nat) -> Seq<Seq<char>>
    decreases fuel,
{
    if fuel == 0 || !link_ok(g, b, head) {
        Seq::empty()
    } else {
        match rest_of(g, b) {
            RdfTermView::BlankNode(next) => seq![b] + chain_nodes(g, next, false, (fuel - 1) as nat),
            _ => seq![b],
        }
    }
}

/// The blank node `b` has an `rdf:first` and is the `rdf:rest` of no node.
pub open spec fn is_head(g: Set<RdfTripleView>, b: Seq<char>) -> bool {
    &&& exists|o: RdfTermView| #[trigger] objects_of(g, SubjectView::BlankNode(b), RDF_FIRST@).contains(o)
    &&& forall|s: SubjectView| !(#[trigger] subjects_of(g, RDF_REST@, RdfTermView::BlankNode(b)).contains(s))
}

/// Every triple of the node `b` belongs to the structure of a list.
pub open spec fn only_links(g: Set<RdfTripleView>, b: Seq<char>) -> bool {
    forall|t: RdfTripleView|
        #[trigger] g.contains(t) && t.subject == SubjectView::BlankNode(b) ==> is_link_triple(t)
}

/// The head `b` can be written as a collection without loss. Either it
/// is written where it is referenced, by the one triple that refers to it,
/// and has no triple besides those of the list. Or nothing refers to it,
/// no triple and no quoted triple, and it has other triples: the
/// collection heads a block, in which they stand.
pub open spec fn head_writable(g: Set<RdfTripleView>, b: Seq<char>) -> bool {
    if is_object_in(g, b) {
        is_nested(g, b) && only_links(g, b)
    } else {
        !only_links(g, b) && !is_pinned(g, b)
    }
}

/// The elements of the collection whose head is `b`, if `b` is the head of
/// one: the head of a chain that reaches `rdf:nil`, that can be written
/// as a collection without loss.
pub open spec fn collection_at(g: Set<RdfTripleView>, b: Seq<char>) -> Option<Seq<RdfTermView>> {
    if is_head(g, b) && head_writable(g, b) {
        chain(g, b, true, g.len())
    } else {
        None
    }
}

/// The triple `(b, p, o)`.
pub open spec fn link(b: Seq<char>, p: Seq<char>, o: RdfTermView) -> RdfTripleView {
    RdfTripleView { subject: SubjectView::BlankNode(b), predicate: p, object: o }
}

/// What follows the node at `i` in a chain of the given nodes: the next
/// node, or `rdf:nil` behind the last.
pub open spec fn rest_at(nodes: Seq<Seq<char>>, i: int) -> RdfTermView {
    if i + 1 < nodes.len() {
        RdfTermView::BlankNode(nodes[i + 1])
    } else {
        RdfTermView::NamedNode(RDF_NIL@)
    }
}

/// The graph holds a well-formed chain of the given nodes with the given
/// elements: the nodes are distinct blank nodes, each has the element of
/// its place as its one `rdf:first` and what follows it as its one
/// `rdf:rest`, and every node but the first has no triple besides those of
/// the list, is the object of one triple only and stands in no quoted
/// triple.
pub open spec fn is_chain(g: Set<RdfTripleView>, nodes: Seq<Seq<char>>, elements: Seq<RdfTermView>) -> bool {
    &&& g.finite()
    &&& nodes.len() > 0
    &&& nodes.len() == elements.len()
    &&& forall|i: int, j: int| 0 <= i < j < nodes.len() ==> nodes[i] != nodes[j]
    &&& forall|i: int, o: RdfTermView|
        0 <= i < nodes.len() ==> (#[trigger] g.contains(link(nodes[i], RDF_FIRST@, o)) <==> o == elements[i])
    &&& forall|i: int, o: RdfTermView|
        0 <= i < nodes.len() ==> (#[trigger] g.contains(link(nodes[i], RDF_REST@, o)) <==> o == rest_at(nodes, i))
    &&& forall|i: int|
        0 < i < nodes.len() ==> only_links(g, #[trigger] nodes[i]) && is_nestable(g, nodes[i]) && !is_pinned(
            g,
            nodes[i],
        )
}

/// The `rdf:first` triples of the first `n` nodes of a chain.
pub open spec fn first_links(nodes: Seq<Seq<char>>, elements: Seq<RdfTermView>, n: int) -> Set<RdfTripleView>
    decreases n,
{
    if n <= 0 {
        Set::empty()
    } else {
        first_links(nodes, elements, n - 1).insert(link(nodes[n - 1], RDF_FIRST@, elements[n - 1]))
    }
}

/// A graph has at least as many triples as a chain in it has nodes.
proof fn lemma_chain_fits(g: Set<RdfTripleView>, nodes: Seq<Seq<char>>, elements: Seq<RdfTermView>, n: int)
    requires
        is_chain(g, nodes, elements),
        0 <= n <= nodes.len(),
    ensures
        first_links(nodes, elements, n).finite(),
        first_links(nodes, elements, n).len() == n,
        first_links(nodes, elements, n).subset_of(g),
        forall|t: RdfTripleView|
            #[trigger] first_links(nodes, elements, n).contains(t) ==> exists|i: int|
                0 <= i < n && t.subject == SubjectView::BlankNode(#[trigger] nodes[i]),
        n <= g.len(),
    decreases n,
{
    if n > 0 {
        lemma_chain_fits(g, nodes, elements, n - 1);
        let before = first_links(nodes, elements, n - 1);
        let t = link(nodes[n - 1], RDF_FIRST@, elements[n - 1]);
        assert(g.contains(t));
        if before.contains(t) {
            let i = choose|i: int| 0 <= i < n - 1 && t.subject == SubjectView::BlankNode(#[trigger] nodes[i]);
            assert(nodes[i] == nodes[n - 1]);
        }
        assert forall|x: RdfTripleView| #[trigger] first_links(nodes, elements, n).contains(x) implies exists|
            i: int,
        | 0 <= i < n && x.subject == SubjectView::BlankNode(#[trigger] nodes[i]) by {
            if x == t {
                assert(x.subject == SubjectView::BlankNode(nodes[n - 1]));
            } else {
                assert(before.contains(x));
                let i = choose|i: int| 0 <= i < n - 1 && x.subject == SubjectView::BlankNode(#[trigger] nodes[i]);
                assert(0 <= i < n && x.subject == SubjectView::BlankNode(nodes[i]));
            }
        }
    }
    vstd::set_lib::lemma_len_subset(first_links(nodes, elements, n), g);
}

/// From its node at `j` on, a well-formed chain is walked to its end.
proof fn lemma_chain_from(
    g: Set<RdfTripleView>,
    nodes: Seq<Seq<char>>,
    elements: Seq<RdfTermView>,
    j: int,
    fuel: nat,
)
    requires
        is_chain(g, nodes, elements),
        0 <= j < nodes.len(),
        fuel >= nodes.len() - j,
    ensures
        chain(g, nodes[j], j == 0, fuel) == Some(elements.subrange(j, elements.len() as int)),
        chain_nodes(g, nodes[j], j == 0, fuel) == nodes.subrange(j, nodes.len() as int),
    decreases nodes.len() - j,
{
    let b = nodes[j];
    let firsts = objects_of(g, SubjectView::BlankNode(b), RDF_FIRST@);
    let rests = objects_of(g, SubjectView::BlankNode(b), RDF_REST@);
    assert(g.contains(link(b, RDF_FIRST@, elements[j])));
    assert(g.contains(link(b, RDF_REST@, rest_at(nodes, j))));
    assert(firsts.contains(elements[j]));
    assert(rests.contains(rest_at(nodes, j)));
    assert forall|o: RdfTermView| #[trigger] firsts.contains(o) implies o == elements[j] by {
        assert(g.contains(link(nodes[j], RDF_FIRST@, o)));
    }
    assert forall|o: RdfTermView| #[trigger] rests.contains(o) implies o == rest_at(nodes, j) by {
        assert(g.contains(link(nodes[j], RDF_REST@, o)));
    }
    assert(is_single(firsts));
    assert(is_single(rests));
    assert(first_of(g, b) == elements[j]);
    assert(rest_of(g, b) == rest_at(nodes, j));
    assert(link_ok(g, b, j == 0)) by {
        if j > 0 {
            assert(only_links(g, nodes[j]) && is_nestable(g, nodes[j]) && !is_pinned(g, nodes[j]));
        }
    }
    if j + 1 < nodes.len() {
        lemma_chain_from(g, nodes, elements, j + 1, (fuel - 1) as nat);
        assert(seq![elements[j]] + elements.subrange(j + 1, elements.len() as int) =~= elements.subrange(
            j,
            elements.len() as int,
        ));
        assert(seq![b] + nodes.subrange(j + 1, nodes.len() as int) =~= nodes.subrange(j, nodes.len() as int));
    } else {
        assert(seq![elements[j]] =~= elements.subrange(j, elements.len() as int));
        assert(seq![b] =~= nodes.subrange(j, nodes.len() as int));
    }
}

/// A well-formed chain is found whole: walked from its first node, it
/// gives its elements in their order, and its nodes are those of the
/// chain, whatever other triples the graph and the first node have.
pub proof fn lemma_well_formed_chain_is_found(
    g: Set<RdfTripleView>,
    nodes: Seq<Seq<char>>,
    elements: Seq<RdfTermView>,
)
    requires
        is_chain(g, nodes, elements),
    ensures
        chain(g, nodes[0], true, g.len()) == Some(elements),
        chain_nodes(g, nodes[0], true, g.len()) == nodes,
{
    lemma_chain_fits(g, nodes, elements, nodes.len() as int);
    lemma_chain_from(g, nodes, elements, 0, g.len());
    assert(elements.subrange(0, elements.len() as int) =~= elements);
    assert(nodes.subrange(0, nodes.len() as int) =~= nodes);
}

/// The triple belongs to the structure of the collection whose head is `h`.
pub open spec fn is_consumed_by(g: Set<RdfTripleView>, h: Seq<char>, t: RdfTripleView) -> bool {
    &&& collection_at(g, h) is Some
    &&& g.contains(t)
    &&& is_link_triple(t)
    &&& t.subject is BlankNode
    &&& chain_nodes(g, h, true, g.len()).contains(t.subject->BlankNode_0)
}

/// The triple belongs to the structure of a collection of `g`: it is
/// written as part of the collection and not as a triple of its own.
pub open spec fn is_consumed(g: Set<RdfTripleView>, t: RdfTripleView) -> bool {
    exists|h: Seq<char>| is_consumed_by(g, h, t)
}

/// The triple `t` is one of `list`.
pub open spec fn has_triple(list: Seq<RdfTriple>, t: RdfTripleView) -> bool {
    exists|i: int| 0 <= i < list.len() && (#[trigger] list[i])@ == t
}

/// The list holds a collection with head `b`.
pub open spec fn has_collection(cols: Seq<(String, Vec<RdfTerm>)>, b: Seq<char>) -> bool {
    exists|k: int| 0 <= k < cols.len() && (#[trigger] cols[k]).0@ == b
}

/// A list that holds the members of a set, each once, has one item exactly
/// when the set has one member, which is then that item.
pub proof fn lemma_single<T: View>(v: Seq<T>, s: Set<T::V>)
    requires
        lists_exactly(v, s),
    ensures
        v.len() == 1 <==> is_single(s),
        v.len() == 1 ==> the_one(s) == v[0]@,
        v.len() == 0 <==> forall|x: T::V| !s.contains(x),
{
    if v.len() == 1 {
        assert(s.contains(v[0]@));
        assert forall|y: T::V| #[trigger] s.contains(y) implies y == v[0]@ by {
            let i = choose|i: int| 0 <= i < v.len() && (#[trigger] v[i])@ == y;
        }
        assert(s.contains(the_one(s)));
    }
    if is_single(s) {
        let x = choose|x: T::V| #[trigger] s.contains(x) && forall|y: T::V| #[trigger] s.contains(y) ==> y == x;
        let i = choose|i: int| 0 <= i < v.len() && (#[trigger] v[i])@ == x;
        if v.len() >= 2 {
            assert(s.contains(v[0]@));
            assert(s.contains(v[1]@));
            assert(v[0]@ != v[1]@);
        }
    }
    if v.len() > 0 {
        assert(s.contains(v[0]@));
    }
    if forall|x: T::V| !s.contains(x) {
        if v.len() > 0 {
            assert(s.contains(v[0]@));
        }
    }
}

/// Is the triple part of the structure of a list?
fn triple_is_link(t: &RdfTriple) -> (r: bool)
    ensures
        r == is_link_triple(t@),
{
    if str_eq(t.predicate.as_str(), RDF_FIRST) || str_eq(t.predicate.as_str(), RDF_REST) {
        return true;
    }
    if !str_eq(t.predicate.as_str(), RDF_TYPE) {
        return false;
    }
    match &t.object {
        RdfTerm::NamedNode(iri) => str_eq(iri.as_str(), RDF_LIST),
        _ => false,
    }
}

/// Is `t` one of `list`?
pub fn contains_triple(list: &Vec<RdfTriple>, t: &RdfTriple) -> (r: bool)
    ensures
        r == has_triple(list@, t@),
{
    let mut i: usize = 0;
    while i < list.len()
        invariant
            i <= list.len(),
            forall|j: int| 0 <= j < i ==> (#[trigger] list@[j])@ != t@,
        decreases list.len() - i,
    {
        if list[i].same(t) {
            return true;
        }
        i += 1;
    }
    false
}

/// The triples of the node `b` that belong to the structure of a list are
/// added to `involved`. The result tells whether the node has no other
/// triple.
fn collect_links(g_main: &oxrdf::Graph, b: &str, involved: &mut Vec<RdfTriple>) -> (only_links: bool)
    ensures
        only_links == forall|t: RdfTripleView|
            #[trigger] graph_triples(*g_main).contains(t) && t.subject == SubjectView::BlankNode(b@)
                ==> is_link_triple(t),
        forall|t: RdfTripleView|
            #![trigger has_triple(final(involved)@, t)]
            has_triple(final(involved)@, t) <==> has_triple(old(involved)@, t) || (graph_triples(
                *g_main,
            ).contains(t) && t.subject == SubjectView::BlankNode(b@) && is_link_triple(t)),
{
    let subject = Subject::BlankNode(b.to_owned());
    let level = graph_triples_for_subject(g_main, &subject);
    let ghost g = graph_triples(*g_main);
    let ghost own = triples_of_subject(g, SubjectView::BlankNode(b@));
    let mut only_links = true;
    let mut i: usize = 0;
    while i < level.len()
        invariant
            i <= level.len(),
            lists_exactly(level@, own),
            own == triples_of_subject(g, SubjectView::BlankNode(b@)),
            only_links == forall|j: int| 0 <= j < i ==> is_link_triple((#[trigger] level@[j])@),
            forall|t: RdfTripleView|
                #![trigger has_triple(involved@, t)]
                has_triple(involved@, t) <==> has_triple(old(involved)@, t) || (exists|j: int|
                    0 <= j < i && (#[trigger] level@[j])@ == t && is_link_triple(t)),
        decreases level.len() - i,
    {
        let ghost before = involved@;
        if triple_is_link(&level[i]) {
            involved.push(level[i].clone());
            proof {
                let ti = level@[i as int]@;
                assert(involved@[before.len() as int]@ == ti);
                assert forall|t: RdfTripleView| #![trigger has_triple(involved@, t)] has_triple(involved@, t) <==> has_triple(
                    old(involved)@,
                    t,
                ) || (exists|j: int| 0 <= j < i + 1 && (#[trigger] level@[j])@ == t && is_link_triple(t)) by {
                    if has_triple(involved@, t) {
                        let m = choose|m: int| 0 <= m < involved@.len() && (#[trigger] involved@[m])@ == t;
                        if m < before.len() {
                            assert(before[m]@ == t);
                            assert(has_triple(before, t));
                            if !has_triple(old(involved)@, t) {
                                let j = choose|j: int|
                                    0 <= j < i && (#[trigger] level@[j])@ == t && is_link_triple(t);
                                assert(0 <= j < i + 1 && level@[j]@ == t && is_link_triple(t));
                            }
                        } else {
                            assert(0 <= i < i + 1 && level@[i as int]@ == t && is_link_triple(t));
                        }
                    }
                    if has_triple(old(involved)@, t) {
                        assert(has_triple(before, t));
                        let m = choose|m: int| 0 <= m < before.len() && (#[trigger] before[m])@ == t;
                        assert(involved@[m]@ == t);
                    }
                    if exists|j: int| 0 <= j < i + 1 && (#[trigger] level@[j])@ == t && is_link_triple(t) {
                        let j = choose|j: int|
                            0 <= j < i + 1 && (#[trigger] level@[j])@ == t && is_link_triple(t);
                        if j < i {
                            assert(has_triple(before, t));
                            let m = choose|m: int| 0 <= m < before.len() && (#[trigger] before[m])@ == t;
                            assert(involved@[m]@ == t);
                        } else {
                            assert(involved@[before.len() as int]@ == t);
                        }
                    }
                }
            }
        } else {
            only_links = false;
            proof {
                assert forall|t: RdfTripleView| #![trigger has_triple(involved@, t)] has_triple(involved@, t) <==> has_triple(
                    old(involved)@,
                    t,
                ) || (exists|j: int| 0 <= j < i + 1 && (#[trigger] level@[j])@ == t && is_link_triple(t)) by {
                    if has_triple(involved@, t) && !has_triple(old(involved)@, t) {
                        let j = choose|j: int| 0 <= j < i && (#[trigger] level@[j])@ == t && is_link_triple(t);
                        assert(0 <= j < i + 1 && level@[j]@ == t && is_link_triple(t));
                    }
                    if exists|j: int| 0 <= j < i + 1 && (#[trigger] level@[j])@ == t && is_link_triple(t) {
                        let j = choose|j: int|
                            0 <= j < i + 1 && (#[trigger] level@[j])@ == t && is_link_triple(t);
                        assert(j < i);
                    }
                }
            }
        }
        i += 1;
    }
    proof {
        assert forall|t: RdfTripleView| #![trigger has_triple(involved@, t)] has_triple(involved@, t) <==> has_triple(
            old(involved)@,
            t,
        ) || (g.contains(t) && t.subject == SubjectView::BlankNode(b@) && is_link_triple(t)) by {
            if has_triple(involved@, t) && !has_triple(old(involved)@, t) {
                let j = choose|j: int| 0 <= j < i && (#[trigger] level@[j])@ == t && is_link_triple(t);
                assert(own.contains(level@[j]@));
            }
            if g.contains(t) && t.subject == SubjectView::BlankNode(b@) && is_link_triple(t) {
                assert(own.contains(t));
                let j = choose|j: int| 0 <= j < level@.len() && (#[trigger] level@[j])@ == t;
                assert(0 <= j < i && level@[j]@ == t && is_link_triple(t));
            }
        }
        if only_links {
            assert forall|t: RdfTripleView|
                #[trigger] g.contains(t) && t.subject == SubjectView::BlankNode(b@) implies is_link_triple(
                t,
            ) by {
                assert(own.contains(t));
                let j = choose|j: int| 0 <= j < level@.len() && (#[trigger] level@[j])@ == t;
            }
        } else {
            let j = choose|j: int| 0 <= j < i && !is_link_triple((#[trigger] level@[j])@);
            let t = level@[j]@;
            assert(own.contains(t));
            assert(g.contains(t) && t.subject == SubjectView::BlankNode(b@) && !is_link_triple(t));
        }
    }
    only_links
}

/// The elements `tail` after the elements `acc`, if there is a tail.
pub open spec fn prepend(acc: Seq<RdfTermView>, tail: Option<Seq<RdfTermView>>) -> Option<Seq<RdfTermView>> {
    match tail {
        Some(s) => Some(acc + s),
        None => None,
    }
}

/// The triple belongs to the structure of a list and its subject is one of
/// `nodes`.
pub open spec fn is_link_of(g: Set<RdfTripleView>, nodes: Seq<Seq<char>>, t: RdfTripleView) -> bool {
    &&& g.contains(t)
    &&& is_link_triple(t)
    &&& t.subject is BlankNode
    &&& nodes.contains(t.subject->BlankNode_0)
}

proof fn lemma_has_triple_concat(a: Seq<RdfTriple>, b: Seq<RdfTriple>, t: RdfTripleView)
    ensures
        has_triple(a + b, t) <==> has_triple(a, t) || has_triple(b, t),
{
    let c = a + b;
    if has_triple(c, t) {
        let i = choose|i: int| 0 <= i < c.len() && (#[trigger] c[i])@ == t;
        if i < a.len() {
            assert(a[i]@ == t);
        } else {
            assert(b[i - a.len()]@ == t);
        }
    }
    if has_triple(a, t) {
        let i = choose|i: int| 0 <= i < a.len() && (#[trigger] a[i])@ == t;
        assert(c[i]@ == t);
    }
    if has_triple(b, t) {
        let i = choose|i: int| 0 <= i < b.len() && (#[trigger] b[i])@ == t;
        assert(c[i + a.len()]@ == t);
    }
}

/// Walks the chain that starts at the blank node `start`.
///
/// If it is a collection, its elements are returned in their order and the
/// triples that make up its structure are added to `involved_triples`.
/// If it is none, nothing is returned and nothing added.
pub fn extract_collection(g_main: &oxrdf::Graph, involved_triples: &mut Vec<RdfTriple>, start: &str) -> (r:
    Option<Vec<RdfTerm>>)
    ensures
        match r {
            Some(col) => chain(graph_triples(*g_main), start@, true, graph_triples(*g_main).len()) == Some(
                term_views(col@),
            ),
            None => chain(graph_triples(*g_main), start@, true, graph_triples(*g_main).len()) is None,
        },
        r is None ==> final(involved_triples)@ == old(involved_triples)@,
        old(involved_triples)@.is_prefix_of(final(involved_triples)@),
        forall|t: RdfTripleView|
            #![trigger has_triple(final(involved_triples)@, t)]
            has_triple(final(involved_triples)@, t) <==> has_triple(old(involved_triples)@, t) || (r is Some
                && is_link_of(
                graph_triples(*g_main),
                chain_nodes(graph_triples(*g_main), start@, true, graph_triples(*g_main).len()),
                t,
            )),
{
    let ghost g = graph_triples(*g_main);
    let fuel = graph_len(g_main);
    let listed = graph_all_triples(g_main);
    let mut cur: String = start.to_owned();
    let mut head = true;
    let mut left: usize = fuel;
    let mut col: Vec<RdfTerm> = Vec::new();
    let mut found: Vec<RdfTriple> = Vec::new();
    let ghost mut nodes: Seq<Seq<char>> = Seq::empty();
    assert(term_views(col@) + seq![] =~= seq![]);
    loop
        invariant
            g == graph_triples(*g_main),
            counts(g, fuel),
            lists_exactly(listed@, g),
            left <= fuel,
            chain(g, start@, true, fuel as nat) == prepend(
                term_views(col@),
                chain(g, cur@, head, left as nat),
            ),
            chain_nodes(g, start@, true, fuel as nat) == nodes + chain_nodes(g, cur@, head, left as nat),
            forall|t: RdfTripleView|
                #![trigger has_triple(found@, t)]
                has_triple(found@, t) <==> is_link_of(g, nodes, t),
            involved_triples@ == old(involved_triples)@,
        decreases left,
    {
        if left == 0 {
            return None;
        }
        let subject = Subject::BlankNode(cur.clone());
        let mut firsts = graph_objects_for_subject_predicate(g_main, &subject, RDF_FIRST);
        proof {
            lemma_single(firsts@, objects_of(g, SubjectView::BlankNode(cur@), RDF_FIRST@));
        }
        if firsts.len() != 1 {
            return None;
        }
        let mut rests = graph_objects_for_subject_predicate(g_main, &subject, RDF_REST);
        proof {
            lemma_single(rests@, objects_of(g, SubjectView::BlankNode(cur@), RDF_REST@));
        }
        if rests.len() != 1 {
            return None;
        }
        let ghost found_before = found@;
        let only_links = collect_links(g_main, cur.as_str(), &mut found);
        if !head && !(only_links && is_referred_once(&listed, cur.as_str(), Ghost(g)) && !is_pinned_in(
            &listed,
            cur.as_str(),
            Ghost(g),
        )) {
            return None;
        }
        assert(link_ok(g, cur@, head));
        let ghost here = cur@;
        proof {
            assert forall|t: RdfTripleView| #![trigger has_triple(found@, t)] has_triple(found@, t) <==> is_link_of(
                g,
                nodes.push(here),
                t,
            ) by {
                if t.subject is BlankNode {
                    let b = t.subject->BlankNode_0;
                    if nodes.contains(b) {
                        let k = choose|k: int| 0 <= k < nodes.len() && nodes[k] == b;
                        assert(nodes.push(here)[k] == b);
                    }
                    assert(nodes.push(here)[nodes.len() as int] == here);
                    if nodes.push(here).contains(b) {
                        let k = choose|k: int| 0 <= k < nodes.push(here).len() && nodes.push(here)[k] == b;
                        if k < nodes.len() {
                            assert(nodes[k] == b);
                        }
                    }
                    assert(has_triple(found_before, t) <==> is_link_of(g, nodes, t));
                }
            }
        }
        let first = firsts.pop().unwrap();
        let rest = rests.pop().unwrap();
        assert(first@ == first_of(g, here));
        assert(rest@ == rest_of(g, here));
        let ghost col_before = term_views(col@);
        col.push(first);
        assert(term_views(col@) =~= col_before.push(first_of(g, here)));
        match rest {
            RdfTerm::NamedNode(n) => {
                if str_eq(n.as_str(), RDF_NIL) {
                    proof {
                        assert(chain(g, here, head, left as nat) == Some(seq![first_of(g, here)]));
                        assert(col_before + seq![first_of(g, here)] =~= term_views(col@));
                        assert(chain_nodes(g, here, head, left as nat) == seq![here]);
                        assert(nodes + seq![here] =~= nodes.push(here));
                    }
                    let ghost inv_before = involved_triples@;
                    let ghost added = found@;
                    involved_triples.append(&mut found);
                    assert(inv_before =~= involved_triples@.subrange(0, inv_before.len() as int));
                    proof {
                        let all_nodes = chain_nodes(g, start@, true, fuel as nat);
                        assert(all_nodes == nodes.push(here));
                        assert forall|t: RdfTripleView|
                            #![trigger has_triple(involved_triples@, t)]
                            has_triple(involved_triples@, t) <==> has_triple(inv_before, t) || is_link_of(
                                g,
                                all_nodes,
                                t,
                            ) by {
                            lemma_has_triple_concat(inv_before, added, t);
                            assert(has_triple(added, t) <==> is_link_of(g, nodes.push(here), t));
                        }
                    }
                    return Some(col);
                }
                return None;
            },
            RdfTerm::BlankNode(next) => {
                proof {
                    let tail = chain(g, next@, false, (left - 1) as nat);
                    match tail {
                        Some(s) => {
                            assert(col_before + (seq![first_of(g, here)] + s) =~= term_views(col@) + s);
                        },
                        None => {},
                    }
                    let more = chain_nodes(g, next@, false, (left - 1) as nat);
                    assert(nodes + (seq![here] + more) =~= nodes.push(here) + more);
                    nodes = nodes.push(here);
                }
                cur = next;
                head = false;
                left = left - 1;
            },
            _ => {
                return None;
            },
        }
    }
}

/// One of the first `n` triples of the list is the `rdf:first` of the
/// blank node `b`.
pub open spec fn first_before(listed: Seq<RdfTriple>, n: int, b: Seq<char>) -> bool {
    exists|j: int|
        0 <= j < n && j < listed.len() && (#[trigger] listed[j])@.subject == SubjectView::BlankNode(b)
            && listed[j]@.predicate == RDF_FIRST@
}

/// The triple is the `rdf:first` of the head of a collection that `cols`
/// lacks.
pub open spec fn misses_collection(
    g: Set<RdfTripleView>,
    cols: Seq<(String, Vec<RdfTerm>)>,
    t: RdfTripleView,
) -> bool {
    match t.subject {
        SubjectView::BlankNode(b) => t.predicate == RDF_FIRST@ && collection_at(g, b) is Some
            && !has_collection(cols, b),
        _ => false,
    }
}

/// The triple belongs to the structure of one of the collections of `cols`.
pub open spec fn is_consumed_in(
    g: Set<RdfTripleView>,
    cols: Seq<(String, Vec<RdfTerm>)>,
    t: RdfTripleView,
) -> bool {
    exists|k: int| 0 <= k < cols.len() && is_consumed_by(g, (#[trigger] cols[k]).0@, t)
}

/// `cols` holds the collections of `g`, each once, under its head.
pub open spec fn holds_collections(g: Set<RdfTripleView>, cols: Seq<(String, Vec<RdfTerm>)>) -> bool {
    &&& forall|b: Seq<char>|
        #![trigger has_collection(cols, b)]
        #![trigger collection_at(g, b)]
        has_collection(cols, b) <==> collection_at(g, b) is Some
    &&& forall|k: int|
        0 <= k < cols.len() ==> collection_at(g, (#[trigger] cols[k]).0@) == Some(term_views(cols[k].1@))
    &&& forall|i: int, j: int| 0 <= i < j < cols.len() ==> cols[i].0@ != cols[j].0@
}

proof fn lemma_first_before_grows(listed: Seq<RdfTriple>, n: int, b: Seq<char>)
    requires
        first_before(listed, n, b),
    ensures
        first_before(listed, n + 1, b),
{
    let j = choose|j: int|
        0 <= j < n && j < listed.len() && (#[trigger] listed[j])@.subject == SubjectView::BlankNode(b)
            && listed[j]@.predicate == RDF_FIRST@;
    assert(0 <= j < n + 1 && j < listed.len() && listed[j]@.subject == SubjectView::BlankNode(b)
        && listed[j]@.predicate == RDF_FIRST@);
}

/// What is found after the first `n` triples of the list: the collections
/// whose head has its `rdf:first` among them, each once.
pub open spec fn found_so_far(
    g: Set<RdfTripleView>,
    listed: Seq<RdfTriple>,
    n: int,
    cols: Seq<(String, Vec<RdfTerm>)>,
) -> bool {
    &&& forall|k: int|
        0 <= k < cols.len() ==> collection_at(g, (#[trigger] cols[k]).0@) == Some(term_views(cols[k].1@))
    &&& forall|k: int| 0 <= k < cols.len() ==> first_before(listed, n, (#[trigger] cols[k]).0@)
    &&& forall|j: int| 0 <= j < n && j < listed.len() ==> !misses_collection(g, cols, (#[trigger] listed[j])@)
    &&& forall|x: int, y: int| 0 <= x < y < cols.len() ==> cols[x].0@ != cols[y].0@
}

/// The triples of `now` are those of `start` and those of the structure of
/// the collections `cols`.
pub open spec fn involved_so_far(
    g: Set<RdfTripleView>,
    start: Seq<RdfTriple>,
    now: Seq<RdfTriple>,
    cols: Seq<(String, Vec<RdfTerm>)>,
) -> bool {
    forall|t: RdfTripleView|
        #![trigger has_triple(now, t)]
        has_triple(now, t) <==> has_triple(start, t) || is_consumed_in(g, cols, t)
}

proof fn lemma_found_skip(g: Set<RdfTripleView>, listed: Seq<RdfTriple>, n: int, cols: Seq<(String, Vec<RdfTerm>)>)
    requires
        0 <= n < listed.len(),
        found_so_far(g, listed, n, cols),
        !misses_collection(g, cols, listed[n]@),
    ensures
        found_so_far(g, listed, n + 1, cols),
{
    assert forall|k: int| 0 <= k < cols.len() implies first_before(listed, n + 1, (#[trigger] cols[k]).0@) by {
        lemma_first_before_grows(listed, n, cols[k].0@);
    }
}

proof fn lemma_found_push(
    g: Set<RdfTripleView>,
    listed: Seq<RdfTriple>,
    n: int,
    cols: Seq<(String, Vec<RdfTerm>)>,
    entry: (String, Vec<RdfTerm>),
)
    requires
        0 <= n < listed.len(),
        forall|i: int, j: int| 0 <= i < j < listed.len() ==> listed[i]@ != listed[j]@,
        forall|i: int| 0 <= i < listed.len() ==> g.contains(#[trigger] listed[i]@),
        found_so_far(g, listed, n, cols),
        listed[n]@.subject == SubjectView::BlankNode(entry.0@),
        listed[n]@.predicate == RDF_FIRST@,
        collection_at(g, entry.0@) == Some(term_views(entry.1@)),
    ensures
        found_so_far(g, listed, n + 1, cols.push(entry)),
{
    let b = entry.0@;
    let after = cols.push(entry);
    let last = cols.len() as int;
    let ti = listed[n]@;
    assert(link_ok(g, b, true));
    let firsts = objects_of(g, SubjectView::BlankNode(b), RDF_FIRST@);
    assert(ti == RdfTripleView { subject: SubjectView::BlankNode(b), predicate: RDF_FIRST@, object: ti.object });
    assert(firsts.contains(ti.object));
    if has_collection(cols, b) {
        let k = choose|k: int| 0 <= k < cols.len() && (#[trigger] cols[k]).0@ == b;
        assert(first_before(listed, n, b));
        let j = choose|j: int|
            0 <= j < n && j < listed.len() && (#[trigger] listed[j])@.subject == SubjectView::BlankNode(b)
                && listed[j]@.predicate == RDF_FIRST@;
        let tj = listed[j]@;
        assert(tj == RdfTripleView {
            subject: SubjectView::BlankNode(b),
            predicate: RDF_FIRST@,
            object: tj.object,
        });
        assert(g.contains(tj));
        assert(firsts.contains(tj.object));
        assert(tj == ti);
        assert(listed[j]@ != listed[n]@);
        assert(false);
    }
    assert forall|k: int| 0 <= k < after.len() implies collection_at(g, (#[trigger] after[k]).0@) == Some(
        term_views(after[k].1@),
    ) && first_before(listed, n + 1, after[k].0@) by {
        if k < last {
            assert(after[k] == cols[k]);
            lemma_first_before_grows(listed, n, cols[k].0@);
        } else {
            assert(0 <= n < n + 1 && n < listed.len() && listed[n]@.subject == SubjectView::BlankNode(b)
                && listed[n]@.predicate == RDF_FIRST@);
        }
    }
    assert forall|j: int| 0 <= j < n + 1 && j < listed.len() implies !misses_collection(
        g,
        after,
        (#[trigger] listed[j])@,
    ) by {
        match listed[j]@.subject {
            SubjectView::BlankNode(c) => {
                if has_collection(cols, c) {
                    let k = choose|k: int| 0 <= k < cols.len() && (#[trigger] cols[k]).0@ == c;
                    assert(after[k].0@ == c);
                }
                if j == n {
                    assert(after[last].0@ == c);
                } else {
                    assert(!misses_collection(g, cols, listed[j]@));
                }
            },
            _ => {},
        }
    }
    assert forall|x: int, y: int| 0 <= x < y < after.len() implies after[x].0@ != after[y].0@ by {
        if y == last {
            assert(after[x] == cols[x]);
            if cols[x].0@ == b {
                assert(has_collection(cols, b));
            }
        } else {
            assert(after[x] == cols[x] && after[y] == cols[y]);
        }
    }
}

proof fn lemma_involved_push(
    g: Set<RdfTripleView>,
    start: Seq<RdfTriple>,
    before: Seq<RdfTriple>,
    now: Seq<RdfTriple>,
    cols: Seq<(String, Vec<RdfTerm>)>,
    entry: (String, Vec<RdfTerm>),
)
    requires
        involved_so_far(g, start, before, cols),
        collection_at(g, entry.0@) is Some,
        forall|t: RdfTripleView|
            #![trigger has_triple(now, t)]
            has_triple(now, t) <==> has_triple(before, t) || is_link_of(
                g,
                chain_nodes(g, entry.0@, true, g.len()),
                t,
            ),
    ensures
        involved_so_far(g, start, now, cols.push(entry)),
{
    let after = cols.push(entry);
    let last = cols.len() as int;
    let nodes = chain_nodes(g, entry.0@, true, g.len());
    assert forall|t: RdfTripleView| #![trigger has_triple(now, t)] has_triple(now, t) <==> has_triple(start, t)
        || is_consumed_in(g, after, t) by {
        assert(has_triple(before, t) <==> has_triple(start, t) || is_consumed_in(g, cols, t));
        assert(is_link_of(g, nodes, t) <==> is_consumed_by(g, entry.0@, t));
        if is_consumed_in(g, cols, t) {
            let k = choose|k: int| 0 <= k < cols.len() && is_consumed_by(g, (#[trigger] cols[k]).0@, t);
            assert(after[k] == cols[k]);
            assert(is_consumed_by(g, after[k].0@, t));
        }
        if is_consumed_by(g, entry.0@, t) {
            assert(is_consumed_by(g, after[last].0@, t));
        }
        if is_consumed_in(g, after, t) {
            let k = choose|k: int| 0 <= k < after.len() && is_consumed_by(g, (#[trigger] after[k]).0@, t);
            if k < last {
                assert(after[k] == cols[k]);
                assert(is_consumed_by(g, cols[k].0@, t));
            }
        }
    }
}

proof fn lemma_involved_same(
    g: Set<RdfTripleView>,
    start: Seq<RdfTriple>,
    before: Seq<RdfTriple>,
    now: Seq<RdfTriple>,
    cols: Seq<(String, Vec<RdfTerm>)>,
)
    requires
        involved_so_far(g, start, before, cols),
        forall|t: RdfTripleView| #![trigger has_triple(now, t)] has_triple(now, t) <==> has_triple(before, t),
    ensures
        involved_so_far(g, start, now, cols),
{
    assert forall|t: RdfTripleView| #![trigger has_triple(now, t)] has_triple(now, t) <==> has_triple(start, t)
        || is_consumed_in(g, cols, t) by {
        assert(has_triple(before, t) <==> has_triple(start, t) || is_consumed_in(g, cols, t));
    }
}

proof fn lemma_found_all(
    g: Set<RdfTripleView>,
    listed: Seq<RdfTriple>,
    cols: Seq<(String, Vec<RdfTerm>)>,
    start: Seq<RdfTriple>,
    now: Seq<RdfTriple>,
)
    requires
        lists_exactly(listed, g),
        found_so_far(g, listed, listed.len() as int, cols),
        involved_so_far(g, start, now, cols),
    ensures
        holds_collections(g, cols),
        forall|t: RdfTripleView|
            #![trigger has_triple(now, t)]
            #![trigger is_consumed(g, t)]
            has_triple(now, t) <==> has_triple(start, t) || is_consumed(g, t),
{
    assert forall|b: Seq<char>|
        #![trigger has_collection(cols, b)]
        #![trigger collection_at(g, b)]
        has_collection(cols, b) <==> collection_at(g, b) is Some by {
        if has_collection(cols, b) {
            let k = choose|k: int| 0 <= k < cols.len() && (#[trigger] cols[k]).0@ == b;
        }
        if collection_at(g, b) is Some {
            let o = choose|o: RdfTermView|
                #[trigger] objects_of(g, SubjectView::BlankNode(b), RDF_FIRST@).contains(o);
            let t = RdfTripleView { subject: SubjectView::BlankNode(b), predicate: RDF_FIRST@, object: o };
            assert(g.contains(t));
            let j = choose|j: int| 0 <= j < listed.len() && (#[trigger] listed[j])@ == t;
            assert(!misses_collection(g, cols, listed[j]@));
        }
    }
    assert forall|t: RdfTripleView|
        #![trigger has_triple(now, t)]
        #![trigger is_consumed(g, t)]
        has_triple(now, t) <==> has_triple(start, t) || is_consumed(g, t) by {
        assert(has_triple(now, t) <==> has_triple(start, t) || is_consumed_in(g, cols, t));
        if is_consumed_in(g, cols, t) {
            let k = choose|k: int| 0 <= k < cols.len() && is_consumed_by(g, (#[trigger] cols[k]).0@, t);
            assert(is_consumed_by(g, cols[k].0@, t));
        }
        if is_consumed(g, t) {
            let h = choose|h: Seq<char>| is_consumed_by(g, h, t);
            assert(has_collection(cols, h));
            let k = choose|k: int| 0 <= k < cols.len() && (#[trigger] cols[k]).0@ == h;
            assert(is_consumed_by(g, cols[k].0@, t));
        }
    }
}

/// A blank node is the object of a triple of the graph exactly if it is
/// that of a triple of a list that holds the triples of the graph.
proof fn lemma_referenced(g: Set<RdfTripleView>, listed: Seq<RdfTriple>, b: Seq<char>)
    requires
        lists_exactly(listed, g),
    ensures
        is_object_in(g, b) <==> exists|j: int|
            0 <= j < listed.len() && j != listed.len() && (#[trigger] listed[j])@.object
                == RdfTermView::BlankNode(b),
{
    if is_object_in(g, b) {
        let t = choose|t: RdfTripleView| g.contains(t) && #[trigger] t.object == RdfTermView::BlankNode(b);
        let j = choose|j: int| 0 <= j < listed.len() && (#[trigger] listed[j])@ == t;
        assert(listed[j]@.object == RdfTermView::BlankNode(b));
    }
    if exists|j: int|
        0 <= j < listed.len() && j != listed.len() && (#[trigger] listed[j])@.object == RdfTermView::BlankNode(
            b,
        ) {
        let j = choose|j: int|
            0 <= j < listed.len() && j != listed.len() && (#[trigger] listed[j])@.object
                == RdfTermView::BlankNode(b);
        assert(g.contains(listed[j]@));
    }
}

/// Finds the collections of the graph.
///
/// Returns each with its head and its elements in their order, and adds
/// to `involved_triples` the triples that make up their structure.
pub fn extract_non_empty_collections(g_main: &oxrdf::Graph, involved_triples: &mut Vec<RdfTriple>) -> (cols:
    Vec<(String, Vec<RdfTerm>)>)
    ensures
        holds_collections(graph_triples(*g_main), cols@),
        old(involved_triples)@.is_prefix_of(final(involved_triples)@),
        forall|t: RdfTripleView|
            #![trigger has_triple(final(involved_triples)@, t)]
            #![trigger is_consumed(graph_triples(*g_main), t)]
            has_triple(final(involved_triples)@, t) <==> has_triple(old(involved_triples)@, t) || is_consumed(
                graph_triples(*g_main),
                t,
            ),
{
    let ghost g = graph_triples(*g_main);
    let listed = graph_all_triples(g_main);
    let nested = nested_blank_nodes(g_main);
    let mut cols: Vec<(String, Vec<RdfTerm>)> = Vec::new();
    let mut i: usize = 0;
    while i < listed.len()
        invariant
            i <= listed.len(),
            g == graph_triples(*g_main),
            lists_exactly(listed@, g),
            forall|b: Seq<char>| #![trigger has_label(nested@, b)] has_label(nested@, b) <==> is_nested(g, b),
            found_so_far(g, listed@, i as int, cols@),
            involved_so_far(g, old(involved_triples)@, involved_triples@, cols@),
            old(involved_triples)@.is_prefix_of(involved_triples@),
        decreases listed.len() - i,
    {
        let ghost cols_before = cols@;
        let ghost inv_before = involved_triples@;
        let ghost ti = listed@[i as int]@;
        assert(g.contains(ti));
        let mut pushed = false;
        match &listed[i].subject {
            Subject::BlankNode(b) => {
                if str_eq(listed[i].predicate.as_str(), RDF_FIRST) {
                    let ghost bv = b@;
                    let rest_refs = graph_subjects_for_predicate_object(
                        g_main,
                        RDF_REST,
                        &RdfTerm::BlankNode(b.clone()),
                    );
                    proof {
                        lemma_single(rest_refs@, subjects_of(g, RDF_REST@, RdfTermView::BlankNode(bv)));
                        assert(ti == RdfTripleView {
                            subject: SubjectView::BlankNode(bv),
                            predicate: RDF_FIRST@,
                            object: ti.object,
                        });
                        assert(objects_of(g, SubjectView::BlankNode(bv), RDF_FIRST@).contains(ti.object));
                    }
                    let referenced = is_object_elsewhere(&listed, b.as_str(), listed.len());
                    proof {
                        lemma_referenced(g, listed@, bv);
                    }
                    let mut scratch: Vec<RdfTriple> = Vec::new();
                    let only = collect_links(g_main, b.as_str(), &mut scratch);
                    let writable = if referenced {
                        only && contains_label(&nested, b.as_str())
                    } else {
                        !only && !is_pinned_in(&listed, b.as_str(), Ghost(g))
                    };
                    assert(only == only_links(g, bv));
                    assert(writable == head_writable(g, bv));
                    if rest_refs.len() == 0 && writable {
                        assert(is_head(g, bv));
                        match extract_collection(g_main, involved_triples, b.as_str()) {
                            Some(col) => {
                                let entry = (b.clone(), col);
                                proof {
                                    lemma_found_push(g, listed@, i as int, cols_before, entry);
                                    lemma_involved_push(
                                        g,
                                        old(involved_triples)@,
                                        inv_before,
                                        involved_triples@,
                                        cols_before,
                                        entry,
                                    );
                                }
                                cols.push(entry);
                                pushed = true;
                            },
                            None => {
                                proof {
                                    lemma_involved_same(
                                        g,
                                        old(involved_triples)@,
                                        inv_before,
                                        involved_triples@,
                                        cols_before,
                                    );
                                }
                            },
                        }
                    } else if rest_refs.len() != 0 {
                        proof {
                            let s = choose|s: SubjectView|
                                subjects_of(g, RDF_REST@, RdfTermView::BlankNode(bv)).contains(s);
                            assert(!is_head(g, bv));
                        }
                    }
                }
            },
            _ => {},
        }
        proof {
            if !pushed {
                assert(cols@ == cols_before);
                assert(!misses_collection(g, cols@, ti));
                lemma_found_skip(g, listed@, i as int, cols@);
            }
        }
        i += 1;
    }
    proof {
        lemma_found_all(g, listed@, cols@, old(involved_triples)@, involved_triples@);
    }
    cols
}

} // verus!
