//! Which blank nodes can be written inline, and which are never referenced.
use crate::graph::{counts, graph_all_triples, graph_len, graph_triples, lists_exactly};
use crate::term::{RdfTerm, RdfTermView, RdfTriple, RdfTripleView, Subject, SubjectView};
use crate::text::str_eq;
use vstd::prelude::*;

verus! {

/// The blank node `b` is the object of a triple of `g`.
pub open spec fn is_object_in(g: Set<RdfTripleView>, b: Seq<char>) -> bool {
    exists|t: RdfTripleView| g.contains(t) && #[trigger] t.object == RdfTermView::BlankNode(b)
}

/// The blank node `b` is the subject of a triple of `g`.
pub open spec fn is_subject_in(g: Set<RdfTripleView>, b: Seq<char>) -> bool {
    exists|t: RdfTripleView| g.contains(t) && #[trigger] t.subject == SubjectView::BlankNode(b)
}

/// The blank node `b` is the object of two or more triples of `g`.
pub open spec fn is_duplicated(g: Set<RdfTripleView>, b: Seq<char>) -> bool {
    exists|t1: RdfTripleView, t2: RdfTripleView|
        g.contains(t1) && g.contains(t2) && t1 != t2 && #[trigger] t1.object == RdfTermView::BlankNode(b)
            && #[trigger] t2.object == RdfTermView::BlankNode(b)
}

/// The blank node `b` is the object of exactly one triple of `g`: it can be
/// written inline where it is referenced.
pub open spec fn is_nestable(g: Set<RdfTripleView>, b: Seq<char>) -> bool {
    is_object_in(g, b) && !is_duplicated(g, b)
}

/// The blank node `b` is a subject in `g` but the object of no triple.
pub open spec fn is_unreferenced(g: Set<RdfTripleView>, b: Seq<char>) -> bool {
    is_subject_in(g, b) && !is_object_in(g, b)
}

/// The triple's object is a blank node that can be nested and is missing
/// from `labels`.
pub open spec fn misses_nestable(g: Set<RdfTripleView>, labels: Seq<String>, t: RdfTripleView) -> bool {
    match t.object {
        RdfTermView::BlankNode(b) => is_nestable(g, b) && !has_label(labels, b),
        _ => false,
    }
}

/// The triple's subject is a blank node that is never referenced and is
/// missing from `labels`.
pub open spec fn misses_unreferenced(g: Set<RdfTripleView>, labels: Seq<String>, t: RdfTripleView) -> bool {
    match t.subject {
        SubjectView::BlankNode(b) => is_unreferenced(g, b) && !has_label(labels, b),
        _ => false,
    }
}

/// One of the first `n` triples of the list has the blank node `b` as its
/// object.
pub open spec fn object_before(listed: Seq<RdfTriple>, n: int, b: Seq<char>) -> bool {
    exists|k: int| 0 <= k < n && k < listed.len() && (#[trigger] listed[k])@.object == RdfTermView::BlankNode(b)
}

/// The text `b` is one of `labels`.
pub open spec fn has_label(labels: Seq<String>, b: Seq<char>) -> bool {
    exists|i: int| 0 <= i < labels.len() && (#[trigger] labels[i])@ == b
}

/// No text occurs twice in `labels`.
pub open spec fn distinct_labels(labels: Seq<String>) -> bool {
    forall|i: int, j: int| 0 <= i < j < labels.len() ==> labels[i]@ != labels[j]@
}

/// Is `b` one of `labels`?
pub fn contains_label(labels: &Vec<String>, b: &str) -> (r: bool)
    ensures
        r == has_label(labels@, b@),
{
    let mut i: usize = 0;
    while i < labels.len()
        invariant
            i <= labels.len(),
            forall|j: int| 0 <= j < i ==> (#[trigger] labels@[j])@ != b@,
        decreases labels.len() - i,
    {
        if str_eq(labels[i].as_str(), b) {
            return true;
        }
        i += 1;
    }
    false
}

/// The label of the blank node that is the object of the triple, if it is
/// one.
fn object_label(t: &RdfTriple) -> (r: Option<&String>)
    ensures
        match r {
            Some(b) => t@.object == RdfTermView::BlankNode(b@),
            None => !(t@.object is BlankNode),
        },
{
    match &t.object {
        RdfTerm::BlankNode(b) => Some(b),
        _ => None,
    }
}

/// The label of the blank node that is the subject of the triple, if it is
/// one.
fn subject_label(t: &RdfTriple) -> (r: Option<&String>)
    ensures
        match r {
            Some(b) => t@.subject == SubjectView::BlankNode(b@),
            None => !(t@.subject is BlankNode),
        },
{
    match &t.subject {
        Subject::BlankNode(b) => Some(b),
        _ => None,
    }
}

/// Is `b` the object of a triple of the list other than the one at `skip`?
pub fn is_object_elsewhere(listed: &Vec<RdfTriple>, b: &str, skip: usize) -> (r: bool)
    ensures
        r == exists|j: int|
            0 <= j < listed.len() && j != skip && (#[trigger] listed[j])@.object == RdfTermView::BlankNode(
                b@,
            ),
{
    let mut j: usize = 0;
    while j < listed.len()
        invariant
            j <= listed.len(),
            forall|k: int|
                0 <= k < j && k != skip ==> (#[trigger] listed[k])@.object != RdfTermView::BlankNode(b@),
        decreases listed.len() - j,
    {
        if j != skip {
            match object_label(&listed[j]) {
                Some(other) => {
                    if str_eq(other.as_str(), b) {
                        return true;
                    }
                },
                None => {},
            }
        }
        j += 1;
    }
    false
}

proof fn lemma_object_before_grows(listed: Seq<RdfTriple>, n: int, b: Seq<char>)
    requires
        object_before(listed, n, b),
    ensures
        object_before(listed, n + 1, b),
{
    let k = choose|k: int|
        0 <= k < n && k < listed.len() && (#[trigger] listed[k])@.object == RdfTermView::BlankNode(b);
    assert(0 <= k < n + 1 && k < listed.len() && listed[k]@.object == RdfTermView::BlankNode(b));
}

/// The blank nodes that are the object of exactly one triple of the list.
fn nestable_of(listed: &Vec<RdfTriple>, Ghost(g): Ghost<Set<RdfTripleView>>) -> (r: Vec<String>)
    requires
        lists_exactly(listed@, g),
    ensures
        forall|b: Seq<char>|
            #![trigger has_label(r@, b)]
            #![trigger is_nestable(g, b)]
            has_label(r@, b) <==> is_nestable(g, b),
        distinct_labels(r@),
{
    let mut r: Vec<String> = Vec::new();
    let mut i: usize = 0;
    while i < listed.len()
        invariant
            i <= listed.len(),
            lists_exactly(listed@, g),
            forall|b: Seq<char>| #![trigger has_label(r@, b)] has_label(r@, b) ==> is_nestable(g, b),
            forall|b: Seq<char>|
                #![trigger has_label(r@, b)]
                has_label(r@, b) ==> object_before(listed@, i as int, b),
            forall|k: int| 0 <= k < i ==> !misses_nestable(g, r@, (#[trigger] listed[k])@),
            distinct_labels(r@),
        decreases listed.len() - i,
    {
        let ghost start = r@;
        match object_label(&listed[i]) {
            Some(b) => {
                let dup = is_object_elsewhere(listed, b.as_str(), i);
                let ghost bv = b@;
                let ghost ti = listed[i as int]@;
                assert(g.contains(ti));
                if !dup {
                    proof {
                        assert(is_object_in(g, bv));
                        if is_duplicated(g, bv) {
                            let (t1, t2) = choose|t1: RdfTripleView, t2: RdfTripleView|
                                g.contains(t1) && g.contains(t2) && t1 != t2 && #[trigger] t1.object
                                    == RdfTermView::BlankNode(bv) && #[trigger] t2.object
                                    == RdfTermView::BlankNode(bv);
                            let j1 = choose|j: int| 0 <= j < listed.len() && (#[trigger] listed[j])@ == t1;
                            let j2 = choose|j: int| 0 <= j < listed.len() && (#[trigger] listed[j])@ == t2;
                            assert(j1 != j2);
                            assert(j1 != i || j2 != i);
                            assert(false);
                        }
                        // not pushed before: every earlier triple has another object
                        if has_label(r@, bv) {
                            assert(object_before(listed@, i as int, bv));
                            let k = choose|k: int|
                                0 <= k < i && k < listed.len() && (#[trigger] listed[k])@.object
                                    == RdfTermView::BlankNode(bv);
                            assert(false);
                        }
                    }
                    let ghost before = r@;
                    r.push(b.clone());
                    proof {
                        assert(r@[before.len() as int]@ == bv);
                        assert forall|c: Seq<char>| #![trigger has_label(r@, c)] has_label(r@, c) implies is_nestable(g, c)
                            && object_before(listed@, i + 1, c) by {
                            let m = choose|m: int| 0 <= m < r@.len() && (#[trigger] r@[m])@ == c;
                            if m < before.len() {
                                assert(before[m]@ == c);
                                assert(has_label(before, c));
                                lemma_object_before_grows(listed@, i as int, c);
                            } else {
                                assert(c == bv);
                                assert(listed@[i as int]@.object == RdfTermView::BlankNode(c));
                            }
                        }
                        assert forall|k: int| 0 <= k < i + 1 implies !misses_nestable(
                            g,
                            r@,
                            (#[trigger] listed[k])@,
                        ) by {
                            if k < i {
                                assert(!misses_nestable(g, before, listed[k]@));
                                match listed[k]@.object {
                                    RdfTermView::BlankNode(c) => {
                                        if is_nestable(g, c) {
                                            let m = choose|m: int|
                                                0 <= m < before.len() && (#[trigger] before[m])@ == c;
                                            assert(r@[m]@ == c);
                                        }
                                    },
                                    _ => {},
                                }
                            } else {
                                assert(r@[before.len() as int]@ == bv);
                            }
                        }
                        assert forall|x: int, y: int| 0 <= x < y < r@.len() implies r@[x]@ != r@[y]@ by {
                            if y == before.len() {
                                if r@[x]@ == bv {
                                    assert(before[x]@ == bv);
                                    assert(has_label(before, bv));
                                }
                            } else {
                                assert(before[x]@ != before[y]@);
                            }
                        }
                    }
                } else {
                    proof {
                        let j = choose|j: int|
                            0 <= j < listed.len() && j != i && (#[trigger] listed[j])@.object
                                == RdfTermView::BlankNode(bv);
                        let tj = listed[j]@;
                        assert(g.contains(tj));
                        if i < j {
                            assert(listed[i as int]@ != listed[j]@);
                        } else {
                            assert(listed[j]@ != listed[i as int]@);
                        }
                        assert(ti.object == RdfTermView::BlankNode(bv));
                        assert(tj.object == RdfTermView::BlankNode(bv));
                        assert(is_duplicated(g, bv));
                    }
                }
            },
            None => {},
        }
        proof {
            if r@ == start {
                assert forall|b: Seq<char>| #![trigger has_label(r@, b)] has_label(r@, b) implies object_before(
                    listed@,
                    i + 1,
                    b,
                ) by {
                    lemma_object_before_grows(listed@, i as int, b);
                }
            }
        }
        i += 1;
    }
    proof {
        assert forall|b: Seq<char>| is_nestable(g, b) implies has_label(r@, b) by {
            let t = choose|t: RdfTripleView| g.contains(t) && #[trigger] t.object == RdfTermView::BlankNode(b);
            let k = choose|k: int| 0 <= k < listed.len() && (#[trigger] listed[k])@ == t;
            assert(!misses_nestable(g, r@, listed[k]@));
        }
    }
    r
}

/// Adds to `found` the blank nodes that are a subject in the list but the
/// object of none of its triples.
fn add_unreferenced(listed: &Vec<RdfTriple>, found: &mut Vec<String>, Ghost(g): Ghost<Set<RdfTripleView>>)
    requires
        lists_exactly(listed@, g),
    ensures
        forall|b: Seq<char>|
            #![trigger has_label(final(found)@, b)]
            #![trigger has_label(old(found)@, b)]
            #![trigger is_unreferenced(g, b)]
            has_label(final(found)@, b) <==> has_label(old(found)@, b) || is_unreferenced(g, b),
        distinct_labels(old(found)@) ==> distinct_labels(final(found)@),
{
    let mut i: usize = 0;
    while i < listed.len()
        invariant
            i <= listed.len(),
            lists_exactly(listed@, g),
            forall|b: Seq<char>|
                #![trigger has_label(found@, b)]
                has_label(found@, b) ==> has_label(old(found)@, b) || is_unreferenced(g, b),
            forall|b: Seq<char>|
                #![trigger has_label(old(found)@, b)]
                has_label(old(found)@, b) ==> has_label(found@, b),
            forall|k: int| 0 <= k < i ==> !misses_unreferenced(g, found@, (#[trigger] listed[k])@),
            distinct_labels(old(found)@) ==> distinct_labels(found@),
        decreases listed.len() - i,
    {
        match subject_label(&listed[i]) {
            Some(b) => {
                let ghost bv = b@;
                let referenced = is_object_elsewhere(listed, b.as_str(), listed.len());
                proof {
                    assert(g.contains(listed[i as int]@));
                    if referenced {
                        let j = choose|j: int|
                            0 <= j < listed.len() && j != listed.len() && (#[trigger] listed[j])@.object
                                == RdfTermView::BlankNode(bv);
                        assert(g.contains(listed[j]@));
                        assert(is_object_in(g, bv));
                    } else {
                        if is_object_in(g, bv) {
                            let t = choose|t: RdfTripleView|
                                g.contains(t) && #[trigger] t.object == RdfTermView::BlankNode(bv);
                            let k = choose|k: int| 0 <= k < listed.len() && (#[trigger] listed[k])@ == t;
                            assert(listed[k]@.object == RdfTermView::BlankNode(bv));
                            assert(false);
                        }
                        assert(is_subject_in(g, bv));
                    }
                }
                if !referenced && !contains_label(found, b.as_str()) {
                    let ghost before = found@;
                    found.push(b.clone());
                    proof {
                        assert(found@[before.len() as int]@ == bv);
                        assert forall|c: Seq<char>| #![trigger has_label(found@, c)] has_label(found@, c) implies has_label(old(found)@, c)
                            || is_unreferenced(g, c) by {
                            let m = choose|m: int| 0 <= m < found@.len() && (#[trigger] found@[m])@ == c;
                            if m < before.len() {
                                assert(before[m]@ == c);
                                assert(has_label(before, c));
                            }
                        }
                        assert forall|c: Seq<char>| #![trigger has_label(before, c)] has_label(before, c) implies has_label(found@, c) by {
                            let m = choose|m: int| 0 <= m < before.len() && (#[trigger] before[m])@ == c;
                            assert(found@[m]@ == c);
                        }
                        assert forall|k: int| 0 <= k < i implies !misses_unreferenced(
                            g,
                            found@,
                            (#[trigger] listed[k])@,
                        ) by {
                            assert(!misses_unreferenced(g, before, listed[k]@));
                        }
                        if distinct_labels(old(found)@) {
                            assert forall|x: int, y: int| 0 <= x < y < found@.len() implies found@[x]@
                                != found@[y]@ by {
                                if y == before.len() {
                                    if found@[x]@ == bv {
                                        assert(before[x]@ == bv);
                                        assert(has_label(before, bv));
                                    }
                                } else {
                                    assert(before[x]@ != before[y]@);
                                }
                            }
                        }
                    }
                }
            },
            None => {},
        }
        i += 1;
    }
    proof {
        assert forall|b: Seq<char>| is_unreferenced(g, b) implies has_label(found@, b) by {
            let t = choose|t: RdfTripleView| g.contains(t) && #[trigger] t.subject == SubjectView::BlankNode(b);
            let k = choose|k: int| 0 <= k < listed.len() && (#[trigger] listed[k])@ == t;
            assert(!misses_unreferenced(g, found@, listed[k]@));
        }
    }
}

/// Sorts the blank nodes of the graph into those that can be nested, which
/// are returned, and those that no triple refers to, which are added to
/// `unreferenced_blank_nodes`.
///
/// A blank node can be nested if it is the object of exactly one triple,
/// whether or not it is itself a subject. A blank node that is the object of
/// two or more triples is never nested.
pub fn evaluate_nestable_and_unreferenced_blank_nodes(
    g_main: &oxrdf::Graph,
    unreferenced_blank_nodes: &mut Vec<String>,
) -> (nestable: Vec<String>)
    ensures
        forall|b: Seq<char>|
            #![trigger has_label(nestable@, b)]
            #![trigger is_nestable(graph_triples(*g_main), b)]
            has_label(nestable@, b) <==> is_nestable(graph_triples(*g_main), b),
        distinct_labels(nestable@),
        forall|b: Seq<char>|
            #![trigger has_label(final(unreferenced_blank_nodes)@, b)]
            #![trigger has_label(old(unreferenced_blank_nodes)@, b)]
            #![trigger is_unreferenced(graph_triples(*g_main), b)]
            has_label(final(unreferenced_blank_nodes)@, b) <==> has_label(old(unreferenced_blank_nodes)@, b)
                || is_unreferenced(graph_triples(*g_main), b),
        distinct_labels(old(unreferenced_blank_nodes)@) ==> distinct_labels(final(unreferenced_blank_nodes)@),
{
    let listed = graph_all_triples(g_main);
    let ghost g = graph_triples(*g_main);
    add_unreferenced(&listed, unreferenced_blank_nodes, Ghost(g));
    nestable_of(&listed, Ghost(g))
}

/// Is the blank node `b` the object of exactly one triple of the graph
/// whose triples are listed?
pub(crate) fn is_referred_once(listed: &Vec<RdfTriple>, b: &str, Ghost(g): Ghost<Set<RdfTripleView>>) -> (r: bool)
    requires
        lists_exactly(listed@, g),
    ensures
        r == is_nestable(g, b@),
{
    match find_referrer(listed, b) {
        Some(i) => {
            let elsewhere = is_object_elsewhere(listed, b, i);
            proof {
                assert(g.contains(listed@[i as int]@));
                if elsewhere {
                    let j = choose|j: int|
                        0 <= j < listed.len() && j != i && (#[trigger] listed[j])@.object
                            == RdfTermView::BlankNode(b@);
                    assert(g.contains(listed@[j]@));
                    if i < j {
                        assert(listed@[i as int]@ != listed@[j]@);
                    } else {
                        assert(listed@[j]@ != listed@[i as int]@);
                    }
                    assert(is_duplicated(g, b@));
                }
                if is_duplicated(g, b@) {
                    let (t1, t2) = choose|t1: RdfTripleView, t2: RdfTripleView|
                        g.contains(t1) && g.contains(t2) && t1 != t2 && #[trigger] t1.object
                            == RdfTermView::BlankNode(b@) && #[trigger] t2.object == RdfTermView::BlankNode(b@);
                    let j1 = choose|j: int| 0 <= j < listed.len() && (#[trigger] listed[j])@ == t1;
                    let j2 = choose|j: int| 0 <= j < listed.len() && (#[trigger] listed[j])@ == t2;
                    if j1 != i {
                        assert(listed[j1]@.object == RdfTermView::BlankNode(b@));
                    } else {
                        assert(listed[j2]@.object == RdfTermView::BlankNode(b@));
                    }
                    assert(elsewhere);
                }
            }
            !elsewhere
        },
        None => {
            proof {
                if is_object_in(g, b@) {
                    let t = choose|t: RdfTripleView|
                        g.contains(t) && #[trigger] t.object == RdfTermView::BlankNode(b@);
                    let j = choose|j: int| 0 <= j < listed.len() && (#[trigger] listed[j])@ == t;
                    assert(listed[j]@.object == RdfTermView::BlankNode(b@));
                }
            }
            false
        },
    }
}

/// The subject of a triple that refers to the blank node `b`. A blank node
/// that can be nested has one such triple only.
pub open spec fn referrer(g: Set<RdfTripleView>, b: Seq<char>) -> SubjectView {
    (choose|t: RdfTripleView| g.contains(t) && #[trigger] t.object == RdfTermView::BlankNode(b)).subject
}

/// The blank node `b` can be nested, and so can the node that refers to
/// it, and so on for at most `fuel` nodes, up to a node that cannot: a
/// named node, or a blank node that has a block of its own.
pub open spec fn is_anchored(g: Set<RdfTripleView>, b: Seq<char>, fuel: nat) -> bool
    decreases fuel,
{
    fuel > 0 && is_nestable(g, b) && match referrer(g, b) {
        SubjectView::NamedNode(_) => true,
        SubjectView::BlankNode(s) => !is_nestable(g, s) || is_anchored(g, s, (fuel - 1) as nat),
    }
}

/// The blank node `b` stands in the quoted triple that the term is, as its
/// subject or its object or in a quoted triple that is its object.
pub open spec fn mentions(t: RdfTermView, b: Seq<char>) -> bool
    decreases t,
{
    match t {
        RdfTermView::Triple(q) => q.subject == SubjectView::BlankNode(b) || q.object == RdfTermView::BlankNode(b)
            || mentions(q.object, b),
        _ => false,
    }
}

/// The blank node `b` stands in a quoted triple of the graph. There it is
/// written by its label, and so it is everywhere else: a blank node
/// without a label cannot be named twice.
pub open spec fn is_pinned(g: Set<RdfTripleView>, b: Seq<char>) -> bool {
    exists|t: RdfTripleView| g.contains(t) && #[trigger] mentions(t.object, b)
}

/// How deep quoted triples stand in one another as objects.
pub open spec fn quote_depth(t: RdfTerm) -> nat
    decreases t,
{
    match t {
        RdfTerm::Triple(inner) => 1 + quote_depth(inner.object),
        _ => 0,
    }
}

/// Does the blank node `b` stand in the quoted triple that the term is?
fn term_mentions(t: &RdfTerm, b: &str) -> (r: bool)
    ensures
        r == mentions(t@, b@),
    decreases quote_depth(*t),
{
    match t {
        RdfTerm::Triple(q) => {
            let at_subject = match &q.subject {
                Subject::BlankNode(x) => str_eq(x.as_str(), b),
                _ => false,
            };
            let at_object = match &q.object {
                RdfTerm::BlankNode(x) => str_eq(x.as_str(), b),
                _ => false,
            };
            at_subject || at_object || term_mentions(&q.object, b)
        },
        _ => false,
    }
}

/// Does the blank node `b` stand in a quoted triple of the graph whose
/// triples are listed?
pub(crate) fn is_pinned_in(listed: &Vec<RdfTriple>, b: &str, Ghost(g): Ghost<Set<RdfTripleView>>) -> (r: bool)
    requires
        lists_exactly(listed@, g),
    ensures
        r == is_pinned(g, b@),
{
    let mut i: usize = 0;
    while i < listed.len()
        invariant
            i <= listed.len(),
            lists_exactly(listed@, g),
            forall|j: int| 0 <= j < i ==> !mentions((#[trigger] listed[j])@.object, b@),
        decreases listed.len() - i,
    {
        if term_mentions(&listed[i].object, b) {
            assert(g.contains(listed[i as int]@) && mentions(listed[i as int]@.object, b@));
            return true;
        }
        i += 1;
    }
    proof {
        if is_pinned(g, b@) {
            let t = choose|t: RdfTripleView| g.contains(t) && #[trigger] mentions(t.object, b@);
            let j = choose|j: int| 0 <= j < listed.len() && (#[trigger] listed[j])@ == t;
            assert(mentions(listed[j]@.object, b@));
        }
    }
    false
}

/// Those of the labels that stand in no quoted triple of the graph.
pub fn without_pinned(labels: &Vec<String>, g_main: &oxrdf::Graph) -> (free: Vec<String>)
    ensures
        forall|b: Seq<char>|
            #![trigger has_label(free@, b)]
            has_label(free@, b) <==> has_label(labels@, b) && !is_pinned(graph_triples(*g_main), b),
{
    let ghost g = graph_triples(*g_main);
    let listed = graph_all_triples(g_main);
    let mut free: Vec<String> = Vec::new();
    let mut i: usize = 0;
    while i < labels.len()
        invariant
            i <= labels.len(),
            g == graph_triples(*g_main),
            lists_exactly(listed@, g),
            forall|b: Seq<char>|
                #![trigger has_label(free@, b)]
                has_label(free@, b) ==> has_label(labels@, b) && !is_pinned(g, b),
            forall|k: int| 0 <= k < i && !is_pinned(g, (#[trigger] labels@[k])@) ==> has_label(free@, labels@[k]@),
        decreases labels.len() - i,
    {
        let ghost before = free@;
        if !is_pinned_in(&listed, labels[i].as_str(), Ghost(g)) {
            free.push(labels[i].clone());
            proof {
                assert(free@[before.len() as int]@ == labels@[i as int]@);
                assert forall|b: Seq<char>| #![trigger has_label(free@, b)] has_label(free@, b) implies has_label(
                    labels@,
                    b,
                ) && !is_pinned(g, b) by {
                    let m = choose|m: int| 0 <= m < free@.len() && (#[trigger] free@[m])@ == b;
                    if m < before.len() {
                        assert(before[m]@ == b);
                        assert(has_label(before, b));
                    } else {
                        assert(labels@[i as int]@ == b);
                    }
                }
                assert forall|k: int| 0 <= k < i + 1 && !is_pinned(g, (#[trigger] labels@[k])@) implies has_label(
                    free@,
                    labels@[k]@,
                ) by {
                    if k < i {
                        assert(has_label(before, labels@[k]@));
                        let m = choose|m: int| 0 <= m < before.len() && (#[trigger] before[m])@ == labels@[k]@;
                        assert(free@[m]@ == labels@[k]@);
                    } else {
                        assert(free@[before.len() as int]@ == labels@[k]@);
                    }
                }
            }
        }
        i += 1;
    }
    proof {
        assert forall|b: Seq<char>| #![trigger has_label(free@, b)] has_label(labels@, b) && !is_pinned(
            g,
            b,
        ) implies has_label(free@, b) by {
            let k = choose|k: int| 0 <= k < labels@.len() && (#[trigger] labels@[k])@ == b;
            assert(has_label(free@, labels@[k]@));
        }
    }
    free
}

/// The blank node `b` is written where it is referenced: it can be nested,
/// from it the references lead up to a node that has a block of its own,
/// and it stands in no quoted triple. Blank nodes that refer to each other
/// in a circle, each the object of one triple only, are not: they keep
/// their labels and their blocks.
pub open spec fn is_nested(g: Set<RdfTripleView>, b: Seq<char>) -> bool {
    is_anchored(g, b, g.len()) && !is_pinned(g, b)
}

/// Where in the list the first triple stands that has the blank node `b`
/// as its object.
fn find_referrer(listed: &Vec<RdfTriple>, b: &str) -> (r: Option<usize>)
    ensures
        match r {
            Some(i) => i < listed.len() && listed[i as int]@.object == RdfTermView::BlankNode(b@),
            None => forall|j: int|
                0 <= j < listed.len() ==> (#[trigger] listed[j])@.object != RdfTermView::BlankNode(b@),
        },
{
    let mut j: usize = 0;
    while j < listed.len()
        invariant
            j <= listed.len(),
            forall|k: int| 0 <= k < j ==> (#[trigger] listed[k])@.object != RdfTermView::BlankNode(b@),
        decreases listed.len() - j,
    {
        match object_label(&listed[j]) {
            Some(other) => {
                if str_eq(other.as_str(), b) {
                    return Some(j);
                }
            },
            None => {},
        }
        j += 1;
    }
    None
}

/// The one triple of the graph that refers to a blank node that can be
/// nested is the one that is found in the list.
proof fn lemma_referrer(g: Set<RdfTripleView>, listed: Seq<RdfTriple>, b: Seq<char>, i: int)
    requires
        lists_exactly(listed, g),
        is_nestable(g, b),
        0 <= i < listed.len(),
        listed[i]@.object == RdfTermView::BlankNode(b),
    ensures
        referrer(g, b) == listed[i]@.subject,
{
    let t = choose|t: RdfTripleView| g.contains(t) && #[trigger] t.object == RdfTermView::BlankNode(b);
    let u = listed[i]@;
    assert(g.contains(u));
    if t != u {
        assert(is_duplicated(g, b));
    }
}

/// Is the blank node `b`, which can be nested, written where it is
/// referenced?
fn is_anchored_in(
    listed: &Vec<RdfTriple>,
    nestable: &Vec<String>,
    b: &str,
    fuel: usize,
    Ghost(g): Ghost<Set<RdfTripleView>>,
) -> (r: bool)
    requires
        lists_exactly(listed@, g),
        forall|x: Seq<char>| #![trigger has_label(nestable@, x)] has_label(nestable@, x) <==> is_nestable(g, x),
        has_label(nestable@, b@),
    ensures
        r == is_anchored(g, b@, fuel as nat),
{
    let mut cur: String = b.to_owned();
    let mut left: usize = fuel;
    loop
        invariant
            lists_exactly(listed@, g),
            forall|x: Seq<char>|
                #![trigger has_label(nestable@, x)]
                has_label(nestable@, x) <==> is_nestable(g, x),
            is_nestable(g, cur@),
            is_anchored(g, b@, fuel as nat) == is_anchored(g, cur@, left as nat),
        decreases left,
    {
        if left == 0 {
            return false;
        }
        match find_referrer(listed, cur.as_str()) {
            Some(i) => {
                proof {
                    lemma_referrer(g, listed@, cur@, i as int);
                }
                match &listed[i].subject {
                    Subject::NamedNode(_) => {
                        return true;
                    },
                    Subject::BlankNode(s) => {
                        if !contains_label(nestable, s.as_str()) {
                            return true;
                        }
                        cur = s.clone();
                        left = left - 1;
                    },
                }
            },
            None => {
                proof {
                    let t = choose|t: RdfTripleView|
                        g.contains(t) && #[trigger] t.object == RdfTermView::BlankNode(cur@);
                    let j = choose|j: int| 0 <= j < listed@.len() && (#[trigger] listed@[j])@ == t;
                    assert(listed@[j]@.object == RdfTermView::BlankNode(cur@));
                }
                return false;
            },
        }
    }
}

/// Of the blank nodes that can be nested, those that are written where
/// they are referenced: those from which the references lead up to a node
/// that has a block of its own.
pub fn nested_blank_nodes(g_main: &oxrdf::Graph) -> (nested: Vec<String>)
    ensures
        forall|b: Seq<char>|
            #![trigger has_label(nested@, b)]
            #![trigger is_nested(graph_triples(*g_main), b)]
            has_label(nested@, b) <==> is_nested(graph_triples(*g_main), b),
        distinct_labels(nested@),
{
    let ghost g = graph_triples(*g_main);
    let listed = graph_all_triples(g_main);
    let nestable = nestable_of(&listed, Ghost(g));
    let fuel = graph_len(g_main);
    let mut nested: Vec<String> = Vec::new();
    let mut i: usize = 0;
    while i < nestable.len()
        invariant
            i <= nestable.len(),
            g == graph_triples(*g_main),
            counts(g, fuel),
            lists_exactly(listed@, g),
            forall|x: Seq<char>|
                #![trigger has_label(nestable@, x)]
                has_label(nestable@, x) <==> is_nestable(g, x),
            distinct_labels(nestable@),
            forall|x: Seq<char>|
                #![trigger has_label(nested@, x)]
                has_label(nested@, x) ==> is_nested(g, x),
            forall|k: int| 0 <= k < i && is_nested(g, (#[trigger] nestable@[k])@) ==> has_label(nested@, nestable@[k]@),
            forall|x: Seq<char>|
                #![trigger has_label(nested@, x)]
                has_label(nested@, x) ==> exists|k: int| 0 <= k < i && (#[trigger] nestable@[k])@ == x,
            distinct_labels(nested@),
        decreases nestable.len() - i,
    {
        let ghost bv = nestable@[i as int]@;
        assert(has_label(nestable@, bv));
        let ghost before = nested@;
        if is_anchored_in(&listed, &nestable, nestable[i].as_str(), fuel, Ghost(g)) && !is_pinned_in(
            &listed,
            nestable[i].as_str(),
            Ghost(g),
        ) {
            nested.push(nestable[i].clone());
            proof {
                let last = before.len() as int;
                assert(nested@[last]@ == bv);
                assert forall|x: Seq<char>| #![trigger has_label(nested@, x)] has_label(nested@, x) implies is_nested(
                    g,
                    x,
                ) && exists|k: int| 0 <= k < i + 1 && (#[trigger] nestable@[k])@ == x by {
                    let m = choose|m: int| 0 <= m < nested@.len() && (#[trigger] nested@[m])@ == x;
                    if m < last {
                        assert(before[m]@ == x);
                        assert(has_label(before, x));
                        let k = choose|k: int| 0 <= k < i && (#[trigger] nestable@[k])@ == x;
                        assert(0 <= k < i + 1 && nestable@[k]@ == x);
                    } else {
                        assert(0 <= i < i + 1 && nestable@[i as int]@ == x);
                    }
                }
                assert forall|k: int| 0 <= k < i + 1 && is_nested(g, (#[trigger] nestable@[k])@) implies has_label(
                    nested@,
                    nestable@[k]@,
                ) by {
                    if k < i {
                        assert(has_label(before, nestable@[k]@));
                        let m = choose|m: int| 0 <= m < before.len() && (#[trigger] before[m])@ == nestable@[k]@;
                        assert(nested@[m]@ == nestable@[k]@);
                    } else {
                        assert(nested@[last]@ == nestable@[k]@);
                    }
                }
                assert forall|x: int, y: int| 0 <= x < y < nested@.len() implies nested@[x]@ != nested@[y]@ by {
                    if y == last {
                        if nested@[x]@ == bv {
                            assert(before[x]@ == bv);
                            assert(has_label(before, bv));
                            let k = choose|k: int| 0 <= k < i && (#[trigger] nestable@[k])@ == bv;
                            assert(nestable@[k]@ != nestable@[i as int]@);
                        }
                    } else {
                        assert(before[x]@ != before[y]@);
                    }
                }
            }
        } else {
            proof {
                assert forall|x: Seq<char>| #![trigger has_label(nested@, x)] has_label(nested@, x) implies exists|
                    k: int,
                | 0 <= k < i + 1 && (#[trigger] nestable@[k])@ == x by {
                    let k = choose|k: int| 0 <= k < i && (#[trigger] nestable@[k])@ == x;
                    assert(0 <= k < i + 1 && nestable@[k]@ == x);
                }
            }
        }
        i += 1;
    }
    proof {
        assert forall|b: Seq<char>|
            #![trigger has_label(nested@, b)]
            #![trigger is_nested(g, b)]
            has_label(nested@, b) <==> is_nested(g, b) by {
            if is_nested(g, b) {
                assert(is_nestable(g, b));
                assert(has_label(nestable@, b));
                let k = choose|k: int| 0 <= k < nestable@.len() && (#[trigger] nestable@[k])@ == b;
                assert(has_label(nested@, nestable@[k]@));
            }
        }
    }
    nested
}

} // verus!
