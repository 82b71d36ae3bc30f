//! The RDF graph, kept in `oxrdf::Graph`, and what the formatter asks of it.
//!
//! The graph is opaque to the verifier. Its contents are named by
//! [`graph_triples`], a set of triple views, and every function here that
//! calls into `oxrdf` states its result over that set. The order in which
//! the graph hands out its triples is not fixed, so results are stated as
//! lists without repetition that hold exactly the members of a set.
//!
//! Two of the graph's look-ups go by a range that is empty for one blank
//! node, [`LAST_BLANK_NODE`]. What is trusted of them leaves that node out;
//! for it the triples are found by going through all of them.
use crate::term::{
    Direction, RdfLiteral, RdfTerm, RdfTermView, RdfTriple, RdfTripleView, Subject, SubjectView,
};
use crate::text::str_eq;
use vstd::prelude::*;

verus! {

/// Trusted: the type `oxrdf::Graph`, of which nothing is seen but what the
/// functions below state.
#[verifier::external_type_specification]
#[verifier::external_body]
pub struct ExGraph(oxrdf::Graph);

/// Trusted: the type `oxrdf::Triple`, carried as it is.
#[verifier::external_type_specification]
#[verifier::external_body]
pub struct ExOxTriple(oxrdf::Triple);

/// Trusted: the type `oxrdf::Term`, carried as it is.
#[verifier::external_type_specification]
#[verifier::external_body]
pub struct ExOxTerm(oxrdf::Term);

/// Trusted: the type `oxrdf::Literal`, carried as it is.
#[verifier::external_type_specification]
#[verifier::external_body]
pub struct ExOxLiteral(oxrdf::Literal);

/// Trusted: the type `oxrdf::NamedOrBlankNode`, carried as it is.
#[verifier::external_type_specification]
#[verifier::external_body]
pub struct ExOxSubject(oxrdf::NamedOrBlankNode);

/// The triples that a graph holds.
pub uninterp spec fn graph_triples(g: oxrdf::Graph) -> Set<RdfTripleView>;

/// `v` lists the members of `s`, each exactly once, in some order.
pub open spec fn lists_exactly<T: View>(v: Seq<T>, s: Set<T::V>) -> bool {
    &&& forall|i: int| 0 <= i < v.len() ==> s.contains(#[trigger] v[i]@)
    &&& forall|x: T::V| s.contains(x) ==> exists|i: int| 0 <= i < v.len() && #[trigger] v[i]@ == x
    &&& forall|i: int, j: int| 0 <= i < j < v.len() ==> v[i]@ != v[j]@
}

/// `s` is finite and has `n` members.
pub open spec fn counts(s: Set<RdfTripleView>, n: usize) -> bool {
    s.finite() && s.len() == n
}

/// The triples of `g` whose subject is `s`.
pub open spec fn triples_of_subject(g: Set<RdfTripleView>, s: SubjectView) -> Set<RdfTripleView> {
    Set::new(|t: RdfTripleView| g.contains(t) && t.subject == s)
}

/// The objects `o` for which `g` holds the triple `(s, p, o)`.
pub open spec fn objects_of(g: Set<RdfTripleView>, s: SubjectView, p: Seq<char>) -> Set<RdfTermView> {
    Set::new(|o: RdfTermView| g.contains(RdfTripleView { subject: s, predicate: p, object: o }))
}

/// The subjects `s` for which `g` holds the triple `(s, p, o)`.
pub open spec fn subjects_of(g: Set<RdfTripleView>, p: Seq<char>, o: RdfTermView) -> Set<SubjectView> {
    Set::new(|s: SubjectView| g.contains(RdfTripleView { subject: s, predicate: p, object: o }))
}

/// A literal as `oxrdf` builds it: one with a language tag has the
/// datatype of language-tagged strings, or with a base direction that of
/// directional ones, and there is no direction without a language tag.
pub open spec fn literal_wf(l: RdfLiteral) -> bool {
    match (l.language, l.direction) {
        (None, None) => true,
        (Some(_), None) => l.datatype@ == crate::vocab::RDF_LANG_STRING@,
        (Some(_), Some(_)) => l.datatype@ == crate::vocab::RDF_DIR_LANG_STRING@,
        (None, Some(_)) => false,
    }
}

/// Every literal inside the term is as `oxrdf` builds it.
pub open spec fn term_wf(t: RdfTerm) -> bool
    decreases t,
{
    match t {
        RdfTerm::Literal(l) => literal_wf(l),
        RdfTerm::Triple(inner) => triple_wf(*inner),
        _ => true,
    }
}

/// Every literal inside the triple is as `oxrdf` builds it.
pub open spec fn triple_wf(t: RdfTriple) -> bool
    decreases t,
{
    term_wf(t.object)
}

/// Trusted: reads an `oxrdf::NamedOrBlankNode` into a [`Subject`], the IRI
/// or the blank node identifier as text.
#[verifier::external_body]
fn subject_of(s: &oxrdf::NamedOrBlankNode) -> Subject {
    match s {
        oxrdf::NamedOrBlankNode::NamedNode(n) => Subject::NamedNode(n.as_str().to_owned()),
        oxrdf::NamedOrBlankNode::BlankNode(b) => Subject::BlankNode(b.as_str().to_owned()),
    }
}

/// Trusted: reads an `oxrdf::Literal` into a [`RdfLiteral`] through its
/// accessors `value`, `datatype`, `language` and `direction`.
#[verifier::external_body]
fn literal_of(l: &oxrdf::Literal) -> RdfLiteral {
    RdfLiteral {
        value: l.value().to_owned(),
        datatype: l.datatype().as_str().to_owned(),
        language: l.language().map(str::to_owned),
        direction: match l.direction() {
            Some(oxrdf::BaseDirection::Ltr) => Some(Direction::Ltr),
            Some(oxrdf::BaseDirection::Rtl) => Some(Direction::Rtl),
            None => None,
        },
    }
}

/// Trusted: reads an `oxrdf::Term` into a [`RdfTerm`], variant by variant.
#[verifier::external_body]
fn term_of(t: &oxrdf::Term) -> RdfTerm {
    match t {
        oxrdf::Term::NamedNode(n) => RdfTerm::NamedNode(n.as_str().to_owned()),
        oxrdf::Term::BlankNode(b) => RdfTerm::BlankNode(b.as_str().to_owned()),
        oxrdf::Term::Literal(l) => RdfTerm::Literal(literal_of(l)),
        oxrdf::Term::Triple(t) => RdfTerm::Triple(Box::new(triple_of(t))),
    }
}

/// Trusted: reads an `oxrdf::Triple` into a [`RdfTriple`], field by field.
#[verifier::external_body]
pub(crate) fn triple_of(t: &oxrdf::Triple) -> RdfTriple {
    RdfTriple {
        subject: subject_of(&t.subject),
        predicate: t.predicate.as_str().to_owned(),
        object: term_of(&t.object),
    }
}

/// Trusted: builds the `oxrdf::NamedOrBlankNode` that a [`Subject`] names,
/// with `new_unchecked`, which takes any text.
#[verifier::external_body]
fn ox_subject(s: &Subject) -> oxrdf::NamedOrBlankNode {
    match s {
        Subject::NamedNode(iri) => oxrdf::NamedNode::new_unchecked(iri.as_str()).into(),
        Subject::BlankNode(id) => oxrdf::BlankNode::new_unchecked(id.as_str()).into(),
    }
}

/// Trusted: builds the `oxrdf::Literal` that a [`RdfLiteral`] describes, with
/// the unchecked constructor that goes with its language and direction.
#[verifier::external_body]
fn ox_literal(l: &RdfLiteral) -> oxrdf::Literal {
    let v = l.value.as_str();
    match (&l.language, l.direction) {
        (Some(lang), Some(Direction::Ltr)) => {
            oxrdf::Literal::new_directional_language_tagged_literal_unchecked(v, lang.as_str(), oxrdf::BaseDirection::Ltr)
        },
        (Some(lang), Some(Direction::Rtl)) => {
            oxrdf::Literal::new_directional_language_tagged_literal_unchecked(v, lang.as_str(), oxrdf::BaseDirection::Rtl)
        },
        (Some(lang), None) => oxrdf::Literal::new_language_tagged_literal_unchecked(v, lang.as_str()),
        (None, _) => oxrdf::Literal::new_typed_literal(v, oxrdf::NamedNode::new_unchecked(l.datatype.as_str())),
    }
}

/// Trusted: builds the `oxrdf::Term` that a [`RdfTerm`] names, variant by
/// variant.
#[verifier::external_body]
fn ox_term(t: &RdfTerm) -> oxrdf::Term {
    match t {
        RdfTerm::NamedNode(iri) => oxrdf::NamedNode::new_unchecked(iri.as_str()).into(),
        RdfTerm::BlankNode(id) => oxrdf::BlankNode::new_unchecked(id.as_str()).into(),
        RdfTerm::Literal(l) => ox_literal(l).into(),
        RdfTerm::Triple(t) => ox_triple(t).into(),
    }
}

/// Trusted: builds the `oxrdf::Triple` that a [`RdfTriple`] names, field by
/// field.
#[verifier::external_body]
fn ox_triple(t: &RdfTriple) -> oxrdf::Triple {
    oxrdf::Triple::new(
        ox_subject(&t.subject),
        oxrdf::NamedNode::new_unchecked(t.predicate.as_str()),
        ox_term(&t.object),
    )
}

/// Trusted: `oxrdf::Graph::new`, which makes a graph without triples.
#[verifier::external_body]
pub(crate) fn new_graph() -> (g: oxrdf::Graph)
    ensures
        graph_triples(g) == Set::<RdfTripleView>::empty(),
{
    oxrdf::Graph::new()
}

/// Trusted: `oxrdf::Graph::insert`, after which the graph holds the triple
/// besides what it held. The result tells whether the triple was new.
#[verifier::external_body]
pub(crate) fn graph_insert(g: &mut oxrdf::Graph, t: &RdfTriple) -> (fresh: bool)
    requires
        triple_wf(*t),
    ensures
        graph_triples(*final(g)) == graph_triples(*old(g)).insert(t@),
        fresh == !graph_triples(*old(g)).contains(t@),
{
    g.insert(&ox_triple(t))
}

/// Trusted: `oxrdf::Graph::len`, the number of triples, which is finite.
#[verifier::external_body]
pub(crate) fn graph_len(g: &oxrdf::Graph) -> (n: usize)
    ensures
        counts(graph_triples(*g), n),
{
    g.len()
}

/// Trusted: `oxrdf::Graph::iter`, which yields every triple of the graph
/// once.
#[verifier::external_body]
pub(crate) fn graph_all_triples(g: &oxrdf::Graph) -> (r: Vec<RdfTriple>)
    ensures
        lists_exactly(r@, graph_triples(*g)),
{
    g.iter().map(|t| triple_of(&t.into_owned())).collect()
}

/// The label of the one blank node that the graph cannot find by a range.
/// `oxrdf` keeps a blank node whose label is a hexadecimal number in lower
/// case as that number, and looks a node up in the range from it to the
/// node that follows it. This label is the greatest such number, which
/// nothing follows.
pub const LAST_BLANK_NODE: &'static str = "ffffffffffffffffffffffffffffffff";

/// The term ends in the blank node that the graph cannot find by a range:
/// it is that blank node, or a quoted triple whose object ends in it.
pub open spec fn ends_in_last(t: RdfTermView) -> bool
    decreases t,
{
    match t {
        RdfTermView::BlankNode(b) => b == LAST_BLANK_NODE@,
        RdfTermView::Triple(q) => ends_in_last(q.object),
        _ => false,
    }
}

/// How deep quoted triples stand in one another as objects.
pub open spec fn object_depth(t: RdfTerm) -> nat
    decreases t,
{
    match t {
        RdfTerm::Triple(inner) => 1 + object_depth(inner.object),
        _ => 0,
    }
}

/// Does the term end in the blank node that the graph cannot find by a
/// range?
pub fn term_ends_in_last(t: &RdfTerm) -> (r: bool)
    ensures
        r == ends_in_last(t@),
    decreases object_depth(*t),
{
    match t {
        RdfTerm::BlankNode(b) => str_eq(b.as_str(), LAST_BLANK_NODE),
        RdfTerm::Triple(q) => term_ends_in_last(&q.object),
        _ => false,
    }
}

/// Trusted: `oxrdf::Graph::triples_for_subject`, which yields once every
/// triple of the graph that has the given subject. It finds them in the
/// range from the subject to the node that follows it, which is empty for
/// the blank node [`LAST_BLANK_NODE`]: that subject is left out.
#[verifier::external_body]
fn graph_range_of_subject(g: &oxrdf::Graph, s: &Subject) -> (r: Vec<RdfTriple>)
    requires
        s@ != SubjectView::BlankNode(LAST_BLANK_NODE@),
    ensures
        lists_exactly(r@, triples_of_subject(graph_triples(*g), s@)),
{
    g.triples_for_subject(&ox_subject(s)).map(|t| triple_of(&t.into_owned())).collect()
}

/// `from` holds places among the first `n` of a list, in rising order, one
/// for each of `count` items that were taken from there.
pub open spec fn places_taken(from: Seq<int>, count: int, n: int) -> bool {
    &&& from.len() == count
    &&& forall|k: int| 0 <= k < from.len() ==> 0 <= #[trigger] from[k] < n
    &&& forall|k: int, m: int| 0 <= k < m < from.len() ==> from[k] < from[m]
}

/// Those of the listed triples that have the given subject.
fn triples_with_subject(all: &Vec<RdfTriple>, s: &Subject, Ghost(g): Ghost<Set<RdfTripleView>>) -> (r: Vec<
    RdfTriple,
>)
    requires
        lists_exactly(all@, g),
    ensures
        lists_exactly(r@, triples_of_subject(g, s@)),
{
    let mut r: Vec<RdfTriple> = Vec::new();
    let ghost mut from: Seq<int> = Seq::empty();
    let mut i: usize = 0;
    while i < all.len()
        invariant
            i <= all.len(),
            lists_exactly(all@, g),
            places_taken(from, r@.len() as int, i as int),
            forall|k: int| 0 <= k < r.len() ==> (#[trigger] r@[k])@ == all@[from[k]]@ && r@[k]@.subject == s@,
            forall|j: int|
                0 <= j < i && (#[trigger] all@[j])@.subject == s@ ==> exists|k: int|
                    0 <= k < r.len() && (#[trigger] r@[k])@ == all@[j]@,
        decreases all.len() - i,
    {
        let ghost before = r@;
        let ghost from_before = from;
        if all[i].subject.same(s) {
            r.push(all[i].clone());
            proof {
                from = from.push(i as int);
                assert forall|k: int| 0 <= k < r.len() implies (#[trigger] r@[k])@ == all@[from[k]]@
                    && r@[k]@.subject == s@ by {
                    if k < before.len() {
                        assert(r@[k] == before[k]);
                        assert(from[k] == from_before[k]);
                    }
                }
                assert forall|k: int, m: int| 0 <= k < m < from.len() implies from[k] < from[m] by {
                    assert(from[k] == from_before[k]);
                    if m < from_before.len() {
                        assert(from[m] == from_before[m]);
                    }
                }
                assert forall|j: int| 0 <= j < i + 1 && (#[trigger] all@[j])@.subject == s@ implies exists|k: int|
                    0 <= k < r.len() && (#[trigger] r@[k])@ == all@[j]@ by {
                    if j < i {
                        let k = choose|k: int| 0 <= k < before.len() && (#[trigger] before[k])@ == all@[j]@;
                        assert(r@[k] == before[k]);
                    } else {
                        assert(r@[before.len() as int]@ == all@[j]@);
                    }
                }
            }
        }
        i += 1;
    }
    proof {
        let part = triples_of_subject(g, s@);
        assert forall|k: int| 0 <= k < r.len() implies part.contains(#[trigger] r@[k]@) by {
            assert(g.contains(all@[from[k]]@));
        }
        assert forall|x: RdfTripleView| part.contains(x) implies exists|k: int|
            0 <= k < r.len() && #[trigger] r@[k]@ == x by {
            let j = choose|j: int| 0 <= j < all.len() && (#[trigger] all@[j])@ == x;
            assert(all@[j]@.subject == s@);
        }
        assert forall|k: int, m: int| 0 <= k < m < r.len() implies r@[k]@ != r@[m]@ by {
            assert(from[k] < from[m]);
            assert(all@[from[k]]@ != all@[from[m]]@);
        }
    }
    r
}

/// The triples of the graph that have the given subject, each once.
pub(crate) fn graph_triples_for_subject(g: &oxrdf::Graph, s: &Subject) -> (r: Vec<RdfTriple>)
    ensures
        lists_exactly(r@, triples_of_subject(graph_triples(*g), s@)),
{
    let last = match s {
        Subject::BlankNode(b) => str_eq(b.as_str(), LAST_BLANK_NODE),
        _ => false,
    };
    if last {
        let all = graph_all_triples(g);
        triples_with_subject(&all, s, Ghost(graph_triples(*g)))
    } else {
        graph_range_of_subject(g, s)
    }
}

/// Trusted: `oxrdf::Graph::objects_for_subject_predicate`, which yields
/// once every object that the graph relates to the subject by the
/// predicate.
#[verifier::external_body]
pub(crate) fn graph_objects_for_subject_predicate(g: &oxrdf::Graph, s: &Subject, p: &str) -> (r: Vec<RdfTerm>)
    ensures
        lists_exactly(r@, objects_of(graph_triples(*g), s@, p@)),
{
    let p = oxrdf::NamedNodeRef::new_unchecked(p);
    g.objects_for_subject_predicate(&ox_subject(s), p).map(|o| term_of(&o.into_owned())).collect()
}

/// Trusted: `oxrdf::Graph::object_for_subject_predicate`, which yields one
/// of the objects that the graph relates to the subject by the predicate,
/// and none only if there is none.
#[verifier::external_body]
pub(crate) fn graph_object_for_subject_predicate(g: &oxrdf::Graph, s: &Subject, p: &str) -> (r: Option<RdfTerm>)
    ensures
        match r {
            Some(o) => objects_of(graph_triples(*g), s@, p@).contains(o@),
            None => objects_of(graph_triples(*g), s@, p@) == Set::<RdfTermView>::empty(),
        },
{
    let p = oxrdf::NamedNodeRef::new_unchecked(p);
    g.object_for_subject_predicate(&ox_subject(s), p).map(|o| term_of(&o.into_owned()))
}

/// Trusted: `oxrdf::Graph::subjects_for_predicate_object`, which yields
/// once every subject that the graph relates by the predicate to the
/// object. It finds them in the range from the object to the term that
/// follows it, which is empty for an object that ends in the blank node
/// [`LAST_BLANK_NODE`]: such an object is left out.
#[verifier::external_body]
fn graph_range_of_predicate_object(g: &oxrdf::Graph, p: &str, o: &RdfTerm) -> (r: Vec<Subject>)
    requires
        term_wf(*o),
        !ends_in_last(o@),
    ensures
        lists_exactly(r@, subjects_of(graph_triples(*g), p@, o@)),
{
    let p = oxrdf::NamedNodeRef::new_unchecked(p);
    g.subjects_for_predicate_object(p, &ox_term(o)).map(|s| subject_of(&s.into_owned())).collect()
}

/// The subjects of those of the listed triples that have the given
/// predicate and object.
fn subjects_with_predicate_object(
    all: &Vec<RdfTriple>,
    p: &str,
    o: &RdfTerm,
    Ghost(g): Ghost<Set<RdfTripleView>>,
) -> (r: Vec<Subject>)
    requires
        lists_exactly(all@, g),
    ensures
        lists_exactly(r@, subjects_of(g, p@, o@)),
{
    let mut r: Vec<Subject> = Vec::new();
    let ghost mut from: Seq<int> = Seq::empty();
    let mut i: usize = 0;
    while i < all.len()
        invariant
            i <= all.len(),
            lists_exactly(all@, g),
            places_taken(from, r@.len() as int, i as int),
            forall|k: int|
                0 <= k < r.len() ==> all@[from[k]]@ == (RdfTripleView {
                    subject: (#[trigger] r@[k])@,
                    predicate: p@,
                    object: o@,
                }),
            forall|j: int|
                0 <= j < i && (#[trigger] all@[j])@.predicate == p@ && all@[j]@.object == o@ ==> exists|k: int|
                    0 <= k < r.len() && (#[trigger] r@[k])@ == all@[j]@.subject,
        decreases all.len() - i,
    {
        let ghost before = r@;
        let ghost from_before = from;
        if str_eq(all[i].predicate.as_str(), p) && all[i].object.same(o) {
            r.push(all[i].subject.clone());
            proof {
                from = from.push(i as int);
                assert forall|k: int| 0 <= k < r.len() implies all@[from[k]]@ == (RdfTripleView {
                    subject: (#[trigger] r@[k])@,
                    predicate: p@,
                    object: o@,
                }) by {
                    if k < before.len() {
                        assert(r@[k] == before[k]);
                        assert(from[k] == from_before[k]);
                    }
                }
                assert forall|k: int, m: int| 0 <= k < m < from.len() implies from[k] < from[m] by {
                    assert(from[k] == from_before[k]);
                    if m < from_before.len() {
                        assert(from[m] == from_before[m]);
                    }
                }
                assert forall|j: int|
                    0 <= j < i + 1 && (#[trigger] all@[j])@.predicate == p@ && all@[j]@.object == o@ implies exists|
                    k: int,
                | 0 <= k < r.len() && (#[trigger] r@[k])@ == all@[j]@.subject by {
                    if j < i {
                        let k = choose|k: int|
                            0 <= k < before.len() && (#[trigger] before[k])@ == all@[j]@.subject;
                        assert(r@[k] == before[k]);
                    } else {
                        assert(r@[before.len() as int]@ == all@[j]@.subject);
                    }
                }
            }
        }
        i += 1;
    }
    proof {
        let part = subjects_of(g, p@, o@);
        assert forall|k: int| 0 <= k < r.len() implies part.contains(#[trigger] r@[k]@) by {
            assert(g.contains(all@[from[k]]@));
        }
        assert forall|x: SubjectView| part.contains(x) implies exists|k: int|
            0 <= k < r.len() && #[trigger] r@[k]@ == x by {
            let t = RdfTripleView { subject: x, predicate: p@, object: o@ };
            let j = choose|j: int| 0 <= j < all.len() && (#[trigger] all@[j])@ == t;
            assert(all@[j]@.predicate == p@ && all@[j]@.object == o@);
        }
        assert forall|k: int, m: int| 0 <= k < m < r.len() implies r@[k]@ != r@[m]@ by {
            assert(from[k] < from[m]);
            assert(all@[from[k]]@ != all@[from[m]]@);
        }
    }
    r
}

/// The subjects that the graph relates by the predicate to the object,
/// each once.
pub(crate) fn graph_subjects_for_predicate_object(g: &oxrdf::Graph, p: &str, o: &RdfTerm) -> (r: Vec<Subject>)
    requires
        term_wf(*o),
    ensures
        lists_exactly(r@, subjects_of(graph_triples(*g), p@, o@)),
{
    if term_ends_in_last(o) {
        let all = graph_all_triples(g);
        subjects_with_predicate_object(&all, p, o, Ghost(graph_triples(*g)))
    } else {
        graph_range_of_predicate_object(g, p, o)
    }
}

/// Trusted: `oxrdf::Graph::canonicalize` with the algorithm `Unstable`,
/// which gives the blank nodes new identifiers. Nothing is stated of the
/// outcome.
#[verifier::external_body]
pub(crate) fn graph_canonicalize(g: &mut oxrdf::Graph) {
    g.canonicalize(oxrdf::graph::CanonicalizationAlgorithm::Unstable)
}

} // verus!
