//! The document tree: subjects, their predicates, and the objects of each.
use crate::term::RdfLiteral;
use crate::text::{chars_of, contains_char, contains_pair, has_pair, str_eq};
use crate::vocab::{RDF_LANG_STRING, XSD_STRING};
use vstd::prelude::*;

verus! {

/// An IRI and how it is written: in full, with a prefix, or relative to the
/// base.
#[derive(Debug)]
pub enum TNamedNode {
    /// The IRI.
    Plain(String),
    /// The IRI, the prefix, and the local name.
    Prefixed(String, String, String),
    /// The IRI, and what follows the base in it.
    Based(String, String),
}

pub enum TNamedNodeView {
    Plain(Seq<char>),
    Prefixed(Seq<char>, Seq<char>, Seq<char>),
    Based(Seq<char>, Seq<char>),
}

impl View for TNamedNode {
    type V = TNamedNodeView;

    open spec fn view(&self) -> TNamedNodeView {
        match self {
            TNamedNode::Plain(iri) => TNamedNodeView::Plain(iri@),
            TNamedNode::Prefixed(iri, prefix, local) => TNamedNodeView::Prefixed(iri@, prefix@, local@),
            TNamedNode::Based(iri, rest) => TNamedNodeView::Based(iri@, rest@),
        }
    }
}

impl TNamedNodeView {
    pub open spec fn iri(self) -> Seq<char> {
        match self {
            TNamedNodeView::Plain(iri) => iri,
            TNamedNodeView::Prefixed(iri, _, _) => iri,
            TNamedNodeView::Based(iri, _) => iri,
        }
    }
}

impl Clone for TNamedNode {
    fn clone(&self) -> (r: Self)
        ensures
            r == *self,
    {
        match self {
            TNamedNode::Plain(iri) => TNamedNode::Plain(iri.clone()),
            TNamedNode::Prefixed(iri, prefix, local) => TNamedNode::Prefixed(
                iri.clone(),
                prefix.clone(),
                local.clone(),
            ),
            TNamedNode::Based(iri, rest) => TNamedNode::Based(iri.clone(), rest.clone()),
        }
    }
}

impl TNamedNode {
    /// The IRI of the node.
    #[must_use]
    pub fn as_named_node_ref(&self) -> (r: &String)
        ensures
            r@ == self@.iri(),
    {
        match self {
            TNamedNode::Plain(iri) => iri,
            TNamedNode::Prefixed(iri, _, _) => iri,
            TNamedNode::Based(iri, _) => iri,
        }
    }

    /// Are the two written the same way, with the same texts?
    pub fn same(&self, other: &TNamedNode) -> (r: bool)
        ensures
            r == (self@ == other@),
    {
        match (self, other) {
            (TNamedNode::Plain(a), TNamedNode::Plain(b)) => str_eq(a.as_str(), b.as_str()),
            (TNamedNode::Prefixed(a, ap, al), TNamedNode::Prefixed(b, bp, bl)) => str_eq(
                a.as_str(),
                b.as_str(),
            ) && str_eq(ap.as_str(), bp.as_str()) && str_eq(al.as_str(), bl.as_str()),
            (TNamedNode::Based(a, ar), TNamedNode::Based(b, br)) => str_eq(a.as_str(), b.as_str())
                && str_eq(ar.as_str(), br.as_str()),
            _ => false,
        }
    }
}

pub type TPredicate = TNamedNode;

/// A blank node that is written by its label.
#[derive(Debug)]
pub struct TBlankNodeRef(pub String);

/// A literal, and its datatype as it is written unless that is the
/// datatype of plain or of language-tagged strings.
#[derive(Debug)]
pub struct TLiteralRef(pub RdfLiteral, pub Option<TNamedNode>);

/// A predicate and its objects.
#[derive(Debug)]
pub struct TPredicateCont {
    pub predicate: TPredicate,
    pub objects: Vec<TObject>,
}

/// A blank node that is written inline, with its predicates.
#[derive(Debug)]
pub struct TBlankNode {
    pub node: TBlankNodeRef,
    pub predicates: Vec<TPredicateCont>,
}

/// A non-empty collection: its head node and its elements in their order.
#[derive(Debug)]
pub struct TCollectionRef {
    pub node: TBlankNode,
    pub rest: Vec<TObject>,
}

/// An RDF collection.
#[derive(Debug)]
pub enum TCollection {
    WithContent(TCollectionRef),
    Empty,
}

/// A quoted triple.
#[derive(Debug)]
pub struct TTriple(pub TSubject, pub TPredicate, pub TObject);

/// What can stand as a subject.
#[derive(Debug)]
pub enum TSubject {
    NamedNode(TNamedNode),
    BlankNodeLabel(TBlankNodeRef),
    BlankNodeAnonymous(TBlankNode),
    Collection(TCollection),
    Triple(Box<TTriple>),
}

/// What can stand as an object.
#[derive(Debug)]
pub enum TObject {
    NamedNode(TNamedNode),
    BlankNodeLabel(TBlankNodeRef),
    BlankNodeAnonymous(TBlankNode),
    Collection(TCollection),
    Literal(TLiteralRef),
    Triple(Box<TTriple>),
}

/// A subject with its predicates.
#[derive(Debug)]
pub struct TSubjectCont {
    pub subject: TSubject,
    pub predicates: Vec<TPredicateCont>,
}

/// The document: its subjects.
#[derive(Debug)]
pub struct TRoot {
    pub subjects: Vec<TSubjectCont>,
}

/// A string value that is written over several lines: it holds a line feed,
/// but not a line feed followed by a carriage return, which only the
/// single-line form can hold.
pub open spec fn is_multiline(value: Seq<char>) -> bool {
    value.contains('\n') && !has_pair(value, '\n', '\r')
}

/// Is the datatype that of plain or of language-tagged strings?
pub open spec fn is_string_datatype(datatype: Seq<char>) -> bool {
    datatype == XSD_STRING@ || datatype == RDF_LANG_STRING@
}

/// Can the literal be written on one line?
pub open spec fn literal_single_leafed(l: TLiteralRef) -> bool {
    !(is_string_datatype(l.0.datatype@) && is_multiline(l.0.value@))
}

/// Can the object be written on one line? A literal (but a string of
/// several lines), a named node, a labelled blank node, an empty
/// collection, or a container of one such item.
pub open spec fn object_single_leafed(o: TObject) -> bool
    decreases o,
{
    match o {
        TObject::NamedNode(_) | TObject::BlankNodeLabel(_) | TObject::Literal(_) => true,
        TObject::BlankNodeAnonymous(bn) => predicates_single_leafed(bn.predicates@),
        TObject::Collection(col) => collection_single_leafed(col),
        TObject::Triple(_) => false,
    }
}

/// Can the list of predicates be written on one line? It is empty, or one
/// predicate with one object that can.
pub open spec fn predicates_single_leafed(ps: Seq<TPredicateCont>) -> bool
    decreases ps,
{
    ps.len() == 0 || (ps.len() == 1 && predicate_single_leafed(ps[0]))
}

/// Can the predicate with its objects be written on one line?
pub open spec fn predicate_single_leafed(p: TPredicateCont) -> bool
    decreases p,
{
    p.objects.len() == 1 && object_single_leafed(p.objects@[0])
}

/// Can the collection be written on one line?
pub open spec fn collection_single_leafed(c: TCollection) -> bool
    decreases c,
{
    match c {
        TCollection::WithContent(col) => col.rest.len() == 1 && object_single_leafed(col.rest@[0]),
        TCollection::Empty => true,
    }
}

/// Can the subject be written on one line?
pub open spec fn subject_single_leafed(s: TSubject) -> bool
    decreases s,
{
    match s {
        TSubject::BlankNodeAnonymous(bn) => predicates_single_leafed(bn.predicates@),
        TSubject::Collection(col) => collection_single_leafed(col),
        TSubject::Triple(t) => triple_single_leafed(*t),
        TSubject::BlankNodeLabel(_) | TSubject::NamedNode(_) => true,
    }
}

/// Can the quoted triple be written on one line?
pub open spec fn triple_single_leafed(t: TTriple) -> bool
    decreases t,
{
    subject_single_leafed(t.0) && object_single_leafed(t.2)
}

/// Can the subject with its predicates be written on one line?
pub open spec fn subject_cont_single_leafed(s: TSubjectCont) -> bool {
    subject_single_leafed(s.subject) && predicates_single_leafed(s.predicates@)
}

/// An AST node.
pub trait Part {
    /// Whether this kind of part may have sub-parts.
    spec fn container(&self) -> bool;

    /// Whether this part has no sub-parts.
    spec fn empty(&self) -> bool;

    /// Whether this part may be written on a single line.
    spec fn single_leafed(&self) -> bool;

    /// Whether this kind of part may have sub-parts.
    fn is_container(&self) -> (r: bool)
        ensures
            r == self.container(),
    ;

    /// Whether this part has no sub-parts.
    fn is_empty(&self) -> (r: bool)
        ensures
            r == self.empty(),
    ;

    /// Whether this part "is" a single item: something that, depending on
    /// the options, may be written on a single line.
    fn is_single_leafed(&self) -> (r: bool)
        ensures
            r == self.single_leafed(),
    ;
}

fn literal_is_single_leafed(l: &TLiteralRef) -> (r: bool)
    ensures
        r == literal_single_leafed(*l),
{
    if str_eq(l.0.datatype.as_str(), XSD_STRING) || str_eq(l.0.datatype.as_str(), RDF_LANG_STRING) {
        let value = chars_of(l.0.value.as_str());
        if contains_char(&value, '\n') && !contains_pair(&value, '\n', '\r') {
            return false;
        }
    }
    true
}

fn object_is_single_leafed(o: &TObject) -> (r: bool)
    ensures
        r == object_single_leafed(*o),
    decreases o,
{
    match o {
        TObject::NamedNode(_) | TObject::BlankNodeLabel(_) => true,
        TObject::Literal(_) => true,
        TObject::BlankNodeAnonymous(bn) => predicates_are_single_leafed(&bn.predicates),
        TObject::Collection(col) => collection_is_single_leafed(col),
        TObject::Triple(_) => false,
    }
}

fn predicates_are_single_leafed(ps: &Vec<TPredicateCont>) -> (r: bool)
    ensures
        r == predicates_single_leafed(ps@),
    decreases ps,
{
    ps.len() == 0 || (ps.len() == 1 && predicate_is_single_leafed(&ps[0]))
}

fn predicate_is_single_leafed(p: &TPredicateCont) -> (r: bool)
    ensures
        r == predicate_single_leafed(*p),
    decreases p,
{
    p.objects.len() == 1 && object_is_single_leafed(&p.objects[0])
}

fn collection_is_single_leafed(c: &TCollection) -> (r: bool)
    ensures
        r == collection_single_leafed(*c),
    decreases c,
{
    match c {
        TCollection::WithContent(col) => col.rest.len() == 1 && object_is_single_leafed(&col.rest[0]),
        TCollection::Empty => true,
    }
}

fn subject_is_single_leafed(s: &TSubject) -> (r: bool)
    ensures
        r == subject_single_leafed(*s),
    decreases s,
{
    match s {
        TSubject::BlankNodeAnonymous(bn) => predicates_are_single_leafed(&bn.predicates),
        TSubject::Collection(col) => collection_is_single_leafed(col),
        TSubject::Triple(t) => subject_is_single_leafed(&t.0) && object_is_single_leafed(&t.2),
        TSubject::BlankNodeLabel(_) | TSubject::NamedNode(_) => true,
    }
}

impl Part for TNamedNode {
    open spec fn container(&self) -> bool {
        false
    }

    open spec fn empty(&self) -> bool {
        true
    }

    open spec fn single_leafed(&self) -> bool {
        true
    }

    fn is_container(&self) -> (r: bool) {
        false
    }

    fn is_empty(&self) -> (r: bool) {
        true
    }

    fn is_single_leafed(&self) -> (r: bool) {
        true
    }
}

impl Part for TBlankNodeRef {
    open spec fn container(&self) -> bool {
        false
    }

    open spec fn empty(&self) -> bool {
        true
    }

    open spec fn single_leafed(&self) -> bool {
        true
    }

    fn is_container(&self) -> (r: bool) {
        false
    }

    fn is_empty(&self) -> (r: bool) {
        true
    }

    fn is_single_leafed(&self) -> (r: bool) {
        true
    }
}

impl Part for TLiteralRef {
    open spec fn container(&self) -> bool {
        false
    }

    open spec fn empty(&self) -> bool {
        true
    }

    open spec fn single_leafed(&self) -> bool {
        literal_single_leafed(*self)
    }

    fn is_container(&self) -> (r: bool) {
        false
    }

    fn is_empty(&self) -> (r: bool) {
        true
    }

    fn is_single_leafed(&self) -> (r: bool) {
        literal_is_single_leafed(self)
    }
}

impl Part for TPredicateCont {
    open spec fn container(&self) -> bool {
        true
    }

    open spec fn empty(&self) -> bool {
        self.objects.len() == 0
    }

    open spec fn single_leafed(&self) -> bool {
        predicate_single_leafed(*self)
    }

    fn is_container(&self) -> (r: bool) {
        true
    }

    fn is_empty(&self) -> (r: bool) {
        self.objects.len() == 0
    }

    fn is_single_leafed(&self) -> (r: bool) {
        predicate_is_single_leafed(self)
    }
}

impl Part for TBlankNode {
    open spec fn container(&self) -> bool {
        true
    }

    open spec fn empty(&self) -> bool {
        self.predicates.len() == 0
    }

    open spec fn single_leafed(&self) -> bool {
        predicates_single_leafed(self.predicates@)
    }

    fn is_container(&self) -> (r: bool) {
        true
    }

    fn is_empty(&self) -> (r: bool) {
        self.predicates.len() == 0
    }

    fn is_single_leafed(&self) -> (r: bool) {
        predicates_are_single_leafed(&self.predicates)
    }
}

impl Part for TCollection {
    open spec fn container(&self) -> bool {
        true
    }

    open spec fn empty(&self) -> bool {
        self is Empty
    }

    open spec fn single_leafed(&self) -> bool {
        collection_single_leafed(*self)
    }

    fn is_container(&self) -> (r: bool) {
        true
    }

    fn is_empty(&self) -> (r: bool) {
        match self {
            TCollection::Empty => true,
            TCollection::WithContent(_) => false,
        }
    }

    fn is_single_leafed(&self) -> (r: bool) {
        collection_is_single_leafed(self)
    }
}

impl Part for TTriple {
    open spec fn container(&self) -> bool {
        true
    }

    open spec fn empty(&self) -> bool {
        false
    }

    open spec fn single_leafed(&self) -> bool {
        triple_single_leafed(*self)
    }

    fn is_container(&self) -> (r: bool) {
        true
    }

    fn is_empty(&self) -> (r: bool) {
        false
    }

    fn is_single_leafed(&self) -> (r: bool) {
        subject_is_single_leafed(&self.0) && object_is_single_leafed(&self.2)
    }
}

impl Part for TSubject {
    open spec fn container(&self) -> bool {
        self is BlankNodeAnonymous || self is Collection || self is Triple
    }

    open spec fn empty(&self) -> bool {
        match self {
            TSubject::BlankNodeAnonymous(bn) => bn.predicates.len() == 0,
            TSubject::Collection(col) => col is Empty,
            TSubject::Triple(_) => false,
            TSubject::BlankNodeLabel(_) | TSubject::NamedNode(_) => true,
        }
    }

    open spec fn single_leafed(&self) -> bool {
        subject_single_leafed(*self)
    }

    fn is_container(&self) -> (r: bool) {
        match self {
            TSubject::BlankNodeAnonymous(_) | TSubject::Collection(_) | TSubject::Triple(_) => true,
            TSubject::BlankNodeLabel(_) | TSubject::NamedNode(_) => false,
        }
    }

    fn is_empty(&self) -> (r: bool) {
        match self {
            TSubject::BlankNodeAnonymous(bn) => bn.is_empty(),
            TSubject::Collection(col) => col.is_empty(),
            TSubject::Triple(_) => false,
            TSubject::BlankNodeLabel(_) | TSubject::NamedNode(_) => true,
        }
    }

    fn is_single_leafed(&self) -> (r: bool) {
        subject_is_single_leafed(self)
    }
}

impl Part for TObject {
    open spec fn container(&self) -> bool {
        self is BlankNodeAnonymous || self is Collection || self is Triple
    }

    open spec fn empty(&self) -> bool {
        match self {
            TObject::BlankNodeAnonymous(bn) => bn.predicates.len() == 0,
            TObject::Collection(col) => col is Empty,
            TObject::Triple(_) => false,
            TObject::NamedNode(_) | TObject::BlankNodeLabel(_) | TObject::Literal(_) => true,
        }
    }

    open spec fn single_leafed(&self) -> bool {
        object_single_leafed(*self)
    }

    fn is_container(&self) -> (r: bool) {
        match self {
            TObject::BlankNodeAnonymous(_) | TObject::Collection(_) | TObject::Triple(_) => true,
            TObject::NamedNode(_) | TObject::BlankNodeLabel(_) | TObject::Literal(_) => false,
        }
    }

    fn is_empty(&self) -> (r: bool) {
        match self {
            TObject::BlankNodeAnonymous(bn) => bn.is_empty(),
            TObject::Collection(col) => col.is_empty(),
            TObject::Triple(_) => false,
            TObject::NamedNode(_) | TObject::BlankNodeLabel(_) | TObject::Literal(_) => true,
        }
    }

    fn is_single_leafed(&self) -> (r: bool) {
        object_is_single_leafed(self)
    }
}

impl Part for TSubjectCont {
    open spec fn container(&self) -> bool {
        true
    }

    open spec fn empty(&self) -> bool {
        self.predicates.len() == 0
    }

    open spec fn single_leafed(&self) -> bool {
        subject_cont_single_leafed(*self)
    }

    fn is_container(&self) -> (r: bool) {
        true
    }

    fn is_empty(&self) -> (r: bool) {
        self.predicates.len() == 0
    }

    fn is_single_leafed(&self) -> (r: bool) {
        subject_is_single_leafed(&self.subject) && predicates_are_single_leafed(&self.predicates)
    }
}

impl TRoot {
    /// A document without subjects.
    #[must_use]
    pub fn new() -> (r: Self)
        ensures
            r.subjects@ == Seq::<TSubjectCont>::empty(),
    {
        Self { subjects: Vec::new() }
    }
}

impl Default for TRoot {
    fn default() -> (r: Self)
        ensures
            r.subjects@ == Seq::<TSubjectCont>::empty(),
    {
        Self::new()
    }
}

} // verus!
