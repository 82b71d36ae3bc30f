//! RDF terms and triples as plain values.
//!
//! Each type has a view in which every text is a `Seq<char>`; two values
//! denote the same RDF term exactly when their views are equal.
use crate::text::str_eq;
use vstd::prelude::*;

verus! {

/// A term that can be the subject of a triple: an IRI or a blank node.
#[derive(Debug)]
pub enum Subject {
    NamedNode(String),
    BlankNode(String),
}

pub enum SubjectView {
    NamedNode(Seq<char>),
    BlankNode(Seq<char>),
}

/// The base direction of a directional language-tagged string.
#[derive(Debug, Clone, Copy, PartialEq, Eq, Structural)]
pub enum Direction {
    Ltr,
    Rtl,
}

/// A literal: lexical value, datatype IRI, and for language-tagged strings
/// the language tag and possibly a base direction.
#[derive(Debug)]
pub struct RdfLiteral {
    pub value: String,
    pub datatype: String,
    pub language: Option<String>,
    pub direction: Option<Direction>,
}

pub struct RdfLiteralView {
    pub value: Seq<char>,
    pub datatype: Seq<char>,
    pub language: Option<Seq<char>>,
    pub direction: Option<Direction>,
}

/// Any RDF term.
#[derive(Debug)]
pub enum RdfTerm {
    NamedNode(String),
    BlankNode(String),
    Literal(RdfLiteral),
    Triple(Box<RdfTriple>),
}

pub enum RdfTermView {
    NamedNode(Seq<char>),
    BlankNode(Seq<char>),
    Literal(RdfLiteralView),
    Triple(Box<RdfTripleView>),
}

/// An RDF triple.
#[derive(Debug)]
pub struct RdfTriple {
    pub subject: Subject,
    pub predicate: String,
    pub object: RdfTerm,
}

pub struct RdfTripleView {
    pub subject: SubjectView,
    pub predicate: Seq<char>,
    pub object: RdfTermView,
}

impl View for Subject {
    type V = SubjectView;

    open spec fn view(&self) -> SubjectView {
        match self {
            Subject::NamedNode(iri) => SubjectView::NamedNode(iri@),
            Subject::BlankNode(id) => SubjectView::BlankNode(id@),
        }
    }
}

impl View for RdfLiteral {
    type V = RdfLiteralView;

    open spec fn view(&self) -> RdfLiteralView {
        RdfLiteralView {
            value: self.value@,
            datatype: self.datatype@,
            language: match self.language {
                Some(l) => Some(l@),
                None => None,
            },
            direction: self.direction,
        }
    }
}

/// The view of a term.
pub open spec fn term_view(t: RdfTerm) -> RdfTermView
    decreases t,
{
    match t {
        RdfTerm::NamedNode(iri) => RdfTermView::NamedNode(iri@),
        RdfTerm::BlankNode(id) => RdfTermView::BlankNode(id@),
        RdfTerm::Literal(l) => RdfTermView::Literal(l@),
        RdfTerm::Triple(t) => RdfTermView::Triple(Box::new(triple_view(*t))),
    }
}

/// The view of a triple.
pub open spec fn triple_view(t: RdfTriple) -> RdfTripleView
    decreases t,
{
    RdfTripleView { subject: t.subject@, predicate: t.predicate@, object: term_view(t.object) }
}

impl View for RdfTerm {
    type V = RdfTermView;

    open spec fn view(&self) -> RdfTermView {
        term_view(*self)
    }
}

impl View for RdfTriple {
    type V = RdfTripleView;

    open spec fn view(&self) -> RdfTripleView {
        triple_view(*self)
    }
}

/// Are two optional texts the same?
pub fn opt_str_eq(a: &Option<String>, b: &Option<String>) -> (r: bool)
    ensures
        r == (match (*a, *b) {
            (Some(x), Some(y)) => x@ == y@,
            (None, None) => true,
            _ => false,
        }),
{
    match (a, b) {
        (Some(x), Some(y)) => str_eq(x.as_str(), y.as_str()),
        (None, None) => true,
        _ => false,
    }
}

impl Clone for Subject {
    fn clone(&self) -> (r: Self)
        ensures
            r == *self,
    {
        match self {
            Subject::NamedNode(iri) => Subject::NamedNode(iri.clone()),
            Subject::BlankNode(id) => Subject::BlankNode(id.clone()),
        }
    }
}

impl Subject {
    /// Do the two denote the same node?
    pub fn same(&self, other: &Subject) -> (r: bool)
        ensures
            r == (self@ == other@),
    {
        match (self, other) {
            (Subject::NamedNode(a), Subject::NamedNode(b)) => str_eq(a.as_str(), b.as_str()),
            (Subject::BlankNode(a), Subject::BlankNode(b)) => str_eq(a.as_str(), b.as_str()),
            _ => false,
        }
    }
}

impl Clone for RdfLiteral {
    fn clone(&self) -> (r: Self)
        ensures
            r == *self,
    {
        RdfLiteral {
            value: self.value.clone(),
            datatype: self.datatype.clone(),
            language: match &self.language {
                Some(l) => Some(l.clone()),
                None => None,
            },
            direction: self.direction,
        }
    }
}

impl RdfLiteral {
    /// Do the two denote the same literal?
    pub fn same(&self, other: &RdfLiteral) -> (r: bool)
        ensures
            r == (self@ == other@),
    {
        let r = str_eq(self.value.as_str(), other.value.as_str()) && str_eq(
            self.datatype.as_str(),
            other.datatype.as_str(),
        ) && opt_str_eq(&self.language, &other.language) && match (
            self.direction,
            other.direction,
        ) {
            (Some(a), Some(b)) => a == b,
            (None, None) => true,
            _ => false,
        };
        r
    }
}

impl Clone for RdfTerm {
    fn clone(&self) -> (r: Self)
        ensures
            r == *self,
        decreases self,
    {
        match self {
            RdfTerm::NamedNode(iri) => RdfTerm::NamedNode(iri.clone()),
            RdfTerm::BlankNode(id) => RdfTerm::BlankNode(id.clone()),
            RdfTerm::Literal(l) => RdfTerm::Literal(l.clone()),
            RdfTerm::Triple(t) => {
                let inner: RdfTriple = (**t).clone();
                RdfTerm::Triple(Box::new(inner))
            },
        }
    }
}

impl RdfTerm {
    /// Do the two denote the same term?
    pub fn same(&self, other: &RdfTerm) -> (r: bool)
        ensures
            r == (self@ == other@),
        decreases self,
    {
        match (self, other) {
            (RdfTerm::NamedNode(a), RdfTerm::NamedNode(b)) => str_eq(a.as_str(), b.as_str()),
            (RdfTerm::BlankNode(a), RdfTerm::BlankNode(b)) => str_eq(a.as_str(), b.as_str()),
            (RdfTerm::Literal(a), RdfTerm::Literal(b)) => a.same(b),
            (RdfTerm::Triple(a), RdfTerm::Triple(b)) => a.same(b),
            _ => false,
        }
    }
}

impl Clone for RdfTriple {
    fn clone(&self) -> (r: Self)
        ensures
            r == *self,
        decreases self,
    {
        RdfTriple {
            subject: self.subject.clone(),
            predicate: self.predicate.clone(),
            object: self.object.clone(),
        }
    }
}

impl RdfTriple {
    /// Do the two denote the same triple?
    pub fn same(&self, other: &RdfTriple) -> (r: bool)
        ensures
            r == (self@ == other@),
        decreases self,
    {
        self.subject.same(&other.subject) && str_eq(
            self.predicate.as_str(),
            other.predicate.as_str(),
        ) && self.object.same(&other.object)
    }
}

} // verus!
