//! What can be configured about the formatting.
use vstd::prelude::*;

verus! {

/// A predefined order of subject types.
#[derive(Clone, Copy, Debug, PartialEq, Eq, Structural)]
pub enum SpecialSubjectTypeOrder {
    Owl,
    Skos,
    Shacl,
    Shex,
    Rdf,
}

/// A predefined order of predicates.
#[derive(Clone, Copy, Debug, PartialEq, Eq, Structural)]
pub enum SpecialPredicateOrder {
    Owl,
    Skos,
    Shacl,
    Shex,
    Rdf,
}

impl SpecialSubjectTypeOrder {
    /// The prefixed names of the preset, first rank first.
    pub open spec fn list(self) -> Seq<&'static str> {
        match self {
            Self::Owl => seq![
                "owl:Ontology",
                "owl:Class",
                "owl:ObjectProperties",
                "owl:DatatypeProperties",
                "owl:NamedIndividual",
            ],
            Self::Skos => seq![
                "skos:ConceptScheme",
                "skos:Concept",
                "skos:OrderedCollection",
                "skos:Collection",
            ],
            Self::Shacl => seq!["sh:NodeShape", "sh:PropertyShape", "sh:Shape"],
            Self::Shex => seq![
                "shex:Schema",
                "shex:ShapeExternal",
                "shex:ShapeAnd",
                "shex:ShapeOr",
                "shex:ShapeNot",
                "shex:Shape",
                "shex:TripleConstraint",
                "shex:Wildcard",
            ],
            Self::Rdf => seq!["rdfs:Datatype", "rdfs:Class", "rdfs:Resource", "rdf:Property"],
        }
    }

    /// The preset as a list of prefixed names, first rank first.
    #[must_use]
    pub fn as_list(&self) -> (r: Vec<&'static str>)
        ensures
            r@ == self.list(),
    {
        let r = match self {
            Self::Owl => vec![
                "owl:Ontology",
                "owl:Class",
                "owl:ObjectProperties",
                "owl:DatatypeProperties",
                "owl:NamedIndividual",
            ],
            Self::Skos => vec![
                "skos:ConceptScheme",
                "skos:Concept",
                "skos:OrderedCollection",
                "skos:Collection",
            ],
            Self::Shacl => vec!["sh:NodeShape", "sh:PropertyShape", "sh:Shape"],
            Self::Shex => vec![
                "shex:Schema",
                "shex:ShapeExternal",
                "shex:ShapeAnd",
                "shex:ShapeOr",
                "shex:ShapeNot",
                "shex:Shape",
                "shex:TripleConstraint",
                "shex:Wildcard",
            ],
            Self::Rdf => vec!["rdfs:Datatype", "rdfs:Class", "rdfs:Resource", "rdf:Property"],
        };
        assert(r@ =~= self.list());
        r
    }
}

impl SpecialPredicateOrder {
    /// The prefixed names of the preset, first rank first.
    pub open spec fn list(self) -> Seq<&'static str> {
        match self {
            Self::Owl => seq![
                "owl:imports",
                "owl:deprecated",
                "owl:versionInfo",
                "owl:versionIRI",
                "owl:sameAs",
                "owl:cardinality",
                "owl:maxCardinality",
                "owl:minCardinality",
            ],
            Self::Skos => seq![
                "skos:prefLabel",
                "skos:altLabel",
                "skos:hiddenLabel",
                "skos:changeNote",
                "skos:editorialNote",
                "skos:historyNote",
                "skos:scopeNote",
                "skos:note",
                "skos:example",
                "skos:broader",
                "skos:narrower",
                "skos:related",
                "skos:member",
                "skos:memberList",
                "skos:broadMatch",
                "skos:narrowMatch",
                "skos:relatedMatch",
                "skos:exactMatch",
                "skos:closeMatch",
            ],
            Self::Shacl => seq![
                "sh:deactivated",
                "sh:name",
                "sh:description",
                "sh:namespace",
                "sh:targetClass",
                "sh:targetNode",
                "sh:targetObjectsOf",
                "sh:targetSubjectsOf",
                "sh:target",
                "sh:node",
                "sh:nodeKind",
                "sh:property",
                "sh:value",
                "sh:shapesGraph",
                "sh:suggestedShapesGraph",
                "sh:optional",
                "sh:class",
                "sh:datatype",
                "sh:equals",
                "sh:disjoint",
                "sh:lessThan",
                "sh:lessThanOrEquals",
                "sh:maxCount",
                "sh:maxExclusive",
                "sh:maxInclusive",
                "sh:maxLength",
                "sh:minCount",
                "sh:minExclusive",
                "sh:minInclusive",
                "sh:minLength",
                "sh:pattern",
            ],
            Self::Shex => Seq::empty(),
            Self::Rdf => seq![
                "rdf:type",
                "rdf:first",
                "rdf:rest",
                "rdfs:label",
                "rdfs:comment",
                "rdf:language",
                "rdfs:subClassOf",
                "rdfs:subPropertyOf",
                "rdfs:domain",
                "rdfs:range",
                "rdfs:seeAlso",
            ],
        }
    }

    /// The preset as a list of prefixed names, first rank first.
    #[must_use]
    pub fn as_list(&self) -> (r: Vec<&'static str>)
        ensures
            r@ == self.list(),
    {
        let r = match self {
            Self::Owl => vec![
                "owl:imports",
                "owl:deprecated",
                "owl:versionInfo",
                "owl:versionIRI",
                "owl:sameAs",
                "owl:cardinality",
                "owl:maxCardinality",
                "owl:minCardinality",
            ],
            Self::Skos => vec![
                "skos:prefLabel",
                "skos:altLabel",
                "skos:hiddenLabel",
                "skos:changeNote",
                "skos:editorialNote",
                "skos:historyNote",
                "skos:scopeNote",
                "skos:note",
                "skos:example",
                "skos:broader",
                "skos:narrower",
                "skos:related",
                "skos:member",
                "skos:memberList",
                "skos:broadMatch",
                "skos:narrowMatch",
                "skos:relatedMatch",
                "skos:exactMatch",
                "skos:closeMatch",
            ],
            Self::Shacl => vec![
                "sh:deactivated",
                "sh:name",
                "sh:description",
                "sh:namespace",
                "sh:targetClass",
                "sh:targetNode",
                "sh:targetObjectsOf",
                "sh:targetSubjectsOf",
                "sh:target",
                "sh:node",
                "sh:nodeKind",
                "sh:property",
                "sh:value",
                "sh:shapesGraph",
                "sh:suggestedShapesGraph",
                "sh:optional",
                "sh:class",
                "sh:datatype",
                "sh:equals",
                "sh:disjoint",
                "sh:lessThan",
                "sh:lessThanOrEquals",
                "sh:maxCount",
                "sh:maxExclusive",
                "sh:maxInclusive",
                "sh:maxLength",
                "sh:minCount",
                "sh:minExclusive",
                "sh:minInclusive",
                "sh:minLength",
                "sh:pattern",
            ],
            Self::Shex => Vec::new(),
            Self::Rdf => vec![
                "rdf:type",
                "rdf:first",
                "rdf:rest",
                "rdfs:label",
                "rdfs:comment",
                "rdf:language",
                "rdfs:subClassOf",
                "rdfs:subPropertyOf",
                "rdfs:domain",
                "rdfs:range",
                "rdfs:seeAlso",
            ],
        };
        assert(r@ =~= self.list());
        r
    }
}

/// The formatting options.
#[derive(Debug)]
pub struct FormatOptions {
    /// Do not edit the file but only check if it already is in this format.
    pub check: bool,
    /// Space(s) or tab(s) representing one level of indentation.
    pub indentation: String,
    /// Whether to move a single object (within one subject-predicate pair)
    /// onto a new line, or to keep it on the line of the predicate.
    pub single_leafed_new_lines: bool,
    /// Whether to write the output even if potential issues with the
    /// formatting have been detected.
    pub force: bool,
    /// Sort blank nodes according to their `prtr:sortingId` value.
    pub prtr_sorting: bool,
    /// Whether to use `BASE` and `PREFIX` (without a trailing dot), or the
    /// traditional `@base` and `@prefix`.
    pub sparql_syntax: bool,
    /// Whether to nest blank nodes as far as possible, or to use labels for
    /// all of them. A blank node that is referenced in more than one place
    /// is never nested.
    pub max_nesting: bool,
    /// Whether to canonicalize the input before formatting, which labels the
    /// blank nodes in a uniform way.
    pub canonicalize: bool,
    /// Warn if a double or decimal literal can not be written as a native
    /// Turtle number.
    pub warn_unsupported_numbers: bool,
    /// A predefined order of subject types.
    pub subject_type_order_preset: Option<SpecialSubjectTypeOrder>,
    /// A custom order of subject types, each an absolute IRI or a prefixed
    /// name. Takes precedence over the preset.
    pub subject_type_order: Option<Vec<String>>,
    /// A predefined order of predicates.
    pub predicate_order_preset: Option<SpecialPredicateOrder>,
    /// A custom order of predicates, each an absolute IRI or a prefixed
    /// name. Takes precedence over the preset.
    pub predicate_order: Option<Vec<String>>,
}

/// The texts of a list of string slices.
pub open spec fn texts_of(names: Seq<&'static str>) -> Seq<Seq<char>> {
    Seq::new(names.len(), |i: int| names[i]@)
}

/// The texts of a list of strings.
pub open spec fn texts(names: Seq<String>) -> Seq<Seq<char>> {
    Seq::new(names.len(), |i: int| names[i]@)
}

/// The list that is in force: the custom one if there is one, else the
/// preset's, else none.
pub open spec fn order_in_force(custom: Option<Vec<String>>, preset: Option<Seq<&'static str>>) -> Option<
    Seq<Seq<char>>,
> {
    match custom {
        Some(names) => Some(texts(names@)),
        None => match preset {
            Some(names) => Some(texts_of(names)),
            None => None,
        },
    }
}

fn owned_names(names: Vec<&'static str>) -> (r: Vec<String>)
    ensures
        texts(r@) == texts_of(names@),
{
    let mut r: Vec<String> = Vec::new();
    let mut i: usize = 0;
    while i < names.len()
        invariant
            i <= names.len(),
            r.len() == i,
            forall|j: int| 0 <= j < i ==> r@[j]@ == names@[j]@,
        decreases names.len() - i,
    {
        r.push(names[i].to_owned());
        i += 1;
    }
    assert(texts(r@) =~= texts_of(names@));
    r
}

impl Default for FormatOptions {
    fn default() -> (r: Self)
        ensures
            r.check,
            r.indentation@ == seq![' ', ' '],
            !r.single_leafed_new_lines,
            !r.force,
            r.prtr_sorting,
            !r.sparql_syntax,
            r.max_nesting,
            r.canonicalize,
            r.warn_unsupported_numbers,
            r.subject_type_order_preset is None,
            r.subject_type_order is None,
            r.predicate_order_preset is None,
            r.predicate_order is None,
    {
        proof {
            reveal_strlit("  ");
        }
        let indentation = "  ".to_owned();
        assert(indentation@ =~= seq![' ', ' ']);
        Self {
            check: true,
            indentation,
            single_leafed_new_lines: false,
            force: false,
            prtr_sorting: true,
            sparql_syntax: false,
            max_nesting: true,
            canonicalize: true,
            warn_unsupported_numbers: true,
            subject_type_order_preset: None,
            subject_type_order: None,
            predicate_order_preset: None,
            predicate_order: None,
        }
    }
}

impl FormatOptions {
    /// The order of subject types in force.
    pub open spec fn subject_type_order_spec(self) -> Option<Seq<Seq<char>>> {
        order_in_force(
            self.subject_type_order,
            match self.subject_type_order_preset {
                Some(p) => Some(p.list()),
                None => None,
            },
        )
    }

    /// The order of predicates in force.
    pub open spec fn predicate_order_spec(self) -> Option<Seq<Seq<char>>> {
        order_in_force(
            self.predicate_order,
            match self.predicate_order_preset {
                Some(p) => Some(p.list()),
                None => None,
            },
        )
    }

    /// The order of subject types in force: the custom list if there is
    /// one, else the preset's, else none.
    #[must_use]
    pub fn subject_type_order(&self) -> (r: Option<Vec<String>>)
        ensures
            match r {
                Some(names) => self.subject_type_order_spec() == Some(texts(names@)),
                None => self.subject_type_order_spec() is None,
            },
    {
        match &self.subject_type_order {
            Some(names) => {
                let r = names.clone();
                assert(r@ =~= names@);
                Some(r)
            },
            None => match &self.subject_type_order_preset {
                Some(preset) => Some(owned_names(preset.as_list())),
                None => None,
            },
        }
    }

    /// The order of predicates in force: the custom list if there is one,
    /// else the preset's, else none.
    #[must_use]
    pub fn predicate_order(&self) -> (r: Option<Vec<String>>)
        ensures
            match r {
                Some(names) => self.predicate_order_spec() == Some(texts(names@)),
                None => self.predicate_order_spec() is None,
            },
    {
        match &self.predicate_order {
            Some(names) => {
                let r = names.clone();
                assert(r@ =~= names@);
                Some(r)
            },
            None => match &self.predicate_order_preset {
                Some(preset) => Some(owned_names(preset.as_list())),
                None => None,
            },
        }
    }
}

} // verus!
