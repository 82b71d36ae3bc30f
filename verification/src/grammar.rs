//! The kinds of nodes of the syntax tree of a Turtle document.
use crate::text::str_eq;
use vstd::prelude::*;
use vstd::std_specs::convert::FromSpecImpl;

verus! {

/// The kind of a node of the syntax tree. The order of the variants is the
/// order in which nodes are sorted by kind.
#[derive(PartialEq, Eq, PartialOrd, Ord, Debug, Clone, Copy)]
pub enum NodeKind {
    Base,
    Comment,
    A,
    PredicateObjects,
    Prefix,
    PrefixedName,
    PNPrefix,
    IriRef,
    Collection,
    BlankNodeAnonymous,
    BlankNodeLabel,
    BlankNodePropertyList,
    LangTag,
    Literal,
    BooleanLiteral,
    IntegerLiteral,
    DecimalLiteral,
    DoubleLiteral,
    StringLiteral,
    Triples,
    TurtleDoc,
    At,
    DataType,
    IriStart,
    IriEnd,
    Other,
}

/// The kind that the grammar names `kind`, or `Other` for any other name.
pub open spec fn node_kind_of(kind: Seq<char>) -> NodeKind {
    if kind == "base"@ {
        NodeKind::Base
    } else if kind == "comment"@ {
        NodeKind::Comment
    } else if kind == "iriref"@ {
        NodeKind::IriRef
    } else if kind == "predicate_objects"@ {
        NodeKind::PredicateObjects
    } else if kind == "prefix"@ {
        NodeKind::Prefix
    } else if kind == "prefixed_name"@ {
        NodeKind::PrefixedName
    } else if kind == "pn_prefix"@ {
        NodeKind::PNPrefix
    } else if kind == "a"@ {
        NodeKind::A
    } else if kind == "@"@ {
        NodeKind::At
    } else if kind == "^^"@ {
        NodeKind::DataType
    } else if kind == "<"@ {
        NodeKind::IriStart
    } else if kind == ">"@ {
        NodeKind::IriEnd
    } else if kind == "anon"@ {
        NodeKind::BlankNodeAnonymous
    } else if kind == "blank_node_label"@ {
        NodeKind::BlankNodeLabel
    } else if kind == "blank_node_property_list"@ {
        NodeKind::BlankNodePropertyList
    } else if kind == "collection"@ {
        NodeKind::Collection
    } else if kind == "langtag"@ {
        NodeKind::LangTag
    } else if kind == "literal"@ {
        NodeKind::Literal
    } else if kind == "string"@ {
        NodeKind::StringLiteral
    } else if kind == "integer"@ {
        NodeKind::IntegerLiteral
    } else if kind == "boolean"@ {
        NodeKind::BooleanLiteral
    } else if kind == "decimal"@ {
        NodeKind::DecimalLiteral
    } else if kind == "double"@ {
        NodeKind::DoubleLiteral
    } else if kind == "triples"@ {
        NodeKind::Triples
    } else if kind == "turtle_doc"@ {
        NodeKind::TurtleDoc
    } else {
        NodeKind::Other
    }
}

impl From<&str> for NodeKind {
    fn from(kind: &str) -> (r: Self) {
        if str_eq(kind, "base") {
            NodeKind::Base
        } else if str_eq(kind, "comment") {
            NodeKind::Comment
        } else if str_eq(kind, "iriref") {
            NodeKind::IriRef
        } else if str_eq(kind, "predicate_objects") {
            NodeKind::PredicateObjects
        } else if str_eq(kind, "prefix") {
            NodeKind::Prefix
        } else if str_eq(kind, "prefixed_name") {
            NodeKind::PrefixedName
        } else if str_eq(kind, "pn_prefix") {
            NodeKind::PNPrefix
        } else if str_eq(kind, "a") {
            NodeKind::A
        } else if str_eq(kind, "@") {
            NodeKind::At
        } else if str_eq(kind, "^^") {
            NodeKind::DataType
        } else if str_eq(kind, "<") {
            NodeKind::IriStart
        } else if str_eq(kind, ">") {
            NodeKind::IriEnd
        } else if str_eq(kind, "anon") {
            NodeKind::BlankNodeAnonymous
        } else if str_eq(kind, "blank_node_label") {
            NodeKind::BlankNodeLabel
        } else if str_eq(kind, "blank_node_property_list") {
            NodeKind::BlankNodePropertyList
        } else if str_eq(kind, "collection") {
            NodeKind::Collection
        } else if str_eq(kind, "langtag") {
            NodeKind::LangTag
        } else if str_eq(kind, "literal") {
            NodeKind::Literal
        } else if str_eq(kind, "string") {
            NodeKind::StringLiteral
        } else if str_eq(kind, "integer") {
            NodeKind::IntegerLiteral
        } else if str_eq(kind, "boolean") {
            NodeKind::BooleanLiteral
        } else if str_eq(kind, "decimal") {
            NodeKind::DecimalLiteral
        } else if str_eq(kind, "double") {
            NodeKind::DoubleLiteral
        } else if str_eq(kind, "triples") {
            NodeKind::Triples
        } else if str_eq(kind, "turtle_doc") {
            NodeKind::TurtleDoc
        } else {
            NodeKind::Other
        }
    }
}

impl FromSpecImpl<&str> for NodeKind {
    open spec fn obeys_from_spec() -> bool {
        true
    }

    open spec fn from_spec(kind: &str) -> Self {
        node_kind_of(kind@)
    }
}

/// Where in a document a node stands.
#[derive(Eq, PartialEq, Debug, Clone, Copy)]
pub enum RootContext {
    Start,
    Prefixes,
    Triples,
    Comment,
}

} // verus!
