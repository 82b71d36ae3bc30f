//! The IRIs of the vocabulary terms that the formatter treats specially.
use vstd::prelude::*;

verus! {

pub const RDF_TYPE: &'static str = "http://www.w3.org/1999/02/22-rdf-syntax-ns#type";

pub const RDF_FIRST: &'static str = "http://www.w3.org/1999/02/22-rdf-syntax-ns#first";

pub const RDF_REST: &'static str = "http://www.w3.org/1999/02/22-rdf-syntax-ns#rest";

pub const RDF_NIL: &'static str = "http://www.w3.org/1999/02/22-rdf-syntax-ns#nil";

pub const RDF_LIST: &'static str = "http://www.w3.org/1999/02/22-rdf-syntax-ns#List";

pub const RDF_LANG_STRING: &'static str = "http://www.w3.org/1999/02/22-rdf-syntax-ns#langString";

pub const RDF_DIR_LANG_STRING: &'static str =
    "http://www.w3.org/1999/02/22-rdf-syntax-ns#dirLangString";

pub const XSD_STRING: &'static str = "http://www.w3.org/2001/XMLSchema#string";

pub const XSD_BOOLEAN: &'static str = "http://www.w3.org/2001/XMLSchema#boolean";

pub const XSD_INTEGER: &'static str = "http://www.w3.org/2001/XMLSchema#integer";

pub const XSD_DECIMAL: &'static str = "http://www.w3.org/2001/XMLSchema#decimal";

pub const XSD_DOUBLE: &'static str = "http://www.w3.org/2001/XMLSchema#double";

/// The namespace of the pretty-printing vocabulary.
pub const PRTR_NS: &'static str = "http://w3id.org/oseg/ont/prtr#";

/// The customary prefix of the pretty-printing vocabulary.
pub const PRTR_PREFIX: &'static str = "prtr";

/// The datatype property that assigns a non-negative integer to a blank
/// node, by which blank nodes are ordered when pretty-printing.
pub const PRTR_SORTING_ID: &'static str = "http://w3id.org/oseg/ont/prtr#sortingId";

} // verus!
