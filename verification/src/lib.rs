//! Canonical pretty-printing of RDF graphs as Turtle.
//!
//! A document is parsed into a graph ([`parser`]); a text that holds a
//! comment is refused unless the work is forced ([`comments`]). The graph
//! is searched for collections ([`collections`]) and for blank nodes that
//! can be written inline ([`classify`]); from that a document tree is
//! built ([`builder`], [`ast`]), sorted under a configurable order
//! ([`compare`], [`sorting`]) and written as Turtle text ([`formatter`],
//! [`lexical`]).
//!
//! What each step owes is stated in its contract and proved: the tree
//! holds every visible triple of a subject exactly once, sorting keeps that
//! ([`kept`]) and leaves every list in order ([`laws`], [`order_laws`]),
//! no triple and no collection of the graph is missing from the tree
//! ([`written`]), a collection keeps its elements in their order wherever
//! it stands ([`lists`]), and the text is a function of the sorted tree.
//!
//! The graph itself is an `oxrdf::Graph`, the parser is `oxttl`'s; what is
//! taken on trust of them is marked as such where it is declared.
pub mod arrange;
pub mod ast;
pub mod builder;
pub mod classify;
pub mod collections;
pub mod comments;
pub mod compare;
pub mod constants;
pub mod context;
pub mod decoders;
pub mod error;
pub mod formatter;
pub mod grammar;
pub mod graph;
pub mod input;
pub mod kept;
pub mod laws;
pub mod lexical;
pub mod lists;
pub mod naming;
pub mod options;
pub mod order_laws;
pub mod parser;
pub mod ranks;
pub mod sorting;
pub mod term;
pub mod text;
pub mod vocab;
pub mod written;
