//! The encoder: writes a sorted tree as Turtle text.
//!
//! What is written is stated by the specification functions `text_*`: each
//! gives the text of a node under a given indentation, and the executable
//! functions are proved to append exactly that text.
use crate::ast::{
    collection_single_leafed, is_multiline, predicate_single_leafed, Part, TBlankNode, TBlankNodeRef,
    TCollection, TLiteralRef, TNamedNode, TObject, TPredicateCont, TRoot, TSubject, TSubjectCont, TTriple,
};
use crate::builder::{blocks_ok, construct_tree, graph_classes, nesting_fuel, top_subjects};
use crate::classify::{has_label, is_unreferenced};
use crate::compare::SortingContext;
use crate::constants::SUBSTITUTE_BASE;
use crate::context::Context;
use crate::error::{Error, FmtResult};
use crate::graph::graph_triples;
use crate::input::Input;
use crate::kept::{blocks_kept, lemma_blocks_kept};
use crate::naming::{find_namespace, namespace_of_prefix};
use crate::ranks::{collect_sorting_ids, sorting_ids_ok};
use crate::sorting::subjects_sorted;
use crate::text::{find_first, first_index_of, string_of};
use crate::lexical::{
    escape_local_name, escaped_local_name, long_str, print_quoted_str, print_unquoted_str, quoted_str,
};
use crate::options::FormatOptions;
use crate::decoders::{is_turtle_decimal, turtle_decimal, turtle_double};
use crate::text::{chars_of, contains_char, contains_pair, str_eq};

use crate::term::Direction;
use crate::vocab::{
    RDF_DIR_LANG_STRING, RDF_LANG_STRING, RDF_TYPE, XSD_BOOLEAN, XSD_DECIMAL, XSD_DOUBLE, XSD_INTEGER, XSD_STRING,
};
use vstd::prelude::*;
use vstd::string::StringExecFns;

verus! {

/// The pattern of a `DOUBLE` of the Turtle grammar, which takes fewer
/// forms than `xsd:double` has. It is anchored at both ends, so that it
/// matches whole texts only.
pub const TURTLE_DOUBLE_PATTERN: &'static str =
    "^[+-]?(([0-9]+([.][0-9]*)?)|([.][0-9]+))[eE][+-]?[0-9]+$";

/// Trusted: `regex::Regex::new` followed by `regex::Regex::is_match`, for
/// the pattern [`TURTLE_DOUBLE_PATTERN`] alone. The pattern reads: a sign
/// or none; digits with or without a point and further digits behind
/// them, or a point and digits; `e` or `E`; a sign or none; digits. With
/// `^` and `$` it matches exactly the texts that are such a number from
/// their first character to their last, which is what `turtle_double`
/// says.
#[verifier::external_body]
fn matches_double_pattern(pattern: &str, text: &str) -> (r: bool)
    requires
        pattern@ == TURTLE_DOUBLE_PATTERN@,
    ensures
        r == turtle_double(text@),
{
    match regex::Regex::new(pattern) {
        Ok(re) => re.is_match(text),
        Err(_) => false,
    }
}

/// What of the options shapes the text of a node.
pub struct Style {
    /// One level of indentation.
    pub unit: Seq<char>,
    /// Whether a single object goes onto a line of its own.
    pub single_leafed_new_lines: bool,
}

/// The style that the options ask for.
pub open spec fn style_of(options: FormatOptions) -> Style {
    Style { unit: options.indentation@, single_leafed_new_lines: options.single_leafed_new_lines }
}

/// A named node as a subject, an object or a datatype: a prefixed name
/// where it has a prefix and its local name can be written, else the IRI,
/// or what follows the base, between angle brackets.
pub open spec fn text_named_node(n: TNamedNode) -> Seq<char> {
    match n {
        TNamedNode::Plain(iri) => "<"@ + iri@ + ">"@,
        TNamedNode::Prefixed(iri, prefix, local) => if local@.len() == 0 {
            prefix@ + ":"@
        } else {
            match escaped_local_name(local@) {
                Some(escaped) => prefix@ + ":"@ + escaped,
                None => "<"@ + iri@ + ">"@,
            }
        },
        TNamedNode::Based(_, rest) => "<"@ + rest@ + ">"@,
    }
}

/// A named node as a predicate: `a` for `rdf:type`, and else as any named
/// node is written.
pub open spec fn text_predicate(n: TNamedNode) -> Seq<char> {
    if n@.iri() == RDF_TYPE@ {
        "a"@
    } else {
        text_named_node(n)
    }
}

/// A blank node by its label.
pub open spec fn text_label(b: TBlankNodeRef) -> Seq<char> {
    "_:"@ + b.0@
}

/// A string value: between triple quotes if it has several lines, else
/// between quotes on one line.
pub open spec fn text_string(value: Seq<char>) -> Seq<char> {
    if is_multiline(value) {
        long_str(value)
    } else {
        quoted_str(value)
    }
}

/// A literal with its datatype spelled out: the value between quotes on
/// one line, with what has to be escaped there escaped, `^^`, and the
/// datatype.
pub open spec fn text_literal_with_type(l: TLiteralRef) -> Seq<char> {
    quoted_str(l.0.value@) + "^^"@ + match l.1 {
        Some(n) => text_named_node(n),
        None => "<"@ + l.0.datatype@ + ">"@,
    }
}

/// A base direction, as it follows a language tag.
pub open spec fn text_direction(direction: Direction) -> Seq<char> {
    match direction {
        Direction::Ltr => "ltr"@,
        Direction::Rtl => "rtl"@,
    }
}

/// A literal: a string with its language tag if it has one, and with its
/// base direction behind that if it has one; a boolean or an integer as
/// it is; a double or a decimal as it is where the whole value is a
/// `DOUBLE` or a `DECIMAL` of the Turtle grammar; and anything else with
/// its datatype spelled out.
pub open spec fn text_literal(l: TLiteralRef) -> Seq<char> {
    let datatype = l.0.datatype@;
    if datatype == XSD_STRING@ {
        text_string(l.0.value@)
    } else if datatype == RDF_LANG_STRING@ {
        match l.0.language {
            Some(language) => text_string(l.0.value@) + "@"@ + language@,
            None => text_string(l.0.value@),
        }
    } else if datatype == RDF_DIR_LANG_STRING@ {
        match (l.0.language, l.0.direction) {
            (Some(language), Some(direction)) => text_string(l.0.value@) + "@"@ + language@ + "--"@
                + text_direction(direction),
            _ => text_literal_with_type(l),
        }
    } else if datatype == XSD_BOOLEAN@ || datatype == XSD_INTEGER@ {
        l.0.value@
    } else if datatype == XSD_DOUBLE@ {
        if turtle_double(l.0.value@) {
            l.0.value@
        } else {
            text_literal_with_type(l)
        }
    } else if datatype == XSD_DECIMAL@ {
        if turtle_decimal(l.0.value@) {
            l.0.value@
        } else {
            text_literal_with_type(l)
        }
    } else {
        text_literal_with_type(l)
    }
}

/// An object under the indentation `ind`.
pub open spec fn text_object(st: Style, ind: Seq<char>, o: TObject) -> Seq<char>
    decreases o, 0nat,
{
    match o {
        TObject::NamedNode(n) => ind + text_named_node(n),
        TObject::BlankNodeLabel(b) => ind + text_label(b),
        TObject::BlankNodeAnonymous(bn) => text_blank_node(st, ind, bn),
        TObject::Collection(c) => text_collection(st, ind, c),
        TObject::Literal(l) => ind + text_literal(l),
        TObject::Triple(t) => text_triple(st, ind, *t),
    }
}

/// A subject under the indentation `ind`.
pub open spec fn text_subject(st: Style, ind: Seq<char>, s: TSubject) -> Seq<char>
    decreases s, 0nat,
{
    match s {
        TSubject::NamedNode(n) => ind + text_named_node(n),
        TSubject::BlankNodeLabel(b) => ind + text_label(b),
        TSubject::BlankNodeAnonymous(bn) => text_blank_node(st, ind, bn),
        TSubject::Collection(c) => text_collection(st, ind, c),
        TSubject::Triple(t) => text_triple(st, ind, *t),
    }
}

/// An inline blank node: its predicates between square brackets.
pub open spec fn text_blank_node(st: Style, ind: Seq<char>, bn: TBlankNode) -> Seq<char>
    decreases bn, 0nat,
{
    ind + "["@ + text_predicates(st, ind, bn.predicates@, false) + "]"@
}

/// A quoted triple: `<< s p o >>`.
pub open spec fn text_triple(st: Style, ind: Seq<char>, t: TTriple) -> Seq<char>
    decreases t, 0nat,
{
    ind + "<< "@ + text_subject(st, ind, t.0) + " "@ + (ind + text_predicate(t.1)) + " "@ + text_object(
        st,
        ind,
        t.2,
    ) + " >>"@
}

/// A collection: `()` if it is empty, its one element on the same line
/// where that can be, else each element on a line of its own.
pub open spec fn text_collection(st: Style, ind: Seq<char>, c: TCollection) -> Seq<char>
    decreases c, 0nat,
{
    match c {
        TCollection::Empty => ind + "("@ + ")"@,
        TCollection::WithContent(col) => if !st.single_leafed_new_lines && collection_single_leafed(c) {
            ind + "("@ + " "@ + text_object(st, Seq::empty(), col.rest@[0]) + " "@ + ")"@
        } else {
            ind + "("@ + "\n"@ + text_entries(st, ind + st.unit, col.rest@, 0) + "\n"@ + ind + ")"@
        },
    }
}

/// The elements of a collection from the `i`-th on, one per line.
pub open spec fn text_entries(st: Style, ind: Seq<char>, rest: Seq<TObject>, i: int) -> Seq<char>
    decreases rest, rest.len() - i,
{
    if i < 0 || i >= rest.len() {
        Seq::empty()
    } else {
        (if i > 0 {
            "\n"@
        } else {
            Seq::empty()
        }) + text_object(st, ind, rest[i]) + text_entries(st, ind, rest, i + 1)
    }
}

/// The predicates of a node that stands under the indentation `ind`, with
/// a dot at the end or without: nothing if there are none, predicate and
/// object on the line of the node if both are single and the object can be
/// written on one line, else one line per predicate.
pub open spec fn text_predicates(st: Style, ind: Seq<char>, ps: Seq<TPredicateCont>, final_dot: bool) -> Seq<
    char,
>
    decreases ps, ps.len() + 1,
{
    if ps.len() == 0 {
        Seq::empty()
    } else if !st.single_leafed_new_lines && ps.len() == 1 && predicate_single_leafed(ps[0]) {
        " "@ + text_predicate(ps[0].predicate) + " "@ + text_object(st, Seq::empty(), ps[0].objects@[0]) + (
        if final_dot {
            " ."@
        } else {
            " "@
        })
    } else {
        "\n"@ + text_predicate_lines(st, ind + st.unit, ps, 0) + (if final_dot {
            ind + st.unit + ".\n"@
        } else {
            ind
        })
    }
}

/// The lines of the predicates from the `k`-th on.
pub open spec fn text_predicate_lines(st: Style, ind: Seq<char>, ps: Seq<TPredicateCont>, k: int) -> Seq<char>
    decreases ps, ps.len() - k,
{
    if k < 0 || k >= ps.len() {
        Seq::empty()
    } else {
        text_predicate_line(st, ind, ps[k]) + text_predicate_lines(st, ind, ps, k + 1)
    }
}

/// A predicate with its objects: the object on the same line if it is
/// single and can be written on one line, else each object on a line of
/// its own, with a comma between them; a semicolon at the end.
pub open spec fn text_predicate_line(st: Style, ind: Seq<char>, p: TPredicateCont) -> Seq<char>
    decreases p, 0nat,
{
    ind + text_predicate(p.predicate) + (if !st.single_leafed_new_lines && predicate_single_leafed(p) {
        " "@ + text_object(st, Seq::empty(), p.objects@[0])
    } else {
        text_objects(st, ind + st.unit, p.objects@, 0)
    }) + " ;\n"@
}

/// The objects of a predicate from the `j`-th on, one per line.
pub open spec fn text_objects(st: Style, ind: Seq<char>, objects: Seq<TObject>, j: int) -> Seq<char>
    decreases objects, objects.len() - j,
{
    if j < 0 || j >= objects.len() {
        Seq::empty()
    } else {
        (if j == 0 {
            "\n"@
        } else {
            " ,\n"@
        }) + text_object(st, ind, objects[j]) + text_objects(st, ind, objects, j + 1)
    }
}

/// The block of a subject: the subject, its predicates with a dot at the
/// end, and an empty line. An inline blank node holds its predicates
/// itself and is followed by a dot.
pub open spec fn text_block(st: Style, sc: TSubjectCont) -> Seq<char> {
    text_subject(st, Seq::empty(), sc.subject) + (match sc.subject {
        TSubject::BlankNodeAnonymous(_) => " ."@ + "\n"@,
        TSubject::Collection(_) => text_predicates(st, Seq::empty(), sc.predicates@, true) + "\n"@,
        _ => text_predicates(st, Seq::empty(), sc.predicates@, true),
    }) + "\n"@
}

/// The blocks from the `i`-th on.
pub open spec fn text_blocks(st: Style, blocks: Seq<TSubjectCont>, i: int) -> Seq<char>
    decreases blocks.len() - i,
{
    if i < 0 || i >= blocks.len() {
        Seq::empty()
    } else {
        text_block(st, blocks[i]) + text_blocks(st, blocks, i + 1)
    }
}

/// The declaration of the base, if there is one other than the substitute.
pub open spec fn text_base(base: Option<String>, sparql_syntax: bool) -> Seq<char> {
    match base {
        Some(b) => if b@ == SUBSTITUTE_BASE@ {
            Seq::empty()
        } else if sparql_syntax {
            "BASE <"@ + b@ + ">\n"@
        } else {
            "@base <"@ + b@ + "> .\n"@
        },
        None => Seq::empty(),
    }
}

/// The declaration of a prefix.
pub open spec fn text_prefix(prefix: Seq<char>, namespace: Seq<char>, sparql_syntax: bool) -> Seq<char> {
    if sparql_syntax {
        "PREFIX "@ + prefix + ": <"@ + namespace + ">\n"@
    } else {
        "@prefix "@ + prefix + ": <"@ + namespace + "> .\n"@
    }
}

/// The declarations of the prefixes from the `i`-th on.
pub open spec fn text_prefixes(prefixes: Seq<(String, String)>, sparql_syntax: bool, i: int) -> Seq<char>
    decreases prefixes.len() - i,
{
    if i < 0 || i >= prefixes.len() {
        Seq::empty()
    } else {
        text_prefix(prefixes[i].0@, prefixes[i].1@, sparql_syntax) + text_prefixes(
            prefixes,
            sparql_syntax,
            i + 1,
        )
    }
}

/// The document: base, prefixes, an empty line, and the blocks.
pub open spec fn text_doc(input: Input, options: FormatOptions, tree: TRoot) -> Seq<char> {
    text_base(input.base, options.sparql_syntax) + text_prefixes(input.prefixes@, options.sparql_syntax, 0)
        + "\n"@ + text_blocks(style_of(options), tree.subjects@, 0)
}

/// Appends `s` to the output.
fn emit(context: &mut Context, s: &str)
    ensures
        final(context).output@ == old(context).output@ + s@,
        final(context).indent == old(context).indent,
{
    context.output.append(s);
}

/// Appends the indentation in force to the output.
fn write_indent(context: &mut Context)
    ensures
        final(context).output@ == old(context).output@ + old(context).indent@,
        final(context).indent == old(context).indent,
{
    context.output.append(context.indent.as_str());
}

/// Writes a named node, under the indentation in force.
fn fmt_named_node(context: &mut Context, named_node: &TNamedNode)
    ensures
        final(context).output@ == old(context).output@ + (old(context).indent@ + text_named_node(*named_node)),
        final(context).indent == old(context).indent,
{
    write_indent(context);
    let ghost start = context.output@;
    match named_node {
        TNamedNode::Plain(iri) => {
            emit(context, "<");
            emit(context, iri.as_str());
            emit(context, ">");
        },
        TNamedNode::Prefixed(iri, prefix, local_name) => {
            if local_name.as_str().is_empty() {
                emit(context, prefix.as_str());
                emit(context, ":");
            } else {
                match escape_local_name(local_name.as_str()) {
                    Some(escaped) => {
                        emit(context, prefix.as_str());
                        emit(context, ":");
                        emit(context, escaped.as_str());
                    },
                    None => {
                        emit(context, "<");
                        emit(context, iri.as_str());
                        emit(context, ">");
                    },
                }
            }
        },
        TNamedNode::Based(_, additional_name) => {
            emit(context, "<");
            emit(context, additional_name.as_str());
            emit(context, ">");
        },
    }
    assert(context.output@ =~= start + text_named_node(*named_node));
    assert(context.output@ =~= old(context).output@ + (old(context).indent@ + text_named_node(*named_node)));
}

/// Writes a predicate, under the indentation in force: `a` for
/// `rdf:type`.
fn fmt_predicate(context: &mut Context, predicate: &TNamedNode)
    ensures
        final(context).output@ == old(context).output@ + (old(context).indent@ + text_predicate(*predicate)),
        final(context).indent == old(context).indent,
{
    if str_eq(predicate.as_named_node_ref().as_str(), RDF_TYPE) {
        write_indent(context);
        emit(context, "a");
        assert(context.output@ =~= old(context).output@ + (old(context).indent@ + text_predicate(*predicate)));
    } else {
        fmt_named_node(context, predicate);
    }
}

/// Writes a blank node by its label, under the indentation in force.
fn fmt_blank_node_label(context: &mut Context, blank_node: &TBlankNodeRef)
    ensures
        final(context).output@ == old(context).output@ + (old(context).indent@ + text_label(*blank_node)),
        final(context).indent == old(context).indent,
{
    write_indent(context);
    emit(context, "_:");
    emit(context, blank_node.0.as_str());
    assert(context.output@ =~= old(context).output@ + (old(context).indent@ + text_label(*blank_node)));
}

/// Writes a string value.
fn fmt_string(context: &mut Context, value: &str)
    ensures
        final(context).output@ == old(context).output@ + text_string(value@),
        final(context).indent == old(context).indent,
{
    let chars = chars_of(value);
    if contains_char(&chars, '\n') && !contains_pair(&chars, '\n', '\r') {
        print_unquoted_str(value, &mut context.output);
    } else {
        print_quoted_str(value, &mut context.output);
    }
}

/// Writes a literal with its datatype spelled out.
fn fmt_literal_with_type(context: &mut Context, literal: &TLiteralRef)
    ensures
        final(context).output@ == old(context).output@ + text_literal_with_type(*literal),
        final(context).indent == old(context).indent,
{
    print_quoted_str(literal.0.value.as_str(), &mut context.output);
    emit(context, "^^");
    match &literal.1 {
        Some(nice_dt) => {
            let bak_indent = context.indent.clone();
            context.indent = String::new();
            let ghost before = context.output@;
            fmt_named_node(context, nice_dt);
            assert(context.output@ =~= before + text_named_node(*nice_dt));
            context.indent = bak_indent;
        },
        None => {
            emit(context, "<");
            emit(context, literal.0.datatype.as_str());
            emit(context, ">");
        },
    }
    assert(context.output@ =~= old(context).output@ + text_literal_with_type(*literal));
}

/// Writes a literal, under the indentation in force.
pub fn fmt_literal(context: &mut Context, literal: &TLiteralRef)
    ensures
        final(context).output@ == old(context).output@ + (old(context).indent@ + text_literal(*literal)),
        final(context).indent == old(context).indent,
{
    write_indent(context);
    let ghost start = context.output@;
    let datatype = literal.0.datatype.as_str();
    let value = literal.0.value.as_str();
    if str_eq(datatype, XSD_STRING) {
        fmt_string(context, value);
    } else if str_eq(datatype, RDF_LANG_STRING) {
        fmt_string(context, value);
        match &literal.0.language {
            Some(language) => {
                emit(context, "@");
                emit(context, language.as_str());
            },
            None => {},
        }
    } else if str_eq(datatype, RDF_DIR_LANG_STRING) {
        match (&literal.0.language, literal.0.direction) {
            (Some(language), Some(direction)) => {
                fmt_string(context, value);
                emit(context, "@");
                emit(context, language.as_str());
                emit(context, "--");
                match direction {
                    Direction::Ltr => emit(context, "ltr"),
                    Direction::Rtl => emit(context, "rtl"),
                }
            },
            _ => {
                fmt_literal_with_type(context, literal);
            },
        }
    } else if str_eq(datatype, XSD_BOOLEAN) || str_eq(datatype, XSD_INTEGER) {
        emit(context, value);
    } else if str_eq(datatype, XSD_DOUBLE) {
        if matches_double_pattern(TURTLE_DOUBLE_PATTERN, value) {
            emit(context, value);
        } else {
            fmt_literal_with_type(context, literal);
        }
    } else if str_eq(datatype, XSD_DECIMAL) {
        if is_turtle_decimal(value) {
            emit(context, value);
        } else {
            fmt_literal_with_type(context, literal);
        }
    } else {
        fmt_literal_with_type(context, literal);
    }
    assert(context.output@ =~= start + text_literal(*literal));
    assert(context.output@ =~= old(context).output@ + (old(context).indent@ + text_literal(*literal)));
}

/// Writes an object, under the indentation in force.
pub fn fmt_obj(options: &FormatOptions, context: &mut Context, obj: &TObject)
    ensures
        final(context).output@ == old(context).output@ + text_object(
            style_of(*options),
            old(context).indent@,
            *obj,
        ),
        final(context).indent == old(context).indent,
    decreases obj,
{
    match obj {
        TObject::NamedNode(named_node) => fmt_named_node(context, named_node),
        TObject::BlankNodeLabel(blank_node) => fmt_blank_node_label(context, blank_node),
        TObject::BlankNodeAnonymous(blank_node) => fmt_blank_node_anonymous(options, context, blank_node),
        TObject::Collection(collection) => fmt_collection(options, context, collection),
        TObject::Literal(literal) => fmt_literal(context, literal),
        TObject::Triple(triple) => fmt_triple(options, context, triple),
    }
}

/// Writes a subject, under the indentation in force.
pub fn fmt_subj(options: &FormatOptions, context: &mut Context, subj: &TSubject)
    ensures
        final(context).output@ == old(context).output@ + text_subject(
            style_of(*options),
            old(context).indent@,
            *subj,
        ),
        final(context).indent == old(context).indent,
    decreases subj,
{
    match subj {
        TSubject::NamedNode(named_node) => fmt_named_node(context, named_node),
        TSubject::BlankNodeLabel(blank_node) => fmt_blank_node_label(context, blank_node),
        TSubject::BlankNodeAnonymous(blank_node) => fmt_blank_node_anonymous(options, context, blank_node),
        TSubject::Collection(collection) => fmt_collection(options, context, collection),
        TSubject::Triple(triple) => fmt_triple(options, context, triple),
    }
}

/// Writes an inline blank node, under the indentation in force.
fn fmt_blank_node_anonymous(options: &FormatOptions, context: &mut Context, blank_node: &TBlankNode)
    ensures
        final(context).output@ == old(context).output@ + text_blank_node(
            style_of(*options),
            old(context).indent@,
            *blank_node,
        ),
        final(context).indent == old(context).indent,
    decreases blank_node,
{
    write_indent(context);
    emit(context, "[");
    fmt_predicates(options, context, &blank_node.predicates, false);
    emit(context, "]");
    assert(context.output@ =~= old(context).output@ + text_blank_node(
        style_of(*options),
        old(context).indent@,
        *blank_node,
    ));
}

/// Writes a quoted triple, under the indentation in force.
fn fmt_triple(options: &FormatOptions, context: &mut Context, triple: &TTriple)
    ensures
        final(context).output@ == old(context).output@ + text_triple(
            style_of(*options),
            old(context).indent@,
            *triple,
        ),
        final(context).indent == old(context).indent,
    decreases triple,
{
    write_indent(context);
    emit(context, "<< ");
    fmt_subj(options, context, &triple.0);
    emit(context, " ");
    fmt_predicate(context, &triple.1);
    emit(context, " ");
    fmt_obj(options, context, &triple.2);
    emit(context, " >>");
    assert(context.output@ =~= old(context).output@ + text_triple(
        style_of(*options),
        old(context).indent@,
        *triple,
    ));
}

/// Writes a collection, under the indentation in force.
fn fmt_collection(options: &FormatOptions, context: &mut Context, collection: &TCollection)
    ensures
        final(context).output@ == old(context).output@ + text_collection(
            style_of(*options),
            old(context).indent@,
            *collection,
        ),
        final(context).indent == old(context).indent,
    decreases collection,
{
    let ghost st = style_of(*options);
    let ghost ind = context.indent@;
    write_indent(context);
    emit(context, "(");
    match collection {
        TCollection::Empty => {},
        TCollection::WithContent(collection_ref) => {
            if !options.single_leafed_new_lines && collection.is_single_leafed() {
                emit(context, " ");
                let bak_indent = context.indent.clone();
                context.indent = String::new();
                fmt_obj(options, context, &collection_ref.rest[0]);
                context.indent = bak_indent;
                emit(context, " ");
            } else {
                emit(context, "\n");
                let bak_indent = context.indent.clone();
                context.indent.append(options.indentation.as_str());
                let ghost start = context.output@;
                let mut i: usize = 0;
                while i < collection_ref.rest.len()
                    invariant
                        i <= collection_ref.rest.len(),
                        collection is WithContent,
                        collection->WithContent_0 == *collection_ref,
                        st == style_of(*options),
                        context.indent@ == ind + st.unit,
                        start + text_entries(st, ind + st.unit, collection_ref.rest@, 0) == context.output@
                            + text_entries(st, ind + st.unit, collection_ref.rest@, i as int),
                    decreases collection_ref.rest.len() - i,
                {
                    let ghost before = context.output@;
                    if i > 0 {
                        emit(context, "\n");
                    }
                    fmt_obj(options, context, &collection_ref.rest[i]);
                    assert(before + text_entries(st, ind + st.unit, collection_ref.rest@, i as int)
                        =~= context.output@ + text_entries(st, ind + st.unit, collection_ref.rest@, i + 1));
                    i += 1;
                }
                assert(context.output@ =~= start + text_entries(st, ind + st.unit, collection_ref.rest@, 0));
                emit(context, "\n");
                context.indent = bak_indent;
                write_indent(context);
            }
        },
    }
    emit(context, ")");
    assert(context.output@ =~= old(context).output@ + text_collection(st, ind, *collection));
}

/// Writes a predicate with its objects on lines of their own, under the
/// indentation in force.
fn fmt_predicate_line(options: &FormatOptions, context: &mut Context, predicates_cont: &TPredicateCont)
    ensures
        final(context).output@ == old(context).output@ + text_predicate_line(
            style_of(*options),
            old(context).indent@,
            *predicates_cont,
        ),
        final(context).indent == old(context).indent,
    decreases predicates_cont,
{
    let ghost st = style_of(*options);
    let ghost ind1 = context.indent@;
    fmt_predicate(context, &predicates_cont.predicate);
    if !options.single_leafed_new_lines && predicates_cont.is_single_leafed() {
        emit(context, " ");
        let bak2 = context.indent.clone();
        context.indent = String::new();
        fmt_obj(options, context, &predicates_cont.objects[0]);
        context.indent = bak2;
    } else {
        let bak2 = context.indent.clone();
        context.indent.append(options.indentation.as_str());
        let ghost ind2 = ind1 + st.unit;
        let ghost objs_start = context.output@;
        let mut j: usize = 0;
        while j < predicates_cont.objects.len()
            invariant
                j <= predicates_cont.objects.len(),
                st == style_of(*options),
                ind2 == ind1 + st.unit,
                context.indent@ == ind2,
                objs_start + text_objects(st, ind2, predicates_cont.objects@, 0) == context.output@
                    + text_objects(st, ind2, predicates_cont.objects@, j as int),
            decreases predicates_cont.objects.len() - j,
        {
            let ghost before = context.output@;
            if j == 0 {
                emit(context, "\n");
            } else {
                emit(context, " ,\n");
            }
            fmt_obj(options, context, &predicates_cont.objects[j]);
            assert(before + text_objects(st, ind2, predicates_cont.objects@, j as int) =~= context.output@
                + text_objects(st, ind2, predicates_cont.objects@, j + 1));
            j += 1;
        }
        assert(context.output@ =~= objs_start + text_objects(st, ind2, predicates_cont.objects@, 0));
        context.indent = bak2;
    }
    emit(context, " ;\n");
    assert(context.output@ =~= old(context).output@ + text_predicate_line(st, ind1, *predicates_cont));
}

/// Writes the predicates of a node that stands under the indentation in
/// force, with all their objects.
fn fmt_predicates(
    options: &FormatOptions,
    context: &mut Context,
    predicates_containers: &Vec<TPredicateCont>,
    final_dot: bool,
)
    ensures
        final(context).output@ == old(context).output@ + text_predicates(
            style_of(*options),
            old(context).indent@,
            predicates_containers@,
            final_dot,
        ),
        final(context).indent == old(context).indent,
    decreases predicates_containers,
{
    let ghost st = style_of(*options);
    let ghost ind = context.indent@;
    let ghost ps = predicates_containers@;
    if predicates_containers.len() == 0 {
        assert(context.output@ =~= old(context).output@ + text_predicates(st, ind, ps, final_dot));
        return ;
    }
    if !options.single_leafed_new_lines && predicates_containers.len() == 1
        && predicates_containers[0].is_single_leafed() {
        let predicates_cont = &predicates_containers[0];
        emit(context, " ");
        let bak_indent = context.indent.clone();
        context.indent = String::new();
        let ghost mid = context.output@;
        fmt_predicate(context, &predicates_cont.predicate);
        assert(context.output@ =~= mid + text_predicate(predicates_cont.predicate));
        emit(context, " ");
        fmt_obj(options, context, &predicates_cont.objects[0]);
        if final_dot {
            emit(context, " .");
        } else {
            emit(context, " ");
        }
        context.indent = bak_indent;
        assert(context.output@ =~= old(context).output@ + text_predicates(st, ind, ps, final_dot));
    } else {
        emit(context, "\n");
        let bak_indent = context.indent.clone();
        context.indent.append(options.indentation.as_str());
        let ghost ind1 = ind + st.unit;
        let ghost start = context.output@;
        let mut k: usize = 0;
        while k < predicates_containers.len()
            invariant
                k <= predicates_containers.len(),
                st == style_of(*options),
                ps == predicates_containers@,
                ind1 == ind + st.unit,
                context.indent@ == ind1,
                start + text_predicate_lines(st, ind1, ps, 0) == context.output@ + text_predicate_lines(
                    st,
                    ind1,
                    ps,
                    k as int,
                ),
            decreases predicates_containers.len() - k,
        {
            let ghost line_start = context.output@;
            fmt_predicate_line(options, context, &predicates_containers[k]);
            assert(line_start + text_predicate_lines(st, ind1, ps, k as int) =~= context.output@
                + text_predicate_lines(st, ind1, ps, k + 1));
            k += 1;
        }
        assert(context.output@ =~= start + text_predicate_lines(st, ind1, ps, 0));
        if final_dot {
            write_indent(context);
            emit(context, ".\n");
        }
        context.indent = bak_indent;
        if !final_dot {
            write_indent(context);
        }
        assert(context.output@ =~= old(context).output@ + text_predicates(st, ind, ps, final_dot));
    }
}

/// Writes the block of a subject.
fn fmt_subj_cont(options: &FormatOptions, context: &mut Context, subj_cont: &TSubjectCont)
    requires
        old(context).indent@ == Seq::<char>::empty(),
    ensures
        final(context).output@ == old(context).output@ + text_block(style_of(*options), *subj_cont),
        final(context).indent == old(context).indent,
{
    fmt_subj(options, context, &subj_cont.subject);
    match &subj_cont.subject {
        TSubject::BlankNodeAnonymous(_) => {
            emit(context, " .");
            emit(context, "\n");
        },
        TSubject::Collection(_) => {
            fmt_predicates(options, context, &subj_cont.predicates, true);
            emit(context, "\n");
        },
        _ => {
            fmt_predicates(options, context, &subj_cont.predicates, true);
        },
    }
    emit(context, "\n");
    assert(context.output@ =~= old(context).output@ + text_block(style_of(*options), *subj_cont));
}

/// Writes the blocks of all subjects.
fn fmt_triples(options: &FormatOptions, context: &mut Context, tree: &TRoot)
    requires
        old(context).indent@ == Seq::<char>::empty(),
    ensures
        final(context).output@ == old(context).output@ + text_blocks(style_of(*options), tree.subjects@, 0),
        final(context).indent == old(context).indent,
{
    let ghost st = style_of(*options);
    let mut i: usize = 0;
    while i < tree.subjects.len()
        invariant
            i <= tree.subjects.len(),
            st == style_of(*options),
            context.indent == old(context).indent,
            context.indent@ == Seq::<char>::empty(),
            old(context).output@ + text_blocks(st, tree.subjects@, 0) == context.output@ + text_blocks(
                st,
                tree.subjects@,
                i as int,
            ),
        decreases tree.subjects.len() - i,
    {
        let ghost before = context.output@;
        fmt_subj_cont(options, context, &tree.subjects[i]);
        assert(before + text_blocks(st, tree.subjects@, i as int) =~= context.output@ + text_blocks(
            st,
            tree.subjects@,
            i + 1,
        ));
        i += 1;
    }
    assert(context.output@ =~= old(context).output@ + text_blocks(st, tree.subjects@, 0));
}

/// Writes the declaration of the base.
fn fmt_base(input: &Input, options: &FormatOptions, context: &mut Context)
    ensures
        final(context).output@ == old(context).output@ + text_base(input.base, options.sparql_syntax),
        final(context).indent == old(context).indent,
{
    match &input.base {
        Some(base_iri) => {
            if str_eq(base_iri.as_str(), SUBSTITUTE_BASE) {
                assert(context.output@ =~= old(context).output@ + text_base(input.base, options.sparql_syntax));
                return ;
            }
            if options.sparql_syntax {
                emit(context, "BASE <");
                emit(context, base_iri.as_str());
                emit(context, ">\n");
            } else {
                emit(context, "@base <");
                emit(context, base_iri.as_str());
                emit(context, "> .\n");
            }
            assert(context.output@ =~= old(context).output@ + text_base(input.base, options.sparql_syntax));
        },
        None => {
            assert(context.output@ =~= old(context).output@ + text_base(input.base, options.sparql_syntax));
        },
    }
}

/// Writes the declarations of the prefixes.
fn fmt_prefixes(input: &Input, options: &FormatOptions, context: &mut Context)
    ensures
        final(context).output@ == old(context).output@ + text_prefixes(
            input.prefixes@,
            options.sparql_syntax,
            0,
        ),
        final(context).indent == old(context).indent,
{
    let ghost sparql = options.sparql_syntax;
    let mut i: usize = 0;
    while i < input.prefixes.len()
        invariant
            i <= input.prefixes.len(),
            sparql == options.sparql_syntax,
            context.indent == old(context).indent,
            old(context).output@ + text_prefixes(input.prefixes@, sparql, 0) == context.output@ + text_prefixes(
                input.prefixes@,
                sparql,
                i as int,
            ),
        decreases input.prefixes.len() - i,
    {
        let ghost before = context.output@;
        if options.sparql_syntax {
            emit(context, "PREFIX ");
            emit(context, input.prefixes[i].0.as_str());
            emit(context, ": <");
            emit(context, input.prefixes[i].1.as_str());
            emit(context, ">\n");
        } else {
            emit(context, "@prefix ");
            emit(context, input.prefixes[i].0.as_str());
            emit(context, ": <");
            emit(context, input.prefixes[i].1.as_str());
            emit(context, "> .\n");
        }
        assert(context.output@ =~= before + text_prefix(
            input.prefixes@[i as int].0@,
            input.prefixes@[i as int].1@,
            sparql,
        ));
        assert(before + text_prefixes(input.prefixes@, sparql, i as int) =~= context.output@ + text_prefixes(
            input.prefixes@,
            sparql,
            i + 1,
        ));
        i += 1;
    }
    assert(context.output@ =~= old(context).output@ + text_prefixes(input.prefixes@, sparql, 0));
}

/// Writes the document: base, prefixes, an empty line, and the blocks of
/// the tree.
fn fmt_doc(input: &Input, options: &FormatOptions, tree: &TRoot, context: &mut Context)
    requires
        old(context).indent@ == Seq::<char>::empty(),
    ensures
        final(context).output@ == old(context).output@ + text_doc(*input, *options, *tree),
        final(context).indent == old(context).indent,
{
    fmt_base(input, options, context);
    fmt_prefixes(input, options, context);
    emit(context, "\n");
    fmt_triples(options, context, tree);
    assert(context.output@ =~= old(context).output@ + text_doc(*input, *options, *tree));
}

/// Whether the text is an IRI, as `oxrdf` reads it.
pub uninterp spec fn iri_is_valid(iri: Seq<char>) -> bool;

/// Trusted: `oxrdf::NamedNode::new`, which takes a text that is an IRI
/// and hands it back unchanged, and refuses any other.
#[verifier::external_body]
fn named_node_new(iri: &str) -> (r: Result<String, oxrdf::IriParseError>)
    ensures
        r is Ok <==> iri_is_valid(iri@),
        r is Ok ==> r->Ok_0@ == iri@,
{
    match oxrdf::NamedNode::new(iri) {
        Ok(n) => Ok(n.into_string()),
        Err(e) => Err(e),
    }
}

/// The IRI that a name of a configured order stands for: namespace and
/// local name if the name begins with a declared prefix and a colon, else
/// the name itself.
pub open spec fn resolved_name(prefixes: Seq<(String, String)>, name: Seq<char>) -> Seq<char> {
    match first_index_of(name, ':') {
        Some(i) => match namespace_of_prefix(prefixes, name.subrange(0, i)) {
            Some(namespace) => namespace + name.subrange(i + 1, name.len() as int),
            None => name,
        },
        None => name,
    }
}

/// What a name of a configured order stands for, before it is known
/// whether that is an IRI: namespace and local name if the name begins
/// with a declared prefix and a colon, else the name itself.
pub fn resolve_name(prefixes: &Vec<(String, String)>, iri_or_name: &str) -> (r: String)
    ensures
        r@ == resolved_name(prefixes@, iri_or_name@),
{
    let chars = chars_of(iri_or_name);
    match find_first(&chars, ':') {
        Some(i) => {
            let prefix = string_of(&chars, 0, i);
            match find_namespace(prefixes, prefix.as_str()) {
                Some(namespace) => {
                    let local_name = string_of(&chars, i + 1, chars.len());
                    let mut full = namespace.clone();
                    full.append(local_name.as_str());
                    return full;
                },
                None => {},
            }
        },
        None => {},
    }
    iri_or_name.to_owned()
}

/// Resolves a name of a configured order, an IRI or a prefixed name, to
/// the IRI that it stands for, if that is one.
pub fn try_named_node_from_iri_or_prefixed_name(input: &Input, iri_or_name: &str) -> (r: Result<
    String,
    oxrdf::IriParseError,
>)
    ensures
        r is Ok <==> iri_is_valid(resolved_name(input.prefixes@, iri_or_name@)),
        r is Ok ==> r->Ok_0@ == resolved_name(input.prefixes@, iri_or_name@),
{
    let candidate = resolve_name(&input.prefixes, iri_or_name);
    named_node_new(candidate.as_str())
}

/// The message that tells that a name stands for no IRI.
pub open spec fn no_iri_message(name: Seq<char>) -> Seq<char> {
    "Failed to parse '"@ + name + "' as named node"@
}

/// The entry of a configured order that a name gives, `resolved` being
/// what the name stands for or the reason why that is no IRI: the IRI, or
/// the error that names the name.
pub fn order_entry(name: &str, resolved: Result<String, oxrdf::IriParseError>) -> (r: Result<String, Error>)
    ensures
        match resolved {
            Ok(iri) => r == Ok::<String, Error>(iri),
            Err(_) => r is Err && r->Err_0 is FailedToCreateTurtleStructure
                && r->Err_0->FailedToCreateTurtleStructure_0@ == no_iri_message(name@),
        },
{
    match resolved {
        Ok(iri) => Ok(iri),
        Err(_) => {
            let mut message = "Failed to parse '".to_owned();
            message.append(name);
            message.append("' as named node");
            Err(Error::FailedToCreateTurtleStructure(message))
        },
    }
}

/// Every one of the first `n` names resolves to an IRI.
pub open spec fn names_resolve(prefixes: Seq<(String, String)>, names: Seq<String>, n: int) -> bool {
    forall|i: int| 0 <= i < n && i < names.len() ==> iri_is_valid(resolved_name(prefixes, (#[trigger] names[i])@))
}

/// The IRIs `iris` are what the names `names` resolve to, one for one.
pub open spec fn resolved_to(prefixes: Seq<(String, String)>, names: Seq<String>, iris: Seq<String>) -> bool {
    &&& iris.len() == names.len()
    &&& forall|i: int| 0 <= i < names.len() ==> (#[trigger] iris[i])@ == resolved_name(prefixes, names[i]@)
}

/// Resolves the names of a configured order to IRIs. The error tells the
/// first name that stands for no IRI.
fn resolve_order(input: &Input, names: &Vec<String>) -> (r: Result<Vec<String>, Error>)
    ensures
        match r {
            Ok(iris) => names_resolve(input.prefixes@, names@, names@.len() as int) && resolved_to(
                input.prefixes@,
                names@,
                iris@,
            ),
            Err(e) => !names_resolve(input.prefixes@, names@, names@.len() as int) && e
                is FailedToCreateTurtleStructure,
        },
{
    let mut iris: Vec<String> = Vec::new();
    let mut i: usize = 0;
    while i < names.len()
        invariant
            i <= names.len(),
            iris.len() == i,
            names_resolve(input.prefixes@, names@, i as int),
            forall|j: int| 0 <= j < i ==> (#[trigger] iris@[j])@ == resolved_name(input.prefixes@, names@[j]@),
        decreases names.len() - i,
    {
        let resolved = try_named_node_from_iri_or_prefixed_name(input, names[i].as_str());
        match order_entry(names[i].as_str(), resolved) {
            Ok(iri) => {
                iris.push(iri);
            },
            Err(e) => {
                assert(!iri_is_valid(resolved_name(input.prefixes@, names@[i as int]@)));
                return Err(e);
            },
        }
        i += 1;
    }
    Ok(iris)
}

/// The names of the order of predicates that is in force resolve to the
/// IRIs `iris`. Where no order is configured, there are none.
pub open spec fn predicate_order_is(input: Input, options: FormatOptions, iris: Seq<String>) -> bool {
    match options.predicate_order_spec() {
        Some(names) => exists|owned: Seq<String>|
            #![trigger crate::options::texts(owned)]
            crate::options::texts(owned) == names && resolved_to(input.prefixes@, owned, iris),
        None => iris.len() == 0,
    }
}

/// The names of the order of subject types that is in force resolve to
/// the IRIs `iris`, if an order is configured.
pub open spec fn subject_type_order_is(input: Input, options: FormatOptions, iris: Option<Vec<String>>) -> bool {
    match options.subject_type_order_spec() {
        Some(names) => iris is Some && exists|owned: Seq<String>|
            #![trigger crate::options::texts(owned)]
            crate::options::texts(owned) == names && resolved_to(input.prefixes@, owned, iris->Some_0@),
        None => iris is None,
    }
}

/// Every name of the list resolves to an IRI.
pub open spec fn all_resolve(prefixes: Seq<(String, String)>, list: Seq<Seq<char>>) -> bool {
    forall|i: int| 0 <= i < list.len() ==> iri_is_valid(resolved_name(prefixes, #[trigger] list[i]))
}

/// The names of `names`, if there are any, all resolve to an IRI.
pub open spec fn order_resolves(prefixes: Seq<(String, String)>, names: Option<Seq<Seq<char>>>) -> bool {
    match names {
        Some(list) => all_resolve(prefixes, list),
        None => true,
    }
}

/// The context is the one under which the tree of the input is sorted with
/// these options.
pub open spec fn sorting_context_of(input: Input, options: FormatOptions, ctx: SortingContext) -> bool {
    &&& *ctx.options == options
    &&& *ctx.graph == input.graph
    &&& sorting_ids_ok(graph_triples(input.graph), ctx.bn_sorting_ids@)
    &&& *ctx.bn_objects_input_order == input.bn_objects_input_order
    &&& predicate_order_is(input, options, ctx.predicate_order@)
    &&& subject_type_order_is(input, options, ctx.subject_type_order)
}

/// The tree `built` is what [`construct_tree`] makes of the input, with
/// the blank nodes `unreferenced` that no triple refers to, and `sorted`
/// is that tree sorted under the context `ctx`, which goes with the
/// options.
pub open spec fn is_tree_by(
    input: Input,
    options: FormatOptions,
    built: TRoot,
    unreferenced: Seq<String>,
    ctx: SortingContext,
    sorted: TRoot,
) -> bool {
    &&& forall|b: Seq<char>|
        #![trigger has_label(unreferenced, b)]
        has_label(unreferenced, b) <==> options.max_nesting && is_unreferenced(graph_triples(input.graph), b)
    &&& blocks_ok(
        graph_classes(input, unreferenced, options.max_nesting),
        nesting_fuel(graph_triples(input.graph)),
        top_subjects(input.subjects_in_order@, graph_triples(input.graph), options.max_nesting),
        built.subjects@,
    )
    &&& sorting_context_of(input, options, ctx)
    &&& subjects_sorted(ctx, built.subjects@, sorted.subjects@)
}

/// The tree `sorted` is the sorted tree of the input: the tree that
/// [`construct_tree`] makes of it, sorted under a context that goes with
/// the options.
pub open spec fn is_tree_of(input: Input, options: FormatOptions, sorted: TRoot) -> bool {
    exists|built: TRoot, unreferenced: Seq<String>, ctx: SortingContext|
        #[trigger] is_tree_by(input, options, built, unreferenced, ctx, sorted)
}

/// The tree is true to the graph of the input: its blocks are those of the
/// subjects that get one, in some order, and each holds the visible
/// triples of its subject, each once, with the blank nodes written as the
/// classification of the graph wants them.
pub open spec fn is_faithful_tree(input: Input, options: FormatOptions, tree: TRoot) -> bool {
    exists|unreferenced: Seq<String>| #[trigger] is_faithful_with(input, options, tree, unreferenced)
}

/// The tree is true to the graph of the input, `unreferenced` being the
/// blank nodes that no triple refers to.
pub open spec fn is_faithful_with(input: Input, options: FormatOptions, tree: TRoot, unreferenced: Seq<String>) -> bool {
    &&& forall|b: Seq<char>|
        #![trigger has_label(unreferenced, b)]
        has_label(unreferenced, b) <==> options.max_nesting && is_unreferenced(graph_triples(input.graph), b)
    &&& blocks_kept(
        graph_classes(input, unreferenced, options.max_nesting),
        nesting_fuel(graph_triples(input.graph)),
        top_subjects(input.subjects_in_order@, graph_triples(input.graph), options.max_nesting),
        tree.subjects@,
    )
}

/// The sorted tree of an input is true to its graph.
pub proof fn lemma_tree_is_faithful(input: Input, options: FormatOptions, sorted: TRoot)
    requires
        is_tree_of(input, options, sorted),
    ensures
        is_faithful_tree(input, options, sorted),
{
    let (built, unreferenced, ctx) = choose|built: TRoot, unreferenced: Seq<String>, ctx: SortingContext|
        #[trigger] is_tree_by(input, options, built, unreferenced, ctx, sorted);
    lemma_blocks_kept(
        graph_classes(input, unreferenced, options.max_nesting),
        nesting_fuel(graph_triples(input.graph)),
        ctx,
        top_subjects(input.subjects_in_order@, graph_triples(input.graph), options.max_nesting),
        built.subjects@,
        sorted.subjects@,
    );
    assert(is_faithful_with(input, options, sorted, unreferenced));
}

/// The sorted tree of an input is in order at every level, under a
/// context that goes with the options.
pub proof fn lemma_tree_is_in_order(input: Input, options: FormatOptions, sorted: TRoot)
    requires
        is_tree_of(input, options, sorted),
    ensures
        exists|ctx: SortingContext|
            sorting_context_of(input, options, ctx) && #[trigger] crate::order_laws::blocks_in_order(
                ctx,
                sorted.subjects@,
            ),
{
    let (built, unreferenced, ctx) = choose|built: TRoot, unreferenced: Seq<String>, ctx: SortingContext|
        #[trigger] is_tree_by(input, options, built, unreferenced, ctx, sorted);
    crate::order_laws::lemma_blocks_in_order(ctx, built.subjects@, sorted.subjects@);
}

/// Collections keep their order: in a tree that is true to the graph of
/// the input, as the sorted tree is, a collection holds the elements of
/// the chain of its head in the order of the chain, however deep in the
/// tree it stands. If a triple of the graph refers to its head, it holds
/// no triple of its own.
pub proof fn lemma_collections_keep_their_order(
    input: Input,
    options: FormatOptions,
    tree: TRoot,
    k: int,
    col: crate::ast::TCollectionRef,
)
    requires
        is_faithful_tree(input, options, tree),
        0 <= k < tree.subjects@.len(),
        crate::lists::collection_in_block(tree.subjects@[k], col),
    ensures
        crate::lists::lists_its_chain(graph_triples(input.graph), col),
        crate::classify::is_object_in(graph_triples(input.graph), col.node.node.0@) ==> col.node.predicates.len()
            == 0,
{
    let unreferenced = choose|unreferenced: Seq<String>| #[trigger]
        is_faithful_with(input, options, tree, unreferenced);
    let c = graph_classes(input, unreferenced, options.max_nesting);
    let fuel = nesting_fuel(graph_triples(input.graph));
    let top = top_subjects(input.subjects_in_order@, graph_triples(input.graph), options.max_nesting);
    let (from, to) = choose|from: Seq<int>, to: Seq<int>| #[trigger]
        crate::kept::blocks_arranged(c, fuel, top, tree.subjects@, from, to);
    assert(crate::builder::subject_cont_ok(c, fuel, tree.subjects@[k]));
    crate::lists::lemma_collection_in_block(c, fuel, tree.subjects@[k], col);
    crate::lists::lemma_collection_lists_its_chain(input, unreferenced, options.max_nesting, col);
}

/// No unsafe nesting: in a tree that is true to the graph of the input, a
/// blank node that is written without a label, inline or as a collection,
/// is the object of at most one triple.
pub proof fn lemma_faithful_tree_nests_safely(
    input: Input,
    options: FormatOptions,
    tree: TRoot,
    k: int,
    b: Seq<char>,
)
    requires
        is_faithful_tree(input, options, tree),
        0 <= k < tree.subjects@.len(),
        crate::builder::unlabelled_in_block(tree.subjects@[k], b),
    ensures
        !crate::classify::is_duplicated(graph_triples(input.graph), b),
{
    let unreferenced = choose|unreferenced: Seq<String>| #[trigger]
        is_faithful_with(input, options, tree, unreferenced);
    let c = graph_classes(input, unreferenced, options.max_nesting);
    let fuel = nesting_fuel(graph_triples(input.graph));
    let top = top_subjects(input.subjects_in_order@, graph_triples(input.graph), options.max_nesting);
    let (from, to) = choose|from: Seq<int>, to: Seq<int>| #[trigger]
        crate::kept::blocks_arranged(c, fuel, top, tree.subjects@, from, to);
    assert(crate::builder::subject_cont_ok(c, fuel, tree.subjects@[k]));
    crate::builder::lemma_no_unsafe_nesting(input, unreferenced, options.max_nesting, fuel, tree.subjects@[k], b);
}

/// In a tree that is true to the graph of the input, every triple of the
/// graph whose subject is listed and gets a block of its own, and which is
/// no part of the structure of a collection, is written in the block of its
/// subject.
pub proof fn lemma_triples_of_blocks_are_written(
    input: Input,
    options: FormatOptions,
    tree: TRoot,
    t: crate::term::RdfTripleView,
)
    requires
        is_faithful_tree(input, options, tree),
        graph_triples(input.graph).contains(t),
        exists|i: int| 0 <= i < input.subjects_in_order@.len() && (#[trigger] input.subjects_in_order@[i])@ == t.subject,
        !crate::builder::is_nested_subject(graph_triples(input.graph), options.max_nesting, t.subject),
        !(options.max_nesting && crate::collections::is_consumed(graph_triples(input.graph), t)),
    ensures
        exists|k: int|
            0 <= k < tree.subjects@.len() && crate::builder::subject_term((#[trigger] tree.subjects@[k]).subject)
                == t.subject && crate::builder::covered(tree.subjects@[k].predicates@, t.subject, t),
{
    let g = graph_triples(input.graph);
    let unreferenced = choose|unreferenced: Seq<String>| #[trigger]
        is_faithful_with(input, options, tree, unreferenced);
    let c = graph_classes(input, unreferenced, options.max_nesting);
    let fuel = nesting_fuel(g);
    let top = top_subjects(input.subjects_in_order@, g, options.max_nesting);
    let (from, to) = choose|from: Seq<int>, to: Seq<int>| #[trigger]
        crate::kept::blocks_arranged(c, fuel, top, tree.subjects@, from, to);
    assert(crate::builder::has_visible(g, options.max_nesting, t.subject));
    crate::builder::lemma_top_subjects_has(input.subjects_in_order@, g, options.max_nesting, t.subject);
    let i = choose|i: int| 0 <= i < top.len() && top[i] == t.subject;
    let k = to[i];
    assert(from[k] == i);
    let block = tree.subjects@[k];
    assert(crate::builder::subject_cont_ok(c, fuel, block));
    assert(c.visible(t.subject).contains(t));
    assert(crate::builder::covered(block.predicates@, t.subject, t));
}

/// A shared blank node keeps its label: in a tree that is true to the
/// graph of the input, a blank node that two or more triples refer to has
/// a block of its own, whose subject is its label, and each of its triples
/// is written in that block.
pub proof fn lemma_shared_node_keeps_label_and_block(
    input: Input,
    options: FormatOptions,
    tree: TRoot,
    b: Seq<char>,
    t: crate::term::RdfTripleView,
)
    requires
        is_faithful_tree(input, options, tree),
        crate::classify::is_duplicated(graph_triples(input.graph), b),
        graph_triples(input.graph).contains(t),
        t.subject == crate::term::SubjectView::BlankNode(b),
        crate::parser::has_subject(input.subjects_in_order@, t.subject),
    ensures
        exists|k: int|
            0 <= k < tree.subjects@.len() && (#[trigger] tree.subjects@[k]).subject is BlankNodeLabel
                && crate::builder::subject_term(tree.subjects@[k].subject) == t.subject && crate::builder::covered(
                tree.subjects@[k].predicates@,
                t.subject,
                t,
            ),
{
    let g = graph_triples(input.graph);
    let unreferenced = choose|unreferenced: Seq<String>| #[trigger]
        is_faithful_with(input, options, tree, unreferenced);
    let c = graph_classes(input, unreferenced, options.max_nesting);
    let fuel = nesting_fuel(g);
    let top = top_subjects(input.subjects_in_order@, g, options.max_nesting);
    crate::written::lemma_shared_node_is_no_list_node(g, b, t);
    crate::builder::lemma_shared_node_is_labelled(input, unreferenced, options.max_nesting, fuel, b);
    lemma_triples_of_blocks_are_written(input, options, tree, t);
    let k = choose|k: int|
        0 <= k < tree.subjects@.len() && crate::builder::subject_term((#[trigger] tree.subjects@[k]).subject)
            == t.subject && crate::builder::covered(tree.subjects@[k].predicates@, t.subject, t);
    let (from, to) = choose|from: Seq<int>, to: Seq<int>| #[trigger]
        crate::kept::blocks_arranged(c, fuel, top, tree.subjects@, from, to);
    assert(crate::builder::subject_cont_ok(c, fuel, tree.subjects@[k]));
    assert(crate::builder::subject_ok(c, fuel, tree.subjects@[k].subject));
}

/// Nothing is lost: in a tree that is true to the graph of the input,
/// every triple of the graph that is no part of the structure of a
/// collection is written under its subject, in the block of its subject
/// or under the inline blank node that stands for it, however deep. The
/// graph is finite and smaller than the machine can count, and each of
/// its subjects is listed, as in every parsed document.
pub proof fn lemma_nothing_is_lost(input: Input, options: FormatOptions, tree: TRoot, t: crate::term::RdfTripleView)
    requires
        is_faithful_tree(input, options, tree),
        graph_triples(input.graph).finite(),
        graph_triples(input.graph).len() < usize::MAX,
        forall|u: crate::term::RdfTripleView|
            #[trigger] graph_triples(input.graph).contains(u) ==> crate::parser::has_subject(
                input.subjects_in_order@,
                u.subject,
            ),
        graph_triples(input.graph).contains(t),
        !(options.max_nesting && crate::collections::is_consumed(graph_triples(input.graph), t)),
    ensures
        crate::written::is_written(tree.subjects@, t),
{
    let g = graph_triples(input.graph);
    if options.max_nesting {
        let unreferenced = choose|unreferenced: Seq<String>| #[trigger]
            is_faithful_with(input, options, tree, unreferenced);
        crate::written::lemma_every_triple_is_written(input, unreferenced, nesting_fuel(g), tree.subjects@, t);
    } else {
        assert(crate::parser::has_subject(input.subjects_in_order@, t.subject));
        lemma_triples_of_blocks_are_written(input, options, tree, t);
    }
}

/// No collection is lost: where blank nodes are nested, every collection
/// of the graph stands in a tree that is true to the graph, as an object
/// somewhere in a block or as the subject of one, as the classification
/// of the graph wants it: with the elements of its chain, in their order.
pub proof fn lemma_no_collection_is_lost(input: Input, options: FormatOptions, tree: TRoot, h: Seq<char>)
    requires
        is_faithful_tree(input, options, tree),
        options.max_nesting,
        graph_triples(input.graph).finite(),
        graph_triples(input.graph).len() < usize::MAX,
        forall|u: crate::term::RdfTripleView|
            #[trigger] graph_triples(input.graph).contains(u) ==> crate::parser::has_subject(
                input.subjects_in_order@,
                u.subject,
            ),
        crate::collections::collection_at(graph_triples(input.graph), h) is Some,
    ensures
        exists|k: int, col: crate::ast::TCollectionRef|
            0 <= k < tree.subjects@.len() && col.node.node.0@ == h && crate::lists::lists_its_chain(
                graph_triples(input.graph),
                col,
            ) && (#[trigger] crate::written::object_in_block(
                tree.subjects@[k],
                TObject::Collection(TCollection::WithContent(col)),
            ) || tree.subjects@[k].subject == TSubject::Collection(TCollection::WithContent(col))),
{
    let g = graph_triples(input.graph);
    let unreferenced = choose|unreferenced: Seq<String>| #[trigger]
        is_faithful_with(input, options, tree, unreferenced);
    let c = graph_classes(input, unreferenced, true);
    crate::written::lemma_every_collection_is_written(input, unreferenced, nesting_fuel(g), tree.subjects@, h);
    let (k, col, fuel) = choose|k: int, col: crate::ast::TCollectionRef, fuel: nat| #[trigger]
        crate::written::holds(c, tree.subjects@, h, k, col, fuel) && fuel >= 1;
    assert(crate::lists::collection_fits(c, col));
    crate::lists::lemma_collection_lists_its_chain(input, unreferenced, true, col);
}

/// The text is the formatted document of the input: the text of its sorted
/// tree.
pub open spec fn is_formatted(input: Input, options: FormatOptions, text: Seq<char>) -> bool {
    exists|sorted: TRoot|
        is_tree_of(input, options, sorted) && is_faithful_tree(input, options, sorted) && text
            == #[trigger] text_doc(input, options, sorted)
}

/// What does the formatting: the input, the options, and the tree that is
/// made of the input.
pub struct TurtleFormatter<'a> {
    pub input: &'a Input,
    pub options: &'a FormatOptions,
    pub unreferenced_blank_nodes: Vec<String>,
    pub tree: TRoot,
}

impl<'a> TurtleFormatter<'a> {
    /// Writes the string between double quotes, on one line.
    pub fn print_quoted_str(string: &str, f: &mut String)
        ensures
            final(f)@ == old(f)@ + quoted_str(string@),
    {
        print_quoted_str(string, f)
    }

    /// Writes the string between triple double quotes.
    pub fn print_unquoted_str(string: &str, f: &mut String)
        ensures
            final(f)@ == old(f)@ + long_str(string@),
    {
        print_unquoted_str(string, f)
    }

    /// A formatter with an empty tree.
    fn new(input: &'a Input, options: &'a FormatOptions) -> (r: Self)
        ensures
            r.input == input,
            r.options == options,
            r.unreferenced_blank_nodes@ == Seq::<String>::empty(),
            r.tree.subjects@ == Seq::<TSubjectCont>::empty(),
    {
        Self { input, options, unreferenced_blank_nodes: Vec::new(), tree: TRoot::new() }
    }

    /// Makes the tree of the input and sorts it. Fails if a name of a
    /// configured order stands for no IRI.
    fn construct_tree(&mut self) -> (r: Result<(), Error>)
        requires
            old(self).unreferenced_blank_nodes@.len() == 0,
            old(self).tree.subjects@.len() == 0,
        ensures
            final(self).input == old(self).input,
            final(self).options == old(self).options,
            r is Ok <==> order_resolves(old(self).input.prefixes@, old(self).options.predicate_order_spec())
                && order_resolves(old(self).input.prefixes@, old(self).options.subject_type_order_spec()),
            r is Ok ==> is_tree_of(*old(self).input, *old(self).options, final(self).tree),
            r is Ok ==> is_faithful_tree(*old(self).input, *old(self).options, final(self).tree),
            r is Err ==> r->Err_0 is FailedToCreateTurtleStructure,
    {
        let ghost prefixes = self.input.prefixes@;
        let predicate_order = match self.options.predicate_order() {
            Some(names) => {
                proof {
                    lemma_order_resolves(prefixes, names@);
                }
                match resolve_order(self.input, &names) {
                    Ok(iris) => iris,
                    Err(e) => {
                        return Err(e);
                    },
                }
            },
            None => Vec::new(),
        };
        let subject_type_order = match self.options.subject_type_order() {
            Some(names) => {
                proof {
                    lemma_order_resolves(prefixes, names@);
                }
                match resolve_order(self.input, &names) {
                    Ok(iris) => Some(iris),
                    Err(e) => {
                        return Err(e);
                    },
                }
            },
            None => None,
        };
        construct_tree(&mut self.tree, &mut self.unreferenced_blank_nodes, self.input, self.options.max_nesting);
        let ghost built = self.tree;
        assert(built.subjects@ =~= built.subjects@.subrange(0, built.subjects@.len() as int));
        let context = SortingContext {
            options: self.options,
            graph: &self.input.graph,
            bn_sorting_ids: collect_sorting_ids(&self.input.graph),
            bn_objects_input_order: &self.input.bn_objects_input_order,
            predicate_order,
            subject_type_order,
        };
        assert(sorting_context_of(*self.input, *self.options, context));
        self.tree.sort(&context);
        assert(is_tree_by(
            *self.input,
            *self.options,
            built,
            self.unreferenced_blank_nodes@,
            context,
            self.tree,
        ));
        proof {
            lemma_tree_is_faithful(*self.input, *self.options, self.tree);
        }
        Ok(())
    }
}

/// The names of a list all resolve exactly when their texts do.
proof fn lemma_order_resolves(prefixes: Seq<(String, String)>, names: Seq<String>)
    ensures
        names_resolve(prefixes, names, names.len() as int) <==> order_resolves(
            prefixes,
            Some(crate::options::texts(names)),
        ),
{
    let list = crate::options::texts(names);
    if names_resolve(prefixes, names, names.len() as int) {
        assert forall|i: int| 0 <= i < list.len() implies iri_is_valid(
            resolved_name(prefixes, #[trigger] list[i]),
        ) by {
            assert(list[i] == names[i]@);
        }
    }
    if order_resolves(prefixes, Some(list)) {
        assert(all_resolve(prefixes, list));
        assert forall|i: int| 0 <= i < names.len() implies iri_is_valid(
            resolved_name(prefixes, (#[trigger] names[i])@),
        ) by {
            assert(0 <= i < list.len());
            assert(iri_is_valid(resolved_name(prefixes, list[i])));
            assert(list[i] == names[i]@);
        }
        assert(names_resolve(prefixes, names, names.len() as int));
    }
}

/// Formats the document: makes its tree, sorts it and writes it as Turtle.
///
/// Fails only if a name of a configured order of predicates or of subject
/// types stands for no IRI.
pub fn format(input: &Input, options: &FormatOptions) -> (r: FmtResult<String>)
    ensures
        r is Ok <==> order_resolves(input.prefixes@, options.predicate_order_spec()) && order_resolves(
            input.prefixes@,
            options.subject_type_order_spec(),
        ),
        r is Ok ==> is_formatted(*input, *options, r->Ok_0@),
        r is Err ==> r->Err_0 is FailedToCreateTurtleStructure,
{
    let mut context = Context::new();
    let mut formatter = TurtleFormatter::new(input, options);
    match formatter.construct_tree() {
        Ok(_) => {},
        Err(e) => {
            return Err(e);
        },
    }
    fmt_doc(input, options, &formatter.tree, &mut context);
    assert(context.output@ =~= text_doc(*input, *options, formatter.tree));
    Ok(context.output)
}

} // verus!
