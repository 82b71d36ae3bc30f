use prttl::ast::{Part, TBlankNode, TBlankNodeRef, TCollection, TLiteralRef, TNamedNode, TObject, TPredicateCont, TRoot, TSubject};
use prttl::builder::construct_tree;
use prttl::classify::{evaluate_nestable_and_unreferenced_blank_nodes, nested_blank_nodes};
use prttl::collections::{extract_collection, extract_non_empty_collections};
use prttl::comments::seen_comment;
use prttl::compare::SortingContext;
use prttl::context::Context;
use prttl::decoders::{
    decode_echar, decode_uchar, is_turtle_decimal, is_turtle_double, is_turtle_integer, DecodeError,
    StringDecoder,
};
use prttl::error::Error;
use prttl::grammar::NodeKind;
use prttl::lexical::{
    can_be_escaped_in_local_name, escape_local_name, is_possible_pn_chars, is_possible_pn_chars_base,
    is_possible_pn_chars_u, print_quoted_str, print_unquoted_str,
};
use prttl::options::{FormatOptions, SpecialPredicateOrder, SpecialSubjectTypeOrder};
use prttl::parser::{
    check_base, check_declarations, find_duplicate_values, merge_prefixes, parse, record_triple,
};
use prttl::ranks::{collect_sorting_ids, extract_topmost_sorting_id_by_types, find_position, find_rank, parse_u32};
use prttl::sorting::sort_vec;
use prttl::term::{RdfLiteral, RdfTerm, RdfTriple, Subject};
use std::cmp::Ordering;

fn opts() -> FormatOptions {
    let mut options = FormatOptions::default();
    options.canonicalize = false;
    options
}

fn sorted(mut labels: Vec<String>) -> Vec<String> {
    labels.sort();
    labels
}

fn pair(a: &str, b: &str) -> (String, String) {
    (a.to_string(), b.to_string())
}

#[test]
fn escapes_of_one_letter() {
    assert_eq!(decode_echar('t'), Ok('\t'));
    assert_eq!(decode_echar('b'), Ok('\u{08}'));
    assert_eq!(decode_echar('n'), Ok('\n'));
    assert_eq!(decode_echar('r'), Ok('\r'));
    assert_eq!(decode_echar('f'), Ok('\u{0C}'));
    assert_eq!(decode_echar('"'), Ok('"'));
    assert_eq!(decode_echar('\''), Ok('\''));
    assert_eq!(decode_echar('\\'), Ok('\\'));
    assert_eq!(decode_echar('x'), Err(DecodeError::InvalidEscape('x')));
}

#[test]
fn numeric_escapes() {
    assert_eq!(decode_uchar("\\u0041"), Ok('A'));
    assert_eq!(decode_uchar("\\u00e9"), Ok('é'));
    assert_eq!(decode_uchar("\\U0001F600"), Ok('😀'));
    assert_eq!(decode_uchar("\\uD800"), Err(DecodeError::InvalidCodePoint));
    assert_eq!(decode_uchar("\\U00110000"), Err(DecodeError::InvalidCodePoint));
    assert_eq!(decode_uchar("\\u00G1"), Err(DecodeError::InvalidCodePoint));
    assert_eq!(decode_uchar("\\u"), Err(DecodeError::InvalidCodePoint));
    assert_eq!(decode_uchar(""), Err(DecodeError::InvalidCodePoint));
}

#[test]
fn string_decoder_walks_through_escapes() {
    let mut decoder = StringDecoder::new("a\\tb\\u0041\\U0001F600\\qz");
    assert_eq!(decoder.next(), Some(Ok('a')));
    assert_eq!(decoder.next(), Some(Ok('\t')));
    assert_eq!(decoder.next(), Some(Ok('b')));
    assert_eq!(decoder.next(), Some(Ok('A')));
    assert_eq!(decoder.next(), Some(Ok('😀')));
    assert_eq!(decoder.next(), Some(Err(DecodeError::InvalidEscape('q'))));
    assert_eq!(decoder.next(), Some(Ok('z')));
    assert_eq!(decoder.next(), None);
    assert_eq!(decoder.next(), None);
}

#[test]
fn string_decoder_reports_a_cut_escape() {
    let mut decoder = StringDecoder::new("a\\");
    assert_eq!(decoder.next(), Some(Ok('a')));
    assert_eq!(decoder.next(), Some(Err(DecodeError::Truncated)));
    assert_eq!(decoder.next(), None);
    let mut decoder = StringDecoder::new("\\u00");
    assert_eq!(decoder.next(), Some(Err(DecodeError::Truncated)));
    assert_eq!(decoder.next(), None);
    let mut decoder = StringDecoder::new("");
    assert_eq!(decoder.next(), None);
}

#[test]
fn turtle_integers() {
    for yes in ["12", "+12", "-0", "007"] {
        assert!(is_turtle_integer(yes), "{}", yes);
    }
    for no in ["", "+", "-", "1.0", "12a", "a12", "1 2", "++1"] {
        assert!(!is_turtle_integer(no), "{}", no);
    }
}

#[test]
fn turtle_decimals() {
    for yes in ["1.5", ".5", "-.5", "+10.01", "0.0"] {
        assert!(is_turtle_decimal(yes), "{}", yes);
    }
    for no in ["", "1.", "1", ".", "1.5.2", "1.5e3", "-", "a.5", "1.a"] {
        assert!(!is_turtle_decimal(no), "{}", no);
    }
}

#[test]
fn turtle_doubles() {
    for yes in ["1e5", "1.e5", ".5E-3", "1.5e+10", "-1E0", "+.1e1"] {
        assert!(is_turtle_double(yes), "{}", yes);
    }
    for no in ["", ".e5", "e5", "1e", "1e+", "1.5", "1e5x", "1..5e1", "1e5.0", "x1e5", "1e-"] {
        assert!(!is_turtle_double(no), "{}", no);
    }
}

#[test]
fn characters_of_names() {
    assert!(is_possible_pn_chars_base('A'));
    assert!(is_possible_pn_chars_base('z'));
    assert!(is_possible_pn_chars_base('\u{00C0}'));
    assert!(is_possible_pn_chars_base('\u{EFFFF}'));
    assert!(!is_possible_pn_chars_base('\u{00D7}'));
    assert!(!is_possible_pn_chars_base('_'));
    assert!(!is_possible_pn_chars_base('0'));
    assert!(is_possible_pn_chars_u('_'));
    assert!(!is_possible_pn_chars_u('-'));
    assert!(is_possible_pn_chars('-'));
    assert!(is_possible_pn_chars('7'));
    assert!(is_possible_pn_chars('\u{00B7}'));
    assert!(is_possible_pn_chars('\u{203F}'));
    assert!(!is_possible_pn_chars('.'));
    assert!(!is_possible_pn_chars(' '));
    assert!(can_be_escaped_in_local_name('~'));
    assert!(can_be_escaped_in_local_name('%'));
    assert!(!can_be_escaped_in_local_name(' '));
    assert!(!can_be_escaped_in_local_name('a'));
}

#[test]
fn local_names_are_escaped() {
    assert_eq!(escape_local_name("name"), Some("name".to_string()));
    assert_eq!(escape_local_name("a.b"), Some("a.b".to_string()));
    assert_eq!(escape_local_name("a~b"), Some("a\\~b".to_string()));
    assert_eq!(escape_local_name("end."), Some("end\\.".to_string()));
    assert_eq!(escape_local_name("1st"), Some("1st".to_string()));
    assert_eq!(escape_local_name("-x"), Some("\\-x".to_string()));
    assert_eq!(escape_local_name("x-"), Some("x-".to_string()));
    assert_eq!(escape_local_name("a:b"), Some("a:b".to_string()));
    assert_eq!(escape_local_name(".a"), Some("\\.a".to_string()));
    assert_eq!(escape_local_name(""), None);
    assert_eq!(escape_local_name("a b"), None);
    assert_eq!(escape_local_name(" "), None);
}

#[test]
fn quoted_strings() {
    let mut out = String::from("x");
    print_quoted_str("a\"b\\c\n\t\r\u{08}\u{0C}\u{01}\u{1F}\u{7F}é", &mut out);
    assert_eq!(out, "x\"a\\\"b\\\\c\\n\\t\\r\\b\\f\\u0001\\u001F\\u007Fé\"");
    let mut out = String::new();
    print_quoted_str("", &mut out);
    assert_eq!(out, "\"\"");
}

#[test]
fn long_strings() {
    let mut out = String::from("x");
    print_unquoted_str("a\nb", &mut out);
    assert_eq!(out, "x\"\"\"a\nb\"\"\"");
    let mut out = String::new();
    print_unquoted_str("", &mut out);
    assert_eq!(out, "\"\"\"\"\"\"");
    let mut out = String::new();
    print_unquoted_str("say \"\"\"hi\nend\"", &mut out);
    assert_eq!(out, "\"\"\"say \"\"\\\"hi\nend\\\"\"\"\"");
    let mut out = String::new();
    print_unquoted_str("a\\t\nb\\", &mut out);
    assert_eq!(out, "\"\"\"a\\\\t\nb\\\\\"\"\"");
}

#[test]
fn numbers_below_two_to_the_32() {
    assert_eq!(parse_u32("42"), Some(42));
    assert_eq!(parse_u32("+7"), Some(7));
    assert_eq!(parse_u32("007"), Some(7));
    assert_eq!(parse_u32("0"), Some(0));
    assert_eq!(parse_u32("4294967295"), Some(u32::MAX));
    assert_eq!(parse_u32("4294967296"), None);
    assert_eq!(parse_u32("99999999999999999999999"), None);
    assert_eq!(parse_u32("-7"), None);
    assert_eq!(parse_u32(""), None);
    assert_eq!(parse_u32("+"), None);
    assert_eq!(parse_u32("1x"), None);
    assert_eq!(parse_u32(" 1"), None);
    for text in ["42", "+7", "-7", "", "1x", "4294967296"] {
        assert_eq!(parse_u32(text), text.parse::<u32>().ok(), "{}", text);
    }
}

#[test]
fn ranks_and_positions() {
    let order = vec!["a".to_string(), "b".to_string(), "a".to_string()];
    assert_eq!(find_rank(&order, "a"), Some(2));
    assert_eq!(find_rank(&order, "b"), Some(1));
    assert_eq!(find_rank(&order, "c"), None);
    assert_eq!(find_position(&order, "a"), Some(0));
    assert_eq!(find_position(&order, "b"), Some(1));
    assert_eq!(find_position(&order, "c"), None);
}

#[test]
fn default_options() {
    let options = FormatOptions::default();
    assert!(options.check);
    assert_eq!(options.indentation, "  ");
    assert!(!options.single_leafed_new_lines);
    assert!(!options.force);
    assert!(options.prtr_sorting);
    assert!(!options.sparql_syntax);
    assert!(options.max_nesting);
    assert!(options.canonicalize);
    assert!(options.warn_unsupported_numbers);
    assert!(options.subject_type_order_preset.is_none());
    assert!(options.subject_type_order.is_none());
    assert!(options.predicate_order_preset.is_none());
    assert!(options.predicate_order.is_none());
    assert_eq!(options.subject_type_order(), None);
    assert_eq!(options.predicate_order(), None);
}

#[test]
fn preset_orders() {
    assert_eq!(
        SpecialSubjectTypeOrder::Owl.as_list(),
        vec!["owl:Ontology", "owl:Class", "owl:ObjectProperties", "owl:DatatypeProperties", "owl:NamedIndividual"]
    );
    assert_eq!(SpecialSubjectTypeOrder::Skos.as_list().len(), 4);
    assert_eq!(SpecialSubjectTypeOrder::Shacl.as_list(), vec!["sh:NodeShape", "sh:PropertyShape", "sh:Shape"]);
    assert_eq!(SpecialSubjectTypeOrder::Shex.as_list().len(), 8);
    assert_eq!(
        SpecialSubjectTypeOrder::Rdf.as_list(),
        vec!["rdfs:Datatype", "rdfs:Class", "rdfs:Resource", "rdf:Property"]
    );
    assert_eq!(SpecialPredicateOrder::Owl.as_list().len(), 8);
    assert_eq!(SpecialPredicateOrder::Owl.as_list()[0], "owl:imports");
    assert_eq!(SpecialPredicateOrder::Skos.as_list().len(), 19);
    assert_eq!(SpecialPredicateOrder::Shacl.as_list().len(), 31);
    assert_eq!(SpecialPredicateOrder::Shacl.as_list()[30], "sh:pattern");
    assert!(SpecialPredicateOrder::Shex.as_list().is_empty());
    assert_eq!(SpecialPredicateOrder::Rdf.as_list().len(), 11);
    assert_eq!(SpecialPredicateOrder::Rdf.as_list()[0], "rdf:type");
}

#[test]
fn custom_order_takes_precedence_over_preset() {
    let mut options = FormatOptions::default();
    options.predicate_order_preset = Some(SpecialPredicateOrder::Rdf);
    assert_eq!(options.predicate_order().unwrap().len(), 11);
    options.predicate_order = Some(vec!["ex:p".to_string()]);
    assert_eq!(options.predicate_order(), Some(vec!["ex:p".to_string()]));
    options.subject_type_order_preset = Some(SpecialSubjectTypeOrder::Shacl);
    assert_eq!(
        options.subject_type_order(),
        Some(vec!["sh:NodeShape".to_string(), "sh:PropertyShape".to_string(), "sh:Shape".to_string()])
    );
    options.subject_type_order = Some(vec![]);
    assert_eq!(options.subject_type_order(), Some(vec![]));
}

#[test]
fn node_kinds_by_name() {
    assert_eq!(NodeKind::from("base"), NodeKind::Base);
    assert_eq!(NodeKind::from("comment"), NodeKind::Comment);
    assert_eq!(NodeKind::from("a"), NodeKind::A);
    assert_eq!(NodeKind::from("@"), NodeKind::At);
    assert_eq!(NodeKind::from("^^"), NodeKind::DataType);
    assert_eq!(NodeKind::from("<"), NodeKind::IriStart);
    assert_eq!(NodeKind::from(">"), NodeKind::IriEnd);
    assert_eq!(NodeKind::from("anon"), NodeKind::BlankNodeAnonymous);
    assert_eq!(NodeKind::from("string"), NodeKind::StringLiteral);
    assert_eq!(NodeKind::from("turtle_doc"), NodeKind::TurtleDoc);
    assert_eq!(NodeKind::from("Base"), NodeKind::Other);
    assert_eq!(NodeKind::from(""), NodeKind::Other);
    assert!(NodeKind::Base < NodeKind::Comment);
    assert!(NodeKind::Triples < NodeKind::TurtleDoc);
}

#[test]
fn refuses_a_prefix_that_changes() {
    let text = "@prefix ex: <http://a/> . ex:s ex:p ex:o . @prefix ex: <http://b/> . ex:s ex:p ex:o2 .";
    match parse(text.as_bytes(), &opts()) {
        Err(prttl::parser::Error::PrefixRedefinition(prefix)) => assert_eq!(prefix, "ex"),
        other => panic!("{:?}", other.map(|_| ())),
    }
}

#[test]
fn refuses_two_prefixes_of_one_namespace() {
    let text = "@prefix b: <http://a/> . @prefix a: <http://a/> . @prefix c: <http://c/> . a:s b:p c:o .";
    match parse(text.as_bytes(), &opts()) {
        Err(prttl::parser::Error::MultiplePrefixesForNamespace(found)) => {
            assert_eq!(found, vec![("http://a/".to_string(), vec!["a".to_string(), "b".to_string()])]);
        },
        other => panic!("{:?}", other.map(|_| ())),
    }
}

#[test]
fn refuses_a_base_that_changes() {
    let text = "@base <http://a/> . <s> <p> <o> . @base <http://b/> . <s> <p> <o> .";
    assert!(matches!(parse(text.as_bytes(), &opts()), Err(prttl::parser::Error::BaseRedefinition)));
    let late = "<http://a/s> <http://a/p> <http://a/o> . @base <http://b/> . <s> <p> <o> .";
    assert!(matches!(parse(late.as_bytes(), &opts()), Err(prttl::parser::Error::BaseRedefinition)));
}

#[test]
fn refuses_a_base_that_is_a_namespace() {
    let text = "@base <http://a/> . @prefix ex: <http://a/> . ex:s ex:p ex:o .";
    match parse(text.as_bytes(), &opts()) {
        Err(prttl::parser::Error::PrefixAndBaseShareNamespace(prefix)) => assert_eq!(prefix, "ex"),
        other => panic!("{:?}", other.map(|_| ())),
    }
}

#[test]
fn refuses_what_is_no_turtle() {
    let text = "<http://a/s> <http://a/p> .";
    assert!(matches!(parse(text.as_bytes(), &opts()), Err(prttl::parser::Error::TurtleSyntaxError(_))));
}

#[test]
fn parsed_document() {
    let text = "@prefix z: <http://z/> . @prefix a: <http://a/> .\na:s a:p _:x , _:y , _:x . _:y a:p a:s . a:s a:q 1 .";
    let input = parse(text.as_bytes(), &opts()).unwrap();
    assert_eq!(input.prefixes, vec![pair("a", "http://a/"), pair("z", "http://z/")]);
    assert_eq!(input.base, Some(prttl::constants::SUBSTITUTE_BASE.to_string()));
    assert_eq!(input.subjects_in_order.len(), 2);
    assert!(matches!(&input.subjects_in_order[0], Subject::NamedNode(iri) if iri == "http://a/s"));
    assert!(matches!(&input.subjects_in_order[1], Subject::BlankNode(id) if id == "y"));
    assert_eq!(input.bn_objects_input_order, vec!["x".to_string(), "y".to_string()]);
    assert_eq!(input.graph.len(), 4);
    assert_eq!(input.extract_subjects().len(), 4);
}

#[test]
fn empty_document() {
    let input = parse(b"", &opts()).unwrap();
    assert_eq!(input.base, None);
    assert!(input.prefixes.is_empty());
    assert!(input.subjects_in_order.is_empty());
    assert_eq!(input.graph.len(), 0);
    assert_eq!(prttl::formatter::format(&input, &opts()).unwrap(), "\n");
}

#[test]
fn declared_base_is_kept() {
    let input = parse(b"@base <http://b/> . <s> <p> <o> .", &opts()).unwrap();
    assert_eq!(input.base, Some("http://b/".to_string()));
}

#[test]
fn base_after_a_triple() {
    assert!(matches!(check_base(None, None), Ok(None)));
    assert!(matches!(check_base(None, Some("http://a/".to_string())), Ok(Some(b)) if b == "http://a/"));
    assert!(matches!(check_base(Some("http://a/".to_string()), None), Ok(Some(b)) if b == "http://a/"));
    assert!(matches!(
        check_base(Some("http://a/".to_string()), Some("http://a/".to_string())),
        Ok(Some(b)) if b == "http://a/"
    ));
    assert!(matches!(
        check_base(Some("http://a/".to_string()), Some("http://b/".to_string())),
        Err(prttl::parser::Error::BaseRedefinition)
    ));
}

#[test]
fn prefixes_are_merged_in_order() {
    let mut prefixes = vec![pair("b", "http://b/")];
    let current = vec![pair("c", "http://c/"), pair("a", "http://a/"), pair("b", "http://b/")];
    assert!(merge_prefixes(&mut prefixes, &current).is_ok());
    assert_eq!(prefixes, vec![pair("a", "http://a/"), pair("b", "http://b/"), pair("c", "http://c/")]);
    let changed = vec![pair("a", "http://a/"), pair("c", "http://other/"), pair("b", "http://other/")];
    match merge_prefixes(&mut prefixes, &changed) {
        Err(prttl::parser::Error::PrefixRedefinition(prefix)) => assert_eq!(prefix, "c"),
        other => panic!("{:?}", other),
    }
}

#[test]
fn duplicate_namespaces() {
    let map = vec![
        pair("a", "http://x/"),
        pair("b", "http://y/"),
        pair("c", "http://x/"),
        pair("d", "http://z/"),
        pair("e", "http://z/"),
        pair("f", "http://x/"),
    ];
    assert_eq!(
        find_duplicate_values(&map),
        vec![
            ("http://x/".to_string(), vec!["a".to_string(), "c".to_string(), "f".to_string()]),
            ("http://z/".to_string(), vec!["d".to_string(), "e".to_string()]),
        ]
    );
    assert!(find_duplicate_values(&vec![pair("a", "http://x/")]).is_empty());
    assert!(find_duplicate_values(&vec![]).is_empty());
}

#[test]
fn declarations_are_checked() {
    let prefixes = vec![pair("a", "http://a/"), pair("b", "http://b/")];
    assert!(check_declarations(&prefixes, &None).is_ok());
    assert!(check_declarations(&prefixes, &Some("http://c/".to_string())).is_ok());
    assert!(matches!(
        check_declarations(&prefixes, &Some("http://b/".to_string())),
        Err(prttl::parser::Error::PrefixAndBaseShareNamespace(p)) if p == "b"
    ));
    let twice = vec![pair("a", "http://a/"), pair("b", "http://a/")];
    assert!(matches!(
        check_declarations(&twice, &Some("http://a/".to_string())),
        Err(prttl::parser::Error::MultiplePrefixesForNamespace(found)) if found.len() == 1
    ));
}

#[test]
fn order_names_must_be_iris() {
    let input = parse(b"<http://a/s> <http://a/p> <http://a/o> .", &opts()).unwrap();
    let mut with_bad = opts();
    with_bad.predicate_order = Some(vec!["http://a/p".to_string(), "not an iri".to_string()]);
    match prttl::formatter::format(&input, &with_bad) {
        Err(Error::FailedToCreateTurtleStructure(message)) => {
            assert_eq!(message, "Failed to parse 'not an iri' as named node");
        },
        other => panic!("{:?}", other),
    }
    let mut with_bad_type = opts();
    with_bad_type.subject_type_order = Some(vec!["<x>".to_string()]);
    assert!(matches!(
        prttl::formatter::format(&input, &with_bad_type),
        Err(Error::FailedToCreateTurtleStructure(_))
    ));
    let mut with_good = opts();
    with_good.predicate_order = Some(vec!["http://a/p".to_string(), "ex:unknown".to_string()]);
    assert!(prttl::formatter::format(&input, &with_good).is_ok());
}

#[test]
fn order_names_are_resolved() {
    let input = parse(b"@prefix ex: <http://a/> . ex:s ex:p ex:o .", &opts()).unwrap();
    assert_eq!(
        prttl::formatter::try_named_node_from_iri_or_prefixed_name(&input, "ex:p").unwrap(),
        "http://a/p"
    );
    assert_eq!(
        prttl::formatter::try_named_node_from_iri_or_prefixed_name(&input, "other:p").unwrap(),
        "other:p"
    );
    assert_eq!(
        prttl::formatter::try_named_node_from_iri_or_prefixed_name(&input, "http://b/x").unwrap(),
        "http://b/x"
    );
    assert!(prttl::formatter::try_named_node_from_iri_or_prefixed_name(&input, "ex:a b").is_err());
    assert!(prttl::formatter::try_named_node_from_iri_or_prefixed_name(&input, "no colon").is_err());
}

#[test]
fn blank_nodes_are_classified() {
    let text = "@prefix ex: <http://a/> .\n\
        ex:s ex:p _:once , _:twice . ex:t ex:p _:twice . \
        _:once ex:q _:leaf . _:never ex:q 1 . _:twice ex:q 2 .";
    let input = parse(text.as_bytes(), &opts()).unwrap();
    let mut unreferenced = vec!["kept".to_string()];
    let nestable = evaluate_nestable_and_unreferenced_blank_nodes(&input.graph, &mut unreferenced);
    assert_eq!(sorted(nestable), vec!["leaf".to_string(), "once".to_string()]);
    assert_eq!(sorted(unreferenced), vec!["kept".to_string(), "never".to_string()]);
}

#[test]
fn collections_are_found() {
    let text = "@prefix rdf: <http://www.w3.org/1999/02/22-rdf-syntax-ns#> .\n\
        <http://a/s> <http://a/p> _:m1 .\n\
        _:l1 rdf:first \"a\" ; rdf:rest _:l2 ; <http://a/on-head> 1 .\n\
        _:l2 rdf:first \"b\" ; rdf:rest rdf:nil ; a rdf:List .\n\
        _:m1 rdf:first \"c\" ; rdf:rest _:m2 .\n\
        _:m2 rdf:first \"d\" , \"e\" ; rdf:rest rdf:nil .";
    let input = parse(text.as_bytes(), &opts()).unwrap();
    let mut involved: Vec<RdfTriple> = Vec::new();
    let cols = extract_non_empty_collections(&input.graph, &mut involved);
    assert_eq!(cols.len(), 1);
    assert_eq!(cols[0].0, "l1");
    assert_eq!(cols[0].1.len(), 2);
    assert!(matches!(&cols[0].1[0], RdfTerm::Literal(l) if l.value == "a"));
    assert!(matches!(&cols[0].1[1], RdfTerm::Literal(l) if l.value == "b"));
    assert_eq!(involved.len(), 5);
    assert!(involved.iter().all(|t| matches!(&t.subject, Subject::BlankNode(b) if b == "l1" || b == "l2")));
    assert!(involved.iter().all(|t| t.predicate != "http://a/on-head"));

    let mut none: Vec<RdfTriple> = Vec::new();
    assert!(extract_collection(&input.graph, &mut none, "m1").is_none());
    assert!(none.is_empty());
    assert!(extract_collection(&input.graph, &mut none, "missing").is_none());
    assert!(none.is_empty());
    let elements = extract_collection(&input.graph, &mut none, "l2").unwrap();
    assert_eq!(elements.len(), 1);
    assert_eq!(none.len(), 3);
}

#[test]
fn a_list_that_is_an_object_has_no_triples_of_its_own() {
    let text = "@prefix rdf: <http://www.w3.org/1999/02/22-rdf-syntax-ns#> .\n\
        <http://a/s> <http://a/p> _:l1 , _:k1 .\n\
        _:l1 rdf:first \"a\" ; rdf:rest rdf:nil ; <http://a/on-head> 1 .\n\
        _:k1 rdf:first \"b\" ; rdf:rest rdf:nil .";
    let input = parse(text.as_bytes(), &opts()).unwrap();
    let mut involved: Vec<RdfTriple> = Vec::new();
    let cols = extract_non_empty_collections(&input.graph, &mut involved);
    assert_eq!(cols.len(), 1);
    assert_eq!(cols[0].0, "k1");
    assert_eq!(involved.len(), 2);
    let written = prttl::formatter::format(&input, &opts()).unwrap();
    assert_eq!(
        written,
        "@prefix rdf: <http://www.w3.org/1999/02/22-rdf-syntax-ns#> .\n\n<http://a/s>\n  <http://a/p>\n    ( \"b\" ) ,\n    [\n      rdf:first \"a\" ;\n      rdf:rest () ;\n      <http://a/on-head> 1 ;\n    ] ;\n  .\n\n"
    );
    let again = parse(written.as_bytes(), &opts()).unwrap();
    assert_eq!(again.graph.len(), input.graph.len());
}

#[test]
fn blank_nodes_that_only_refer_to_each_other_keep_their_blocks() {
    let text = "_:a <http://a/p> _:b . _:b <http://a/p> _:a . <http://a/s> <http://a/p> _:c . _:c <http://a/q> 1 .";
    let input = parse(text.as_bytes(), &opts()).unwrap();
    let mut unreferenced: Vec<String> = Vec::new();
    let nestable = evaluate_nestable_and_unreferenced_blank_nodes(&input.graph, &mut unreferenced);
    assert_eq!(sorted(nestable), vec!["a".to_string(), "b".to_string(), "c".to_string()]);
    assert_eq!(nested_blank_nodes(&input.graph), vec!["c".to_string()]);
    let written = prttl::formatter::format(&input, &opts()).unwrap();
    assert_eq!(
        written,
        "\n<http://a/s> <http://a/p> [ <http://a/q> 1 ] .\n_:a <http://a/p> _:b .\n_:b <http://a/p> _:a .\n"
    );
    let again = parse(written.as_bytes(), &opts()).unwrap();
    assert_eq!(again.graph.len(), 4);
}

#[test]
fn a_blank_node_that_refers_to_itself_keeps_its_block() {
    let input = parse(b"_:a <http://a/p> _:a .", &opts()).unwrap();
    assert!(nested_blank_nodes(&input.graph).is_empty());
    let written = prttl::formatter::format(&input, &opts()).unwrap();
    assert_eq!(written, "\n_:a <http://a/p> _:a .\n");
}

#[test]
fn the_type_predicate_is_shortened_as_a_predicate_only() {
    let text = "<http://a/s> a <http://www.w3.org/1999/02/22-rdf-syntax-ns#type> .\n\
        <http://www.w3.org/1999/02/22-rdf-syntax-ns#type> <http://a/p> ( <http://www.w3.org/1999/02/22-rdf-syntax-ns#type> ) .";
    let input = parse(text.as_bytes(), &opts()).unwrap();
    let written = prttl::formatter::format(&input, &opts()).unwrap();
    assert!(written.contains("\n<http://a/s> a <http://www.w3.org/1999/02/22-rdf-syntax-ns#type> .\n"));
    assert!(written.contains(
        "\n<http://www.w3.org/1999/02/22-rdf-syntax-ns#type> <http://a/p> ( <http://www.w3.org/1999/02/22-rdf-syntax-ns#type> ) .\n"
    ));
    let again = parse(written.as_bytes(), &opts()).unwrap();
    assert_eq!(again.graph.len(), 4);
    assert_eq!(prttl::formatter::format(&again, &opts()).unwrap(), written);
}

#[test]
fn the_type_predicate_comes_first_without_a_configured_order() {
    let options = opts();
    let graph = parse(b"", &options).unwrap().graph;
    let objects = vec![];
    let ctx = context(&options, &graph, &objects, &[], &[]);
    let rdf_type = TNamedNode::Plain("http://www.w3.org/1999/02/22-rdf-syntax-ns#type".to_string());
    let same_as = TNamedNode::Plain("http://www.w3.org/2002/07/owl#sameAs".to_string());
    let early = TNamedNode::Plain("http://a/p".to_string());
    assert_eq!(prttl::compare::pred_ref(&ctx, &rdf_type, &same_as), Ordering::Less);
    assert_eq!(prttl::compare::pred_ref(&ctx, &same_as, &rdf_type), Ordering::Greater);
    assert_eq!(prttl::compare::pred_ref(&ctx, &rdf_type, &early), Ordering::Less);
    assert_eq!(prttl::compare::pred_ref(&ctx, &rdf_type, &rdf_type), Ordering::Equal);
    assert_eq!(prttl::compare::pred_ref(&ctx, &early, &same_as), Ordering::Less);
}

#[test]
fn comments_are_found_outside_iris_and_strings() {
    assert!(seen_comment(b"# c\n<http://a/s> <http://a/p> 1 ."));
    assert!(seen_comment(b"<http://a/s> <http://a/p> 1 . # c"));
    assert!(seen_comment(b"<http://a/s> <http://a/p> \"\" # c\n ."));
    assert!(seen_comment(b"<http://a/s> <http://a/p> \"\"\"a\"\"\" # c\n ."));
    assert!(seen_comment(b"<< <http://a/s> <http://a/p> 1 >> <http://a/q> 2 . #"));
    assert!(!seen_comment(b""));
    assert!(!seen_comment(b"<http://a/s#x> <http://a/p#y> \"#\" , '#' , \"a\\\"#\" ."));
    assert!(!seen_comment(b"<http://a/s> <http://a/p> \"\"\"a\"#\"\"b\n#\"\"\" , '''#''' ."));
    assert!(!seen_comment(b"@prefix ex: <http://a/> . ex:s ex:p ex:a\\#b ."));
    assert!(!seen_comment(b"<< <http://a/s#> <http://a/p> \"#\" >> <http://a/q> 2 ."));
}

#[test]
fn refuses_a_text_with_a_comment_unless_forced() {
    let text = b"<http://a/s> <http://a/p> 1 . # kept?\n";
    assert!(matches!(parse(text, &opts()), Err(prttl::parser::Error::Comment)));
    let mut forced = opts();
    forced.force = true;
    let input = parse(text, &forced).unwrap();
    assert_eq!(prttl::formatter::format(&input, &forced).unwrap(), "\n<http://a/s> <http://a/p> 1 .\n");
    let bare = parse(b"<http://a/s#x> <http://a/p> \"#\" .", &opts()).unwrap();
    assert_eq!(bare.graph.len(), 1);
    assert!(matches!(
        parse(b"<http://a/s> <http://a/p> 1 # c", &opts()),
        Err(prttl::parser::Error::TurtleSyntaxError(_))
    ));
}

#[test]
fn triples_are_recorded_one_by_one() {
    let mut input = parse(b"", &opts()).unwrap();
    let triple = RdfTriple {
        subject: Subject::NamedNode("http://a/s".to_string()),
        predicate: "http://a/p".to_string(),
        object: RdfTerm::BlankNode("b".to_string()),
    };
    let prefixes = vec![pair("ex", "http://a/")];
    assert!(record_triple(&mut input, &triple, Some("http://b/".to_string()), &prefixes).is_ok());
    assert_eq!(input.graph.len(), 1);
    assert_eq!(input.subjects_in_order.len(), 1);
    assert!(matches!(&input.subjects_in_order[0], Subject::NamedNode(n) if n == "http://a/s"));
    assert_eq!(input.bn_objects_input_order, vec!["b".to_string()]);
    assert_eq!(input.base, Some("http://b/".to_string()));
    assert_eq!(input.prefixes, prefixes);
    assert!(record_triple(&mut input, &triple, None, &prefixes).is_ok());
    assert_eq!(input.graph.len(), 1);
    assert_eq!(input.subjects_in_order.len(), 1);
    assert_eq!(input.bn_objects_input_order.len(), 1);
    assert_eq!(input.base, Some("http://b/".to_string()));
    let other = RdfTriple {
        subject: Subject::BlankNode("b".to_string()),
        predicate: "http://a/p".to_string(),
        object: RdfTerm::NamedNode("http://a/o".to_string()),
    };
    assert!(matches!(
        record_triple(&mut input, &other, Some("http://c/".to_string()), &prefixes),
        Err(prttl::parser::Error::BaseRedefinition)
    ));
    assert_eq!(input.graph.len(), 2);
    assert_eq!(input.subjects_in_order.len(), 2);
    let changed = vec![pair("ex", "http://other/")];
    assert!(matches!(
        record_triple(&mut input, &other, None, &changed),
        Err(prttl::parser::Error::PrefixRedefinition(p)) if p == "ex"
    ));
}

#[test]
fn named_nodes_are_written_by_prefix_base_or_in_full() {
    let prefixes = vec![pair("ex", "http://a/ns#"), pair("p", "http://a/path/")];
    let base = Some("http://a/".to_string());
    assert!(matches!(
        TNamedNode::from(&prefixes, &base, "http://a/ns#x"),
        TNamedNode::Prefixed(iri, prefix, local) if iri == "http://a/ns#x" && prefix == "ex" && local == "x"
    ));
    assert!(matches!(
        TNamedNode::from(&prefixes, &base, "http://a/path/y"),
        TNamedNode::Prefixed(_, prefix, local) if prefix == "p" && local == "y"
    ));
    assert!(matches!(
        TNamedNode::from(&prefixes, &base, "http://a/path/y#z"),
        TNamedNode::Based(iri, rest) if iri == "http://a/path/y#z" && rest == "path/y#z"
    ));
    assert!(matches!(
        TNamedNode::from(&prefixes, &base, "http://a/ns#"),
        TNamedNode::Prefixed(_, prefix, local) if prefix == "ex" && local.is_empty()
    ));
    assert!(matches!(
        TNamedNode::from(&prefixes, &base, "http://b/x"),
        TNamedNode::Plain(iri) if iri == "http://b/x"
    ));
    assert!(matches!(TNamedNode::from(&prefixes, &None, "urn:x"), TNamedNode::Plain(_)));
    assert_eq!(TNamedNode::from(&prefixes, &base, "http://b/x").as_named_node_ref(), "http://b/x");
}

fn literal(value: &str, datatype: &str, language: Option<&str>) -> TLiteralRef {
    let nice = if datatype == prttl::vocab::XSD_STRING || datatype == prttl::vocab::RDF_LANG_STRING {
        None
    } else {
        Some(TNamedNode::Plain(datatype.to_string()))
    };
    TLiteralRef(
        RdfLiteral {
            value: value.to_string(),
            datatype: datatype.to_string(),
            language: language.map(|l| l.to_string()),
            direction: None,
        },
        nice,
    )
}

#[test]
fn parts_on_one_line() {
    let node = TObject::NamedNode(TNamedNode::Plain("http://a/x".to_string()));
    assert!(node.is_single_leafed() && node.is_empty() && !node.is_container());
    let one_line = literal("a", prttl::vocab::XSD_STRING, None);
    assert!(one_line.is_single_leafed());
    let two_lines = literal("a\nb", prttl::vocab::XSD_STRING, None);
    assert!(!two_lines.is_single_leafed());
    let with_cr = literal("a\n\rb", prttl::vocab::XSD_STRING, None);
    assert!(with_cr.is_single_leafed());
    let typed = literal("a\nb", "http://a/dt", None);
    assert!(typed.is_single_leafed());
    let tagged = literal("a\nb", prttl::vocab::RDF_LANG_STRING, Some("en"));
    assert!(!tagged.is_single_leafed());
    let empty = TCollection::Empty;
    assert!(empty.is_single_leafed() && empty.is_empty() && empty.is_container());
    let inline = TBlankNode { node: TBlankNodeRef("b".to_string()), predicates: vec![] };
    assert!(inline.is_single_leafed() && inline.is_empty() && inline.is_container());
    let predicate = TPredicateCont {
        predicate: TNamedNode::Plain("http://a/p".to_string()),
        objects: vec![TObject::Literal(two_lines)],
    };
    assert!(predicate.is_single_leafed() && !predicate.is_empty() && predicate.is_container());
    let two_objects = TPredicateCont {
        predicate: TNamedNode::Plain("http://a/p".to_string()),
        objects: vec![TObject::Collection(TCollection::Empty), TObject::Collection(TCollection::Empty)],
    };
    assert!(!two_objects.is_single_leafed());
    let subject = TSubject::BlankNodeLabel(TBlankNodeRef("b".to_string()));
    assert!(subject.is_single_leafed() && subject.is_empty() && !subject.is_container());
}

fn context<'a>(
    options: &'a FormatOptions,
    graph: &'a oxrdf::Graph,
    objects: &'a Vec<String>,
    predicate_order: &[&str],
    ids: &[(&str, Option<u32>)],
) -> SortingContext<'a> {
    SortingContext {
        options,
        graph,
        bn_sorting_ids: ids.iter().map(|(b, id)| (b.to_string(), *id)).collect(),
        bn_objects_input_order: objects,
        predicate_order: predicate_order.iter().map(|p| p.to_string()).collect(),
        subject_type_order: None,
    }
}

#[test]
fn order_of_named_nodes() {
    let options = opts();
    let graph = parse(b"", &options).unwrap().graph;
    let objects = vec![];
    let ctx = context(&options, &graph, &objects, &[], &[]);
    let prefixed = |p: &str, l: &str| TNamedNode::Prefixed(format!("http://{}/{}", p, l), p.to_string(), l.to_string());
    let plain = |iri: &str| TNamedNode::Plain(iri.to_string());
    let based = |rest: &str| TNamedNode::Based(format!("http://base/{}", rest), rest.to_string());
    assert_eq!(prttl::compare::named_nodes(&ctx, &prefixed("a", "x"), &prefixed("a", "x")), Ordering::Equal);
    assert_eq!(prttl::compare::named_nodes(&ctx, &prefixed("a", "x"), &prefixed("a", "y")), Ordering::Less);
    assert_eq!(prttl::compare::named_nodes(&ctx, &prefixed("b", "a"), &prefixed("a", "z")), Ordering::Greater);
    assert_eq!(prttl::compare::named_nodes(&ctx, &prefixed("z", "z"), &based("a")), Ordering::Less);
    assert_eq!(prttl::compare::named_nodes(&ctx, &based("z"), &plain("http://a/")), Ordering::Less);
    assert_eq!(prttl::compare::named_nodes(&ctx, &plain("http://a/"), &prefixed("z", "z")), Ordering::Greater);
    assert_eq!(prttl::compare::named_nodes(&ctx, &plain("http://a/b"), &plain("http://a/a")), Ordering::Greater);
    assert_eq!(prttl::compare::named_nodes(&ctx, &based("a"), &based("b")), Ordering::Less);
    assert_eq!(prttl::compare::named_nodes(&ctx, &plain("abc"), &plain("ab")), Ordering::Greater);
    assert_eq!(prttl::compare::named_nodes(&ctx, &plain(""), &plain("a")), Ordering::Less);
    assert_eq!(prttl::compare::named_nodes(&ctx, &plain("é"), &plain("z")), Ordering::Greater);
}

#[test]
fn natural_orders() {
    let prefixed = TNamedNode::Prefixed("http://a/x".to_string(), "a".to_string(), "x".to_string());
    let based = TNamedNode::Based("http://b/x".to_string(), "x".to_string());
    let plain = TNamedNode::Plain("http://c/x".to_string());
    assert_eq!(plain.cmp(&based), Ordering::Less);
    assert_eq!(plain.cmp(&prefixed), Ordering::Less);
    assert_eq!(based.cmp(&prefixed), Ordering::Less);
    assert_eq!(prefixed.cmp(&plain), Ordering::Greater);
    assert_eq!(based.cmp(&plain), Ordering::Greater);
    assert_eq!(prefixed.cmp(&prefixed), Ordering::Equal);
    assert_eq!(
        prefixed.cmp(&TNamedNode::Prefixed("http://a/y".to_string(), "a".to_string(), "y".to_string())),
        Ordering::Less
    );
    assert_eq!(TBlankNodeRef("a".to_string()).cmp(&TBlankNodeRef("b".to_string())), Ordering::Less);
    assert_eq!(TBlankNodeRef("b".to_string()).cmp(&TBlankNodeRef("b".to_string())), Ordering::Equal);
    let one = literal("1", prttl::vocab::XSD_INTEGER, None);
    let one_decimal = literal("1", prttl::vocab::XSD_DECIMAL, None);
    let two = literal("2", prttl::vocab::XSD_DECIMAL, None);
    let tagged = literal("1", prttl::vocab::RDF_LANG_STRING, Some("en"));
    let other_tag = literal("1", prttl::vocab::RDF_LANG_STRING, Some("fr"));
    assert_eq!(one.cmp(&two), Ordering::Less);
    assert_eq!(one.cmp(&one_decimal), Ordering::Greater);
    assert_eq!(tagged.cmp(&other_tag), Ordering::Less);
    assert_eq!(tagged.cmp(&tagged), Ordering::Equal);
    let untagged = TLiteralRef(
        RdfLiteral {
            value: "1".to_string(),
            datatype: prttl::vocab::RDF_LANG_STRING.to_string(),
            language: None,
            direction: None,
        },
        None,
    );
    assert_eq!(tagged.cmp(&untagged), Ordering::Less);
    assert_eq!(untagged.cmp(&tagged), Ordering::Greater);
}

#[test]
fn order_of_predicates() {
    let options = opts();
    let graph = parse(b"", &options).unwrap().graph;
    let objects = vec![];
    let ctx = context(&options, &graph, &objects, &["http://a/p1", "http://a/p2"], &[]);
    let p = |n: &str| TNamedNode::Plain(format!("http://a/{}", n));
    assert_eq!(prttl::compare::pred_ref(&ctx, &p("p1"), &p("p2")), Ordering::Less);
    assert_eq!(prttl::compare::pred_ref(&ctx, &p("p2"), &p("p1")), Ordering::Greater);
    assert_eq!(prttl::compare::pred_ref(&ctx, &p("p2"), &p("p0")), Ordering::Less);
    assert_eq!(prttl::compare::pred_ref(&ctx, &p("p0"), &p("p1")), Ordering::Greater);
    assert_eq!(prttl::compare::pred_ref(&ctx, &p("p3"), &p("p4")), Ordering::Less);
    assert_eq!(prttl::compare::pred_ref(&ctx, &p("p1"), &p("p1")), Ordering::Equal);
}

#[test]
fn order_of_blank_nodes() {
    let options = opts();
    let graph = parse(b"", &options).unwrap().graph;
    let objects = vec![];
    let ctx = context(&options, &graph, &objects, &[], &[("a", Some(2)), ("b", Some(1)), ("c", None)]);
    assert_eq!(prttl::compare::blank_node_refs(&ctx, "a", "b"), Ordering::Greater);
    assert_eq!(prttl::compare::blank_node_refs(&ctx, "b", "a"), Ordering::Less);
    assert_eq!(prttl::compare::blank_node_refs(&ctx, "a", "c"), Ordering::Less);
    assert_eq!(prttl::compare::blank_node_refs(&ctx, "c", "a"), Ordering::Greater);
    assert_eq!(prttl::compare::blank_node_refs(&ctx, "c", "d"), Ordering::Equal);
    assert_eq!(prttl::compare::blank_node_refs_with_prtr(&ctx, "a", "a"), Ordering::Equal);
    assert_eq!(prttl::compare::blank_node_refs_by_input_order(&ctx, "a", "b"), Ordering::Equal);
    assert_eq!(prttl::compare::blank_node_refs_by_label(&ctx, "a", "b"), Ordering::Less);
    let mut unsorted = opts();
    unsorted.prtr_sorting = false;
    let ctx = context(&unsorted, &graph, &objects, &[], &[("a", Some(2)), ("b", Some(1))]);
    assert_eq!(prttl::compare::blank_node_refs(&ctx, "a", "b"), Ordering::Equal);
}

#[test]
fn order_of_literals() {
    let options = opts();
    let graph = parse(b"", &options).unwrap().graph;
    let objects = vec![];
    let ctx = context(&options, &graph, &objects, &[], &[]);
    let integer = literal("1", prttl::vocab::XSD_INTEGER, None);
    let decimal = literal("1.0", prttl::vocab::XSD_DECIMAL, None);
    let bigger_decimal = literal("9", prttl::vocab::XSD_DECIMAL, None);
    let plain = literal("0", prttl::vocab::XSD_STRING, None);
    let english = literal("a", prttl::vocab::RDF_LANG_STRING, Some("en"));
    let german = literal("z", prttl::vocab::RDF_LANG_STRING, Some("de"));
    assert_eq!(prttl::compare::literals(&ctx, &decimal, &integer), Ordering::Less);
    assert_eq!(prttl::compare::literals(&ctx, &bigger_decimal, &integer), Ordering::Less);
    assert_eq!(prttl::compare::literals(&ctx, &integer, &decimal), Ordering::Greater);
    assert_eq!(prttl::compare::literals(&ctx, &decimal, &bigger_decimal), Ordering::Less);
    assert_eq!(prttl::compare::literals(&ctx, &integer, &plain), Ordering::Less);
    assert_eq!(prttl::compare::literals(&ctx, &plain, &integer), Ordering::Greater);
    assert_eq!(prttl::compare::literals(&ctx, &english, &plain), Ordering::Less);
    assert_eq!(prttl::compare::literals(&ctx, &german, &english), Ordering::Less);
    assert_eq!(prttl::compare::literals(&ctx, &english, &english), Ordering::Equal);
}

#[test]
fn order_of_objects_of_different_kinds() {
    let options = opts();
    let graph = parse(b"", &options).unwrap().graph;
    let objects = vec!["second".to_string(), "first".to_string()];
    let ctx = context(&options, &graph, &objects, &[], &[]);
    let named = TObject::NamedNode(TNamedNode::Plain("http://a/x".to_string()));
    let label = TObject::BlankNodeLabel(TBlankNodeRef("b".to_string()));
    let inline = |b: &str| TObject::BlankNodeAnonymous(TBlankNode { node: TBlankNodeRef(b.to_string()), predicates: vec![] });
    let empty = TObject::Collection(TCollection::Empty);
    let lit = TObject::Literal(literal("v", prttl::vocab::XSD_STRING, None));
    let mut list = vec![lit, label, inline("first"), inline("second"), empty, named];
    sort_vec(&mut list, &ctx);
    assert!(matches!(list[0], TObject::NamedNode(_)));
    assert!(matches!(list[1], TObject::Collection(_)));
    assert!(matches!(&list[2], TObject::BlankNodeAnonymous(b) if b.node.0 == "second"));
    assert!(matches!(&list[3], TObject::BlankNodeAnonymous(b) if b.node.0 == "first"));
    assert!(matches!(list[4], TObject::BlankNodeLabel(_)));
    assert!(matches!(list[5], TObject::Literal(_)));
    assert_eq!(prttl::compare::t_obj(&ctx, &list[0], &list[5]), Ordering::Less);
    assert_eq!(prttl::compare::t_obj(&ctx, &list[3], &list[2]), Ordering::Greater);
}

#[test]
fn sorting_is_stable() {
    let options = opts();
    let graph = parse(b"", &options).unwrap().graph;
    let objects = vec![];
    let ctx = context(&options, &graph, &objects, &[], &[]);
    let label = |b: &str| TObject::BlankNodeLabel(TBlankNodeRef(b.to_string()));
    let named = |n: &str| TObject::NamedNode(TNamedNode::Plain(n.to_string()));
    let mut list = vec![label("c"), named("b"), label("a"), named("a"), label("b")];
    sort_vec(&mut list, &ctx);
    let texts: Vec<String> = list
        .iter()
        .map(|o| match o {
            TObject::BlankNodeLabel(b) => format!("_:{}", b.0),
            TObject::NamedNode(n) => n.as_named_node_ref().clone(),
            _ => unreachable!(),
        })
        .collect();
    assert_eq!(texts, vec!["a", "b", "_:c", "_:a", "_:b"]);
    let mut none: Vec<TObject> = vec![];
    sort_vec(&mut none, &ctx);
    assert!(none.is_empty());
}

#[test]
fn sorting_ids_and_type_ranks_are_read_from_the_graph() {
    let text = "@prefix ex: <http://a/> . @prefix prtr: <http://w3id.org/oseg/ont/prtr#> .\n\
        _:a prtr:sortingId 7 . _:b prtr:sortingId \"x\" . _:c prtr:sortingId ex:seven . _:d ex:p 1 .\n\
        ex:s a ex:Third , ex:Second . ex:t a ex:Unranked . ex:u ex:p ex:First .";
    let input = parse(text.as_bytes(), &opts()).unwrap();
    let mut ids = collect_sorting_ids(&input.graph);
    ids.sort();
    assert_eq!(
        ids,
        vec![("a".to_string(), Some(7)), ("b".to_string(), None), ("c".to_string(), None)]
    );
    let order = vec!["http://a/First".to_string(), "http://a/Second".to_string(), "http://a/Third".to_string()];
    assert_eq!(extract_topmost_sorting_id_by_types(&input.graph, &order, "http://a/s"), Some(1));
    assert_eq!(extract_topmost_sorting_id_by_types(&input.graph, &order, "http://a/t"), None);
    assert_eq!(extract_topmost_sorting_id_by_types(&input.graph, &order, "http://a/u"), None);
    assert_eq!(extract_topmost_sorting_id_by_types(&input.graph, &order, "http://a/none"), None);
}

#[test]
fn tree_of_a_document() {
    let text = "@prefix ex: <http://a/> .\nex:s ex:p _:in , _:shared ; ex:q ( 1 ) . ex:t ex:p _:shared . _:in ex:r 1 . _:free ex:r 2 .";
    let input = parse(text.as_bytes(), &opts()).unwrap();
    let mut root = TRoot::new();
    let mut unreferenced: Vec<String> = Vec::new();
    construct_tree(&mut root, &mut unreferenced, &input, true);
    assert_eq!(unreferenced, vec!["free".to_string()]);
    assert_eq!(root.subjects.len(), 3);
    assert!(matches!(&root.subjects[0].subject, TSubject::NamedNode(n) if n.as_named_node_ref() == "http://a/s"));
    assert!(matches!(&root.subjects[1].subject, TSubject::NamedNode(n) if n.as_named_node_ref() == "http://a/t"));
    assert!(matches!(&root.subjects[2].subject, TSubject::BlankNodeAnonymous(b) if b.node.0 == "free"));
    let s = &root.subjects[0];
    assert_eq!(s.predicates.len(), 2);
    let p = s.predicates.iter().find(|p| p.predicate.as_named_node_ref() == "http://a/p").unwrap();
    assert_eq!(p.objects.len(), 2);
    assert!(p.objects.iter().any(|o| matches!(o, TObject::BlankNodeAnonymous(b) if b.node.0 == "in" && b.predicates.len() == 1)));
    assert!(p.objects.iter().any(|o| matches!(o, TObject::BlankNodeLabel(b) if b.0 == "shared")));
    let q = s.predicates.iter().find(|p| p.predicate.as_named_node_ref() == "http://a/q").unwrap();
    assert!(matches!(&q.objects[0], TObject::Collection(TCollection::WithContent(c)) if c.rest.len() == 1));

    let mut labelled = TRoot::new();
    let mut none: Vec<String> = Vec::new();
    construct_tree(&mut labelled, &mut none, &input, false);
    assert!(none.is_empty());
    assert_eq!(labelled.subjects.len(), input.subjects_in_order.len());
}

#[test]
fn nodes_are_written_under_the_indentation_in_force() {
    let options = opts();
    let mut context = Context::new();
    context.indent = "--".to_string();
    prttl::formatter::fmt_obj(&options, &mut context, &TObject::Collection(TCollection::Empty));
    assert_eq!(context.output, "--()");
    assert_eq!(context.indent, "--");
    let mut context = Context::new();
    let inline = TObject::BlankNodeAnonymous(TBlankNode {
        node: TBlankNodeRef("b".to_string()),
        predicates: vec![TPredicateCont {
            predicate: TNamedNode::Plain(prttl::vocab::RDF_TYPE.to_string()),
            objects: vec![
                TObject::NamedNode(TNamedNode::Prefixed("http://a/T".to_string(), "ex".to_string(), "T".to_string())),
                TObject::BlankNodeLabel(TBlankNodeRef("x".to_string())),
            ],
        }],
    });
    prttl::formatter::fmt_obj(&options, &mut context, &inline);
    assert_eq!(context.output, "[\n  a\n    ex:T ,\n    _:x ;\n]");
    let mut context = Context::new();
    prttl::formatter::fmt_subj(&options, &mut context, &TSubject::NamedNode(TNamedNode::Based("http://b/x".to_string(), "x".to_string())));
    assert_eq!(context.output, "<x>");
}

fn written(literal: &TLiteralRef, indent: &str) -> String {
    let mut context = Context::new();
    context.indent = indent.to_string();
    prttl::formatter::fmt_literal(&mut context, literal);
    context.output
}

#[test]
fn doubles_are_written_by_their_form() {
    let double = |v: &str| literal(v, prttl::vocab::XSD_DOUBLE, None);
    assert_eq!(written(&double("1e5"), " "), " 1e5");
    assert_eq!(written(&double("-1.5E-3"), ""), "-1.5E-3");
    assert_eq!(written(&double(".5e0"), ""), ".5e0");
    assert_eq!(written(&double("1.e+7"), ""), "1.e+7");
    assert_eq!(written(&double("1e5x"), ""), "\"1e5x\"^^<http://www.w3.org/2001/XMLSchema#double>");
    assert_eq!(written(&double("x1e5"), ""), "\"x1e5\"^^<http://www.w3.org/2001/XMLSchema#double>");
    assert_eq!(written(&double("1e5\n"), ""), "\"1e5\\n\"^^<http://www.w3.org/2001/XMLSchema#double>");
    assert_eq!(written(&double("INF"), ""), "\"INF\"^^<http://www.w3.org/2001/XMLSchema#double>");
    assert_eq!(written(&double("1.5"), ""), "\"1.5\"^^<http://www.w3.org/2001/XMLSchema#double>");
    assert_eq!(written(&double("e5"), ""), "\"e5\"^^<http://www.w3.org/2001/XMLSchema#double>");
    let integer = literal("7", prttl::vocab::XSD_INTEGER, None);
    assert_eq!(written(&integer, ""), "7");
    let decimal = |v: &str| literal(v, prttl::vocab::XSD_DECIMAL, None);
    assert_eq!(written(&decimal("1.5"), ""), "1.5");
    assert_eq!(written(&decimal("-.5"), ""), "-.5");
    assert_eq!(written(&decimal("7."), ""), "\"7.\"^^<http://www.w3.org/2001/XMLSchema#decimal>");
    assert_eq!(written(&decimal("7"), ""), "\"7\"^^<http://www.w3.org/2001/XMLSchema#decimal>");
    assert_eq!(written(&decimal("1.5e3"), ""), "\"1.5e3\"^^<http://www.w3.org/2001/XMLSchema#decimal>");
    assert_eq!(written(&decimal("a.b"), ""), "\"a.b\"^^<http://www.w3.org/2001/XMLSchema#decimal>");
    let tagged = literal("a\nb", prttl::vocab::RDF_LANG_STRING, Some("en"));
    assert_eq!(written(&tagged, ""), "\"\"\"a\nb\"\"\"@en");
    let other = TLiteralRef(
        RdfLiteral {
            value: "x\"y\\z\n".to_string(),
            datatype: "http://a/dt".to_string(),
            language: None,
            direction: None,
        },
        Some(TNamedNode::Prefixed("http://a/dt".to_string(), "a".to_string(), "dt".to_string())),
    );
    assert_eq!(written(&other, ""), "\"x\\\"y\\\\z\\n\"^^a:dt");
}

#[test]
fn typed_literals_and_long_strings_are_read_back() {
    let text = "<http://a/s> <http://a/p> \"a\\\"b\\\\c\"^^<http://a/dt> , \"back\\\\slash\\nand \\\"\\\"\\\"quotes\\\"\" .";
    let input = parse(text.as_bytes(), &opts()).unwrap();
    let first = prttl::formatter::format(&input, &opts()).unwrap();
    assert!(first.contains("\"a\\\"b\\\\c\"^^<http://a/dt>"));
    assert!(first.contains("\"\"\"back\\\\slash\nand \"\"\\\"quotes\\\"\"\"\""));
    let again = parse(first.as_bytes(), &opts()).unwrap();
    assert_eq!(again.graph.len(), 2);
    assert!(again.graph.iter().any(|t| matches!(t.object, oxrdf::TermRef::Literal(l) if l.value() == "a\"b\\c")));
    assert!(again
        .graph
        .iter()
        .any(|t| matches!(t.object, oxrdf::TermRef::Literal(l) if l.value() == "back\\slash\nand \"\"\"quotes\"")));
    assert_eq!(prttl::formatter::format(&again, &opts()).unwrap(), first);
}

#[test]
fn entries_of_a_configured_order() {
    let prefixes = vec![pair("ex", "http://a/")];
    assert_eq!(prttl::formatter::resolve_name(&prefixes, "ex:p"), "http://a/p");
    assert_eq!(prttl::formatter::resolve_name(&prefixes, "ex:p:q"), "http://a/p:q");
    assert_eq!(prttl::formatter::resolve_name(&prefixes, "other:p"), "other:p");
    assert_eq!(prttl::formatter::resolve_name(&prefixes, "plain"), "plain");
    assert_eq!(prttl::formatter::resolve_name(&prefixes, ":p"), ":p");
    assert!(matches!(
        prttl::formatter::order_entry("ex:p", Ok("http://a/p".to_string())),
        Ok(iri) if iri == "http://a/p"
    ));
    let refused = oxrdf::NamedNode::new("no iri").unwrap_err();
    assert!(matches!(
        prttl::formatter::order_entry("no iri", Err(refused)),
        Err(Error::FailedToCreateTurtleStructure(message)) if message == "Failed to parse 'no iri' as named node"
    ));
}

#[test]
fn quoted_strings_through_the_formatter() {
    let mut out = String::new();
    prttl::formatter::TurtleFormatter::print_quoted_str("a\"b", &mut out);
    prttl::formatter::TurtleFormatter::print_unquoted_str("c\nd", &mut out);
    assert_eq!(out, "\"a\\\"b\"\"\"\"c\nd\"\"\"");
}

#[test]
fn a_tree_is_sorted_at_every_level() {
    let options = opts();
    let graph = parse(b"", &options).unwrap().graph;
    let objects = vec![];
    let ctx = context(&options, &graph, &objects, &[], &[]);
    let named = |n: &str| TNamedNode::Plain(format!("http://a/{}", n));
    let node = |n: &str| TObject::NamedNode(named(n));
    let list = TObject::Collection(TCollection::WithContent(prttl::ast::TCollectionRef {
        node: TBlankNode { node: TBlankNodeRef("l".to_string()), predicates: vec![] },
        rest: vec![node("z"), node("y")],
    }));
    let mut root = TRoot::new();
    root.subjects.push(prttl::ast::TSubjectCont {
        subject: TSubject::NamedNode(named("t")),
        predicates: vec![],
    });
    root.subjects.push(prttl::ast::TSubjectCont {
        subject: TSubject::NamedNode(named("s")),
        predicates: vec![
            TPredicateCont { predicate: named("q"), objects: vec![node("b"), list, node("a")] },
            TPredicateCont { predicate: named("p"), objects: vec![node("c")] },
        ],
    });
    root.sort(&ctx);
    assert!(matches!(&root.subjects[0].subject, TSubject::NamedNode(n) if n.as_named_node_ref() == "http://a/s"));
    let s = &root.subjects[0];
    assert_eq!(s.predicates[0].predicate.as_named_node_ref(), "http://a/p");
    let q = &s.predicates[1];
    assert!(matches!(&q.objects[0], TObject::NamedNode(n) if n.as_named_node_ref() == "http://a/a"));
    assert!(matches!(&q.objects[1], TObject::NamedNode(n) if n.as_named_node_ref() == "http://a/b"));
    match &q.objects[2] {
        TObject::Collection(TCollection::WithContent(c)) => {
            assert!(matches!(&c.rest[0], TObject::NamedNode(n) if n.as_named_node_ref() == "http://a/z"));
            assert!(matches!(&c.rest[1], TObject::NamedNode(n) if n.as_named_node_ref() == "http://a/y"));
        },
        other => panic!("{:?}", other),
    }
}

#[test]
fn context_starts_empty() {
    let context = Context::new();
    assert_eq!(context.indent, "");
    assert_eq!(context.output, "");
}

#[test]
fn terms_are_compared_by_what_they_denote() {
    let a = RdfTerm::Literal(RdfLiteral {
        value: "1".to_string(),
        datatype: prttl::vocab::XSD_INTEGER.to_string(),
        language: None,
        direction: None,
    });
    let b = a.clone();
    assert!(a.same(&b));
    assert!(!a.same(&RdfTerm::NamedNode("1".to_string())));
    assert!(RdfTerm::BlankNode("x".to_string()).same(&RdfTerm::BlankNode("x".to_string())));
    assert!(!RdfTerm::BlankNode("x".to_string()).same(&RdfTerm::NamedNode("x".to_string())));
    let triple = RdfTriple {
        subject: Subject::BlankNode("s".to_string()),
        predicate: "http://a/p".to_string(),
        object: a,
    };
    let quoted = RdfTerm::Triple(Box::new(triple.clone()));
    assert!(quoted.same(&RdfTerm::Triple(Box::new(triple.clone()))));
    assert!(triple.same(&triple.clone()));
    assert!(triple.subject.same(&Subject::BlankNode("s".to_string())));
    assert!(!triple.subject.same(&Subject::NamedNode("s".to_string())));
}

fn round_trip(text: &str) -> (usize, usize, String) {
    let input = parse(text.as_bytes(), &opts()).unwrap();
    let written = prttl::formatter::format(&input, &opts()).unwrap();
    let again = parse(written.as_bytes(), &opts()).unwrap();
    assert_eq!(prttl::formatter::format(&again, &opts()).unwrap(), written);
    (input.graph.len(), again.graph.len(), written)
}

#[test]
fn a_list_that_two_triples_refer_to_keeps_its_label() {
    let (before, after, written) = round_trip(
        "@prefix rdf: <http://www.w3.org/1999/02/22-rdf-syntax-ns#> .\n\
         <http://a/s> <http://a/p> _:l . <http://a/t> <http://a/p> _:l . _:l rdf:first 1 ; rdf:rest rdf:nil .",
    );
    assert_eq!((before, after), (4, 4));
    assert_eq!(
        written,
        "@prefix rdf: <http://www.w3.org/1999/02/22-rdf-syntax-ns#> .\n\n<http://a/s> <http://a/p> _:l .\n<http://a/t> <http://a/p> _:l .\n_:l\n  rdf:first 1 ;\n  rdf:rest () ;\n  .\n\n"
    );
}

#[test]
fn a_list_that_stands_alone_is_written_by_its_triples() {
    let (before, after, written) = round_trip(
        "@prefix rdf: <http://www.w3.org/1999/02/22-rdf-syntax-ns#> .\n_:l rdf:first 1 ; rdf:rest rdf:nil .",
    );
    assert_eq!((before, after), (2, 2));
    assert_eq!(
        written,
        "@prefix rdf: <http://www.w3.org/1999/02/22-rdf-syntax-ns#> .\n\n[\n  rdf:first 1 ;\n  rdf:rest () ;\n] .\n\n"
    );
}

#[test]
fn a_list_with_triples_of_its_own_heads_a_block() {
    let (before, after, written) = round_trip(
        "@prefix rdf: <http://www.w3.org/1999/02/22-rdf-syntax-ns#> .\n\
         _:l rdf:first 1 ; rdf:rest rdf:nil ; <http://a/q> 2 .",
    );
    assert_eq!((before, after), (3, 3));
    assert_eq!(written, "@prefix rdf: <http://www.w3.org/1999/02/22-rdf-syntax-ns#> .\n\n( 1 ) <http://a/q> 2 .\n\n");
}

#[test]
fn a_circle_through_a_list_loses_nothing() {
    let (before, after, written) = round_trip(
        "@prefix rdf: <http://www.w3.org/1999/02/22-rdf-syntax-ns#> .\n\
         _:a <http://a/p> (_:b 1) . _:b <http://a/q> _:a .",
    );
    assert_eq!((before, after), (6, 6));
    assert!(written.contains("_:b <http://a/q> _:a .\n"));
    assert!(written.contains("rdf:rest () ;\n"));
}

#[test]
fn lists_that_hold_each_other_lose_nothing() {
    let (before, after, written) = round_trip(
        "@prefix rdf: <http://www.w3.org/1999/02/22-rdf-syntax-ns#> .\n\
         _:a rdf:first _:b ; rdf:rest rdf:nil . _:b rdf:first _:a ; rdf:rest rdf:nil .",
    );
    assert_eq!((before, after), (4, 4));
    assert!(written.contains("rdf:first _:b ;\n"));
    assert!(written.contains("rdf:first _:a ;\n"));
}

#[test]
fn a_list_whose_inner_node_is_referred_to_is_written_by_its_triples() {
    let (before, after, written) = round_trip(
        "@prefix rdf: <http://www.w3.org/1999/02/22-rdf-syntax-ns#> .\n\
         <http://a/s> <http://a/p> _:n1 . <http://a/t> <http://a/p> _:n2 .\n\
         _:n1 rdf:first 1 ; rdf:rest _:n2 . _:n2 rdf:first 2 ; rdf:rest rdf:nil .",
    );
    assert_eq!((before, after), (6, 6));
    assert!(written.contains("<http://a/t> <http://a/p> _:n2 .\n"));
    assert!(written.contains("rdf:rest _:n2 ;\n"));
}

#[test]
fn nested_nodes_and_lists_are_read_back() {
    let (before, after, _) = round_trip(
        "<http://a/s> <http://a/p> [ <http://a/q> ( 1 [ <http://a/r> ( 2 ) ] \"x\"@en ) ] , ( ) , [ ] .",
    );
    assert_eq!(before, after);
}

#[test]
fn booleans_and_integers_are_written_as_they_are() {
    let boolean = |v: &str| literal(v, prttl::vocab::XSD_BOOLEAN, None);
    assert_eq!(written(&boolean("true"), ""), "true");
    assert_eq!(written(&boolean("false"), " "), " false");
    assert_eq!(written(&boolean("1"), ""), "1");
    let integer = |v: &str| literal(v, prttl::vocab::XSD_INTEGER, None);
    assert_eq!(written(&integer("-12"), ""), "-12");
    assert_eq!(written(&integer("+0"), ""), "+0");
    assert_eq!(written(&integer("007"), ""), "007");
    let (before, after, text) = round_trip("<http://a/s> <http://a/p> true , false , 7 , -1 , +12 .");
    assert_eq!((before, after), (5, 5));
    assert!(text.contains("    +12 ,\n"));
}

#[test]
fn directional_strings_keep_tag_and_direction() {
    let (before, after, text) = round_trip("<http://a/s> <http://a/p> \"x\"@en--ltr , \"y\"@ar--rtl , \"x\"@en .");
    assert_eq!((before, after), (3, 3));
    assert!(text.contains("\"x\"@en--ltr"));
    assert!(text.contains("\"y\"@ar--rtl"));
    let again = parse(text.as_bytes(), &opts()).unwrap();
    assert!(again.graph.iter().any(|t| matches!(
        t.object,
        oxrdf::TermRef::Literal(l) if l.value() == "y" && l.language() == Some("ar") && l.direction() == Some(oxrdf::BaseDirection::Rtl)
    )));
}

#[test]
fn iris_are_relative_to_the_base_only_where_that_is_read_back() {
    let text = "@base <http://a/d/> .\n\
        <http://a/d/sub/file> <http://a/p> <http://a/d/b:c> , <http://a/d/.hidden> , <http://a/d/x/.y> , \
        <http://a/d/> , <http://a/d/q?k=v#f> , <http://a/d//root> .";
    let (before, after, written) = round_trip(text);
    assert_eq!((before, after), (6, 6));
    assert!(written.contains("\n<sub/file>\n"));
    assert!(written.contains("<http://a/d/b:c>"));
    assert!(written.contains("<http://a/d/.hidden>"));
    assert!(written.contains("<http://a/d/x/.y>"));
    assert!(written.contains("<http://a/d//root>"));
    assert!(written.contains(" <> ,\n"));
    assert!(written.contains("<q?k=v#f>"));
    let again = parse(written.as_bytes(), &opts()).unwrap();
    for iri in ["<http://a/d/b:c>", "<http://a/d/.hidden>", "<http://a/d/x/.y>", "<http://a/d/>", "<http://a/d/q?k=v#f>", "<http://a/d//root>"] {
        assert!(again.graph.iter().any(|t| t.object.to_string() == iri), "{}", iri);
    }
    assert!(again.graph.iter().all(|t| t.subject.to_string() == "<http://a/d/sub/file>"));

    let (before, after, written) = round_trip("@base <http://a/x> .\n<http://a/xy> <http://a/p> <http://a/x#f> .");
    assert_eq!((before, after), (1, 1));
    assert!(written.contains("<http://a/xy> <http://a/p> <#f> ."));
    let again = parse(written.as_bytes(), &opts()).unwrap();
    assert!(again.graph.iter().all(|t| t.subject.to_string() == "<http://a/xy>" && t.object.to_string() == "<http://a/x#f>"));
}

#[test]
fn blank_nodes_of_quoted_triples_keep_their_labels() {
    let text = "<http://a/s> <http://a/p> <<( _:x <http://a/b> _:y )>> . _:x <http://a/q> 1 . \
                <http://a/t> <http://a/p> _:y . _:y <http://a/q> 2 .";
    let input = parse(text.as_bytes(), &opts()).unwrap();
    assert!(nested_blank_nodes(&input.graph).is_empty());
    let written = prttl::formatter::format(&input, &opts()).unwrap();
    assert!(written.contains("_:x <http://a/q> 1 .\n"));
    assert!(written.contains("_:y <http://a/q> 2 .\n"));
    assert!(written.contains("<http://a/t> <http://a/p> _:y .\n"));
    assert!(written.contains("_:x "));
    assert!(!written.contains("["));
    assert!(parse(written.as_bytes(), &opts()).is_ok());
}

#[test]
fn the_last_numbered_blank_node_is_found_like_any_other() {
    let text = "@prefix rdf: <http://www.w3.org/1999/02/22-rdf-syntax-ns#> .\n\
        _:ffffffffffffffffffffffffffffffff <http://a/p> 1 , 2 ; <http://a/q> <http://a/o> .\n\
        <http://a/s> <http://a/p> _:ffffffffffffffffffffffffffffffff , _:fffffffffffffffffffffffffffffffe .\n\
        <http://a/t> <http://a/p> _:ffffffffffffffffffffffffffffffff .\n\
        _:fffffffffffffffffffffffffffffffe <http://a/p> 3 .";
    let (before, after, written) = round_trip(text);
    assert_eq!((before, after), (7, 7));
    assert!(written.contains("_:ffffffffffffffffffffffffffffffff\n  <http://a/p>\n    1 ,\n    2 ;\n  <http://a/q> <http://a/o> ;\n  .\n"));
    assert!(written.contains("<http://a/t> <http://a/p> _:ffffffffffffffffffffffffffffffff .\n"));
    assert!(written.contains("[ <http://a/p> 3 ]"));
}

#[test]
fn a_list_is_found_through_the_last_numbered_blank_node() {
    let text = "@prefix rdf: <http://www.w3.org/1999/02/22-rdf-syntax-ns#> .\n\
        <http://a/s> <http://a/p> _:a .\n\
        _:a rdf:first 1 ; rdf:rest _:ffffffffffffffffffffffffffffffff .\n\
        _:ffffffffffffffffffffffffffffffff rdf:first 2 ; rdf:rest rdf:nil .";
    let input = parse(text.as_bytes(), &opts()).unwrap();
    let mut involved: Vec<RdfTriple> = Vec::new();
    let cols = extract_non_empty_collections(&input.graph, &mut involved);
    assert_eq!(cols.len(), 1);
    assert_eq!(cols[0].0, "a");
    assert_eq!(cols[0].1.len(), 2);
    assert_eq!(involved.len(), 4);
    let (before, after, written) = round_trip(text);
    assert_eq!((before, after), (5, 5));
    assert!(written.contains("<http://a/s>\n  <http://a/p>\n    (\n      1\n      2\n    ) ;\n  .\n"));
}

#[test]
fn a_quoted_triple_that_ends_in_the_last_numbered_blank_node_is_found() {
    let text = "@prefix rdf: <http://www.w3.org/1999/02/22-rdf-syntax-ns#> .\n\
        _:a rdf:first 1 ; rdf:rest rdf:nil ; <http://a/p> 2 .\n\
        _:b rdf:rest <<( <http://a/x> <http://a/y> _:ffffffffffffffffffffffffffffffff )>> .";
    let input = parse(text.as_bytes(), &opts()).unwrap();
    let written = prttl::formatter::format(&input, &opts()).unwrap();
    assert!(written.contains("( 1 ) <http://a/p> 2 .\n"));
    assert!(written.contains("_:ffffffffffffffffffffffffffffffff"));
}
