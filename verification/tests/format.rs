use oxrdf::graph::CanonicalizationAlgorithm;
use oxrdf::Graph;
use oxttl::TurtleParser;
use prttl::options::{FormatOptions, SpecialPredicateOrder};
use prttl::parser::parse;

fn strict(single_object_on_new_line: bool) -> FormatOptions {
    FormatOptions {
        indentation: "  ".to_string(),
        single_leafed_new_lines: single_object_on_new_line,
        force: true,
        prtr_sorting: true,
        check: false,
        sparql_syntax: false,
        max_nesting: true,
        canonicalize: false,
        warn_unsupported_numbers: true,
        subject_type_order_preset: None,
        subject_type_order: None,
        predicate_order_preset: None,
        predicate_order: None,
    }
}

fn relaxed(single_object_on_new_line: bool) -> FormatOptions {
    let mut options = FormatOptions::default();
    options.single_leafed_new_lines = single_object_on_new_line;
    options.canonicalize = false;
    options
}

fn with_predicate_order(names: &[&str]) -> FormatOptions {
    let mut options = relaxed(false);
    options.predicate_order = Some(names.iter().map(|n| n.to_string()).collect());
    options
}

fn with_predicate_preset() -> FormatOptions {
    let mut options = relaxed(false);
    options.predicate_order_preset = Some(SpecialPredicateOrder::Rdf);
    options
}

fn with_subject_type_order(names: &[&str]) -> FormatOptions {
    let mut options = relaxed(false);
    options.subject_type_order = Some(names.iter().map(|n| n.to_string()).collect());
    options
}

fn sparql() -> FormatOptions {
    let mut options = relaxed(false);
    options.sparql_syntax = true;
    options
}

fn label_all() -> FormatOptions {
    let mut options = relaxed(false);
    options.max_nesting = false;
    options
}

fn tabs() -> FormatOptions {
    let mut options = relaxed(false);
    options.indentation = "\t".to_string();
    options
}

fn run(input: &str, options: &FormatOptions) -> String {
    let parsed = parse(input.as_bytes(), options).unwrap();
    prttl::formatter::format(&parsed, options).unwrap()
}

fn check(input: &str, expected: &str, options: FormatOptions) {
    let output = run(input, &options);
    assert_eq!(output, expected);
}

fn graph_of(text: &str) -> Graph {
    let mut graph = Graph::new();
    for triple in TurtleParser::new().with_base_iri("http://a.a").unwrap().for_slice(text.as_bytes()) {
        graph.insert(&triple.unwrap());
    }
    graph.canonicalize(CanonicalizationAlgorithm::Unstable);
    graph
}

/// The formatted text holds the graph of the input, and formatting it
/// again changes nothing.
fn check_round_trip(input: &str, options: &FormatOptions) {
    let output = run(input, options);
    assert_eq!(graph_of(input), graph_of(&output));
    assert_eq!(run(&output, options), output);
}

const SIMPLE_INPUT: &str = "@prefix ex: <http://example.org/> .\nex:b ex:p2 \"w\" , \"v\" ; ex:p1 ex:o2 , ex:o1 .\nex:a ex:p1 3 , 1 .\n";

const SIMPLE_OUTPUT: &str = "@prefix ex: <http://example.org/> .\n\nex:a\n  ex:p1\n    1 ,\n    3 ;\n  .\n\nex:b\n  ex:p1\n    ex:o1 ,\n    ex:o2 ;\n  ex:p2\n    \"v\" ,\n    \"w\" ;\n  .\n\n";

const BLANK_NODES_PRTR_INPUT: &str = "@prefix ex: <http://example.org/> .\n@prefix prtr: <http://w3id.org/oseg/ont/prtr#> .\n\nex:s ex:p\n    [ prtr:sortingId 3 ; ex:name \"third\" ] ,\n    [ ex:name \"none\" ] ,\n    [ prtr:sortingId 1 ; ex:name \"first\" ; ex:child [ prtr:sortingId 20 ; ex:v 2 ] , [ prtr:sortingId 10 ; ex:v 1 ] ] ,\n    [ prtr:sortingId 2 ; ex:name \"second\" ] .\n";

const BLANK_NODES_PRTR_OUTPUT: &str = "@prefix ex: <http://example.org/> .\n@prefix prtr: <http://w3id.org/oseg/ont/prtr#> .\n\nex:s\n  ex:p\n    [\n      ex:child\n        [\n          ex:v 1 ;\n          prtr:sortingId 10 ;\n        ] ,\n        [\n          ex:v 2 ;\n          prtr:sortingId 20 ;\n        ] ;\n      ex:name \"first\" ;\n      prtr:sortingId 1 ;\n    ] ,\n    [\n      ex:name \"second\" ;\n      prtr:sortingId 2 ;\n    ] ,\n    [\n      ex:name \"third\" ;\n      prtr:sortingId 3 ;\n    ] ,\n    [ ex:name \"none\" ] ;\n  .\n\n";

const TBL_DIFF_INPUT: &str = "@prefix : <http://example.org/ns#> .\n@prefix foaf: <http://xmlns.com/foaf/0.1/> .\n@prefix rdf: <http://www.w3.org/1999/02/22-rdf-syntax-ns#> .\n\n:graph2 :has ( :c :b :a ) ; :also ( ) ; :one ( \"single\" ) .\n:graph1 foaf:knows _:x ; a foaf:Person , :Thing .\n_:x foaf:name \"X\" ; foaf:knows _:y .\n_:y foaf:name \"Y\" ; foaf:knows _:x .\n";

const TBL_DIFF_OUTPUT: &str = "@prefix : <http://example.org/ns#> .\n@prefix foaf: <http://xmlns.com/foaf/0.1/> .\n@prefix rdf: <http://www.w3.org/1999/02/22-rdf-syntax-ns#> .\n\n:graph1\n  a\n    :Thing ,\n    foaf:Person ;\n  foaf:knows _:x ;\n  .\n\n:graph2\n  :also () ;\n  :has\n    (\n      :c\n      :b\n      :a\n    ) ;\n  :one ( \"single\" ) ;\n  .\n\n_:x\n  foaf:knows\n    [\n      foaf:knows _:x ;\n      foaf:name \"Y\" ;\n    ] ;\n  foaf:name \"X\" ;\n  .\n\n";

const ALL_INPUT: &str = "@base <http://example.org/base/> .\n@prefix ex: <http://example.org/ns#> .\n@prefix xsd: <http://www.w3.org/2001/XMLSchema#> .\n@prefix rdf: <http://www.w3.org/1999/02/22-rdf-syntax-ns#> .\n\n<doc> ex:title \"Title\"@en , \"Titel\"@de , \"plain\" ;\n  ex:text \"first line\\nsecond line\" ;\n  ex:num 42 , 3.14 , 1.0e3 , \"7\"^^xsd:byte , \"2.\"^^xsd:decimal , true ;\n  a ex:Document ;\n  ex:author [ ex:name \"A\" ; ex:mbox <mailto:a@example.org> ] ;\n  ex:list ( 1 ( 2 3 ) [ ex:k \"v\" ] ) ;\n  ex:empty ( ) ;\n  ex:ref _:shared , <other> , <http://elsewhere.org/x> ;\n  ex:note [ ] .\n<other> ex:ref _:shared .\n_:shared ex:label \"shared\" .\n_:alone ex:label \"alone\" ; ex:more \"text\" .\nex:thing ex:local.name ex:with-dash , ex:under_score .\n";

const ALL_OUTPUT: &str = "@base <http://example.org/base/> .\n@prefix ex: <http://example.org/ns#> .\n@prefix rdf: <http://www.w3.org/1999/02/22-rdf-syntax-ns#> .\n@prefix xsd: <http://www.w3.org/2001/XMLSchema#> .\n\nex:thing\n  ex:local.name\n    ex:under_score ,\n    ex:with-dash ;\n  .\n\n<doc>\n  a ex:Document ;\n  ex:author\n    [\n      ex:mbox <mailto:a@example.org> ;\n      ex:name \"A\" ;\n    ] ;\n  ex:empty () ;\n  ex:list\n    (\n      1\n      (\n        2\n        3\n      )\n      [ ex:k \"v\" ]\n    ) ;\n  ex:note [] ;\n  ex:num\n    true ,\n    \"7\"^^xsd:byte ,\n    \"2.\"^^xsd:decimal ,\n    3.14 ,\n    1.0e3 ,\n    42 ;\n  ex:ref\n    <other> ,\n    <http://elsewhere.org/x> ,\n    _:shared ;\n  ex:text \"\"\"first line\nsecond line\"\"\" ;\n  ex:title\n    \"Titel\"@de ,\n    \"Title\"@en ,\n    \"plain\" ;\n  .\n\n<other> ex:ref _:shared .\n[\n  ex:label \"alone\" ;\n  ex:more \"text\" ;\n] .\n\n_:shared ex:label \"shared\" .\n";

const ALL_PRTR_INPUT: &str = "@prefix ex: <http://example.org/ns#> .\n@prefix prtr: <http://w3id.org/oseg/ont/prtr#> .\n@prefix rdf: <http://www.w3.org/1999/02/22-rdf-syntax-ns#> .\n\nex:shape a ex:Shape ;\n  ex:property\n    [ prtr:sortingId 2 ; ex:path ex:b ; ex:in ( \"y\" \"x\" ) ] ,\n    [ prtr:sortingId 1 ; ex:path ex:a ; ex:or ( [ prtr:sortingId 2 ; ex:v 2 ] [ prtr:sortingId 1 ; ex:v 1 ] ) ] ,\n    [ prtr:sortingId 3 ; ex:path ex:c ] .\n_:l1 prtr:sortingId 5 ; ex:v \"five\" .\n_:l2 prtr:sortingId 4 ; ex:v \"four\" .\nex:x ex:uses _:l1 , _:l2 .\nex:y ex:uses _:l2 , _:l1 .\n";

const ALL_PRTR_OUTPUT: &str = "@prefix ex: <http://example.org/ns#> .\n@prefix prtr: <http://w3id.org/oseg/ont/prtr#> .\n@prefix rdf: <http://www.w3.org/1999/02/22-rdf-syntax-ns#> .\n\nex:shape\n  a ex:Shape ;\n  ex:property\n    [\n      ex:or\n        (\n          [\n            ex:v 2 ;\n            prtr:sortingId 2 ;\n          ]\n          [\n            ex:v 1 ;\n            prtr:sortingId 1 ;\n          ]\n        ) ;\n      ex:path ex:a ;\n      prtr:sortingId 1 ;\n    ] ,\n    [\n      ex:in\n        (\n          \"y\"\n          \"x\"\n        ) ;\n      ex:path ex:b ;\n      prtr:sortingId 2 ;\n    ] ,\n    [\n      ex:path ex:c ;\n      prtr:sortingId 3 ;\n    ] ;\n  .\n\nex:x\n  ex:uses\n    _:l2 ,\n    _:l1 ;\n  .\n\nex:y\n  ex:uses\n    _:l2 ,\n    _:l1 ;\n  .\n\n_:l2\n  ex:v \"four\" ;\n  prtr:sortingId 4 ;\n  .\n\n_:l1\n  ex:v \"five\" ;\n  prtr:sortingId 5 ;\n  .\n\n";

#[test]
fn test_simple() {
    check(SIMPLE_INPUT, SIMPLE_OUTPUT, relaxed(false));
}

#[test]
fn test_simple_stable() {
    check(SIMPLE_OUTPUT, SIMPLE_OUTPUT, relaxed(false));
}

#[test]
fn test_simple_strict() {
    check(SIMPLE_INPUT, SIMPLE_OUTPUT, strict(true));
}

#[test]
fn test_simple_strict_stable() {
    check(SIMPLE_OUTPUT, SIMPLE_OUTPUT, strict(true));
}

#[test]
fn test_blank_nodes_prtr_strict() {
    check(BLANK_NODES_PRTR_INPUT, BLANK_NODES_PRTR_OUTPUT, strict(false));
}

#[test]
fn test_blank_nodes_prtr_strict_stable() {
    check(BLANK_NODES_PRTR_OUTPUT, BLANK_NODES_PRTR_OUTPUT, strict(false));
}

#[test]
fn test_tbl_diff() {
    check(TBL_DIFF_INPUT, TBL_DIFF_OUTPUT, strict(false));
}

#[test]
fn test_all() {
    check(ALL_INPUT, ALL_OUTPUT, strict(false));
}

#[test]
fn test_all_prtr() {
    check(ALL_PRTR_INPUT, ALL_PRTR_OUTPUT, strict(false));
}

#[test]
fn test_all_prtr_stable() {
    check(ALL_PRTR_OUTPUT, ALL_PRTR_OUTPUT, strict(false));
}

#[test]
fn test_tbl_diff_stable() {
    check(TBL_DIFF_OUTPUT, TBL_DIFF_OUTPUT, strict(false));
}

#[test]
fn test_all_stable() {
    check(ALL_OUTPUT, ALL_OUTPUT, strict(false));
}

#[test]
fn output_holds_the_graph_of_the_input() {
    check_round_trip(SIMPLE_INPUT, &relaxed(false));
    check_round_trip(BLANK_NODES_PRTR_INPUT, &strict(false));
    check_round_trip(TBL_DIFF_INPUT, &strict(false));
    check_round_trip(ALL_INPUT, &strict(false));
    check_round_trip(ALL_PRTR_INPUT, &strict(false));
    check_round_trip(ALL_INPUT, &strict(true));
    check_round_trip(ALL_INPUT, &sparql());
}

#[test]
fn end_to_end_example() {
    check(
        "<http://a/s> <http://a/p> \"v\", \"w\" .",
        "\n<http://a/s>\n  <http://a/p>\n    \"v\" ,\n    \"w\" ;\n  .\n\n",
        relaxed(false),
    );
}

#[test]
fn empty_collection_is_written_as_parentheses() {
    check(
        "<http://a/s> <http://a/p> () .",
        "\n<http://a/s> <http://a/p> () .\n",
        relaxed(false),
    );
}

#[test]
fn rdf_nil_is_written_as_empty_collection() {
    check(
        "<http://a/s> <http://a/p> <http://www.w3.org/1999/02/22-rdf-syntax-ns#nil> .",
        "\n<http://a/s> <http://a/p> () .\n",
        relaxed(false),
    );
}

#[test]
fn blank_node_with_two_references_keeps_its_label() {
    check(
        "<http://a/s> <http://a/p> _:b . <http://a/t> <http://a/p> _:b . _:b <http://a/q> \"x\" .",
        "\n<http://a/s> <http://a/p> _:b .\n<http://a/t> <http://a/p> _:b .\n_:b <http://a/q> \"x\" .\n",
        relaxed(false),
    );
}

#[test]
fn chain_of_first_and_rest_is_written_as_collection() {
    check(
        "@prefix rdf: <http://www.w3.org/1999/02/22-rdf-syntax-ns#> .\n<http://a/s> <http://a/p> _:l1 .\n_:l1 rdf:first \"a\" ; rdf:rest _:l2 .\n_:l2 rdf:first \"b\" ; rdf:rest rdf:nil .\n",
        "@prefix rdf: <http://www.w3.org/1999/02/22-rdf-syntax-ns#> .\n\n<http://a/s>\n  <http://a/p>\n    (\n      \"a\"\n      \"b\"\n    ) ;\n  .\n\n",
        relaxed(false),
    );
}

#[test]
fn chain_with_list_types_is_written_as_collection() {
    check(
        "@prefix rdf: <http://www.w3.org/1999/02/22-rdf-syntax-ns#> .\n<http://a/s> <http://a/p> _:l1 .\n_:l1 rdf:first \"a\" ; rdf:rest _:l2 ; a rdf:List .\n_:l2 a rdf:List ; rdf:first \"b\" ; rdf:rest rdf:nil .\n",
        "@prefix rdf: <http://www.w3.org/1999/02/22-rdf-syntax-ns#> .\n\n<http://a/s>\n  <http://a/p>\n    (\n      \"a\"\n      \"b\"\n    ) ;\n  .\n\n",
        relaxed(false),
    );
}

#[test]
fn chain_with_extra_triple_is_written_as_triples() {
    check(
        "@prefix rdf: <http://www.w3.org/1999/02/22-rdf-syntax-ns#> .\n<http://a/s> <http://a/p> _:l1 .\n_:l1 rdf:first \"a\" ; rdf:rest _:l2 .\n_:l2 rdf:first \"b\" ; rdf:rest rdf:nil ; <http://a/extra> \"e\" .\n",
        "@prefix rdf: <http://www.w3.org/1999/02/22-rdf-syntax-ns#> .\n\n<http://a/s>\n  <http://a/p>\n    [\n      rdf:first \"a\" ;\n      rdf:rest\n        [\n          rdf:first \"b\" ;\n          rdf:rest () ;\n          <http://a/extra> \"e\" ;\n        ] ;\n    ] ;\n  .\n\n",
        relaxed(false),
    );
}

#[test]
fn chain_that_loops_is_written_as_triples() {
    check(
        "@prefix rdf: <http://www.w3.org/1999/02/22-rdf-syntax-ns#> .\n<http://a/s> <http://a/p> _:l1 .\n_:l1 rdf:first \"a\" ; rdf:rest _:l2 .\n_:l2 rdf:first \"b\" ; rdf:rest _:l3 .\n_:l3 rdf:first \"c\" ; rdf:rest _:l2 .\n",
        "@prefix rdf: <http://www.w3.org/1999/02/22-rdf-syntax-ns#> .\n\n<http://a/s>\n  <http://a/p>\n    [\n      rdf:first \"a\" ;\n      rdf:rest _:l2 ;\n    ] ;\n  .\n\n_:l2\n  rdf:first \"b\" ;\n  rdf:rest\n    [\n      rdf:first \"c\" ;\n      rdf:rest _:l2 ;\n    ] ;\n  .\n\n",
        relaxed(false),
    );
}

#[test]
fn ranked_predicates_come_first_in_rank_order() {
    check(
        "<http://a/s> <http://a/p3> \"3\" ; <http://a/p1> \"1\" ; <http://a/p2> \"2\" .",
        "\n<http://a/s>\n  <http://a/p2> \"2\" ;\n  <http://a/p1> \"1\" ;\n  <http://a/p3> \"3\" ;\n  .\n\n",
        with_predicate_order(&["http://a/p2", "http://a/p1"]),
    );
}

#[test]
fn predicate_order_takes_prefixed_names() {
    check(
        "@prefix a: <http://a/> .\na:s a:p3 \"3\" ; a:p1 \"1\" ; a:p2 \"2\" ; a a:T .",
        "@prefix a: <http://a/> .\n\na:s\n  a:p2 \"2\" ;\n  a:p1 \"1\" ;\n  a:p3 \"3\" ;\n  a a:T ;\n  .\n\n",
        with_predicate_order(&["a:p2", "a:p1"]),
    );
}

#[test]
fn predicate_order_preset_rdf() {
    check(
        "@prefix rdf: <http://www.w3.org/1999/02/22-rdf-syntax-ns#> .\n@prefix rdfs: <http://www.w3.org/2000/01/rdf-schema#> .\n@prefix ex: <http://a/> .\nex:s ex:first \"x\" ; rdfs:comment \"c\" ; rdfs:label \"l\" ; a ex:T .\n",
        "@prefix ex: <http://a/> .\n@prefix rdf: <http://www.w3.org/1999/02/22-rdf-syntax-ns#> .\n@prefix rdfs: <http://www.w3.org/2000/01/rdf-schema#> .\n\nex:s\n  a ex:T ;\n  rdfs:label \"l\" ;\n  rdfs:comment \"c\" ;\n  ex:first \"x\" ;\n  .\n\n",
        with_predicate_preset(),
    );
}

#[test]
fn subjects_are_ordered_by_the_rank_of_their_types() {
    check(
        "@prefix rdf: <http://www.w3.org/1999/02/22-rdf-syntax-ns#> .\n@prefix ex: <http://a/> .\nex:a a ex:Other .\nex:b a ex:Second .\nex:c a ex:First , ex:Other .\nex:d ex:p ex:o .\n",
        "@prefix ex: <http://a/> .\n@prefix rdf: <http://www.w3.org/1999/02/22-rdf-syntax-ns#> .\n\nex:c\n  a\n    ex:First ,\n    ex:Other ;\n  .\n\nex:b a ex:Second .\nex:a a ex:Other .\nex:d ex:p ex:o .\n",
        with_subject_type_order(&["ex:First", "ex:Second"]),
    );
}

#[test]
fn literals_are_ordered_by_datatype_before_value() {
    check(
        "@prefix xsd: <http://www.w3.org/2001/XMLSchema#> .\n<http://a/s> <http://a/p> \"1\"^^xsd:integer , \"1.0\"^^xsd:decimal .",
        "@prefix xsd: <http://www.w3.org/2001/XMLSchema#> .\n\n<http://a/s>\n  <http://a/p>\n    1.0 ,\n    1 ;\n  .\n\n",
        relaxed(false),
    );
}

#[test]
fn sparql_style_declarations() {
    check(
        "@base <http://b/> .\n@prefix ex: <http://a/> .\n<s> ex:p ex:o .",
        "BASE <http://b/>\nPREFIX ex: <http://a/>\n\n<s> ex:p ex:o .\n",
        sparql(),
    );
}

#[test]
fn single_object_on_a_new_line() {
    check(
        "@prefix ex: <http://a/> .\nex:s ex:p ex:o .",
        "@prefix ex: <http://a/> .\n\nex:s\n  ex:p\n    ex:o ;\n  .\n\n",
        strict(true),
    );
}

#[test]
fn string_forms() {
    check(
        "<http://a/s> <http://a/p> \"tab\\there\" , \"quote\\\"d\" , \"back\\\\slash\" , \"two\\nlines\" , \"cr\\n\\rlf\" , \"bell\\u0007\" , \"say \\\"\\\"\\\"hi\\\"\\\"\\\"\\nnow\\\"\" .",
        "\n<http://a/s>\n  <http://a/p>\n    \"back\\\\slash\" ,\n    \"bell\\u0007\" ,\n    \"cr\\n\\rlf\" ,\n    \"quote\\\"d\" ,\n    \"\"\"say \"\"\\\"hi\"\"\\\"\nnow\\\"\"\"\" ,\n    \"tab\\there\" ,\n    \"\"\"two\nlines\"\"\" ;\n  .\n\n",
        relaxed(false),
    );
}

#[test]
fn number_forms() {
    check(
        "@prefix xsd: <http://www.w3.org/2001/XMLSchema#> .\n<http://a/s> <http://a/p> \"1e5\"^^xsd:double , \"INF\"^^xsd:double , \"5\"^^xsd:decimal , \"5.5\"^^xsd:decimal , \"05\"^^xsd:integer , \"false\"^^xsd:boolean .",
        "@prefix xsd: <http://www.w3.org/2001/XMLSchema#> .\n\n<http://a/s>\n  <http://a/p>\n    false ,\n    \"5\"^^xsd:decimal ,\n    5.5 ,\n    1e5 ,\n    \"INF\"^^xsd:double ,\n    05 ;\n  .\n\n",
        relaxed(false),
    );
}

#[test]
fn local_name_forms() {
    check(
        "@prefix ex: <http://a/> .\nex:s ex:p ex:a.b , ex:a\\~b , ex:1st , <http://a/a×b> , ex: , <http://a/end.> .",
        "@prefix ex: <http://a/> .\n\nex:s\n  ex:p\n    ex: ,\n    ex:1st ,\n    ex:a.b ,\n    ex:a\\~b ,\n    <http://a/a×b> ,\n    ex:end\\. ;\n  .\n\n",
        relaxed(false),
    );
}

#[test]
fn unreferenced_blank_nodes_are_written_inline() {
    check(
        "@prefix ex: <http://a/> .\n[ ex:p ex:o ; ex:q [ ex:r 1 , 2 ] ] .\n[ ex:only \"one\" ] .",
        "@prefix ex: <http://a/> .\n\n[\n  ex:p ex:o ;\n  ex:q\n    [\n      ex:r\n        1 ,\n        2 ;\n    ] ;\n] .\n\n[ ex:only \"one\" ] .\n\n",
        relaxed(false),
    );
}

#[test]
fn collection_as_subject() {
    check(
        "@prefix ex: <http://a/> .\n( 1 2 ) ex:p ex:o .",
        "@prefix ex: <http://a/> .\n\n(\n  1\n  2\n) ex:p ex:o .\n\n",
        relaxed(false),
    );
}

#[test]
fn indentation_unit_is_repeated_per_level() {
    check(
        "@prefix ex: <http://a/> .\nex:s ex:p [ ex:q 1 , 2 ] .",
        "@prefix ex: <http://a/> .\n\nex:s\n\tex:p\n\t\t[\n\t\t\tex:q\n\t\t\t\t1 ,\n\t\t\t\t2 ;\n\t\t] ;\n\t.\n\n",
        tabs(),
    );
}

#[test]
fn empty_containers_stay_on_one_line() {
    check(
        "@prefix ex: <http://a/> .\nex:s ex:p [ ] , ( ( ) ) , ( [ ] ) .",
        "@prefix ex: <http://a/> .\n\nex:s\n  ex:p\n    ( () ) ,\n    ( [] ) ,\n    [] ;\n  .\n\n",
        relaxed(false),
    );
}

#[test]
fn quoted_triple_form() {
    check(
        "@prefix ex: <http://a/> .\nex:s ex:says <<( ex:a ex:b ex:c )>> .",
        "@prefix ex: <http://a/> .\n\nex:s\n  ex:says\n    <<     ex:a     ex:b     ex:c >> ;\n  .\n\n",
        relaxed(false),
    );
}

#[test]
fn deep_nesting_stays_nested() {
    let depth = 40;
    let mut input = String::from("@prefix ex: <http://a/> .\nex:s ex:p ");
    for _ in 0..depth {
        input.push_str("[ ex:p ");
    }
    input.push_str("ex:leaf");
    for _ in 0..depth {
        input.push_str(" ]");
    }
    input.push_str(" .");
    let output = run(&input, &relaxed(false));
    assert!(!output.contains("_:"));
    assert_eq!(output.matches('[').count(), depth);
    assert_eq!(output, format!("@prefix ex: <http://a/> .\n\nex:s ex:p {}ex:leaf{} .\n", "[ ex:p ".repeat(depth), " ]".repeat(depth)));
    check_round_trip(&input, &relaxed(false));
}

#[test]
fn nested_collections_stay_nested() {
    let input = "@prefix ex: <http://a/> .\nex:s ex:p ( ( ( ( ( 1 2 ) ) ) ) ) .";
    let output = run(input, &relaxed(false));
    assert!(!output.contains("_:"));
    assert!(!output.contains("first"));
    assert_eq!(output.matches('(').count(), 5);
    check_round_trip(input, &relaxed(false));
}

#[test]
fn predicates_with_a_rank_come_in_the_order_of_their_ranks() {
    check(
        "<http://a/s> <http://a/p3> <http://a/o> ; <http://a/p1> <http://a/o> ; <http://a/p2> <http://a/o> .",
        "\n<http://a/s>\n  <http://a/p1> <http://a/o> ;\n  <http://a/p2> <http://a/o> ;\n  <http://a/p3> <http://a/o> ;\n  .\n\n",
        with_predicate_order(&["http://a/p1", "http://a/p2"]),
    );
    check(
        "<http://a/s> <http://a/p0> <http://a/o> ; <http://a/p1> <http://a/o> ; <http://a/p2> <http://a/o> .",
        "\n<http://a/s>\n  <http://a/p1> <http://a/o> ;\n  <http://a/p2> <http://a/o> ;\n  <http://a/p0> <http://a/o> ;\n  .\n\n",
        with_predicate_order(&["http://a/p1", "http://a/p2"]),
    );
}

#[test]
fn end_to_end_example_is_stable() {
    let options = relaxed(false);
    let output = run("<http://a/s> <http://a/p> \"v\", \"w\" .", &options);
    assert_eq!(run(&output, &options), output);
}

#[test]
fn without_nesting_every_blank_node_has_a_label() {
    let output = run("@prefix ex: <http://a/> .\nex:s ex:p [ ex:q ( 1 ) ] , [ ] .", &label_all());
    assert!(!output.contains('['));
    assert!(!output.contains("( "));
    assert!(!output.contains("(\n"));
    assert!(output.contains("<http://www.w3.org/1999/02/22-rdf-syntax-ns#first> 1"));
    assert!(output.contains("<http://www.w3.org/1999/02/22-rdf-syntax-ns#rest> ()"));
    assert_eq!(output.matches("_:").count(), 5);
    check_round_trip("@prefix ex: <http://a/> .\nex:s ex:p [ ex:q ( 1 ) ] , [ ] .", &label_all());
}

#[test]
fn canonicalized_input_keeps_its_graph() {
    let mut options = relaxed(false);
    options.canonicalize = true;
    let input = "@prefix ex: <http://a/> .\n_:x ex:p _:y , _:z . _:y ex:q 1 . _:z ex:q 2 . ex:s ex:r _:z .";
    let output = run(input, &options);
    assert_eq!(graph_of(input), graph_of(&output));
    assert!(!output.contains("_:z"));
}

#[test]
fn round_trips_of_the_edge_cases() {
    let options = relaxed(false);
    for input in [
        "<http://a/s> <http://a/p> () .",
        "<http://a/s> <http://a/p> _:b . <http://a/t> <http://a/p> _:b . _:b <http://a/q> \"x\" .",
        "@prefix ex: <http://a/> .\n[ ex:p ex:o ; ex:q [ ex:r 1 , 2 ] ] .\n[ ex:only \"one\" ] .",
        "@prefix ex: <http://a/> .\nex:s ex:p [ ] , ( ( ) ) , ( [ ] ) .",
        "@prefix ex: <http://a/> .\nex:s ex:p ex:a.b , ex:a\\~b , ex:1st , ex: , <http://a/end.> .",
        "<http://a/s> <http://a/p> \"tab\\there\" , \"quote\\\"d\" , \"two\\nlines\" , \"cr\\n\\rlf\" .",
    ] {
        check_round_trip(input, &options);
    }
}
