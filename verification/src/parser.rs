//! Reading a Turtle document into an [`Input`].
//!
//! The text is parsed by `oxttl`. What is decided here, on what the parser
//! hands out, is which documents are refused: those that change their base
//! or a prefix on the way, that give one namespace several prefixes, or
//! that use a namespace as the base too.
use crate::classify::{contains_label, distinct_labels, has_label};
use crate::comments::{has_comment, seen_comment};
use crate::constants::SUBSTITUTE_BASE;
use crate::graph::{
    graph_all_triples, graph_canonicalize, graph_insert, graph_triples, lists_exactly, new_graph, triple_of,
    triple_wf,
};
use crate::input::Input;
use crate::naming::{find_namespace, find_prefix, namespace_of_prefix, prefix_of_namespace};
use crate::options::FormatOptions;
use crate::term::{RdfTerm, RdfTermView, RdfTriple, RdfTripleView, Subject, SubjectView};
use crate::text::{comes_before, lemma_lex_total, lemma_lex_transitive, lex_less, str_eq};
use vstd::prelude::*;

verus! {

/// Trusted: the type `oxttl::turtle::LowLevelTurtleParser`, a parser with
/// its state, of which nothing is seen.
#[verifier::external_type_specification]
#[verifier::external_body]
pub struct ExLowLevelTurtleParser(oxttl::turtle::LowLevelTurtleParser);

/// Trusted: the type `oxttl::TurtleSyntaxError`, carried as it is.
#[verifier::external_type_specification]
#[verifier::external_body]
pub struct ExTurtleSyntaxError(oxttl::TurtleSyntaxError);

/// Trusted: the type `oxrdf::IriParseError`, carried as it is.
#[verifier::external_type_specification]
#[verifier::external_body]
pub struct ExIriParseError(oxrdf::IriParseError);

/// Why a document is refused.
#[derive(Debug)]
pub enum Error {
    /// The prefix is declared anew with another namespace.
    PrefixRedefinition(String),
    /// Namespaces that have more than one prefix, each with its prefixes.
    MultiplePrefixesForNamespace(Vec<(String, Vec<String>)>),
    /// The base is declared anew with another IRI.
    BaseRedefinition,
    /// The prefix stands for the namespace that is the base too.
    PrefixAndBaseShareNamespace(String),
    /// The text is no Turtle.
    TurtleSyntaxError(oxttl::TurtleSyntaxError),
    /// The base is no IRI.
    BaseIri(oxrdf::IriParseError),
    /// The text holds a comment, which the written text would lack, and the
    /// options do not force the work.
    Comment,
}

/// Trusted: `oxttl::TurtleParser::new`, `with_base_iri` and `low_level`:
/// a parser that starts from the given base, or the error of a base that
/// is no IRI.
#[verifier::external_body]
fn new_parser(base: &str) -> Result<oxttl::turtle::LowLevelTurtleParser, oxrdf::IriParseError> {
    Ok(oxttl::TurtleParser::new().with_base_iri(base)?.low_level())
}

/// Trusted: `LowLevelTurtleParser::extend_from_slice`, which hands the
/// parser more of the text.
#[verifier::external_body]
fn parser_feed(parser: &mut oxttl::turtle::LowLevelTurtleParser, text: &[u8]) {
    parser.extend_from_slice(text)
}

/// Trusted: `LowLevelTurtleParser::end`, which tells the parser that the
/// text is complete.
#[verifier::external_body]
fn parser_end(parser: &mut oxttl::turtle::LowLevelTurtleParser) {
    parser.end()
}

/// Trusted: `LowLevelTurtleParser::parse_next`: the next triple or syntax
/// error, or nothing when the text that was handed over is used up. A
/// triple that comes out holds literals as `oxrdf` builds them.
#[verifier::external_body]
fn parser_next(parser: &mut oxttl::turtle::LowLevelTurtleParser) -> (r: Option<
    Result<RdfTriple, oxttl::TurtleSyntaxError>,
>)
    ensures
        match r {
            Some(Ok(t)) => triple_wf(t),
            _ => true,
        },
{
    match parser.parse_next() {
        Some(Ok(t)) => Some(Ok(triple_of(&t))),
        Some(Err(e)) => Some(Err(e)),
        None => None,
    }
}

/// Trusted: `LowLevelTurtleParser::base_iri`, the base in force where the
/// parser stands.
#[verifier::external_body]
fn parser_base(parser: &oxttl::turtle::LowLevelTurtleParser) -> Option<String> {
    parser.base_iri().map(str::to_owned)
}

/// Trusted: `LowLevelTurtleParser::prefixes`, the prefixes in force where
/// the parser stands, each with its namespace. The parser keeps them in a
/// map, so no prefix comes twice.
#[verifier::external_body]
fn parser_prefixes(parser: &oxttl::turtle::LowLevelTurtleParser) -> (r: Vec<(String, String)>)
    ensures
        forall|i: int, j: int| 0 <= i < j < r.len() ==> r[i].0@ != r[j].0@,
{
    parser.prefixes().map(|(p, n)| (p.to_owned(), n.to_owned())).collect()
}

/// The prefixes stand in the strict order of their texts, so that none
/// comes twice.
pub open spec fn prefixes_sorted(ps: Seq<(String, String)>) -> bool {
    forall|i: int, j: int| 0 <= i < j < ps.len() ==> lex_less(ps[i].0@, ps[j].0@)
}

/// The list declares the prefix.
pub open spec fn declares(ps: Seq<(String, String)>, prefix: Seq<char>) -> bool {
    exists|k: int| 0 <= k < ps.len() && (#[trigger] ps[k]).0@ == prefix
}

/// The subject is one of the list.
pub open spec fn has_subject(list: Seq<Subject>, s: SubjectView) -> bool {
    exists|i: int| 0 <= i < list.len() && (#[trigger] list[i])@ == s
}

/// No subject occurs twice in the list.
pub open spec fn distinct_subjects(list: Seq<Subject>) -> bool {
    forall|i: int, j: int| 0 <= i < j < list.len() ==> list[i]@ != list[j]@
}

/// Is the subject one of the list?
pub fn contains_subject(list: &Vec<Subject>, s: &Subject) -> (r: bool)
    ensures
        r == has_subject(list@, s@),
{
    let mut i: usize = 0;
    while i < list.len()
        invariant
            i <= list.len(),
            forall|j: int| 0 <= j < i ==> (#[trigger] list@[j])@ != s@,
        decreases list.len() - i,
    {
        if list[i].same(s) {
            return true;
        }
        i += 1;
    }
    false
}

/// Records the subject at the end of the list unless it is in the list.
pub fn note_subject(seen: &mut Vec<Subject>, s: &Subject)
    ensures
        final(seen)@ == if has_subject(old(seen)@, s@) {
            old(seen)@
        } else {
            old(seen)@.push(*s)
        },
        distinct_subjects(old(seen)@) ==> distinct_subjects(final(seen)@),
        forall|x: SubjectView|
            #![trigger has_subject(final(seen)@, x)]
            has_subject(final(seen)@, x) <==> has_subject(old(seen)@, x) || x == s@,
{
    if !contains_subject(seen, s) {
        let ghost before = seen@;
        seen.push(s.clone());
        proof {
            assert(seen@[before.len() as int]@ == s@);
            assert forall|x: SubjectView| #![trigger has_subject(seen@, x)] has_subject(seen@, x) <==> has_subject(
                before,
                x,
            ) || x == s@ by {
                if has_subject(seen@, x) {
                    let i = choose|i: int| 0 <= i < seen@.len() && (#[trigger] seen@[i])@ == x;
                    if i < before.len() {
                        assert(before[i]@ == x);
                    }
                }
                if has_subject(before, x) {
                    let i = choose|i: int| 0 <= i < before.len() && (#[trigger] before[i])@ == x;
                    assert(seen@[i]@ == x);
                }
            }
            if distinct_subjects(before) {
                assert forall|i: int, j: int| 0 <= i < j < seen@.len() implies seen@[i]@ != seen@[j]@ by {
                    if j == before.len() {
                        if seen@[i]@ == s@ {
                            assert(before[i]@ == s@);
                        }
                    } else {
                        assert(before[i]@ != before[j]@);
                    }
                }
            }
        }
    }
}

/// Records the label at the end of the list unless it is in the list.
pub fn note_label(seen: &mut Vec<String>, b: &str)
    ensures
        final(seen)@ == if has_label(old(seen)@, b@) {
            old(seen)@
        } else {
            old(seen)@.push(final(seen)@.last())
        },
        !has_label(old(seen)@, b@) ==> final(seen)@.last()@ == b@,
        distinct_labels(old(seen)@) ==> distinct_labels(final(seen)@),
        forall|x: Seq<char>|
            #![trigger has_label(final(seen)@, x)]
            has_label(final(seen)@, x) <==> has_label(old(seen)@, x) || x == b@,
{
    if !contains_label(seen, b) {
        let ghost before = seen@;
        seen.push(b.to_owned());
        proof {
            assert(seen@[before.len() as int]@ == b@);
            assert(seen@ =~= before.push(seen@.last()));
            assert forall|x: Seq<char>| #![trigger has_label(seen@, x)] has_label(seen@, x) <==> has_label(
                before,
                x,
            ) || x == b@ by {
                if has_label(seen@, x) {
                    let i = choose|i: int| 0 <= i < seen@.len() && (#[trigger] seen@[i])@ == x;
                    if i < before.len() {
                        assert(before[i]@ == x);
                    }
                }
                if has_label(before, x) {
                    let i = choose|i: int| 0 <= i < before.len() && (#[trigger] before[i])@ == x;
                    assert(seen@[i]@ == x);
                }
            }
            if distinct_labels(before) {
                assert forall|i: int, j: int| 0 <= i < j < seen@.len() implies seen@[i]@ != seen@[j]@ by {
                    if j == before.len() {
                        if seen@[i]@ == b@ {
                            assert(before[i]@ == b@);
                        }
                    } else {
                        assert(before[i]@ != before[j]@);
                    }
                }
            }
        }
    }
}

/// The base after a triple: the base that the parser has then, which must
/// be the one that was recorded before if one was.
pub fn check_base(base: Option<String>, current: Option<String>) -> (r: Result<Option<String>, Error>)
    ensures
        match (base, current) {
            (Some(b), Some(c)) => if b@ == c@ {
                r == Ok::<Option<String>, Error>(Some(c))
            } else {
                r is Err && r->Err_0 is BaseRedefinition
            },
            (None, Some(c)) => r == Ok::<Option<String>, Error>(Some(c)),
            (_, None) => r == Ok::<Option<String>, Error>(base),
        },
{
    match current {
        Some(cur_base) => {
            match &base {
                Some(base_val) => {
                    if !str_eq(base_val.as_str(), cur_base.as_str()) {
                        return Err(Error::BaseRedefinition);
                    }
                },
                None => {},
            }
            Ok(Some(cur_base))
        },
        None => Ok(base),
    }
}

/// The list with the declaration put in behind its first `j` items.
pub open spec fn inserted_at(ps: Seq<(String, String)>, entry: (String, String), j: int) -> Seq<(String, String)> {
    ps.subrange(0, j).push(entry) + ps.subrange(j, ps.len() as int)
}

/// No prefix is declared twice in the list.
pub open spec fn distinct_prefixes(ps: Seq<(String, String)>) -> bool {
    forall|i: int, j: int| 0 <= i < j < ps.len() ==> ps[i].0@ != ps[j].0@
}

/// Puts the declaration into its place in the sorted list.
fn insert_prefix(prefixes: &mut Vec<(String, String)>, prefix: String, namespace: String)
    requires
        prefixes_sorted(old(prefixes)@),
        !declares(old(prefixes)@, prefix@),
    ensures
        prefixes_sorted(final(prefixes)@),
        exists|j: int|
            0 <= j <= old(prefixes)@.len() && final(prefixes)@ == #[trigger] inserted_at(
                old(prefixes)@,
                (prefix, namespace),
                j,
            ),
{
    let mut j: usize = 0;
    while j < prefixes.len() && comes_before(prefixes[j].0.as_str(), prefix.as_str())
        invariant
            j <= prefixes.len(),
            prefixes@ == old(prefixes)@,
            forall|k: int| 0 <= k < j ==> lex_less((#[trigger] prefixes@[k]).0@, prefix@),
        decreases prefixes.len() - j,
    {
        j += 1;
    }
    let ghost before = prefixes@;
    proof {
        assert forall|k: int| j <= k < before.len() implies lex_less(prefix@, (#[trigger] before[k]).0@) by {
            let at = before[j as int].0@;
            lemma_lex_total(at, prefix@);
            assert(before[j as int].0@ != prefix@);
            if j < k {
                assert(lex_less(before[j as int].0@, before[k].0@));
                lemma_lex_transitive(prefix@, at, before[k].0@);
            }
        }
    }
    prefixes.insert(j, (prefix, namespace));
    proof {
        assert(prefixes@ =~= inserted_at(before, (prefix, namespace), j as int));
        assert forall|x: int, y: int| 0 <= x < y < prefixes@.len() implies lex_less(
            prefixes@[x].0@,
            prefixes@[y].0@,
        ) by {
            if y < j {
                assert(lex_less(before[x].0@, before[y].0@));
            } else if y == j {
                assert(lex_less(before[x].0@, prefix@));
            } else if x < j {
                assert(lex_less(before[x].0@, before[y - 1].0@));
            } else if x == j {
                assert(lex_less(prefix@, before[y - 1].0@));
            } else {
                assert(lex_less(before[x - 1].0@, before[y - 1].0@));
            }
        }
    }
}

/// The declaration gives the prefix another namespace than the list does.
pub open spec fn redefines(ps: Seq<(String, String)>, entry: (String, String)) -> bool {
    match namespace_of_prefix(ps, entry.0@) {
        Some(namespace) => namespace != entry.1@,
        None => false,
    }
}

/// The first of the first `n` declarations of `current` that gives its
/// prefix another namespace than `ps` does.
pub open spec fn first_redefined(ps: Seq<(String, String)>, current: Seq<(String, String)>, n: int) -> Option<int>
    decreases n,
{
    if n <= 0 {
        None
    } else {
        match first_redefined(ps, current, n - 1) {
            Some(i) => Some(i),
            None => if redefines(ps, current[n - 1]) {
                Some(n - 1)
            } else {
                None
            },
        }
    }
}

proof fn lemma_first_redefined_stays(ps: Seq<(String, String)>, current: Seq<(String, String)>, n: int, m: int)
    requires
        0 <= n <= m,
        first_redefined(ps, current, n) is Some,
    ensures
        first_redefined(ps, current, m) == first_redefined(ps, current, n),
    decreases m - n,
{
    if n < m {
        lemma_first_redefined_stays(ps, current, n, m - 1);
    }
}

proof fn lemma_declares(ps: Seq<(String, String)>, prefix: Seq<char>)
    ensures
        namespace_of_prefix(ps, prefix) is Some <==> declares(ps, prefix),
    decreases ps.len(),
{
    if ps.len() > 0 {
        if ps[0].0@ == prefix {
            assert(declares(ps, prefix));
        } else {
            let rest = ps.drop_first();
            lemma_declares(rest, prefix);
            if declares(rest, prefix) {
                let k = choose|k: int| 0 <= k < rest.len() && (#[trigger] rest[k]).0@ == prefix;
                assert(ps[k + 1].0@ == prefix);
            }
            if declares(ps, prefix) {
                let k = choose|k: int| 0 <= k < ps.len() && (#[trigger] ps[k]).0@ == prefix;
                assert(rest[k - 1].0@ == prefix);
            }
        }
    }
}

/// Takes over the declarations that the parser has: a prefix that is new
/// is recorded, one that is known must have the namespace that it had.
/// The error names the first prefix of `current` that has another.
pub fn merge_prefixes(prefixes: &mut Vec<(String, String)>, current: &Vec<(String, String)>) -> (r: Result<
    (),
    Error,
>)
    requires
        prefixes_sorted(old(prefixes)@),
        distinct_prefixes(current@),
    ensures
        prefixes_sorted(final(prefixes)@),
        match first_redefined(old(prefixes)@, current@, current@.len() as int) {
            Some(i) => r is Err && r->Err_0 is PrefixRedefinition && r->Err_0->PrefixRedefinition_0@
                == current@[i].0@,
            None => r is Ok,
        },
        forall|p: Seq<char>|
            #![trigger declares(final(prefixes)@, p)]
            declares(old(prefixes)@, p) ==> declares(final(prefixes)@, p),
        forall|p: Seq<char>|
            #![trigger namespace_of_prefix(final(prefixes)@, p)]
            namespace_of_prefix(old(prefixes)@, p) is Some ==> namespace_of_prefix(final(prefixes)@, p)
                == namespace_of_prefix(old(prefixes)@, p),
        forall|p: Seq<char>|
            #![trigger namespace_of_prefix(final(prefixes)@, p)]
            namespace_of_prefix(final(prefixes)@, p) is Some && namespace_of_prefix(old(prefixes)@, p) is None
                ==> declares(current@, p),
        r is Ok ==> forall|i: int|
            0 <= i < current@.len() ==> namespace_of_prefix(final(prefixes)@, (#[trigger] current@[i]).0@)
                == Some(current@[i].1@),
{
    let mut i: usize = 0;
    while i < current.len()
        invariant
            i <= current.len(),
            prefixes_sorted(prefixes@),
            distinct_prefixes(current@),
            first_redefined(old(prefixes)@, current@, i as int) is None,
            forall|p: Seq<char>|
                #![trigger declares(prefixes@, p)]
                declares(old(prefixes)@, p) ==> declares(prefixes@, p),
            forall|p: Seq<char>|
                #![trigger namespace_of_prefix(old(prefixes)@, p)]
                namespace_of_prefix(old(prefixes)@, p) is Some ==> namespace_of_prefix(prefixes@, p)
                    == namespace_of_prefix(old(prefixes)@, p),
            forall|k: int|
                0 <= k < i ==> namespace_of_prefix(prefixes@, (#[trigger] current@[k]).0@) == Some(
                    current@[k].1@,
                ),
            forall|p: Seq<char>|
                #![trigger namespace_of_prefix(prefixes@, p)]
                namespace_of_prefix(prefixes@, p) is Some && namespace_of_prefix(old(prefixes)@, p) is None
                    ==> exists|k: int| 0 <= k < i && (#[trigger] current@[k]).0@ == p,
        decreases current.len() - i,
    {
        let ghost before = prefixes@;
        let ghost entry = current@[i as int];
        proof {
            lemma_declares(before, entry.0@);
            lemma_declares(old(prefixes)@, entry.0@);
        }
        match find_namespace(prefixes, current[i].0.as_str()) {
            Some(known) => {
                if !str_eq(known.as_str(), current[i].1.as_str()) {
                    proof {
                        if namespace_of_prefix(old(prefixes)@, entry.0@) is None {
                            let k = choose|k: int| 0 <= k < i && (#[trigger] current@[k]).0@ == entry.0@;
                            assert(current@[k].0@ != current@[i as int].0@);
                        }
                        assert(redefines(old(prefixes)@, entry));
                        assert(first_redefined(old(prefixes)@, current@, i + 1) == Some(i as int));
                        lemma_first_redefined_stays(old(prefixes)@, current@, i + 1, current@.len() as int);
                        assert forall|p: Seq<char>|
                            #![trigger namespace_of_prefix(prefixes@, p)]
                            namespace_of_prefix(prefixes@, p) is Some && namespace_of_prefix(old(prefixes)@, p)
                                is None implies declares(current@, p) by {
                            let k = choose|k: int| 0 <= k < i && (#[trigger] current@[k]).0@ == p;
                        }
                    }
                    return Err(Error::PrefixRedefinition(current[i].0.clone()));
                }
                proof {
                    if namespace_of_prefix(old(prefixes)@, entry.0@) is Some {
                        assert(!redefines(old(prefixes)@, entry));
                    }
                    assert forall|p: Seq<char>|
                        #![trigger namespace_of_prefix(prefixes@, p)]
                        namespace_of_prefix(prefixes@, p) is Some && namespace_of_prefix(old(prefixes)@, p)
                            is None implies exists|k: int| 0 <= k < i + 1 && (#[trigger] current@[k]).0@ == p by {
                        let k = choose|k: int| 0 <= k < i && (#[trigger] current@[k]).0@ == p;
                        assert(0 <= k < i + 1 && current@[k].0@ == p);
                    }
                }
            },
            None => {
                insert_prefix(prefixes, current[i].0.clone(), current[i].1.clone());
                proof {
                    lemma_inserted(before, prefixes@, entry);
                    assert forall|p: Seq<char>| #![trigger declares(prefixes@, p)] declares(
                        old(prefixes)@,
                        p,
                    ) implies declares(prefixes@, p) by {
                        lemma_declares(before, p);
                        lemma_declares(prefixes@, p);
                    }
                    assert forall|k: int| 0 <= k < i implies namespace_of_prefix(
                        prefixes@,
                        (#[trigger] current@[k]).0@,
                    ) == Some(current@[k].1@) by {
                        assert(namespace_of_prefix(before, current@[k].0@) == Some(current@[k].1@));
                    }
                    assert forall|p: Seq<char>|
                        #![trigger namespace_of_prefix(prefixes@, p)]
                        namespace_of_prefix(prefixes@, p) is Some && namespace_of_prefix(old(prefixes)@, p)
                            is None implies exists|k: int| 0 <= k < i + 1 && (#[trigger] current@[k]).0@ == p by {
                        if p == entry.0@ {
                            assert(current@[i as int].0@ == p);
                        } else {
                            assert(namespace_of_prefix(before, p) is Some);
                            let k = choose|k: int| 0 <= k < i && (#[trigger] current@[k]).0@ == p;
                            assert(0 <= k < i + 1 && current@[k].0@ == p);
                        }
                    }
                }
            },
        }
        i += 1;
    }
    proof {
        assert forall|p: Seq<char>|
            #![trigger namespace_of_prefix(prefixes@, p)]
            namespace_of_prefix(prefixes@, p) is Some && namespace_of_prefix(old(prefixes)@, p)
                is None implies declares(current@, p) by {
            let k = choose|k: int| 0 <= k < i && (#[trigger] current@[k]).0@ == p;
        }
    }
    Ok(())
}

/// After a declaration of a new prefix is put into the list, every prefix
/// has the namespace that it had, and the new one has its own.
proof fn lemma_inserted(before: Seq<(String, String)>, after: Seq<(String, String)>, entry: (String, String))
    requires
        !declares(before, entry.0@),
        exists|j: int| 0 <= j <= before.len() && after == #[trigger] inserted_at(before, entry, j),
    ensures
        namespace_of_prefix(after, entry.0@) == Some(entry.1@),
        forall|p: Seq<char>|
            #![trigger namespace_of_prefix(before, p)]
            namespace_of_prefix(before, p) is Some ==> namespace_of_prefix(after, p) == namespace_of_prefix(
                before,
                p,
            ),
        forall|p: Seq<char>|
            #![trigger namespace_of_prefix(after, p)]
            p != entry.0@ ==> namespace_of_prefix(after, p) == namespace_of_prefix(before, p),
{
    let j = choose|j: int| 0 <= j <= before.len() && after == #[trigger] inserted_at(before, entry, j);
    lemma_inserted_at(before, after, entry, j);
    assert forall|p: Seq<char>|
        #![trigger namespace_of_prefix(after, p)]
        p != entry.0@ implies namespace_of_prefix(after, p) == namespace_of_prefix(before, p) by {
        lemma_inserted_other(before, after, entry, j, p);
    }
    assert forall|p: Seq<char>|
        #![trigger namespace_of_prefix(before, p)]
        namespace_of_prefix(before, p) is Some implies namespace_of_prefix(after, p) == namespace_of_prefix(
        before,
        p,
    ) by {
        lemma_declares(before, p);
        lemma_inserted_other(before, after, entry, j, p);
    }
}

proof fn lemma_inserted_at(
    before: Seq<(String, String)>,
    after: Seq<(String, String)>,
    entry: (String, String),
    j: int,
)
    requires
        !declares(before, entry.0@),
        0 <= j <= before.len(),
        after == inserted_at(before, entry, j),
    ensures
        namespace_of_prefix(after, entry.0@) == Some(entry.1@),
    decreases j,
{
    if j == 0 {
        assert(after[0] == entry);
    } else {
        assert(after[0] == before[0]);
        assert(before[0].0@ != entry.0@);
        let b2 = before.drop_first();
        let a2 = after.drop_first();
        assert(a2 =~= inserted_at(b2, entry, j - 1));
        assert(!declares(b2, entry.0@)) by {
            if declares(b2, entry.0@) {
                let k = choose|k: int| 0 <= k < b2.len() && (#[trigger] b2[k]).0@ == entry.0@;
                assert(before[k + 1].0@ == entry.0@);
            }
        }
        lemma_inserted_at(b2, a2, entry, j - 1);
    }
}

proof fn lemma_inserted_other(
    before: Seq<(String, String)>,
    after: Seq<(String, String)>,
    entry: (String, String),
    j: int,
    p: Seq<char>,
)
    requires
        0 <= j <= before.len(),
        after == inserted_at(before, entry, j),
        p != entry.0@,
    ensures
        namespace_of_prefix(after, p) == namespace_of_prefix(before, p),
    decreases j,
{
    if j == 0 {
        assert(after[0] == entry);
        assert(after.drop_first() =~= before);
    } else {
        assert(after[0] == before[0]);
        let b2 = before.drop_first();
        let a2 = after.drop_first();
        assert(a2 =~= inserted_at(b2, entry, j - 1));
        lemma_inserted_other(b2, a2, entry, j - 1, p);
    }
}

/// The prefixes that the first `n` declarations give the namespace, in
/// their order.
pub open spec fn prefixes_of(map: Seq<(String, String)>, namespace: Seq<char>, n: int) -> Seq<Seq<char>>
    decreases n,
{
    if n <= 0 {
        Seq::empty()
    } else if map[n - 1].1@ == namespace {
        prefixes_of(map, namespace, n - 1).push(map[n - 1].0@)
    } else {
        prefixes_of(map, namespace, n - 1)
    }
}

/// The texts of a list of strings.
pub open spec fn label_texts(labels: Seq<String>) -> Seq<Seq<char>> {
    Seq::new(labels.len(), |i: int| labels[i]@)
}

/// The list has an entry for the namespace.
pub open spec fn has_namespace(found: Seq<(String, Vec<String>)>, namespace: Seq<char>) -> bool {
    exists|k: int| 0 <= k < found.len() && (#[trigger] found[k]).0@ == namespace
}

/// `found` holds the namespaces that have more than one prefix in `map`,
/// each once, with all its prefixes in the order of `map`.
pub open spec fn duplicates_of(map: Seq<(String, String)>, found: Seq<(String, Vec<String>)>) -> bool {
    &&& forall|k: int|
        0 <= k < found.len() ==> label_texts((#[trigger] found[k]).1@) == prefixes_of(
            map,
            found[k].0@,
            map.len() as int,
        ) && found[k].1.len() > 1
    &&& forall|i: int, j: int| 0 <= i < j < found.len() ==> found[i].0@ != found[j].0@
    &&& forall|i: int|
        0 <= i < map.len() && prefixes_of(map, (#[trigger] map[i]).1@, map.len() as int).len() > 1
            ==> has_namespace(found, map[i].1@)
}

/// The prefixes that the declarations give the namespace.
fn prefixes_for(map: &Vec<(String, String)>, namespace: &str) -> (r: Vec<String>)
    ensures
        label_texts(r@) == prefixes_of(map@, namespace@, map@.len() as int),
{
    let mut r: Vec<String> = Vec::new();
    let mut i: usize = 0;
    assert(label_texts(r@) =~= prefixes_of(map@, namespace@, 0));
    while i < map.len()
        invariant
            i <= map.len(),
            label_texts(r@) == prefixes_of(map@, namespace@, i as int),
        decreases map.len() - i,
    {
        if str_eq(map[i].1.as_str(), namespace) {
            let ghost before = label_texts(r@);
            r.push(map[i].0.clone());
            assert(label_texts(r@) =~= before.push(map@[i as int].0@));
        }
        i += 1;
    }
    r
}

fn contains_namespace(found: &Vec<(String, Vec<String>)>, namespace: &str) -> (r: bool)
    ensures
        r == has_namespace(found@, namespace@),
{
    let mut i: usize = 0;
    while i < found.len()
        invariant
            i <= found.len(),
            forall|j: int| 0 <= j < i ==> (#[trigger] found@[j]).0@ != namespace@,
        decreases found.len() - i,
    {
        if str_eq(found[i].0.as_str(), namespace) {
            return true;
        }
        i += 1;
    }
    false
}

/// The namespaces that have more than one prefix, each with its prefixes.
pub fn find_duplicate_values(map: &Vec<(String, String)>) -> (found: Vec<(String, Vec<String>)>)
    ensures
        duplicates_of(map@, found@),
{
    let mut found: Vec<(String, Vec<String>)> = Vec::new();
    let ghost n = map@.len() as int;
    let mut i: usize = 0;
    while i < map.len()
        invariant
            i <= map.len(),
            n == map@.len(),
            forall|k: int|
                0 <= k < found.len() ==> label_texts((#[trigger] found[k]).1@) == prefixes_of(
                    map@,
                    found[k].0@,
                    n,
                ) && found[k].1.len() > 1,
            forall|x: int, y: int| 0 <= x < y < found.len() ==> found[x].0@ != found[y].0@,
            forall|j: int|
                0 <= j < i && prefixes_of(map@, (#[trigger] map@[j]).1@, n).len() > 1 ==> has_namespace(
                    found@,
                    map@[j].1@,
                ),
        decreases map.len() - i,
    {
        let ghost before = found@;
        if !contains_namespace(&found, map[i].1.as_str()) {
            let keys = prefixes_for(map, map[i].1.as_str());
            if keys.len() > 1 {
                assert(label_texts(keys@).len() == keys.len());
                found.push((map[i].1.clone(), keys));
                assert(found@[before.len() as int].0@ == map@[i as int].1@);
            } else {
                assert(label_texts(keys@).len() == keys.len());
            }
        }
        proof {
            assert forall|j: int|
                0 <= j < i + 1 && prefixes_of(map@, (#[trigger] map@[j]).1@, n).len() > 1 implies has_namespace(
                found@,
                map@[j].1@,
            ) by {
                let ns = map@[j].1@;
                if has_namespace(before, ns) {
                    let k = choose|k: int| 0 <= k < before.len() && (#[trigger] before[k]).0@ == ns;
                    assert(found@[k].0@ == ns);
                } else if j == i {
                    assert(found@[before.len() as int].0@ == ns);
                }
            }
        }
        i += 1;
    }
    found
}

/// Checks the declarations of a document: no namespace may have more than
/// one prefix, and the base may not be a namespace that has a prefix.
pub fn check_declarations(prefixes: &Vec<(String, String)>, base: &Option<String>) -> (r: Result<(), Error>)
    ensures
        match r {
            Ok(_) => duplicates_of(prefixes@, Seq::empty()) && match *base {
                Some(b) => prefix_of_namespace(prefixes@, b@) is None,
                None => true,
            },
            Err(Error::MultiplePrefixesForNamespace(found)) => duplicates_of(prefixes@, found@) && found.len()
                > 0,
            Err(Error::PrefixAndBaseShareNamespace(p)) => duplicates_of(prefixes@, Seq::empty()) && *base
                is Some && prefix_of_namespace(prefixes@, base->Some_0@) == Some(p@),
            Err(_) => false,
        },
{
    let duplicate_prefixes = find_duplicate_values(prefixes);
    if duplicate_prefixes.len() > 0 {
        return Err(Error::MultiplePrefixesForNamespace(duplicate_prefixes));
    }
    assert(duplicate_prefixes@ =~= Seq::empty());
    match base {
        Some(base_val) => {
            match find_prefix(prefixes, base_val.as_str()) {
                Some(prefix) => {
                    return Err(Error::PrefixAndBaseShareNamespace(prefix.clone()));
                },
                None => {},
            }
        },
        None => {},
    }
    Ok(())
}

/// The node is the subject of a triple of the graph.
pub open spec fn subject_in(g: Set<RdfTripleView>, s: SubjectView) -> bool {
    exists|t: RdfTripleView| #[trigger] g.contains(t) && t.subject == s
}

/// The blank node is the object of a triple of the graph.
pub open spec fn object_in(g: Set<RdfTripleView>, b: Seq<char>) -> bool {
    exists|t: RdfTripleView| #[trigger] g.contains(t) && t.object == RdfTermView::BlankNode(b)
}

/// The subjects and the blank nodes that are objects are listed, each
/// once, exactly as far as the graph has them.
pub open spec fn orders_cover(g: Set<RdfTripleView>, subjects: Seq<Subject>, objects: Seq<String>) -> bool {
    &&& distinct_subjects(subjects)
    &&& distinct_labels(objects)
    &&& forall|t: RdfTripleView| #[trigger] g.contains(t) ==> has_subject(subjects, t.subject)
    &&& forall|i: int| 0 <= i < subjects.len() ==> subject_in(g, (#[trigger] subjects[i])@)
    &&& forall|t: RdfTripleView|
        #[trigger] g.contains(t) && t.object is BlankNode ==> has_label(objects, t.object->BlankNode_0)
    &&& forall|i: int| 0 <= i < objects.len() ==> object_in(g, (#[trigger] objects[i])@)
}

/// What holds of every parsed document: its prefixes stand in order, no
/// two of them share a namespace, the base is none of their namespaces,
/// and its subjects and blank node objects are listed as the graph has
/// them.
pub open spec fn input_wf(input: Input) -> bool {
    &&& prefixes_sorted(input.prefixes@)
    &&& duplicates_of(input.prefixes@, Seq::empty())
    &&& match input.base {
        Some(b) => prefix_of_namespace(input.prefixes@, b@) is None,
        None => true,
    }
    &&& orders_cover(graph_triples(input.graph), input.subjects_in_order@, input.bn_objects_input_order@)
}

/// Lists the subjects and the blank nodes that are objects in the order in
/// which the graph hands out its triples.
fn orders_of_graph(graph: &oxrdf::Graph) -> (r: (Vec<Subject>, Vec<String>))
    ensures
        orders_cover(graph_triples(*graph), r.0@, r.1@),
{
    let ghost g = graph_triples(*graph);
    let all = graph_all_triples(graph);
    let mut subjects: Vec<Subject> = Vec::new();
    let mut objects: Vec<String> = Vec::new();
    let mut i: usize = 0;
    while i < all.len()
        invariant
            i <= all.len(),
            g == graph_triples(*graph),
            lists_exactly(all@, g),
            distinct_subjects(subjects@),
            distinct_labels(objects@),
            forall|j: int| 0 <= j < i ==> has_subject(subjects@, (#[trigger] all@[j])@.subject),
            forall|j: int|
                0 <= j < i && (#[trigger] all@[j])@.object is BlankNode ==> has_label(
                    objects@,
                    all@[j]@.object->BlankNode_0,
                ),
            forall|k: int| 0 <= k < subjects@.len() ==> subject_in(g, (#[trigger] subjects@[k])@),
            forall|k: int| 0 <= k < objects@.len() ==> object_in(g, (#[trigger] objects@[k])@),
        decreases all.len() - i,
    {
        let ghost t = all@[i as int]@;
        assert(g.contains(t));
        let ghost s_before = subjects@;
        let ghost o_before = objects@;
        note_subject(&mut subjects, &all[i].subject);
        match &all[i].object {
            RdfTerm::BlankNode(b) => {
                note_label(&mut objects, b.as_str());
            },
            _ => {},
        }
        proof {
            assert forall|k: int| 0 <= k < subjects@.len() implies subject_in(g, (#[trigger] subjects@[k])@) by {
                if k < s_before.len() {
                    assert(subjects@[k] == s_before[k]);
                } else {
                    assert(g.contains(t) && t.subject == subjects@[k]@);
                }
            }
            assert forall|k: int| 0 <= k < objects@.len() implies object_in(g, (#[trigger] objects@[k])@) by {
                if k < o_before.len() {
                    assert(objects@[k] == o_before[k]);
                } else {
                    assert(g.contains(t) && t.object == RdfTermView::BlankNode(objects@[k]@));
                }
            }
            assert forall|j: int| 0 <= j < i + 1 implies has_subject(subjects@, (#[trigger] all@[j])@.subject) by {
                if j < i {
                    assert(has_subject(s_before, all@[j]@.subject));
                }
            }
            assert forall|j: int|
                0 <= j < i + 1 && (#[trigger] all@[j])@.object is BlankNode implies has_label(
                objects@,
                all@[j]@.object->BlankNode_0,
            ) by {
                if j < i {
                    assert(has_label(o_before, all@[j]@.object->BlankNode_0));
                }
            }
        }
        i += 1;
    }
    proof {
        assert forall|x: RdfTripleView| #[trigger] g.contains(x) implies has_subject(subjects@, x.subject) by {
            let j = choose|j: int| 0 <= j < all@.len() && (#[trigger] all@[j])@ == x;
            assert(has_subject(subjects@, all@[j]@.subject));
        }
        assert forall|x: RdfTripleView| #[trigger] g.contains(x) && x.object is BlankNode implies has_label(
            objects@,
            x.object->BlankNode_0,
        ) by {
            let j = choose|j: int| 0 <= j < all@.len() && (#[trigger] all@[j])@ == x;
            assert(has_label(objects@, all@[j]@.object->BlankNode_0));
        }
    }
    (subjects, objects)
}

/// Takes one triple of a document into the input that is read: the triple
/// goes into the graph, its subject and, if it is one, its blank node
/// object are recorded where they are new, and the base and the prefixes
/// that the parser has behind the triple are checked against those
/// recorded so far and recorded.
///
/// The triple is taken in even where the base or a prefix is refused.
pub fn record_triple(
    input: &mut Input,
    triple: &RdfTriple,
    base_now: Option<String>,
    prefixes_now: &Vec<(String, String)>,
) -> (r: Result<(), Error>)
    requires
        triple_wf(*triple),
        prefixes_sorted(old(input).prefixes@),
        distinct_prefixes(prefixes_now@),
    ensures
        graph_triples(final(input).graph) == graph_triples(old(input).graph).insert(triple@),
        final(input).subjects_in_order@ == if has_subject(old(input).subjects_in_order@, triple.subject@) {
            old(input).subjects_in_order@
        } else {
            old(input).subjects_in_order@.push(triple.subject)
        },
        match triple.object {
            RdfTerm::BlankNode(b) => if has_label(old(input).bn_objects_input_order@, b@) {
                final(input).bn_objects_input_order@ == old(input).bn_objects_input_order@
            } else {
                final(input).bn_objects_input_order@ == old(input).bn_objects_input_order@.push(
                    final(input).bn_objects_input_order@.last(),
                ) && final(input).bn_objects_input_order@.last()@ == b@
            },
            _ => final(input).bn_objects_input_order@ == old(input).bn_objects_input_order@,
        },
        orders_cover(
            graph_triples(old(input).graph),
            old(input).subjects_in_order@,
            old(input).bn_objects_input_order@,
        ) ==> orders_cover(
            graph_triples(final(input).graph),
            final(input).subjects_in_order@,
            final(input).bn_objects_input_order@,
        ),
        prefixes_sorted(final(input).prefixes@),
        match (old(input).base, base_now) {
            (Some(b), Some(c)) => if b@ != c@ {
                r is Err && r->Err_0 is BaseRedefinition
            } else {
                recorded_prefixes(old(input).prefixes@, prefixes_now@, r) && (r is Ok ==> final(input).base
                    == Some(c))
            },
            (None, Some(c)) => recorded_prefixes(old(input).prefixes@, prefixes_now@, r) && (r is Ok ==> final(input).base == Some(c)),
            (_, None) => recorded_prefixes(old(input).prefixes@, prefixes_now@, r) && (r is Ok ==> final(input).base == old(input).base),
        },
        r is Ok ==> forall|i: int|
            0 <= i < prefixes_now@.len() ==> namespace_of_prefix(
                final(input).prefixes@,
                (#[trigger] prefixes_now@[i]).0@,
            ) == Some(prefixes_now@[i].1@),
        forall|p: Seq<char>|
            #![trigger namespace_of_prefix(final(input).prefixes@, p)]
            namespace_of_prefix(old(input).prefixes@, p) is Some ==> namespace_of_prefix(
                final(input).prefixes@,
                p,
            ) == namespace_of_prefix(old(input).prefixes@, p),
        forall|p: Seq<char>|
            #![trigger namespace_of_prefix(final(input).prefixes@, p)]
            namespace_of_prefix(final(input).prefixes@, p) is Some && namespace_of_prefix(
                old(input).prefixes@,
                p,
            ) is None ==> declares(prefixes_now@, p),
        r is Err && r->Err_0 is BaseRedefinition ==> final(input).base == old(input).base && final(input).prefixes == old(input).prefixes,
{
    let ghost g_before = graph_triples(input.graph);
    let ghost s_before = input.subjects_in_order@;
    let ghost o_before = input.bn_objects_input_order@;
    note_subject(&mut input.subjects_in_order, &triple.subject);
    match &triple.object {
        RdfTerm::BlankNode(bn) => {
            note_label(&mut input.bn_objects_input_order, bn.as_str());
        },
        _ => {},
    }
    graph_insert(&mut input.graph, triple);
    proof {
        if orders_cover(g_before, s_before, o_before) {
            lemma_orders_kept(
                g_before,
                graph_triples(input.graph),
                s_before,
                input.subjects_in_order@,
                o_before,
                input.bn_objects_input_order@,
                triple@,
            );
        }
    }
    let ghost prefixes_before = input.prefixes@;
    let base = match &input.base {
        Some(b) => Some(b.clone()),
        None => None,
    };
    match check_base(base, base_now) {
        Ok(b) => {
            input.base = b;
        },
        Err(e) => {
            return Err(e);
        },
    }
    merge_prefixes(&mut input.prefixes, prefixes_now)
}

/// The result is what taking over the declarations `current` gives: the
/// error that names the first prefix that has another namespace than
/// before, or success.
pub open spec fn recorded_prefixes(
    before: Seq<(String, String)>,
    current: Seq<(String, String)>,
    r: Result<(), Error>,
) -> bool {
    match first_redefined(before, current, current.len() as int) {
        Some(i) => r is Err && r->Err_0 is PrefixRedefinition && r->Err_0->PrefixRedefinition_0@
            == current[i].0@,
        None => r is Ok,
    }
}

/// The orders still cover the graph after a triple is taken in and its
/// subject and blank node object are recorded.
proof fn lemma_orders_kept(
    g_before: Set<RdfTripleView>,
    g: Set<RdfTripleView>,
    s_before: Seq<Subject>,
    subjects: Seq<Subject>,
    o_before: Seq<String>,
    objects: Seq<String>,
    t: RdfTripleView,
)
    requires
        orders_cover(g_before, s_before, o_before),
        g == g_before.insert(t),
        distinct_subjects(subjects),
        distinct_labels(objects),
        forall|x: SubjectView|
            #![trigger has_subject(subjects, x)]
            has_subject(subjects, x) <==> has_subject(s_before, x) || x == t.subject,
        t.object is BlankNode ==> forall|x: Seq<char>|
            #![trigger has_label(objects, x)]
            has_label(objects, x) <==> has_label(o_before, x) || x == t.object->BlankNode_0,
        !(t.object is BlankNode) ==> objects == o_before,
    ensures
        orders_cover(g, subjects, objects),
{
    assert(g.contains(t));
    assert forall|k: int| 0 <= k < subjects.len() implies subject_in(g, (#[trigger] subjects[k])@) by {
        let x = subjects[k]@;
        assert(has_subject(subjects, x));
        if has_subject(s_before, x) {
            let m = choose|m: int| 0 <= m < s_before.len() && (#[trigger] s_before[m])@ == x;
            assert(subject_in(g_before, s_before[m]@));
            let u = choose|u: RdfTripleView| #[trigger] g_before.contains(u) && u.subject == x;
            assert(g.contains(u));
        } else {
            assert(g.contains(t) && t.subject == x);
        }
    }
    assert forall|k: int| 0 <= k < objects.len() implies object_in(g, (#[trigger] objects[k])@) by {
        let x = objects[k]@;
        assert(has_label(objects, x));
        if has_label(o_before, x) {
            let m = choose|m: int| 0 <= m < o_before.len() && (#[trigger] o_before[m])@ == x;
            assert(object_in(g_before, o_before[m]@));
            let u = choose|u: RdfTripleView|
                #[trigger] g_before.contains(u) && u.object == RdfTermView::BlankNode(x);
            assert(g.contains(u));
        } else {
            assert(g.contains(t) && t.object == RdfTermView::BlankNode(x));
        }
    }
    assert forall|x: RdfTripleView| #[trigger] g.contains(x) implies has_subject(subjects, x.subject) by {
        if x != t {
            assert(g_before.contains(x));
            assert(has_subject(s_before, x.subject));
        }
    }
    assert forall|x: RdfTripleView| #[trigger] g.contains(x) && x.object is BlankNode implies has_label(
        objects,
        x.object->BlankNode_0,
    ) by {
        if x != t {
            assert(g_before.contains(x));
            assert(has_label(o_before, x.object->BlankNode_0));
        }
    }
}

/// Parses the text of a Turtle document into an [`Input`], which
/// [`crate::formatter::format`] takes.
///
/// The subjects, and the blank nodes that are objects, are recorded in the
/// order in which they first appear. If the options ask for it, the graph
/// is canonicalized, and the two orders are then those in which the graph
/// hands out its triples.
///
/// The document is refused if its text is no Turtle, if it changes its
/// base or the namespace of a prefix after a triple, if a namespace has
/// more than one prefix, or if the base is the namespace of a prefix.
///
/// Comments are not part of the graph, so the written text has none. A
/// text that holds one is therefore refused, unless the options force the
/// work: then the comments are dropped.
pub fn parse(turtle_str: &[u8], options: &FormatOptions) -> (r: Result<Input, Error>)
    ensures
        match r {
            Ok(input) => input_wf(input) && (options.force || !has_comment(turtle_str@)),
            Err(Error::Comment) => has_comment(turtle_str@) && !options.force,
            Err(Error::MultiplePrefixesForNamespace(found)) => found.len() > 0 && forall|k: int|
                0 <= k < found.len() ==> (#[trigger] found[k]).1.len() > 1,
            Err(_) => true,
        },
{
    let mut parser = match new_parser(SUBSTITUTE_BASE) {
        Ok(p) => p,
        Err(e) => {
            return Err(Error::BaseIri(e));
        },
    };
    match parser_next(&mut parser) {
        Some(Err(e)) => {
            return Err(Error::TurtleSyntaxError(e));
        },
        _ => {},
    }
    parser_feed(&mut parser, turtle_str);
    parser_end(&mut parser);
    let mut input = Input {
        base: None,
        prefixes: Vec::new(),
        subjects_in_order: Vec::new(),
        bn_objects_input_order: Vec::new(),
        graph: new_graph(),
    };
    let mut budget: usize = usize::MAX;
    while budget > 0
        invariant
            prefixes_sorted(input.prefixes@),
            orders_cover(graph_triples(input.graph), input.subjects_in_order@, input.bn_objects_input_order@),
        decreases budget,
    {
        budget -= 1;
        let triple = match parser_next(&mut parser) {
            Some(Ok(t)) => t,
            Some(Err(e)) => {
                return Err(Error::TurtleSyntaxError(e));
            },
            None => {
                break ;
            },
        };
        let base_now = parser_base(&parser);
        let prefixes_now = parser_prefixes(&parser);
        match record_triple(&mut input, &triple, base_now, &prefixes_now) {
            Ok(_) => {},
            Err(e) => {
                return Err(e);
            },
        }
    }
    if !options.force && seen_comment(turtle_str) {
        return Err(Error::Comment);
    }
    if options.canonicalize {
        graph_canonicalize(&mut input.graph);
        let (subjects, objects) = orders_of_graph(&input.graph);
        input.subjects_in_order = subjects;
        input.bn_objects_input_order = objects;
    }
    match check_declarations(&input.prefixes, &input.base) {
        Ok(_) => {},
        Err(e) => {
            return Err(e);
        },
    }
    Ok(input)
}

} // verus!
