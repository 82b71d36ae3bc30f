//! How an IRI is written: with a prefix, relative to the base, or in full.
use crate::ast::{TNamedNode, TNamedNodeView};
use crate::text::{
    chars_of, contains_char, contains_pair, find_last, has_pair, last_index_of, starts_with, str_eq, string_of,
};
use vstd::prelude::*;

verus! {

/// Where the namespace of an IRI ends: at its last `#`, or without one at
/// its last `/`.
pub open spec fn namespace_end(iri: Seq<char>) -> Option<int> {
    match last_index_of(iri, '#') {
        Some(i) => Some(i),
        None => last_index_of(iri, '/'),
    }
}

/// The prefix that is declared for the namespace: that of the first
/// declaration that has it.
pub open spec fn prefix_of_namespace(prefixes: Seq<(String, String)>, namespace: Seq<char>) -> Option<Seq<char>>
    decreases prefixes.len(),
{
    if prefixes.len() == 0 {
        None
    } else if prefixes[0].1@ == namespace {
        Some(prefixes[0].0@)
    } else {
        prefix_of_namespace(prefixes.drop_first(), namespace)
    }
}

/// The namespace that is declared for the prefix: that of the first
/// declaration that has it.
pub open spec fn namespace_of_prefix(prefixes: Seq<(String, String)>, prefix: Seq<char>) -> Option<Seq<char>>
    decreases prefixes.len(),
{
    if prefixes.len() == 0 {
        None
    } else if prefixes[0].0@ == prefix {
        Some(prefixes[0].1@)
    } else {
        namespace_of_prefix(prefixes.drop_first(), prefix)
    }
}

/// The IRI written with a prefix, if one is declared for its namespace.
pub open spec fn prefixed_form(prefixes: Seq<(String, String)>, iri: Seq<char>) -> Option<TNamedNodeView> {
    match namespace_end(iri) {
        Some(i) => match prefix_of_namespace(prefixes, iri.subrange(0, i + 1)) {
            Some(prefix) => Some(TNamedNodeView::Prefixed(iri, prefix, iri.subrange(i + 1, iri.len() as int))),
            None => None,
        },
        None => None,
    }
}

/// The base names a directory: it ends in `/` and has neither a query nor
/// a fragment. A relative path is resolved against such a base by putting
/// it behind the base.
pub open spec fn is_directory(base: Seq<char>) -> bool {
    base.len() > 0 && base.last() == '/' && !base.contains('?') && !base.contains('#')
}

/// What follows the base is a path that is resolved by putting it behind
/// the base: it does not start at the root, cannot be taken for an IRI
/// with a scheme, and has no segment that starts with a dot.
pub open spec fn is_plain_path(rest: Seq<char>) -> bool {
    &&& !rest.contains(':')
    &&& rest.len() > 0 ==> rest[0] != '/' && rest[0] != '.'
    &&& !has_pair(rest, '/', '.')
}

/// What follows the base is resolved against the base to the IRI again,
/// that is to the base with it put behind:
/// - nothing, or a fragment, under a base without a fragment;
/// - a query under a base without a query or a fragment;
/// - a plain path under a base that names a directory.
pub open spec fn resolves_back(base: Seq<char>, rest: Seq<char>) -> bool {
    if rest.len() == 0 || rest[0] == '#' {
        !base.contains('#')
    } else if rest[0] == '?' {
        !base.contains('?') && !base.contains('#')
    } else {
        is_directory(base) && is_plain_path(rest)
    }
}

/// How the IRI is written: with a prefix if one is declared for its
/// namespace; else relative to the base if it begins with the base and
/// what follows it is resolved to the IRI again; else in full.
pub open spec fn named_node_of(
    prefixes: Seq<(String, String)>,
    base: Option<String>,
    iri: Seq<char>,
) -> TNamedNodeView {
    match prefixed_form(prefixes, iri) {
        Some(n) => n,
        None => match base {
            Some(b) => if b@.is_prefix_of(iri) && resolves_back(
                b@,
                iri.subrange(b@.len() as int, iri.len() as int),
            ) {
                TNamedNodeView::Based(iri, iri.subrange(b@.len() as int, iri.len() as int))
            } else {
                TNamedNodeView::Plain(iri)
            },
            None => TNamedNodeView::Plain(iri),
        },
    }
}

/// The prefix declared for the namespace, if any.
pub fn find_prefix<'a>(prefixes: &'a Vec<(String, String)>, namespace: &str) -> (r: Option<&'a String>)
    ensures
        match r {
            Some(p) => prefix_of_namespace(prefixes@, namespace@) == Some(p@),
            None => prefix_of_namespace(prefixes@, namespace@) is None,
        },
{
    let mut i: usize = 0;
    assert(prefixes@.subrange(0, prefixes.len() as int) =~= prefixes@);
    while i < prefixes.len()
        invariant
            i <= prefixes.len(),
            prefix_of_namespace(prefixes@, namespace@) == prefix_of_namespace(
                prefixes@.subrange(i as int, prefixes.len() as int),
                namespace@,
            ),
        decreases prefixes.len() - i,
    {
        let ghost rest = prefixes@.subrange(i as int, prefixes.len() as int);
        assert(rest[0] == prefixes@[i as int]);
        if str_eq(prefixes[i].1.as_str(), namespace) {
            return Some(&prefixes[i].0);
        }
        assert(rest.drop_first() =~= prefixes@.subrange(i + 1, prefixes.len() as int));
        i += 1;
    }
    None
}

/// The namespace declared for the prefix, if any.
pub fn find_namespace<'a>(prefixes: &'a Vec<(String, String)>, prefix: &str) -> (r: Option<&'a String>)
    ensures
        match r {
            Some(n) => namespace_of_prefix(prefixes@, prefix@) == Some(n@),
            None => namespace_of_prefix(prefixes@, prefix@) is None,
        },
{
    let mut i: usize = 0;
    assert(prefixes@.subrange(0, prefixes.len() as int) =~= prefixes@);
    while i < prefixes.len()
        invariant
            i <= prefixes.len(),
            namespace_of_prefix(prefixes@, prefix@) == namespace_of_prefix(
                prefixes@.subrange(i as int, prefixes.len() as int),
                prefix@,
            ),
        decreases prefixes.len() - i,
    {
        let ghost rest = prefixes@.subrange(i as int, prefixes.len() as int);
        assert(rest[0] == prefixes@[i as int]);
        if str_eq(prefixes[i].0.as_str(), prefix) {
            return Some(&prefixes[i].1);
        }
        assert(rest.drop_first() =~= prefixes@.subrange(i + 1, prefixes.len() as int));
        i += 1;
    }
    None
}

/// Is what follows the base resolved against the base to the IRI again?
pub fn is_resolved_back(base: &Vec<char>, rest: &Vec<char>) -> (r: bool)
    ensures
        r == resolves_back(base@, rest@),
{
    if rest.len() == 0 || rest[0] == '#' {
        !contains_char(base, '#')
    } else if rest[0] == '?' {
        !contains_char(base, '?') && !contains_char(base, '#')
    } else {
        base.len() > 0 && base[base.len() - 1] == '/' && !contains_char(base, '?') && !contains_char(base, '#')
            && !contains_char(rest, ':') && rest[0] != '/' && rest[0] != '.' && !contains_pair(rest, '/', '.')
    }
}

impl TNamedNode {
    /// Decides how the IRI is written, given the declared prefixes and the
    /// base.
    pub fn from(prefixes: &Vec<(String, String)>, base: &Option<String>, iri: &str) -> (r: TNamedNode)
        ensures
            r@ == named_node_of(prefixes@, *base, iri@),
            r@.iri() == iri@,
    {
        let chars = chars_of(iri);
        let split = match find_last(&chars, '#') {
            Some(i) => Some(i),
            None => find_last(&chars, '/'),
        };
        match split {
            Some(i) => {
                let namespace = string_of(&chars, 0, i + 1);
                match find_prefix(prefixes, namespace.as_str()) {
                    Some(prefix) => {
                        let local = string_of(&chars, i + 1, chars.len());
                        return TNamedNode::Prefixed(iri.to_owned(), prefix.clone(), local);
                    },
                    None => {},
                }
            },
            None => {},
        }
        match base {
            Some(b) => {
                let base_chars = chars_of(b.as_str());
                if starts_with(&chars, &base_chars) {
                    let rest = string_of(&chars, base_chars.len(), chars.len());
                    let rest_chars = chars_of(rest.as_str());
                    if is_resolved_back(&base_chars, &rest_chars) {
                        return TNamedNode::Based(iri.to_owned(), rest);
                    }
                }
            },
            None => {},
        }
        TNamedNode::Plain(iri.to_owned())
    }
}

} // verus!
