//! Ranks that the canonical order goes by: positions in configured lists,
//! sorting ids of blank nodes, and the rank that the types of a subject
//! give it.
use crate::graph::{
    graph_all_triples, graph_object_for_subject_predicate, graph_objects_for_subject_predicate,
    graph_triples, lists_exactly, objects_of,
};
use crate::term::{RdfTerm, RdfTermView, RdfTripleView, Subject, SubjectView};
use crate::text::{chars_of, str_eq};
use crate::vocab::{PRTR_SORTING_ID, RDF_TYPE};
use vstd::prelude::*;

verus! {

/// The rank of `name` in `order`: the last position at which it stands.
pub open spec fn rank_of(order: Seq<String>, name: Seq<char>) -> Option<int>
    decreases order.len(),
{
    if order.len() == 0 {
        None
    } else if order.last()@ == name {
        Some(order.len() - 1)
    } else {
        rank_of(order.drop_last(), name)
    }
}

/// The position of `label` in `list`: the first at which it stands.
pub open spec fn position_of(list: Seq<String>, label: Seq<char>) -> Option<int>
    decreases list.len(),
{
    if list.len() == 0 {
        None
    } else {
        match position_of(list.drop_last(), label) {
            Some(i) => Some(i),
            None => if list.last()@ == label {
                Some(list.len() - 1)
            } else {
                None
            },
        }
    }
}

/// The sorting id that `ids` records for the blank node `label`: that of
/// the first entry for it.
pub open spec fn sorting_id_of(ids: Seq<(String, Option<u32>)>, label: Seq<char>) -> Option<int>
    decreases ids.len(),
{
    if ids.len() == 0 {
        None
    } else if ids[0].0@ == label {
        match ids[0].1 {
            Some(id) => Some(id as int),
            None => None,
        }
    } else {
        sorting_id_of(ids.drop_first(), label)
    }
}

pub proof fn lemma_rank_of(order: Seq<String>, name: Seq<char>)
    ensures
        match rank_of(order, name) {
            Some(i) => 0 <= i < order.len() && order[i]@ == name && forall|j: int|
                i < j < order.len() ==> order[j]@ != name,
            None => forall|j: int| 0 <= j < order.len() ==> order[j]@ != name,
        },
    decreases order.len(),
{
    if order.len() > 0 && order.last()@ != name {
        let front = order.drop_last();
        lemma_rank_of(front, name);
        match rank_of(front, name) {
            Some(i) => {
                assert(front[i] == order[i]);
                assert forall|j: int| i < j < order.len() implies order[j]@ != name by {
                    if j < front.len() {
                        assert(front[j] == order[j]);
                    }
                }
            },
            None => {
                assert forall|j: int| 0 <= j < order.len() implies order[j]@ != name by {
                    if j < front.len() {
                        assert(front[j] == order[j]);
                    }
                }
            },
        }
    }
}

/// The rank of `name` in `order`.
pub fn find_rank(order: &Vec<String>, name: &str) -> (r: Option<usize>)
    ensures
        match r {
            Some(i) => rank_of(order@, name@) == Some(i as int) && i < order.len(),
            None => rank_of(order@, name@) is None,
        },
{
    let mut i: usize = order.len();
    assert(order@.subrange(0, i as int) =~= order@);
    while i > 0
        invariant
            i <= order.len(),
            rank_of(order@, name@) == rank_of(order@.subrange(0, i as int), name@),
        decreases i,
    {
        let ghost cur = order@.subrange(0, i as int);
        assert(cur.last() == order@[i - 1]);
        if str_eq(order[i - 1].as_str(), name) {
            return Some(i - 1);
        }
        assert(cur.drop_last() =~= order@.subrange(0, i - 1));
        i -= 1;
    }
    None
}

/// The position of `label` in `list`.
pub fn find_position(list: &Vec<String>, label: &str) -> (r: Option<usize>)
    ensures
        match r {
            Some(i) => position_of(list@, label@) == Some(i as int) && i < list.len(),
            None => position_of(list@, label@) is None,
        },
{
    let mut i: usize = 0;
    while i < list.len()
        invariant
            i <= list.len(),
            position_of(list@.subrange(0, i as int), label@) is None,
        decreases list.len() - i,
    {
        let ghost next = list@.subrange(0, i + 1);
        assert(next.drop_last() =~= list@.subrange(0, i as int));
        assert(next.last() == list@[i as int]);
        if str_eq(list[i].as_str(), label) {
            proof {
                lemma_position_stays(list@, i + 1, label@);
            }
            return Some(i);
        }
        i += 1;
    }
    assert(list@.subrange(0, i as int) =~= list@);
    None
}

/// A position found in the first `n` items is the position in the whole
/// list.
pub proof fn lemma_position_stays(list: Seq<String>, n: int, label: Seq<char>)
    requires
        0 <= n <= list.len(),
        position_of(list.subrange(0, n), label) is Some,
    ensures
        position_of(list, label) == position_of(list.subrange(0, n), label),
    decreases list.len() - n,
{
    if n < list.len() {
        let next = list.subrange(0, n + 1);
        assert(next.drop_last() =~= list.subrange(0, n));
        lemma_position_stays(list, n + 1, label);
    } else {
        assert(list.subrange(0, n) =~= list);
    }
}

/// The sorting id that `ids` records for the blank node `label`.
pub fn find_sorting_id(ids: &Vec<(String, Option<u32>)>, label: &str) -> (r: Option<u32>)
    ensures
        match r {
            Some(id) => sorting_id_of(ids@, label@) == Some(id as int),
            None => sorting_id_of(ids@, label@) is None,
        },
{
    let mut i: usize = 0;
    assert(ids@.subrange(0, ids.len() as int) =~= ids@);
    while i < ids.len()
        invariant
            i <= ids.len(),
            sorting_id_of(ids@, label@) == sorting_id_of(ids@.subrange(i as int, ids.len() as int), label@),
        decreases ids.len() - i,
    {
        let ghost rest = ids@.subrange(i as int, ids.len() as int);
        assert(rest[0] == ids@[i as int]);
        if str_eq(ids[i].0.as_str(), label) {
            return ids[i].1;
        }
        assert(rest.drop_first() =~= ids@.subrange(i + 1, ids.len() as int));
        i += 1;
    }
    None
}

/// The subject `iri` has a type whose rank in `order` is `i`.
pub open spec fn is_type_rank(g: Set<RdfTripleView>, order: Seq<String>, iri: Seq<char>, i: int) -> bool {
    &&& 0 <= i < order.len()
    &&& rank_of(order, order[i]@) == Some(i)
    &&& g.contains(
        RdfTripleView {
            subject: SubjectView::NamedNode(iri),
            predicate: RDF_TYPE@,
            object: RdfTermView::NamedNode(order[i]@),
        },
    )
}

/// The least rank from `from` on that a type of the subject `iri` has.
pub open spec fn topmost_rank_from(g: Set<RdfTripleView>, order: Seq<String>, iri: Seq<char>, from: int) -> Option<
    int,
>
    decreases order.len() - from,
{
    if from < 0 || from >= order.len() {
        None
    } else if is_type_rank(g, order, iri, from) {
        Some(from)
    } else {
        topmost_rank_from(g, order, iri, from + 1)
    }
}

/// The best rank that the types of the subject `iri` give it: the least
/// rank in `order` of an IRI that the graph states as an `rdf:type` of the
/// subject. No inference is made.
pub open spec fn topmost_rank(g: Set<RdfTripleView>, order: Seq<String>, iri: Seq<char>) -> Option<int> {
    topmost_rank_from(g, order, iri, 0)
}

proof fn lemma_topmost_none(g: Set<RdfTripleView>, order: Seq<String>, iri: Seq<char>, from: int)
    requires
        0 <= from,
        forall|i: int| from <= i < order.len() ==> !is_type_rank(g, order, iri, i),
    ensures
        topmost_rank_from(g, order, iri, from) is None,
    decreases order.len() - from,
{
    if from < order.len() {
        lemma_topmost_none(g, order, iri, from + 1);
    }
}

proof fn lemma_topmost_some(g: Set<RdfTripleView>, order: Seq<String>, iri: Seq<char>, from: int, best: int)
    requires
        0 <= from <= best,
        is_type_rank(g, order, iri, best),
        forall|i: int| from <= i < best ==> !is_type_rank(g, order, iri, i),
    ensures
        topmost_rank_from(g, order, iri, from) == Some(best),
    decreases best - from,
{
    if from < best {
        lemma_topmost_some(g, order, iri, from + 1, best);
    }
}

/// The best rank that the types of the named subject give it.
pub fn extract_topmost_sorting_id_by_types(graph: &oxrdf::Graph, subject_type_order: &Vec<String>, iri: &str) -> (r:
    Option<usize>)
    ensures
        match r {
            Some(i) => topmost_rank(graph_triples(*graph), subject_type_order@, iri@) == Some(i as int),
            None => topmost_rank(graph_triples(*graph), subject_type_order@, iri@) is None,
        },
{
    let ghost g = graph_triples(*graph);
    let ghost order = subject_type_order@;
    let subject = Subject::NamedNode(iri.to_owned());
    let types = graph_objects_for_subject_predicate(graph, &subject, RDF_TYPE);
    let ghost typeset = objects_of(g, SubjectView::NamedNode(iri@), RDF_TYPE@);
    let mut topmost: Option<usize> = None;
    let mut n: usize = 0;
    while n < types.len()
        invariant
            n <= types.len(),
            g == graph_triples(*graph),
            order == subject_type_order@,
            typeset == objects_of(g, SubjectView::NamedNode(iri@), RDF_TYPE@),
            lists_exactly(types@, typeset),
            match topmost {
                Some(best) => is_type_rank(g, order, iri@, best as int),
                None => true,
            },
            forall|m: int, i: int|
                0 <= m < n && 0 <= i < order.len() && (#[trigger] types@[m])@ == RdfTermView::NamedNode(
                    (#[trigger] order[i])@,
                ) && rank_of(order, order[i]@) == Some(i) ==> topmost is Some && topmost.unwrap() <= i,
        decreases types.len() - n,
    {
        assert(typeset.contains(types@[n as int]@));
        match &types[n] {
            RdfTerm::NamedNode(typ) => {
                proof {
                    lemma_rank_of(order, typ@);
                }
                match find_rank(subject_type_order, typ.as_str()) {
                    Some(cur) => {
                        let better = match topmost {
                            Some(best) => cur <= best,
                            None => true,
                        };
                        assert(order[cur as int]@ == typ@);
                        if better {
                            topmost = Some(cur);
                        }
                    },
                    None => {},
                }
            },
            _ => {},
        }
        n += 1;
    }
    proof {
        match topmost {
            Some(best) => {
                assert forall|i: int| 0 <= i < best implies !is_type_rank(g, order, iri@, i) by {
                    if is_type_rank(g, order, iri@, i) {
                        let o = RdfTermView::NamedNode(order[i]@);
                        assert(typeset.contains(o));
                        let m = choose|m: int| 0 <= m < types@.len() && (#[trigger] types@[m])@ == o;
                        assert(types@[m]@ == RdfTermView::NamedNode(order[i]@));
                    }
                }
                lemma_topmost_some(g, order, iri@, 0, best as int);
            },
            None => {
                assert forall|i: int| 0 <= i < order.len() implies !is_type_rank(g, order, iri@, i) by {
                    if is_type_rank(g, order, iri@, i) {
                        let o = RdfTermView::NamedNode(order[i]@);
                        assert(typeset.contains(o));
                        let m = choose|m: int| 0 <= m < types@.len() && (#[trigger] types@[m])@ == o;
                        assert(types@[m]@ == RdfTermView::NamedNode(order[i]@));
                    }
                }
                lemma_topmost_none(g, order, iri@, 0);
            },
        }
    }
    topmost
}

/// A decimal digit.
pub open spec fn is_digit(c: char) -> bool {
    '0' <= c && c <= '9'
}

/// The number that the first `n` characters, all digits, write.
pub open spec fn digits_value(s: Seq<char>, n: int) -> int
    decreases n,
{
    if n <= 0 {
        0
    } else {
        digits_value(s, n - 1) * 10 + (s[n - 1] as int - '0' as int)
    }
}

/// Every character of the text is a digit.
pub open spec fn all_digits(d: Seq<char>) -> bool {
    forall|i: int| 0 <= i < d.len() ==> is_digit(#[trigger] d[i])
}

/// The text without the `+` that it may begin with.
pub open spec fn unsigned_part(s: Seq<char>) -> Seq<char> {
    if s.len() > 0 && s[0] == '+' {
        s.drop_first()
    } else {
        s
    }
}

/// The number below 2^32 that the text writes: digits, with or without a
/// `+` before them. Any other text writes none.
pub open spec fn u32_of(s: Seq<char>) -> Option<int> {
    let d = unsigned_part(s);
    if d.len() > 0 && all_digits(d) && digits_value(d, d.len() as int) <= u32::MAX {
        Some(digits_value(d, d.len() as int))
    } else {
        None
    }
}

proof fn lemma_digits_grow(s: Seq<char>, m: int, n: int)
    requires
        0 <= m <= n <= s.len(),
        forall|i: int| 0 <= i < s.len() ==> is_digit(#[trigger] s[i]),
    ensures
        0 <= digits_value(s, m) <= digits_value(s, n),
    decreases n,
{
    if n == 0 {
    } else if m < n {
        lemma_digits_grow(s, m, n - 1);
        lemma_digits_grow(s, 0, n - 1);
        assert(is_digit(s[n - 1]));
    } else {
        lemma_digits_grow(s, m - 1, n - 1);
        assert(is_digit(s[n - 1]));
    }
}

fn digit_of(c: char) -> (r: Option<u64>)
    ensures
        match r {
            Some(d) => is_digit(c) && d as int == c as int - '0' as int,
            None => !is_digit(c),
        },
{
    if c == '0' {
        Some(0)
    } else if c == '1' {
        Some(1)
    } else if c == '2' {
        Some(2)
    } else if c == '3' {
        Some(3)
    } else if c == '4' {
        Some(4)
    } else if c == '5' {
        Some(5)
    } else if c == '6' {
        Some(6)
    } else if c == '7' {
        Some(7)
    } else if c == '8' {
        Some(8)
    } else if c == '9' {
        Some(9)
    } else {
        None
    }
}

/// Reads a number below 2^32 from its decimal form.
pub fn parse_u32(text: &str) -> (r: Option<u32>)
    ensures
        match r {
            Some(n) => u32_of(text@) == Some(n as int),
            None => u32_of(text@) is None,
        },
{
    let chars = chars_of(text);
    let from: usize = if chars.len() > 0 && chars[0] == '+' {
        1
    } else {
        0
    };
    let ghost d = unsigned_part(chars@);
    if from == chars.len() {
        return None;
    }
    let mut acc: u64 = 0;
    let mut i: usize = from;
    while i < chars.len()
        invariant
            from <= i <= chars.len(),
            chars@ == text@,
            d == unsigned_part(chars@),
            d.len() == chars.len() - from,
            forall|j: int| 0 <= j < d.len() ==> d[j] == chars@[j + from],
            forall|j: int| 0 <= j < i - from ==> is_digit(#[trigger] d[j]),
            acc as int == digits_value(d, i - from),
            acc <= u32::MAX,
        decreases chars.len() - i,
    {
        assert(d[i - from] == chars@[i as int]);
        match digit_of(chars[i]) {
            Some(digit) => {
                let next = acc * 10 + digit;
                assert(next as int == digits_value(d, i - from + 1));
                if next > 4294967295 {
                    proof {
                        if all_digits(d) {
                            lemma_digits_grow(d, i - from + 1, d.len() as int);
                        }
                    }
                    return None;
                }
                acc = next;
            },
            None => {
                proof {
                    assert(!is_digit(d[i - from]));
                    assert(!all_digits(d));
                }
                return None;
            },
        }
        i += 1;
    }
    assert(all_digits(d));
    Some(acc as u32)
}

/// The sorting id that a term states: the number that it writes if it is
/// a literal that writes one.
pub open spec fn stated_id(o: RdfTermView) -> Option<int> {
    match o {
        RdfTermView::Literal(l) => u32_of(l.value),
        _ => None,
    }
}

/// The sorting id as a number.
pub open spec fn id_value(id: Option<u32>) -> Option<int> {
    match id {
        Some(n) => Some(n as int),
        None => None,
    }
}

/// The list has an entry for the blank node `b`.
pub open spec fn has_id_entry(ids: Seq<(String, Option<u32>)>, b: Seq<char>) -> bool {
    exists|k: int| 0 <= k < ids.len() && (#[trigger] ids[k]).0@ == b
}

/// The entry records what one of the `prtr:sortingId` statements of its
/// blank node states.
pub open spec fn id_entry_ok(g: Set<RdfTripleView>, entry: (String, Option<u32>)) -> bool {
    exists|o: RdfTermView|
        #[trigger] objects_of(g, SubjectView::BlankNode(entry.0@), PRTR_SORTING_ID@).contains(o) && id_value(
            entry.1,
        ) == stated_id(o)
}

/// The list holds one entry for every blank node of the graph that has a
/// `prtr:sortingId`, with what one of its statements states.
pub open spec fn sorting_ids_ok(g: Set<RdfTripleView>, ids: Seq<(String, Option<u32>)>) -> bool {
    &&& forall|k: int| 0 <= k < ids.len() ==> id_entry_ok(g, #[trigger] ids[k])
    &&& forall|i: int, j: int| 0 <= i < j < ids.len() ==> ids[i].0@ != ids[j].0@
    &&& forall|b: Seq<char>, o: RdfTermView|
        #[trigger] objects_of(g, SubjectView::BlankNode(b), PRTR_SORTING_ID@).contains(o) ==> has_id_entry(
            ids,
            b,
        )
}

/// Is there an entry for the blank node?
fn contains_id_entry(ids: &Vec<(String, Option<u32>)>, b: &str) -> (r: bool)
    ensures
        r == has_id_entry(ids@, b@),
{
    let mut i: usize = 0;
    while i < ids.len()
        invariant
            i <= ids.len(),
            forall|j: int| 0 <= j < i ==> (#[trigger] ids@[j]).0@ != b@,
        decreases ids.len() - i,
    {
        if str_eq(ids[i].0.as_str(), b) {
            return true;
        }
        i += 1;
    }
    false
}

/// The triple states a sorting id of a blank node for which `ids` has no
/// entry.
pub open spec fn misses_id(ids: Seq<(String, Option<u32>)>, t: RdfTripleView) -> bool {
    match t.subject {
        SubjectView::BlankNode(b) => t.predicate == PRTR_SORTING_ID@ && !has_id_entry(ids, b),
        _ => false,
    }
}

/// Gathers the sorting ids that the blank nodes of the graph state with
/// `prtr:sortingId`. Where a blank node states several, one of them is
/// taken.
pub fn collect_sorting_ids(graph: &oxrdf::Graph) -> (ids: Vec<(String, Option<u32>)>)
    ensures
        sorting_ids_ok(graph_triples(*graph), ids@),
{
    let ghost g = graph_triples(*graph);
    let all = graph_all_triples(graph);
    let mut ids: Vec<(String, Option<u32>)> = Vec::new();
    let mut i: usize = 0;
    while i < all.len()
        invariant
            i <= all.len(),
            g == graph_triples(*graph),
            lists_exactly(all@, g),
            forall|k: int| 0 <= k < ids.len() ==> id_entry_ok(g, #[trigger] ids[k]),
            forall|x: int, y: int| 0 <= x < y < ids.len() ==> ids[x].0@ != ids[y].0@,
            forall|j: int| 0 <= j < i ==> !misses_id(ids@, (#[trigger] all[j])@),
        decreases all.len() - i,
    {
        let ghost before = ids@;
        match &all[i].subject {
            Subject::BlankNode(b) => {
                if str_eq(all[i].predicate.as_str(), PRTR_SORTING_ID) && !contains_id_entry(&ids, b.as_str()) {
                    match graph_object_for_subject_predicate(graph, &all[i].subject, PRTR_SORTING_ID) {
                        Some(term) => {
                            let id = match &term {
                                RdfTerm::Literal(l) => parse_u32(l.value.as_str()),
                                _ => None,
                            };
                            assert(id_value(id) == stated_id(term@));
                            ids.push((b.clone(), id));
                            proof {
                                let entry = ids@[before.len() as int];
                                assert(entry.0@ == b@ && entry.1 == id);
                                assert(objects_of(g, SubjectView::BlankNode(entry.0@), PRTR_SORTING_ID@).contains(
                                    term@,
                                ));
                                assert(id_entry_ok(g, entry));
                            }
                        },
                        None => {
                            proof {
                                let t = all[i as int]@;
                                assert(g.contains(t));
                                assert(t == RdfTripleView {
                                    subject: SubjectView::BlankNode(b@),
                                    predicate: PRTR_SORTING_ID@,
                                    object: t.object,
                                });
                                assert(objects_of(g, SubjectView::BlankNode(b@), PRTR_SORTING_ID@).contains(
                                    t.object,
                                ));
                                assert(false);
                            }
                        },
                    }
                }
            },
            _ => {},
        }
        proof {
            assert forall|j: int| 0 <= j < i + 1 implies !misses_id(ids@, (#[trigger] all[j])@) by {
                match all[j]@.subject {
                    SubjectView::BlankNode(c) => {
                        if has_id_entry(before, c) {
                            let k = choose|k: int| 0 <= k < before.len() && (#[trigger] before[k]).0@ == c;
                            assert(ids@[k].0@ == c);
                        }
                        if j == i && all[j]@.predicate == PRTR_SORTING_ID@ && !has_id_entry(before, c) {
                            assert(ids@[before.len() as int].0@ == c);
                        }
                        if j < i {
                            assert(!misses_id(before, all[j]@));
                        }
                    },
                    _ => {},
                }
            }
        }
        i += 1;
    }
    proof {
        assert forall|b: Seq<char>, o: RdfTermView| #[trigger]
            objects_of(g, SubjectView::BlankNode(b), PRTR_SORTING_ID@).contains(o) implies has_id_entry(
            ids@,
            b,
        ) by {
            let t = RdfTripleView { subject: SubjectView::BlankNode(b), predicate: PRTR_SORTING_ID@, object: o };
            assert(g.contains(t));
            let j = choose|j: int| 0 <= j < all.len() && (#[trigger] all[j])@ == t;
            assert(!misses_id(ids@, all[j]@));
        }
    }
    ids
}

} // verus!
