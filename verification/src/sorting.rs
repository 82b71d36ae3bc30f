//! A stable sort of sibling nodes, and the walk that sorts a whole tree.
use crate::ast::{
    TBlankNode, TCollection, TCollectionRef, TObject, TPredicateCont, TRoot, TSubject, TSubjectCont, TTriple,
};
use crate::compare::{object_order, pred_order, subject_order, t_obj, t_pred_cont, t_subj_cont, SortingContext};
use vstd::prelude::*;

verus! {

/// Nodes that have a place among their siblings.
pub trait Sortable: Sized {
    /// `a` has to stand after `b`.
    spec fn comes_after(ctx: SortingContext, a: Self, b: Self) -> bool;

    /// Has `a` to stand after `b`?
    fn is_after(ctx: &SortingContext, a: &Self, b: &Self) -> (r: bool)
        ensures
            r == Self::comes_after(*ctx, *a, *b),
    ;
}

impl Sortable for TObject {
    open spec fn comes_after(ctx: SortingContext, a: Self, b: Self) -> bool {
        object_order(ctx, a, b) == std::cmp::Ordering::Greater
    }

    fn is_after(ctx: &SortingContext, a: &Self, b: &Self) -> (r: bool) {
        match t_obj(ctx, a, b) {
            std::cmp::Ordering::Greater => true,
            _ => false,
        }
    }
}

impl Sortable for TPredicateCont {
    open spec fn comes_after(ctx: SortingContext, a: Self, b: Self) -> bool {
        pred_order(ctx, a.predicate, b.predicate) == std::cmp::Ordering::Greater
    }

    fn is_after(ctx: &SortingContext, a: &Self, b: &Self) -> (r: bool) {
        match t_pred_cont(ctx, a, b) {
            std::cmp::Ordering::Greater => true,
            _ => false,
        }
    }
}

impl Sortable for TSubjectCont {
    open spec fn comes_after(ctx: SortingContext, a: Self, b: Self) -> bool {
        subject_order(ctx, a.subject, b.subject) == std::cmp::Ordering::Greater
    }

    fn is_after(ctx: &SortingContext, a: &Self, b: &Self) -> (r: bool) {
        match t_subj_cont(ctx, a, b) {
            std::cmp::Ordering::Greater => true,
            _ => false,
        }
    }
}

/// The sorted list `s` with `x` put into its place: behind the last item
/// that has not to stand after it.
pub open spec fn insert_sorted<T: Sortable>(ctx: SortingContext, s: Seq<T>, x: T) -> Seq<T>
    decreases s.len(),
{
    if s.len() == 0 {
        seq![x]
    } else if T::comes_after(ctx, s.last(), x) {
        insert_sorted(ctx, s.drop_last(), x).push(s.last())
    } else {
        s.push(x)
    }
}

/// The list sorted: its items put into place one after the other. Items of
/// which neither has to stand after the other keep their order.
pub open spec fn sorted_seq<T: Sortable>(ctx: SortingContext, s: Seq<T>) -> Seq<T>
    decreases s.len(),
{
    if s.len() == 0 {
        s
    } else {
        insert_sorted(ctx, sorted_seq(ctx, s.drop_last()), s.last())
    }
}

/// Where `x` goes in the sorted list `s`: behind the first `j` items.
proof fn lemma_insert_at<T: Sortable>(ctx: SortingContext, s: Seq<T>, x: T, j: int)
    requires
        0 <= j <= s.len(),
        forall|k: int| j <= k < s.len() ==> T::comes_after(ctx, #[trigger] s[k], x),
        j > 0 ==> !T::comes_after(ctx, s[j - 1], x),
    ensures
        insert_sorted(ctx, s, x) == s.subrange(0, j).push(x) + s.subrange(j, s.len() as int),
    decreases s.len() - j,
{
    if j == s.len() {
        assert(s.subrange(0, j) =~= s);
        assert(s.push(x) + s.subrange(j, s.len() as int) =~= s.push(x));
    } else {
        let front = s.drop_last();
        assert(T::comes_after(ctx, s[s.len() - 1], x));
        assert forall|k: int| j <= k < front.len() implies T::comes_after(ctx, #[trigger] front[k], x) by {
            assert(front[k] == s[k]);
        }
        if j > 0 {
            assert(front[j - 1] == s[j - 1]);
        }
        lemma_insert_at(ctx, front, x, j);
        assert(front.subrange(0, j) =~= s.subrange(0, j));
        assert((front.subrange(0, j).push(x) + front.subrange(j, front.len() as int)).push(s.last())
            =~= s.subrange(0, j).push(x) + s.subrange(j, s.len() as int));
    }
}

/// Sorts the list in place. The sort is stable.
pub fn sort_vec<T: Sortable>(v: &mut Vec<T>, ctx: &SortingContext)
    ensures
        final(v)@ == sorted_seq(*ctx, old(v)@),
{
    let n = v.len();
    let mut i: usize = 0;
    assert(old(v)@.subrange(0, 0) =~= Seq::<T>::empty());
    assert(Seq::<T>::empty() + old(v)@.subrange(0, n as int) =~= old(v)@);
    while i < n
        invariant
            i <= n,
            n == old(v)@.len(),
            v@ == sorted_seq(*ctx, old(v)@.subrange(0, i as int)) + old(v)@.subrange(i as int, n as int),
            sorted_seq(*ctx, old(v)@.subrange(0, i as int)).len() == i,
        decreases n - i,
    {
        let ghost done = sorted_seq(*ctx, old(v)@.subrange(0, i as int));
        let ghost rest = old(v)@.subrange(i as int, n as int);
        assert(v@[i as int] == rest[0]);
        let x = v.remove(i);
        assert(v@ =~= done + rest.drop_first());
        let mut j: usize = i;
        while j > 0 && T::is_after(ctx, &v[j - 1], &x)
            invariant
                j <= i,
                i < n,
                v@ == done + rest.drop_first(),
                done.len() == i,
                forall|k: int| j <= k < i ==> T::comes_after(*ctx, #[trigger] done[k], x),
            decreases j,
        {
            assert(v@[j - 1] == done[j - 1]);
            j -= 1;
        }
        proof {
            if j > 0 {
                assert(v@[j - 1] == done[j - 1]);
            }
            lemma_insert_at(*ctx, done, x, j as int);
            let next = old(v)@.subrange(0, i + 1);
            assert(next.drop_last() =~= old(v)@.subrange(0, i as int));
            assert(next.last() == x);
            assert(sorted_seq(*ctx, next) == insert_sorted(*ctx, done, x));
        }
        v.insert(j, x);
        proof {
            let placed = done.subrange(0, j as int).push(x) + done.subrange(j as int, i as int);
            assert(v@ =~= placed + old(v)@.subrange(i + 1, n as int));
            assert(placed.len() == i + 1);
        }
        i += 1;
    }
    assert(old(v)@.subrange(0, n as int) =~= old(v)@);
    assert(v@ =~= sorted_seq(*ctx, old(v)@));
}

/// `y` is one of the items of `s`.
pub open spec fn is_item<T>(s: Seq<T>, y: T) -> bool {
    exists|i: int| 0 <= i < s.len() && #[trigger] s[i] == y
}

pub proof fn lemma_insert_items<T: Sortable>(ctx: SortingContext, s: Seq<T>, x: T)
    ensures
        insert_sorted(ctx, s, x).len() == s.len() + 1,
        forall|k: int|
            0 <= k < s.len() + 1 ==> (#[trigger] insert_sorted(ctx, s, x)[k]) == x || is_item(
                s,
                insert_sorted(ctx, s, x)[k],
            ),
    decreases s.len(),
{
    let r = insert_sorted(ctx, s, x);
    if s.len() == 0 {
    } else if T::comes_after(ctx, s.last(), x) {
        let front = s.drop_last();
        lemma_insert_items(ctx, front, x);
        let inner = insert_sorted(ctx, front, x);
        assert forall|k: int| 0 <= k < s.len() + 1 implies (#[trigger] r[k]) == x || is_item(s, r[k]) by {
            if k < inner.len() {
                assert(r[k] == inner[k]);
                if inner[k] != x {
                    let i = choose|i: int| 0 <= i < front.len() && #[trigger] front[i] == inner[k];
                    assert(s[i] == r[k]);
                }
            } else {
                assert(s[s.len() - 1] == r[k]);
            }
        }
    } else {
        assert forall|k: int| 0 <= k < s.len() + 1 implies (#[trigger] r[k]) == x || is_item(s, r[k]) by {
            if k < s.len() {
                assert(s[k] == r[k]);
            }
        }
    }
}

/// Sorting keeps the length of a list, and every item of the sorted list
/// is an item of the list.
pub proof fn lemma_sorted_items<T: Sortable>(ctx: SortingContext, s: Seq<T>)
    ensures
        sorted_seq(ctx, s).len() == s.len(),
        forall|k: int| 0 <= k < s.len() ==> is_item(s, #[trigger] sorted_seq(ctx, s)[k]),
    decreases s.len(),
{
    if s.len() > 0 {
        let front = s.drop_last();
        lemma_sorted_items(ctx, front);
        let done = sorted_seq(ctx, front);
        lemma_insert_items(ctx, done, s.last());
        let r = sorted_seq(ctx, s);
        assert forall|k: int| 0 <= k < s.len() implies is_item(s, #[trigger] r[k]) by {
            if r[k] == s.last() {
                assert(s[s.len() - 1] == r[k]);
            } else {
                let m = choose|m: int| 0 <= m < done.len() && #[trigger] done[m] == r[k];
                let i = choose|i: int| 0 <= i < front.len() && #[trigger] front[i] == done[m];
                assert(s[i] == r[k]);
            }
        }
    }
}

/// `new` is `old` with every list of predicates and of objects in it
/// sorted. The elements of a collection keep their order.
pub open spec fn object_sorted(ctx: SortingContext, old: TObject, new: TObject) -> bool
    decreases old,
{
    match old {
        TObject::Collection(TCollection::WithContent(a)) => match new {
            TObject::Collection(TCollection::WithContent(b)) => collection_sorted(ctx, a, b),
            _ => false,
        },
        TObject::BlankNodeAnonymous(a) => match new {
            TObject::BlankNodeAnonymous(b) => blank_node_sorted(ctx, a, b),
            _ => false,
        },
        TObject::Triple(a) => match new {
            TObject::Triple(b) => triple_sorted(ctx, *a, *b),
            _ => false,
        },
        _ => new == old,
    }
}

/// `new` is the collection `old` with each element sorted within itself.
/// The elements keep their order, and the head node is left as it is.
pub open spec fn collection_sorted(ctx: SortingContext, old: TCollectionRef, new: TCollectionRef) -> bool
    decreases old,
{
    &&& new.node == old.node
    &&& new.rest.len() == old.rest.len()
    &&& forall|i: int| 0 <= i < old.rest.len() ==> object_sorted(ctx, #[trigger] old.rest@[i], new.rest@[i])
}

/// `new` is the blank node `old` with its predicates sorted.
pub open spec fn blank_node_sorted(ctx: SortingContext, old: TBlankNode, new: TBlankNode) -> bool
    decreases old,
{
    new.node == old.node && predicates_sorted(ctx, old.predicates@, new.predicates@)
}

/// `new` is the quoted triple `old` with its object sorted within itself.
pub open spec fn triple_sorted(ctx: SortingContext, old: TTriple, new: TTriple) -> bool
    decreases old,
{
    new.0 == old.0 && new.1 == old.1 && object_sorted(ctx, old.2, new.2)
}

/// `new` holds the predicates `old` in sorted order, the objects of each
/// sorted.
pub open spec fn predicates_sorted(ctx: SortingContext, old: Seq<TPredicateCont>, new: Seq<TPredicateCont>) -> bool
    decreases old,
{
    let s = sorted_seq(ctx, old);
    &&& new.len() == old.len()
    &&& forall|k: int|
        0 <= k < old.len() ==> (#[trigger] new[k]).predicate == s[k].predicate && {
            proof {
                lemma_sorted_items(ctx, old);
            }
            is_item(old, s[k]) && objects_sorted(ctx, s[k].objects@, new[k].objects@)
        }
}

/// `new` holds the objects `old` in sorted order, each sorted within
/// itself.
pub open spec fn objects_sorted(ctx: SortingContext, old: Seq<TObject>, new: Seq<TObject>) -> bool
    decreases old,
{
    let s = sorted_seq(ctx, old);
    &&& new.len() == old.len()
    &&& forall|j: int|
        0 <= j < old.len() ==> {
            proof {
                lemma_sorted_items(ctx, old);
            }
            is_item(old, s[j]) && object_sorted(ctx, s[j], #[trigger] new[j])
        }
}

/// `new` is the subject `old` with every list of predicates and of
/// objects in it sorted.
pub open spec fn subject_sorted(ctx: SortingContext, old: TSubject, new: TSubject) -> bool {
    match old {
        TSubject::Collection(TCollection::WithContent(a)) => match new {
            TSubject::Collection(TCollection::WithContent(b)) => collection_sorted(ctx, a, b),
            _ => false,
        },
        TSubject::BlankNodeAnonymous(a) => match new {
            TSubject::BlankNodeAnonymous(b) => blank_node_sorted(ctx, a, b),
            _ => false,
        },
        TSubject::Triple(a) => match new {
            TSubject::Triple(b) => triple_sorted(ctx, *a, *b),
            _ => false,
        },
        _ => new == old,
    }
}

/// `new` is the block `old` with its predicates sorted, and with every
/// list in its subject and under its predicates sorted.
pub open spec fn subject_cont_sorted(ctx: SortingContext, old: TSubjectCont, new: TSubjectCont) -> bool {
    subject_sorted(ctx, old.subject, new.subject) && predicates_sorted(ctx, old.predicates@, new.predicates@)
}

/// `new` holds the blocks `old` in sorted order, each sorted within
/// itself.
pub open spec fn subjects_sorted(ctx: SortingContext, old: Seq<TSubjectCont>, new: Seq<TSubjectCont>) -> bool {
    let s = sorted_seq(ctx, old);
    &&& new.len() == old.len()
    &&& forall|i: int| 0 <= i < old.len() ==> subject_cont_sorted(ctx, s[i], #[trigger] new[i])
}

impl TRoot {
    fn sort_triple(triple: &mut TTriple, context: &SortingContext)
        ensures
            triple_sorted(*context, *old(triple), *final(triple)),
        decreases *old(triple),
    {
        Self::sort_object(&mut triple.2, context);
    }

    fn sort_collection_ref(collection: &mut TCollectionRef, context: &SortingContext)
        ensures
            collection_sorted(*context, *old(collection), *final(collection)),
        decreases *old(collection),
    {
        // The items of a collection stay where they are: only what is
        // inside each of them is sorted.
        let mut i: usize = 0;
        while i < collection.rest.len()
            invariant
                i <= collection.rest.len(),
                collection.node == old(collection).node,
                collection.rest.len() == old(collection).rest.len(),
                forall|j: int|
                    0 <= j < i ==> object_sorted(
                        *context,
                        #[trigger] old(collection).rest@[j],
                        collection.rest@[j],
                    ),
                forall|j: int|
                    i <= j < collection.rest.len() ==> #[trigger] collection.rest@[j] == old(
                        collection,
                    ).rest@[j],
            decreases collection.rest.len() - i,
        {
            Self::sort_object(&mut collection.rest[i], context);
            i += 1;
        }
    }

    fn sort_blank_node(blank_node: &mut TBlankNode, context: &SortingContext)
        ensures
            blank_node_sorted(*context, *old(blank_node), *final(blank_node)),
        decreases *old(blank_node),
    {
        Self::sort_predicates(&mut blank_node.predicates, context);
    }

    fn sort_subject(subject: &mut TSubject, context: &SortingContext)
        ensures
            subject_sorted(*context, *old(subject), *final(subject)),
    {
        match subject {
            TSubject::Collection(TCollection::WithContent(collection)) => {
                Self::sort_collection_ref(collection, context);
            },
            TSubject::BlankNodeAnonymous(blank_node) => {
                Self::sort_blank_node(blank_node, context);
            },
            TSubject::Triple(triple_box) => {
                Self::sort_triple(triple_box, context);
            },
            TSubject::NamedNode(_) | TSubject::Collection(TCollection::Empty) | TSubject::BlankNodeLabel(
                _,
            ) => (),
        }
    }

    fn sort_subject_cont(subject_cont: &mut TSubjectCont, context: &SortingContext)
        ensures
            subject_cont_sorted(*context, *old(subject_cont), *final(subject_cont)),
    {
        Self::sort_subject(&mut subject_cont.subject, context);
        Self::sort_predicates(&mut subject_cont.predicates, context);
    }

    fn sort_object(object: &mut TObject, context: &SortingContext)
        ensures
            object_sorted(*context, *old(object), *final(object)),
        decreases *old(object),
    {
        match object {
            TObject::Collection(TCollection::WithContent(collection)) => {
                Self::sort_collection_ref(collection, context);
            },
            TObject::BlankNodeAnonymous(blank_node) => {
                Self::sort_blank_node(blank_node, context);
            },
            TObject::Triple(triple_box) => {
                Self::sort_triple(triple_box, context);
            },
            TObject::NamedNode(_)
            | TObject::Collection(TCollection::Empty)
            | TObject::BlankNodeLabel(_)
            | TObject::Literal(_) => (),
        }
    }

    fn sort_objects(objects: &mut Vec<TObject>, context: &SortingContext)
        ensures
            objects_sorted(*context, old(objects)@, final(objects)@),
        decreases *old(objects),
    {
        sort_vec(objects, context);
        let ghost s = objects@;
        proof {
            lemma_sorted_items(*context, old(objects)@);
        }
        let mut i: usize = 0;
        while i < objects.len()
            invariant
                i <= objects.len(),
                objects.len() == s.len(),
                s == sorted_seq(*context, old(objects)@),
                s.len() == old(objects)@.len(),
                forall|j: int| 0 <= j < s.len() ==> is_item(old(objects)@, #[trigger] s[j]),
                forall|j: int| 0 <= j < i ==> object_sorted(*context, s[j], #[trigger] objects@[j]),
                forall|j: int| i <= j < objects.len() ==> #[trigger] objects@[j] == s[j],
            decreases objects.len() - i,
        {
            assert(is_item(old(objects)@, s[i as int]));
            Self::sort_object(&mut objects[i], context);
            i += 1;
        }
    }

    fn sort_predicates(predicates: &mut Vec<TPredicateCont>, context: &SortingContext)
        ensures
            predicates_sorted(*context, old(predicates)@, final(predicates)@),
        decreases *old(predicates),
    {
        sort_vec(predicates, context);
        let ghost s = predicates@;
        proof {
            lemma_sorted_items(*context, old(predicates)@);
        }
        let mut i: usize = 0;
        while i < predicates.len()
            invariant
                i <= predicates.len(),
                predicates.len() == s.len(),
                s == sorted_seq(*context, old(predicates)@),
                s.len() == old(predicates)@.len(),
                forall|k: int| 0 <= k < s.len() ==> is_item(old(predicates)@, #[trigger] s[k]),
                forall|k: int|
                    0 <= k < i ==> (#[trigger] predicates@[k]).predicate == s[k].predicate && objects_sorted(
                        *context,
                        s[k].objects@,
                        predicates@[k].objects@,
                    ),
                forall|k: int| i <= k < predicates.len() ==> #[trigger] predicates@[k] == s[k],
            decreases predicates.len() - i,
        {
            assert(is_item(old(predicates)@, s[i as int]));
            Self::sort_objects(&mut predicates[i].objects, context);
            i += 1;
        }
    }

    /// Sorts the tree: its blocks, the predicates of each, and the objects
    /// of each predicate, down into nested blank nodes and quoted triples.
    /// The elements of a collection keep their order: a collection that
    /// stands anywhere in the tree stands in the sorted tree with each
    /// element in its place.
    pub fn sort(&mut self, context: &SortingContext)
        ensures
            subjects_sorted(*context, old(self).subjects@, final(self).subjects@),
            crate::order_laws::blocks_in_order(*context, final(self).subjects@),
            forall|k: int, a: TCollectionRef|
                0 <= k < old(self).subjects@.len() && #[trigger] crate::lists::collection_in_block(
                    old(self).subjects@[k],
                    a,
                ) ==> crate::lists::stays_in_blocks(*context, final(self).subjects@, a),
    {
        sort_vec(&mut self.subjects, context);
        let ghost s = self.subjects@;
        proof {
            lemma_sorted_items(*context, old(self).subjects@);
        }
        let mut i: usize = 0;
        while i < self.subjects.len()
            invariant
                i <= self.subjects.len(),
                self.subjects.len() == s.len(),
                s == sorted_seq(*context, old(self).subjects@),
                s.len() == old(self).subjects@.len(),
                forall|j: int| 0 <= j < i ==> subject_cont_sorted(*context, s[j], #[trigger] self.subjects@[j]),
                forall|j: int| i <= j < self.subjects.len() ==> #[trigger] self.subjects@[j] == s[j],
            decreases self.subjects.len() - i,
        {
            Self::sort_subject_cont(&mut self.subjects[i], context);
            i += 1;
        }
        proof {
            crate::order_laws::lemma_blocks_in_order(*context, old(self).subjects@, self.subjects@);
            assert forall|k: int, a: TCollectionRef|
                0 <= k < old(self).subjects@.len() && #[trigger] crate::lists::collection_in_block(
                    old(self).subjects@[k],
                    a,
                ) implies crate::lists::stays_in_blocks(*context, self.subjects@, a) by {
                crate::lists::lemma_sorting_keeps_every_collection(
                    *context,
                    old(self).subjects@,
                    self.subjects@,
                    k,
                    a,
                );
            }
        }
    }
}

} // verus!
