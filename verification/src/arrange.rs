//! Sorting as a rearrangement: where every item of a sorted list comes
//! from, and where every item of the list goes.
use crate::compare::SortingContext;
use crate::sorting::{insert_sorted, sorted_seq, Sortable};
use vstd::prelude::*;

verus! {

/// `from` and `to` are two readings of one rearrangement of `n` places:
/// the item at the new place `k` comes from the old place `from[k]`, and
/// the item at the old place `i` goes to the new place `to[i]`.
pub open spec fn is_arrangement(from: Seq<int>, to: Seq<int>, n: nat) -> bool {
    &&& from.len() == n
    &&& to.len() == n
    &&& forall|k: int| 0 <= k < n ==> 0 <= #[trigger] from[k] < n && to[from[k]] == k
    &&& forall|i: int| 0 <= i < n ==> 0 <= #[trigger] to[i] < n && from[to[i]] == i
}

/// `b` holds the items of `a`, rearranged as `from` and `to` say.
pub open spec fn rearranged<T>(a: Seq<T>, b: Seq<T>, from: Seq<int>, to: Seq<int>) -> bool {
    &&& is_arrangement(from, to, a.len())
    &&& b.len() == a.len()
    &&& forall|k: int| 0 <= k < a.len() ==> #[trigger] b[k] == a[from[k]]
}

/// The list with `x` put in behind its first `j` items.
pub open spec fn put_in<T>(d: Seq<T>, x: T, j: int) -> Seq<T> {
    d.subrange(0, j).push(x) + d.subrange(j, d.len() as int)
}

/// Where an item is put into a sorted list.
pub proof fn insert_position<T: Sortable>(ctx: SortingContext, d: Seq<T>, x: T) -> (j: int)
    ensures
        0 <= j <= d.len(),
        insert_sorted(ctx, d, x) == put_in(d, x, j),
    decreases d.len(),
{
    if d.len() == 0 {
        assert(seq![x] =~= put_in(d, x, 0));
        0
    } else if T::comes_after(ctx, d.last(), x) {
        let front = d.drop_last();
        let j = insert_position(ctx, front, x);
        assert(put_in(front, x, j).push(d.last()) =~= put_in(d, x, j));
        j
    } else {
        assert(d.push(x) =~= put_in(d, x, d.len() as int));
        d.len() as int
    }
}

/// How sorting rearranges a list: where the items of the sorted list come
/// from, and where the items of the list go.
pub proof fn sorted_arrangement<T: Sortable>(ctx: SortingContext, s: Seq<T>) -> (r: (Seq<int>, Seq<int>))
    ensures
        rearranged(s, sorted_seq(ctx, s), r.0, r.1),
    decreases s.len(),
{
    if s.len() == 0 {
        (Seq::empty(), Seq::empty())
    } else {
        let front = s.drop_last();
        let n = front.len() as int;
        let (from0, to0) = sorted_arrangement(ctx, front);
        let d = sorted_seq(ctx, front);
        let j = insert_position(ctx, d, s.last());
        let from = Seq::new(
            s.len(),
            |k: int|
                if k < j {
                    from0[k]
                } else if k == j {
                    n
                } else {
                    from0[k - 1]
                },
        );
        let to = Seq::new(
            s.len(),
            |i: int|
                if i == n {
                    j
                } else if to0[i] < j {
                    to0[i]
                } else {
                    to0[i] + 1
                },
        );
        let b = sorted_seq(ctx, s);
        assert(b == put_in(d, s.last(), j));
        assert forall|k: int| 0 <= k < s.len() implies 0 <= #[trigger] from[k] < s.len() && to[from[k]] == k by {
            if k < j {
                assert(to0[from0[k]] == k);
            } else if k > j {
                assert(to0[from0[k - 1]] == k - 1);
            }
        }
        assert forall|i: int| 0 <= i < s.len() implies 0 <= #[trigger] to[i] < s.len() && from[to[i]] == i by {
            if i < n {
                assert(from0[to0[i]] == i);
            }
        }
        assert forall|k: int| 0 <= k < s.len() implies #[trigger] b[k] == s[from[k]] by {
            if k < j {
                assert(b[k] == d[k]);
                assert(d[k] == front[from0[k]]);
            } else if k == j {
                assert(b[k] == s.last());
            } else {
                assert(b[k] == d[k - 1]);
                assert(d[k - 1] == front[from0[k - 1]]);
            }
        }
        (from, to)
    }
}

} // verus!
