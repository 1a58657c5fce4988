//! Containers and functions that the simulator is built from.
pub mod idmap;
pub mod piecewise;

use core::cmp::Ordering;
use vstd::prelude::*;

pub use idmap::IdMap;
pub use piecewise::{CubicFunc, CubicFuncPiece, LinearFunc};

verus! {

/// `le` is total and transitive.
pub open spec fn total_preorder<T>(le: spec_fn(T, T) -> bool) -> bool {
    &&& forall|a: T, b: T| #[trigger] le(a, b) || le(b, a)
    &&& forall|a: T, b: T, c: T| #![trigger le(a, b), le(b, c)] le(a, b) && le(b, c) ==> le(a, c)
}

/// `cmp` decides the order `le`: it answers `Greater` for a pair exactly
/// where the first does not come before or beside the second.
pub open spec fn decides<T, F: Fn(&T, &T) -> Ordering>(cmp: F, le: spec_fn(T, T) -> bool) -> bool {
    &&& total_preorder(le)
    &&& forall|a: T, b: T, o: Ordering| #[trigger]
        cmp.ensures((&a, &b), o) ==> ((o is Greater) <==> !le(a, b))
}

/// No element of `s` comes after a later one.
pub open spec fn sorted_by<T>(s: Seq<T>, le: spec_fn(T, T) -> bool) -> bool {
    forall|i: int, j: int| 0 <= i < j < s.len() ==> le(s[i], s[j])
}

/// The elements of `s` at the rank of `x`, in the order in which `s` has them.
pub open spec fn rank_of<T>(s: Seq<T>, le: spec_fn(T, T) -> bool, x: T) -> Seq<T> {
    s.filter(|y: T| le(x, y) && le(y, x))
}

/// `s` holds the elements of `s0`, those of each rank in the order in which
/// `s0` has them.
pub open spec fn keeps_ranks<T>(s: Seq<T>, s0: Seq<T>, le: spec_fn(T, T) -> bool) -> bool {
    forall|x: T| #[trigger] rank_of(s, le, x) == rank_of(s0, le, x)
}

/// `s` is `s0` sorted by `le`, elements of the same rank in their old order.
pub open spec fn stably_sorted<T>(s: Seq<T>, s0: Seq<T>, le: spec_fn(T, T) -> bool) -> bool {
    sorted_by(s, le) && keeps_ranks(s, s0, le)
}

/// `s` with the elements at `j` and `j + 1` exchanged.
pub open spec fn exchanged<T>(s: Seq<T>, j: int) -> Seq<T> {
    s.update(j, s[j + 1]).update(j + 1, s[j])
}

/// The first `i` elements of `s` are sorted.
pub open spec fn sorted_below<T>(s: Seq<T>, le: spec_fn(T, T) -> bool, i: usize) -> bool {
    forall|a: int, b: int| 0 <= a < b < i ==> le(s[a], s[b])
}

/// The elements of `s` up to `i` are sorted but for the one at `j`, which
/// comes before all that follow it up to `i`.
pub open spec fn sorted_around<T>(
    s: Seq<T>,
    le: spec_fn(T, T) -> bool,
    i: usize,
    j: usize,
) -> bool {
    &&& forall|a: int, b: int| 0 <= a < b <= i && a != j && b != j ==> le(s[a], s[b])
    &&& forall|b: int| j < b <= i ==> !le(s[b], s[j as int])
}

/// Sorts `vec` in place by `cmp`, moving one element at a time down to its
/// place. Whatever total order `cmp` decides, `vec` is then sorted by it, and
/// elements of the same rank have kept their order.
pub fn insertion_sort<T, F>(vec: &mut Vec<T>, cmp: F) where F: Fn(&T, &T) -> Ordering
    requires
        forall|a: T, b: T| #[trigger] cmp.requires((&a, &b)),
    ensures
        final(vec)@.len() == old(vec)@.len(),
        final(vec)@.to_multiset() == old(vec)@.to_multiset(),
        forall|le: spec_fn(T, T) -> bool| #[trigger]
            decides(cmp, le) ==> stably_sorted(final(vec)@, old(vec)@, le),
{
    let len = vec.len();
    if len <= 1 {
        return ;
    }
    let mut i: usize = 1;
    while i < len
        invariant
            1 <= i <= len,
            len == vec@.len(),
            forall|a: T, b: T| #[trigger] cmp.requires((&a, &b)),
            vec@.to_multiset() == old(vec)@.to_multiset(),
            forall|le: spec_fn(T, T) -> bool| #[trigger]
                decides(cmp, le) ==> sorted_below(vec@, le, i) && keeps_ranks(vec@, old(vec)@, le),
        decreases len - i,
    {
        let mut j: usize = i;
        let next: usize = i + 1;
        // the element that started at `i` now stands at `j`
        while j > 0
            invariant
                0 <= j <= i < len,
                next == i + 1,
                len == vec@.len(),
                forall|a: T, b: T| #[trigger] cmp.requires((&a, &b)),
                vec@.to_multiset() == old(vec)@.to_multiset(),
                forall|le: spec_fn(T, T) -> bool| #[trigger]
                    decides(cmp, le) ==> sorted_around(vec@, le, i, j) && keeps_ranks(
                        vec@,
                        old(vec)@,
                        le,
                    ),
            ensures
                forall|le: spec_fn(T, T) -> bool| #[trigger]
                    decides(cmp, le) ==> sorted_below(vec@, le, next),
            decreases j,
        {
            let o = cmp(&vec[j - 1], &vec[j]);
            match o {
                Ordering::Greater => {
                    let ghost before = vec@;
                    let prev: usize = j - 1;
                    swap_adjacent(vec, prev);
                    proof {
                        lemma_exchange_keeps_multiset(before, j - 1);
                        assert forall|le: spec_fn(T, T) -> bool| #[trigger]
                            decides(cmp, le) implies sorted_around(vec@, le, i, prev)
                            && keeps_ranks(vec@, old(vec)@, le) by {
                            lemma_step_down(before, old(vec)@, le, i, j);
                        }
                    }
                    j = prev;
                },
                _ => {
                    proof {
                        assert forall|le: spec_fn(T, T) -> bool| #[trigger]
                            decides(cmp, le) implies sorted_below(vec@, le, next) by {
                            lemma_settled(vec@, le, i, j);
                        }
                    }
                    break ;
                },
            }
        }
        i += 1;
    }
    proof {
        assert forall|le: spec_fn(T, T) -> bool| #[trigger] decides(cmp, le) implies stably_sorted(
            vec@,
            old(vec)@,
            le,
        ) by {
            assert(sorted_below(vec@, le, i));
        }
    }
}

/// Exchanges the elements at `j` and `j + 1`.
fn swap_adjacent<T>(vec: &mut Vec<T>, j: usize)
    requires
        j + 1 < old(vec)@.len(),
    ensures
        final(vec)@ == exchanged(old(vec)@, j as int),
{
    let len = vec.len();
    let (left, right) = vec.as_mut_slice().split_at_mut(j + 1);
    match (left.last_mut(), right.first_mut()) {
        (Some(a), Some(b)) => {
            core::mem::swap(a, b);
        },
        _ => {},
    }
    proof {
        assert(vec@ =~= exchanged(old(vec)@, j as int));
    }
}

/// One step of an insertion: the element at `j` comes before its left
/// neighbour and changes places with it.
proof fn lemma_step_down<T>(s: Seq<T>, s0: Seq<T>, le: spec_fn(T, T) -> bool, i: usize, j: usize)
    requires
        total_preorder(le),
        0 < j <= i < s.len(),
        sorted_around(s, le, i, j),
        keeps_ranks(s, s0, le),
        !le(s[j - 1], s[j as int]),
    ensures
        sorted_around(exchanged(s, j - 1), le, i, (j - 1) as usize),
        keeps_ranks(exchanged(s, j - 1), s0, le),
{
    let e: int = j - 1;
    let t = exchanged(s, e);
    lemma_exchange_keeps_ranks(s, le, e);
    assert forall|b: int| e < b <= i implies !le(t[b], t[e]) by {
        if b == e + 1 {
        } else {
            assert(t[b] == s[b]);
            assert(!le(s[b], s[j as int]));
        }
    }
    assert forall|a: int, b: int| 0 <= a < b <= i && a != e && b != e implies le(t[a], t[b]) by {
        let pa = if a == e + 1 {
            e
        } else {
            a
        };
        let pb = if b == e + 1 {
            e
        } else {
            b
        };
        assert(t[a] == s[pa]);
        assert(t[b] == s[pb]);
        if b == e + 1 {
            assert(le(s[a], s[e]));
        } else if a == e + 1 {
            assert(le(s[e], s[b]));
        } else {
            assert(le(s[a], s[b]));
        }
    }
    assert forall|x: T| #[trigger] rank_of(t, le, x) == rank_of(s0, le, x) by {
        assert(rank_of(t, le, x) == rank_of(s, le, x));
    }
}

/// The end of an insertion: the element at `j` has no left neighbour, or one
/// that comes before or beside it.
proof fn lemma_settled<T>(s: Seq<T>, le: spec_fn(T, T) -> bool, i: usize, j: usize)
    requires
        total_preorder(le),
        0 <= j <= i < s.len(),
        i < usize::MAX,
        sorted_around(s, le, i, j),
        j > 0 ==> le(s[j - 1], s[j as int]),
    ensures
        sorted_below(s, le, (i + 1) as usize),
{
    assert forall|a: int, b: int| 0 <= a < b < i + 1 implies le(s[a], s[b]) by {
        if a != j && b != j {
        } else if a == j {
            assert(!le(s[b], s[a]));
            assert(le(s[a], s[b]) || le(s[b], s[a]));
        } else {
            if a == j - 1 {
            } else {
                assert(le(s[a], s[j - 1]));
                assert(le(s[j - 1], s[j as int]));
            }
        }
    }
}

/// Exchanging two neighbours of which the first comes after the second leaves
/// the elements of every rank in their order.
pub proof fn lemma_exchange_keeps_ranks<T>(s: Seq<T>, le: spec_fn(T, T) -> bool, j: int)
    requires
        total_preorder(le),
        0 <= j,
        j + 1 < s.len(),
        !le(s[j], s[j + 1]),
    ensures
        forall|x: T| #[trigger] rank_of(exchanged(s, j), le, x) == rank_of(s, le, x),
{
    assert forall|x: T| #[trigger] rank_of(exchanged(s, j), le, x) == rank_of(s, le, x) by {
        let p = |y: T| le(x, y) && le(y, x);
        let head = s.take(j);
        let tail = s.skip(j + 2);
        let a = s[j];
        let b = s[j + 1];
        assert(s =~= head + seq![a, b] + tail);
        assert(exchanged(s, j) =~= head + seq![b, a] + tail);
        Seq::filter_distributes_over_add(head + seq![a, b], tail, p);
        Seq::filter_distributes_over_add(head, seq![a, b], p);
        Seq::filter_distributes_over_add(head + seq![b, a], tail, p);
        Seq::filter_distributes_over_add(head, seq![b, a], p);
        // at most one of the two is at the rank of `x`
        if p(a) && p(b) {
            assert(le(a, x));
            assert(le(x, b));
            assert(le(a, b));
        }
        lemma_filter_pair(a, b, p);
        lemma_filter_pair(b, a, p);
    }
}

/// What `filter` keeps of a sequence of two.
proof fn lemma_filter_pair<T>(a: T, b: T, p: spec_fn(T) -> bool)
    ensures
        seq![a, b].filter(p) == if p(a) && p(b) {
            seq![a, b]
        } else if p(a) {
            seq![a]
        } else if p(b) {
            seq![b]
        } else {
            Seq::<T>::empty()
        },
{
    let none = Seq::<T>::empty();
    assert(none.filter(p) =~= none) by {
        reveal(Seq::filter);
    }
    none.lemma_filter_push(a, p);
    none.push(a).lemma_filter_push(b, p);
    assert(none.push(a) =~= seq![a]);
    assert(none.push(a).push(b) =~= seq![a, b]);
    assert(none.push(b) =~= seq![b]);
}

/// As often as a sequence holds an element, so often do its elements at
/// that element's rank hold it.
pub proof fn lemma_rank_keeps_count<T>(s: Seq<T>, le: spec_fn(T, T) -> bool, x: T)
    requires
        le(x, x),
    ensures
        rank_of(s, le, x).to_multiset().count(x) == s.to_multiset().count(x),
    decreases s.len(),
{
    broadcast use vstd::multiset::group_multiset_axioms;

    reveal(Seq::filter);
    if s.len() > 0 {
        let rest = s.drop_last();
        lemma_rank_keeps_count(rest, le, x);
        assert(s =~= rest.push(s.last()));
        vstd::seq_lib::to_multiset_build(rest, s.last());
        vstd::seq_lib::to_multiset_build(rank_of(rest, le, x), s.last());
    }
}

/// A sequence that holds the elements of another, those of each rank in
/// their order, holds every element as often as the other.
pub proof fn lemma_ranks_keep_multiset<T>(s: Seq<T>, s0: Seq<T>, le: spec_fn(T, T) -> bool)
    requires
        keeps_ranks(s, s0, le),
        forall|x: T| #[trigger] le(x, x),
    ensures
        s.to_multiset() == s0.to_multiset(),
{
    assert forall|x: T| s.to_multiset().count(x) == s0.to_multiset().count(x) by {
        lemma_rank_keeps_count(s, le, x);
        lemma_rank_keeps_count(s0, le, x);
        assert(rank_of(s, le, x) == rank_of(s0, le, x));
    }
    assert(s.to_multiset() =~= s0.to_multiset());
}

/// Exchanging two neighbours keeps the elements.
pub proof fn lemma_exchange_keeps_multiset<T>(s: Seq<T>, j: int)
    requires
        0 <= j,
        j + 1 < s.len(),
    ensures
        exchanged(s, j).to_multiset() == s.to_multiset(),
{
    broadcast use vstd::multiset::group_multiset_axioms;

    let mid = s.update(j, s[j + 1]);
    vstd::seq_lib::to_multiset_update(s, j, s[j + 1]);
    vstd::seq_lib::to_multiset_update(mid, j + 1, s[j]);
    s.to_multiset_ensures();
    assert(s.to_multiset().count(s[j]) > 0) by {
        assert(s.contains(s[j]));
    }
    assert(s.to_multiset().count(s[j + 1]) > 0) by {
        assert(s.contains(s[j + 1]));
    }
    assert(exchanged(s, j).to_multiset() =~= s.to_multiset());
}

} // verus!
