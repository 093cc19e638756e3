//! Stable sorting.
//!
//! Both the refiner chain (by work severity) and the duplicate sets (by
//! the configured orderings) are sorted stably, so that stacking several
//! orderings is deterministic. The sort is specified as insertion from
//! the left: its result is the unique permutation that is ordered and
//! keeps equal elements in their original order.

use vstd::prelude::*;

verus! {

/// A total preorder that a stable sort can use. An implementation
/// provides the comparison in spec and exec form and proves that it is
/// total and transitive.
pub trait SortKey: Sized {
    /// Whether `self` sorts at or before `other`.
    spec fn le_spec(&self, other: &Self) -> bool;

    /// The comparison is total.
    proof fn lemma_total(a: &Self, b: &Self)
        ensures
            a.le_spec(b) || b.le_spec(a),
    ;

    /// The comparison is transitive.
    proof fn lemma_trans(a: &Self, b: &Self, c: &Self)
        requires
            a.le_spec(b),
            b.le_spec(c),
        ensures
            a.le_spec(c),
    ;

    /// Decides the comparison.
    fn le(&self, other: &Self) -> (r: bool)
        ensures
            r == self.le_spec(other),
    ;
}

/// Where a stable insertion puts `x`: after every element that sorts at
/// or before it.
pub open spec fn insert_spec<T: SortKey>(s: Seq<T>, x: T) -> Seq<T>
    decreases s.len(),
{
    if s.len() == 0 {
        seq![x]
    } else if s.last().le_spec(&x) {
        s.push(x)
    } else {
        insert_spec(s.drop_last(), x).push(s.last())
    }
}

/// The stable sort of `s`: each element in turn is inserted after its
/// equals.
pub open spec fn sort_spec<T: SortKey>(s: Seq<T>) -> Seq<T>
    decreases s.len(),
{
    if s.len() == 0 {
        Seq::empty()
    } else {
        insert_spec(sort_spec(s.drop_last()), s.last())
    }
}

/// Whether `s` is ordered.
pub open spec fn sorted_le<T: SortKey>(s: Seq<T>) -> bool {
    forall|i: int, j: int| 0 <= i < j < s.len() ==> #[trigger] s[i].le_spec(&s[j])
}

/// Inserting at the boundary position is what `insert_spec` does.
proof fn lemma_insert_at<T: SortKey>(s: Seq<T>, x: T, p: int)
    requires
        0 <= p <= s.len(),
        forall|j: int| 0 <= j < p ==> #[trigger] s[j].le_spec(&x),
        forall|j: int| p <= j < s.len() ==> !(#[trigger] s[j].le_spec(&x)),
    ensures
        insert_spec(s, x) == s.take(p) + seq![x] + s.skip(p),
    decreases s.len(),
{
    if s.len() == 0 {
        assert(insert_spec(s, x) =~= s.take(p) + seq![x] + s.skip(p));
    } else if p == s.len() {
        assert(s.last().le_spec(&x));
        assert(insert_spec(s, x) =~= s.take(p) + seq![x] + s.skip(p));
    } else {
        assert(!s.last().le_spec(&x));
        let dl = s.drop_last();
        assert(forall|j: int| 0 <= j < p ==> #[trigger] dl[j].le_spec(&x));
        assert(forall|j: int| p <= j < dl.len() ==> !(#[trigger] dl[j].le_spec(&x)));
        lemma_insert_at(dl, x, p);
        assert((dl.take(p) + seq![x] + dl.skip(p)).push(s.last()) =~= s.take(p) + seq![x] + s.skip(
            p,
        ));
    }
}

/// A stable insertion into an ordered sequence keeps it ordered.
proof fn lemma_insert_sorted<T: SortKey>(s: Seq<T>, x: T, p: int)
    requires
        0 <= p <= s.len(),
        sorted_le(s),
        forall|j: int| 0 <= j < p ==> #[trigger] s[j].le_spec(&x),
        forall|j: int| p <= j < s.len() ==> !(#[trigger] s[j].le_spec(&x)),
    ensures
        sorted_le(s.take(p) + seq![x] + s.skip(p)),
{
    let r = s.take(p) + seq![x] + s.skip(p);
    assert forall|i: int, j: int| 0 <= i < j < r.len() implies #[trigger] r[i].le_spec(&r[j]) by {
        if i < p {
            assert(r[i] == s[i]);
        } else if i == p {
            assert(r[i] == x);
        } else {
            assert(r[i] == s[i - 1]);
        }
        if j < p {
            assert(r[j] == s[j]);
        } else if j == p {
            assert(r[j] == x);
        } else {
            assert(r[j] == s[j - 1]);
        }
        if i < p && j < p {
            assert(s[i].le_spec(&s[j]));
        } else if i < p && j == p {
            assert(s[i].le_spec(&x));
        } else if i == p && j > p {
            assert(!(s[j - 1].le_spec(&x)));
            T::lemma_total(&x, &s[j - 1]);
        } else if i < p && j > p {
            assert(s[i].le_spec(&x));
            assert(!(s[j - 1].le_spec(&x)));
            T::lemma_total(&x, &s[j - 1]);
            T::lemma_trans(&s[i], &x, &s[j - 1]);
        } else if i > p && j > p {
            assert(s[i - 1].le_spec(&s[j - 1]));
        }
    }
}

/// The stable sort of an already ordered sequence is the sequence
/// itself.
pub proof fn lemma_sort_of_sorted<T: SortKey>(s: Seq<T>)
    requires
        sorted_le(s),
    ensures
        sort_spec(s) == s,
    decreases s.len(),
{
    if s.len() > 0 {
        let dl = s.drop_last();
        assert(sorted_le(dl));
        lemma_sort_of_sorted(dl);
        if dl.len() > 0 {
            assert(dl.last() == s[s.len() - 2]);
            assert(s[s.len() - 2].le_spec(&s[s.len() - 1]));
        }
        assert(insert_spec(dl, s.last()) == dl.push(s.last()));
        assert(dl.push(s.last()) =~= s);
    }
}

/// The result of the stable sort is ordered.
pub proof fn lemma_sort_sorted<T: SortKey>(s: Seq<T>)
    ensures
        sorted_le(sort_spec(s)),
    decreases s.len(),
{
    if s.len() > 0 {
        let dl = s.drop_last();
        lemma_sort_sorted(dl);
        let sd = sort_spec(dl);
        let x = s.last();
        let p = boundary_of(sd, x);
        lemma_boundary(sd, x);
        lemma_insert_at(sd, x, p);
        lemma_insert_sorted(sd, x, p);
    }
}

/// The position before which everything sorts at or before `x` and from
/// which nothing does, in an ordered sequence.
pub open spec fn boundary_of<T: SortKey>(s: Seq<T>, x: T) -> int
    decreases s.len(),
{
    if s.len() == 0 {
        0
    } else if s.last().le_spec(&x) {
        s.len() as int
    } else {
        boundary_of(s.drop_last(), x)
    }
}

/// In an ordered sequence the boundary splits it as its name says.
proof fn lemma_boundary<T: SortKey>(s: Seq<T>, x: T)
    requires
        sorted_le(s),
    ensures
        0 <= boundary_of(s, x) <= s.len(),
        forall|j: int| 0 <= j < boundary_of(s, x) ==> #[trigger] s[j].le_spec(&x),
        forall|j: int| boundary_of(s, x) <= j < s.len() ==> !(#[trigger] s[j].le_spec(&x)),
    decreases s.len(),
{
    if s.len() > 0 {
        let p = boundary_of(s, x);
        if s.last().le_spec(&x) {
            assert forall|j: int| 0 <= j < p implies #[trigger] s[j].le_spec(&x) by {
                if j < s.len() - 1 {
                    T::lemma_trans(&s[j], &s[s.len() - 1], &x);
                }
            }
        } else {
            let dl = s.drop_last();
            assert(sorted_le(dl));
            lemma_boundary(dl, x);
            assert forall|j: int| 0 <= j < p implies #[trigger] s[j].le_spec(&x) by {
                assert(s[j] == dl[j]);
                assert(dl[j].le_spec(&x));
            }
            assert forall|j: int| p <= j < s.len() implies !(#[trigger] s[j].le_spec(&x)) by {
                if j < s.len() - 1 {
                    assert(s[j] == dl[j]);
                    assert(!dl[j].le_spec(&x));
                }
            }
        }
    }
}

/// Sorting twice is sorting once: with a fixed ordering the result of
/// ordering a set is a fixed point.
pub proof fn lemma_sort_idempotent<T: SortKey>(s: Seq<T>)
    ensures
        sort_spec(sort_spec(s)) == sort_spec(s),
{
    lemma_sort_sorted(s);
    lemma_sort_of_sorted(sort_spec(s));
}

/// The stable sort keeps exactly the elements it was given.
pub proof fn lemma_sort_permutes<T: SortKey>(s: Seq<T>)
    ensures
        sort_spec(s).to_multiset() == s.to_multiset(),
    decreases s.len(),
{
    broadcast use vstd::seq_lib::group_to_multiset_ensures;

    if s.len() > 0 {
        let dl = s.drop_last();
        lemma_sort_permutes(dl);
        lemma_insert_permutes(sort_spec(dl), s.last());
        assert(dl.push(s.last()) =~= s);
        assert(s.to_multiset() == dl.to_multiset().insert(s.last()));
    }
}

proof fn lemma_insert_permutes<T: SortKey>(s: Seq<T>, x: T)
    ensures
        insert_spec(s, x).to_multiset() == s.to_multiset().insert(x),
    decreases s.len(),
{
    broadcast use vstd::seq_lib::group_to_multiset_ensures;

    if s.len() == 0 {
        assert(seq![x] =~= Seq::<T>::empty().push(x));
    } else if s.last().le_spec(&x) {
    } else {
        let dl = s.drop_last();
        lemma_insert_permutes(dl, x);
        assert(dl.push(s.last()) =~= s);
        assert(s.to_multiset() == dl.to_multiset().insert(s.last()));
        assert(insert_spec(s, x).to_multiset() == insert_spec(dl, x).to_multiset().insert(
            s.last(),
        ));
        assert(dl.to_multiset().insert(x).insert(s.last()) =~= dl.to_multiset().insert(
            s.last(),
        ).insert(x));
    }
}

/// Sorts the elements stably.
pub fn stable_sort<T: SortKey>(v: Vec<T>) -> (r: Vec<T>)
    ensures
        r@ == sort_spec(v@),
        sorted_le(r@),
    decreases v@.len(),
{
    let mut v = v;
    let ghost orig = v@;
    let popped = v.pop();
    match popped {
        None => {
            proof {
                assert(v@ =~= Seq::<T>::empty());
            }
            v
        },
        Some(x) => {
            let ghost rest = v@;
            let mut sorted = stable_sort(v);
            // find the boundary from the right
            let mut p: usize = sorted.len();
            while p > 0 && !sorted[p - 1].le(&x)
                invariant
                    p <= sorted@.len(),
                    sorted@ == sort_spec(rest),
                    sorted_le(sorted@),
                    forall|j: int| p <= j < sorted@.len() ==> !(#[trigger] sorted@[j].le_spec(&x)),
                decreases p,
            {
                p = p - 1;
            }
            proof {
                assert forall|j: int| 0 <= j < p implies #[trigger] sorted@[j].le_spec(&x) by {
                    if p > 0 && j < p - 1 {
                        T::lemma_trans(&sorted@[j], &sorted@[p - 1], &x);
                    }
                }
                lemma_insert_at(sorted@, x, p as int);
                lemma_insert_sorted(sorted@, x, p as int);
            }
            let ghost before = sorted@;
            sorted.insert(p, x);
            proof {
                assert(sorted@ =~= before.take(p as int) + seq![x] + before.skip(p as int));
                assert(rest.push(x) =~= orig);
                assert(orig.drop_last() =~= rest);
            }
            sorted
        },
    }
}

} // verus!
