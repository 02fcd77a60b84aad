//! Selections of row numbers.

use vstd::prelude::*;

verus! {

/// Row numbers as integers.
pub open spec fn ints(rows: Seq<usize>) -> Seq<int> {
    rows.map_values(|r: usize| r as int)
}

/// The numbers below `n` that satisfy `p`, in ascending order.
pub open spec fn rows_where(n: nat, p: spec_fn(int) -> bool) -> Seq<int>
    decreases n,
{
    if n == 0 {
        Seq::empty()
    } else {
        let rest = rows_where((n - 1) as nat, p);
        if p(n - 1) {
            rest.push(n - 1)
        } else {
            rest
        }
    }
}

/// The least number below `n` that satisfies `p`.
pub open spec fn first_where(n: nat, p: spec_fn(int) -> bool) -> Option<int>
    decreases n,
{
    if n == 0 {
        None
    } else {
        match first_where((n - 1) as nat, p) {
            Some(i) => Some(i),
            None => if p(n - 1) {
                Some(n - 1)
            } else {
                None
            },
        }
    }
}

/// What [`first_where`] finds: a number that satisfies `p`, and none below it does.
pub proof fn lemma_first_where(n: nat, p: spec_fn(int) -> bool)
    ensures
        match first_where(n, p) {
            Some(i) => 0 <= i < n && p(i) && forall|j: int| 0 <= j < i ==> !#[trigger] p(j),
            None => forall|j: int| 0 <= j < n ==> !#[trigger] p(j),
        },
    decreases n,
{
    if n > 0 {
        lemma_first_where((n - 1) as nat, p);
    }
}

/// A number that satisfies `p`, where none below it does, is the one [`first_where`] finds.
pub proof fn lemma_first_where_is(n: nat, p: spec_fn(int) -> bool, i: int)
    requires
        0 <= i < n,
        p(i),
        forall|j: int| 0 <= j < i ==> !#[trigger] p(j),
    ensures
        first_where(n, p) == Some(i),
{
    lemma_first_where(n, p);
    let f = first_where(n, p)->0;
    if f < i {
        assert(!p(f));
    }
}

/// [`first_where`] depends only on what the predicate says below `n`.
pub proof fn lemma_first_where_same(n: nat, p: spec_fn(int) -> bool, q: spec_fn(int) -> bool)
    requires
        forall|j: int| 0 <= j < n ==> #[trigger] p(j) == q(j),
    ensures
        first_where(n, p) == first_where(n, q),
    decreases n,
{
    if n > 0 {
        lemma_first_where_same((n - 1) as nat, p, q);
        assert(p(n - 1) == q(n - 1));
    }
}

/// [`rows_where`] gives exactly the numbers below `n` that satisfy `p`, ascending.
pub proof fn lemma_rows_where(n: nat, p: spec_fn(int) -> bool)
    ensures
        rows_where(n, p).len() <= n,
        forall|k: int|
            0 <= k < rows_where(n, p).len() ==> 0 <= #[trigger] rows_where(n, p)[k] < n && p(
                rows_where(n, p)[k],
            ),
        forall|j: int, k: int|
            0 <= j < k < rows_where(n, p).len() ==> #[trigger] rows_where(n, p)[j]
                < #[trigger] rows_where(n, p)[k],
        forall|i: int| 0 <= i < n && #[trigger] p(i) ==> rows_where(n, p).contains(i),
    decreases n,
{
    if n > 0 {
        let m = (n - 1) as nat;
        lemma_rows_where(m, p);
        let s = rows_where(n, p);
        let t = rows_where(m, p);
        assert forall|i: int| 0 <= i < n && #[trigger] p(i) implies s.contains(i) by {
            if i == n - 1 {
                assert(s[s.len() - 1] == i);
            } else {
                assert(t.contains(i));
                let k = choose|k: int| 0 <= k < t.len() && t[k] == i;
                assert(s[k] == i);
            }
        }
    }
}

/// [`rows_where`] depends only on what the predicate says below `n`.
pub proof fn lemma_rows_where_same(n: nat, p: spec_fn(int) -> bool, q: spec_fn(int) -> bool)
    requires
        forall|j: int| 0 <= j < n ==> #[trigger] p(j) == q(j),
    ensures
        rows_where(n, p) == rows_where(n, q),
    decreases n,
{
    if n > 0 {
        lemma_rows_where_same((n - 1) as nat, p, q);
        assert(p(n - 1) == q(n - 1));
    }
}

/// Nothing is selected where nothing satisfies the predicate.
pub proof fn lemma_rows_where_none(n: nat, p: spec_fn(int) -> bool)
    ensures
        rows_where(n, p).len() == 0 <==> forall|j: int| 0 <= j < n ==> !#[trigger] p(j),
{
    lemma_rows_where(n, p);
    if rows_where(n, p).len() > 0 {
        assert(p(rows_where(n, p)[0]));
    }
}

/// Where every number satisfies the predicate, all are selected.
pub proof fn lemma_rows_where_all(n: nat, p: spec_fn(int) -> bool)
    requires
        forall|j: int| 0 <= j < n ==> #[trigger] p(j),
    ensures
        rows_where(n, p) == Seq::new(n, |i: int| i),
    decreases n,
{
    if n > 0 {
        lemma_rows_where_all((n - 1) as nat, p);
        assert(p(n - 1));
    }
    assert(rows_where(n, p) =~= Seq::new(n, |i: int| i));
}

/// Sequences with the same elements, each as often, still have them after a function is applied
/// to each.
pub proof fn lemma_mapped_alike<A, B>(a: Seq<A>, b: Seq<A>, f: spec_fn(A) -> B)
    requires
        a.to_multiset() == b.to_multiset(),
    ensures
        a.map_values(f).to_multiset() == b.map_values(f).to_multiset(),
    decreases a.len(),
{
    broadcast use vstd::seq_lib::group_to_multiset_ensures;

    assert(a.len() == a.to_multiset().len());
    assert(b.len() == b.to_multiset().len());
    if a.len() == 0 {
        assert(a.map_values(f) =~= b.map_values(f));
    } else {
        let i = a.len() - 1;
        let x = a[i];
        assert(a.contains(x));
        assert(b.contains(x)) by {
            assert(a.to_multiset().count(x) > 0);
            assert(b.to_multiset().count(x) > 0);
        }
        let j = choose|j: int| 0 <= j < b.len() && b[j] == x;
        assert(a.remove(i).to_multiset() =~= a.to_multiset().remove(x));
        assert(b.remove(j).to_multiset() =~= b.to_multiset().remove(x));
        lemma_mapped_alike(a.remove(i), b.remove(j), f);
        lemma_multiset_of_removal(a.map_values(f), i);
        lemma_multiset_of_removal(b.map_values(f), j);
        assert(a.map_values(f).remove(i) =~= a.remove(i).map_values(f));
        assert(b.map_values(f).remove(j) =~= b.remove(j).map_values(f));
    }
}

proof fn lemma_multiset_of_removal<A>(s: Seq<A>, i: int)
    requires
        0 <= i < s.len(),
    ensures
        s.to_multiset() == s.remove(i).to_multiset().insert(s[i]),
{
    broadcast use vstd::seq_lib::group_to_multiset_ensures;

    assert(s.contains(s[i]));
    assert(s.remove(i).to_multiset() =~= s.to_multiset().remove(s[i]));
    assert(s.to_multiset() =~= s.remove(i).to_multiset().insert(s[i]));
}

} // verus!
