//! The ways to pick `k` of `n` positions, in the order in which the search
//! tries them.

use itertools::Itertools;
use vstd::prelude::*;

verus! {

/// Each of `rest` with `first` put before it.
pub open spec fn prepend(first: usize, rest: Seq<Seq<usize>>) -> Seq<Seq<usize>> {
    Seq::new(rest.len(), |i: int| seq![first] + rest[i])
}

/// The ways to pick `k` positions from `start` up to, but not including, `n`:
/// first those that pick `start`, then those that do not.
pub open spec fn combinations_from(start: nat, n: nat, k: nat) -> Seq<Seq<usize>>
    decreases n - start,
{
    if k == 0 {
        seq![Seq::empty()]
    } else if start >= n {
        Seq::empty()
    } else {
        prepend(start as usize, combinations_from(start + 1, n, (k - 1) as nat))
            + combinations_from(start + 1, n, k)
    }
}

/// The ways to pick `k` of the positions below `n`, each as the increasing
/// list of the positions picked, in lexicographic order.
pub open spec fn combinations(n: nat, k: nat) -> Seq<Seq<usize>> {
    combinations_from(0, n, k)
}

/// Whether `c` is an increasing list of positions from `start` up to, but
/// not including, `n`.
pub open spec fn is_combination(c: Seq<usize>, start: nat, n: nat) -> bool {
    &&& forall|i: int| 0 <= i < c.len() ==> start <= #[trigger] c[i] < n
    &&& forall|i: int, j: int| 0 <= i < j < c.len() ==> c[i] < c[j]
}

/// Whether `a` comes before `b` in lexicographic order: at the first index at
/// which they differ, `a` has the smaller position.
pub open spec fn lex_before(a: Seq<usize>, b: Seq<usize>) -> bool {
    exists|i: int|
        0 <= i < a.len() && i < b.len() && #[trigger] a[i] < b[i] && forall|j: int|
            0 <= j < i ==> a[j] == b[j]
}

/// The lists that a list of vectors holds.
pub open spec fn combination_views(list: Seq<Vec<usize>>) -> Seq<Seq<usize>> {
    Seq::new(list.len(), |i: int| list[i]@)
}

/// Every way to pick that is listed picks `k` positions out of the range, in
/// increasing order.
pub proof fn lemma_combinations_members(start: nat, n: nat, k: nat)
    requires
        n <= usize::MAX,
    ensures
        forall|i: int|
            0 <= i < combinations_from(start, n, k).len() ==> (#[trigger] combinations_from(
                start,
                n,
                k,
            )[i]).len() == k && is_combination(combinations_from(start, n, k)[i], start, n),
    decreases n - start,
{
    if k > 0 && start < n {
        let with = combinations_from(start + 1, n, (k - 1) as nat);
        let without = combinations_from(start + 1, n, k);
        let first = prepend(start as usize, with);
        lemma_combinations_members(start + 1, n, (k - 1) as nat);
        lemma_combinations_members(start + 1, n, k);
        assert forall|i: int| 0 <= i < combinations_from(start, n, k).len() implies (
        #[trigger] combinations_from(start, n, k)[i]).len() == k && is_combination(
            combinations_from(start, n, k)[i],
            start,
            n,
        ) by {
            let c = combinations_from(start, n, k)[i];
            if i < first.len() {
                let rest = with[i];
                assert(c == seq![start as usize] + rest);
                assert(is_combination(rest, start + 1, n));
                assert forall|a: int, b: int| 0 <= a < b < c.len() implies c[a] < c[b] by {
                    assert(c[b] == rest[b - 1]);
                    if a > 0 {
                        assert(c[a] == rest[a - 1]);
                    }
                }
                assert forall|a: int| 0 <= a < c.len() implies start <= #[trigger] c[a] < n by {
                    if a > 0 {
                        assert(c[a] == rest[a - 1]);
                    }
                }
            } else {
                assert(c == without[i - first.len()]);
                assert(is_combination(without[i - first.len()], start + 1, n));
            }
        }
    }
}

/// Every way to pick `k` positions out of the range is listed.
pub proof fn lemma_combinations_complete(start: nat, n: nat, k: nat, c: Seq<usize>)
    requires
        n <= usize::MAX,
        c.len() == k,
        is_combination(c, start, n),
    ensures
        combinations_from(start, n, k).contains(c),
    decreases n - start,
{
    let all = combinations_from(start, n, k);
    if k == 0 {
        assert(c =~= Seq::<usize>::empty());
        assert(all[0] == c);
    } else {
        assert(start <= c[0] < n);
        let with = combinations_from(start + 1, n, (k - 1) as nat);
        let without = combinations_from(start + 1, n, k);
        let first = prepend(start as usize, with);
        if c[0] == start {
            let rest = c.drop_first();
            assert forall|i: int| 0 <= i < rest.len() implies start + 1 <= #[trigger] rest[i]
                < n by {
                assert(rest[i] == c[i + 1]);
                assert(c[0] < c[i + 1]);
            }
            assert forall|i: int, j: int| 0 <= i < j < rest.len() implies rest[i] < rest[j] by {
                assert(c[i + 1] < c[j + 1]);
            }
            lemma_combinations_complete(start + 1, n, (k - 1) as nat, rest);
            let i = choose|i: int| 0 <= i < with.len() && with[i] == rest;
            assert(first[i] =~= c);
            assert(all[i] == c);
        } else {
            assert forall|i: int| 0 <= i < c.len() implies start + 1 <= #[trigger] c[i] < n by {
                if i > 0 {
                    assert(c[0] < c[i]);
                }
            }
            lemma_combinations_complete(start + 1, n, k, c);
            let j = choose|j: int| 0 <= j < without.len() && without[j] == c;
            assert(all[first.len() + j] == c);
        }
    }
}

/// No way to pick is listed twice.
pub proof fn lemma_combinations_distinct(start: nat, n: nat, k: nat)
    requires
        n <= usize::MAX,
    ensures
        forall|i: int, j: int|
            0 <= i < j < combinations_from(start, n, k).len() ==> combinations_from(start, n, k)[i]
                != combinations_from(start, n, k)[j],
    decreases n - start,
{
    if k > 0 && start < n {
        let all = combinations_from(start, n, k);
        let with = combinations_from(start + 1, n, (k - 1) as nat);
        let without = combinations_from(start + 1, n, k);
        let first = prepend(start as usize, with);
        lemma_combinations_distinct(start + 1, n, (k - 1) as nat);
        lemma_combinations_distinct(start + 1, n, k);
        lemma_combinations_members(start + 1, n, k);
        assert forall|i: int, j: int| 0 <= i < j < all.len() implies all[i] != all[j] by {
            if j < first.len() {
                assert(all[i] == seq![start as usize] + with[i]);
                assert(all[j] == seq![start as usize] + with[j]);
                if all[i] == all[j] {
                    assert(with[i] =~= all[i].drop_first());
                    assert(with[j] =~= all[j].drop_first());
                }
            } else if i >= first.len() {
                assert(all[i] == without[i - first.len()]);
                assert(all[j] == without[j - first.len()]);
            } else {
                assert(all[i] == seq![start as usize] + with[i]);
                assert(all[i][0] == start);
                let c = without[j - first.len()];
                assert(all[j] == c);
                assert(c.len() == k && is_combination(c, start + 1, n));
                assert(start + 1 <= c[0]);
            }
        }
    }
}

/// The ways to pick are listed in lexicographic order.
pub proof fn lemma_combinations_sorted(start: nat, n: nat, k: nat)
    requires
        n <= usize::MAX,
    ensures
        forall|i: int, j: int|
            0 <= i < j < combinations_from(start, n, k).len() ==> lex_before(
                #[trigger] combinations_from(start, n, k)[i],
                #[trigger] combinations_from(start, n, k)[j],
            ),
    decreases n - start,
{
    if k > 0 && start < n {
        let all = combinations_from(start, n, k);
        let with = combinations_from(start + 1, n, (k - 1) as nat);
        let without = combinations_from(start + 1, n, k);
        let first = prepend(start as usize, with);
        lemma_combinations_sorted(start + 1, n, (k - 1) as nat);
        lemma_combinations_sorted(start + 1, n, k);
        lemma_combinations_members(start + 1, n, k);
        lemma_combinations_members(start + 1, n, (k - 1) as nat);
        assert forall|i: int, j: int| 0 <= i < j < all.len() implies lex_before(
            #[trigger] all[i],
            #[trigger] all[j],
        ) by {
            if j < first.len() {
                let a = with[i];
                let b = with[j];
                assert(all[i] == seq![start as usize] + a);
                assert(all[j] == seq![start as usize] + b);
                assert(lex_before(a, b));
                let d = choose|d: int|
                    0 <= d < a.len() && d < b.len() && #[trigger] a[d] < b[d] && forall|e: int|
                        0 <= e < d ==> a[e] == b[e];
                assert(all[i][d + 1] == a[d]);
                assert(all[j][d + 1] == b[d]);
                assert forall|e: int| 0 <= e < d + 1 implies all[i][e] == all[j][e] by {
                    if e > 0 {
                        assert(all[i][e] == a[e - 1]);
                        assert(all[j][e] == b[e - 1]);
                    }
                }
                assert(all[i][d + 1] < all[j][d + 1]);
            } else if i >= first.len() {
                assert(all[i] == without[i - first.len()]);
                assert(all[j] == without[j - first.len()]);
            } else {
                assert(all[i] == seq![start as usize] + with[i]);
                let c = without[j - first.len()];
                assert(all[j] == c);
                assert(c.len() == k && is_combination(c, start + 1, n));
                assert(all[i][0] == start);
                assert(start + 1 <= c[0]);
                assert(all[i][0] < all[j][0]);
            }
        }
    }
}

/// `Itertools::combinations` on the positions below `n`, collected: the ways
/// to pick `k` of them, each as the increasing list of the positions picked,
/// in lexicographic order.
#[verifier::external_body]
pub(crate) fn position_combinations(n: usize, k: usize) -> (r: Vec<Vec<usize>>)
    ensures
        combination_views(r@) == combinations(n as nat, k as nat),
{
    (0..n).combinations(k).collect()
}

} // verus!
