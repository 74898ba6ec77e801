//! A small combinator for sequences built by scanning index positions, with
//! the lemmas the rest of the crate needs about it.

use vstd::prelude::*;

verus! {

/// The sequence `f(j)` for every index `j` in `0..n` satisfying `p(j)`, in
/// increasing order of `j`.  Loops that filter positions of a batch maintain
/// their output as `collect(i, p, f)` for the prefix scanned so far.
pub open spec fn collect<A>(n: int, p: spec_fn(int) -> bool, f: spec_fn(int) -> A) -> Seq<A>
    decreases n,
{
    if n <= 0 {
        Seq::empty()
    } else {
        let rest = collect(n - 1, p, f);
        if p(n - 1) {
            rest.push(f(n - 1))
        } else {
            rest
        }
    }
}

/// Some qualifying index in `0..n` yields `e`.
pub open spec fn comes_from<A>(n: int, p: spec_fn(int) -> bool, f: spec_fn(int) -> A, e: A) -> bool {
    exists|j: int| 0 <= j < n && #[trigger] p(j) && e == f(j)
}

/// Everything `collect` gathers comes from a qualifying index, and every
/// qualifying index is gathered.
pub proof fn lemma_collect_membership<A>(n: int, p: spec_fn(int) -> bool, f: spec_fn(int) -> A)
    ensures
        forall|j: int| 0 <= j < n && #[trigger] p(j) ==> collect(n, p, f).contains(f(j)),
        forall|k: int|
            0 <= k < collect(n, p, f).len() ==> comes_from(
                n,
                p,
                f,
                #[trigger] collect(n, p, f)[k],
            ),
    decreases n,
{
    if n > 0 {
        lemma_collect_membership(n - 1, p, f);
        assert forall|j: int| 0 <= j < n && #[trigger] p(j) implies collect(n, p, f).contains(
            f(j),
        ) by {
            if j < n - 1 {
                let k = choose|k: int|
                    0 <= k < collect(n - 1, p, f).len() && #[trigger] collect(n - 1, p, f)[k]
                        == f(j);
                assert(collect(n, p, f)[k] == f(j));
            } else {
                assert(collect(n, p, f).last() == f(n - 1));
            }
        }
        assert forall|k: int| 0 <= k < collect(n, p, f).len() implies comes_from(
            n,
            p,
            f,
            #[trigger] collect(n, p, f)[k],
        ) by {
            let c1 = collect(n - 1, p, f);
            if p(n - 1) && k == c1.len() {
                assert(collect(n, p, f)[k] == f(n - 1));
                assert(0 <= n - 1 < n && p(n - 1) && collect(n, p, f)[k] == f(n - 1));
            } else {
                assert(collect(n, p, f)[k] == c1[k]);
                assert(comes_from(n - 1, p, f, c1[k]));
                let j = choose|j: int| 0 <= j < n - 1 && #[trigger] p(j) && c1[k] == f(j);
                assert(0 <= j < n && p(j) && collect(n, p, f)[k] == f(j));
            }
        }
    } else {
        assert(collect(n, p, f) =~= Seq::<A>::empty());
    }
}

/// `collect` is empty exactly when no index in `0..n` qualifies.
pub proof fn lemma_collect_empty<A>(n: int, p: spec_fn(int) -> bool, f: spec_fn(int) -> A)
    ensures
        collect(n, p, f).len() == 0 <==> forall|j: int| 0 <= j < n ==> !(#[trigger] p(j)),
    decreases n,
{
    if n > 0 {
        lemma_collect_empty(n - 1, p, f);
    }
}

/// When every index qualifies, `collect` maps them all.
pub proof fn lemma_collect_full<A>(n: int, p: spec_fn(int) -> bool, f: spec_fn(int) -> A)
    requires
        0 <= n,
        forall|j: int| 0 <= j < n ==> #[trigger] p(j),
    ensures
        collect(n, p, f) == Seq::new(n as nat, f),
    decreases n,
{
    if n > 0 {
        lemma_collect_full(n - 1, p, f);
        assert(collect(n, p, f) =~= Seq::new(n as nat, f));
    } else {
        assert(collect(n, p, f) =~= Seq::new(0, f));
    }
}

/// Two qualifying indices in order yield `e1` and `e2`.
pub open spec fn pair_from<A>(
    n: int,
    p: spec_fn(int) -> bool,
    f: spec_fn(int) -> A,
    e1: A,
    e2: A,
) -> bool {
    exists|i: int, j: int|
        #![trigger p(i), p(j)]
        0 <= i < j < n && p(i) && p(j) && e1 == f(i) && e2 == f(j)
}

/// Two positions of `collect` come from two qualifying indices in the same
/// order.
pub proof fn lemma_collect_ordered_pairs<A>(n: int, p: spec_fn(int) -> bool, f: spec_fn(int) -> A)
    ensures
        forall|a: int, b: int|
            #![trigger collect(n, p, f)[a], collect(n, p, f)[b]]
            0 <= a < b < collect(n, p, f).len() ==> pair_from(
                n,
                p,
                f,
                collect(n, p, f)[a],
                collect(n, p, f)[b],
            ),
    decreases n,
{
    if n > 0 {
        lemma_collect_ordered_pairs(n - 1, p, f);
        lemma_collect_membership(n - 1, p, f);
        let c1 = collect(n - 1, p, f);
        assert forall|a: int, b: int|
            #![trigger collect(n, p, f)[a], collect(n, p, f)[b]]
            0 <= a < b < collect(n, p, f).len() implies pair_from(
            n,
            p,
            f,
            collect(n, p, f)[a],
            collect(n, p, f)[b],
        ) by {
            if b < c1.len() {
                assert(collect(n, p, f)[a] == c1[a] && collect(n, p, f)[b] == c1[b]);
                assert(pair_from(n - 1, p, f, c1[a], c1[b]));
                let (i, j) = choose|i: int, j: int|
                    #![trigger p(i), p(j)]
                    0 <= i < j < n - 1 && p(i) && p(j) && c1[a] == f(i) && c1[b] == f(j);
                assert(0 <= i < j < n && p(i) && p(j) && collect(n, p, f)[a] == f(i) && collect(
                    n,
                    p,
                    f,
                )[b] == f(j));
            } else {
                assert(p(n - 1) && b == c1.len());
                assert(collect(n, p, f)[a] == c1[a]);
                assert(collect(n, p, f)[b] == f(n - 1));
                assert(comes_from(n - 1, p, f, c1[a]));
                let i = choose|i: int| 0 <= i < n - 1 && #[trigger] p(i) && c1[a] == f(i);
                assert(0 <= i < n - 1 && p(i) && p(n - 1) && collect(n, p, f)[a] == f(i)
                    && collect(n, p, f)[b] == f(n - 1));
            }
        }
    }
}

} // verus!
