//! The conflict graph over a validated operation set.
//!
//! Each operation is one edge `source -> destination`.  A source appears in
//! at most one operation of a well-formed batch, so following "the operation
//! whose source is my destination" walks a chain.  An operation is *free*
//! when its destination is no pending source, *chained* when the walk from it
//! ends at a terminal operation, and *cyclic* when the walk revisits an
//! operation.  Cyclic batches cannot be ordered into a safe single pass and
//! must be staged instead.

use vstd::prelude::*;

use crate::ops::{op_views, OperationSet, OpView};
use crate::path_text::{arrow_line, bytes_eq, render_arrow_line, sort_paths, sorted_leq, views};
use crate::seqtool::collect;

verus! {

/// The first operation at or after `j` whose source is `d`.
pub open spec fn find_src_from(ops: Seq<OpView>, d: Seq<u8>, j: int) -> Option<int>
    decreases ops.len() - j,
{
    if j < 0 || j >= ops.len() {
        None
    } else if ops[j].source == d {
        Some(j)
    } else {
        find_src_from(ops, d, j + 1)
    }
}

/// The operation that must still read what operation `i` is about to
/// overwrite: the one whose source is `i`'s destination.
pub open spec fn succ_of(ops: Seq<OpView>, i: int) -> Option<int> {
    find_src_from(ops, ops[i].dest, 0)
}

/// The operation reached from `i` after `k` successor steps.
pub open spec fn iter_succ(ops: Seq<OpView>, i: int, k: int) -> Option<int>
    decreases k,
{
    if k <= 0 {
        Some(i)
    } else {
        match iter_succ(ops, i, k - 1) {
            Some(j) => if 0 <= j < ops.len() {
                succ_of(ops, j)
            } else {
                None
            },
            None => None,
        }
    }
}

/// The walk from `i` revisits an operation: `i` lies on or feeds a cycle.
pub open spec fn op_cyclic(ops: Seq<OpView>, i: int) -> bool {
    exists|a: int, b: int|
        #![trigger iter_succ(ops, i, a), iter_succ(ops, i, b)]
        0 <= a < b && iter_succ(ops, i, a) is Some && iter_succ(ops, i, b) is Some && iter_succ(
            ops,
            i,
            a,
        ) == iter_succ(ops, i, b)
}

/// The walk from `i` ends after exactly `t` steps at a terminal operation.
pub open spec fn terminal_at(ops: Seq<OpView>, i: int, t: int) -> bool {
    0 <= t && match iter_succ(ops, i, t) {
        Some(j) => 0 <= j < ops.len() && succ_of(ops, j) is None,
        None => false,
    }
}

/// The number of successor hops that follow operation `i`'s destination;
/// meaningful for acyclic operations, whose walk ends.
pub open spec fn chain_key(ops: Seq<OpView>, i: int) -> int {
    choose|t: int| terminal_at(ops, i, t)
}

/// Some operation of the set is cyclic.
pub open spec fn has_cycle(ops: Seq<OpView>) -> bool {
    exists|i: int| 0 <= i < ops.len() && #[trigger] op_cyclic(ops, i)
}

/// Operation `i` is in conflict: its destination is a pending source.
pub open spec fn conflicting(ops: Seq<OpView>, i: int) -> bool {
    succ_of(ops, i) is Some
}

/// The `source -> destination` lines of the conflicting operations, in batch
/// order.
pub open spec fn conflict_lines(ops: Seq<OpView>) -> Seq<Seq<u8>> {
    collect(
        ops.len() as int,
        |i: int| conflicting(ops, i),
        |i: int| arrow_line(ops[i].source, ops[i].dest),
    )
}

/// A found successor lies in range, carries the searched source, and is the
/// first such operation.
pub proof fn lemma_find_props(ops: Seq<OpView>, d: Seq<u8>, j: int)
    requires
        0 <= j,
    ensures
        match find_src_from(ops, d, j) {
            Some(k) => j <= k < ops.len() && ops[k].source == d && forall|t: int|
                j <= t < k ==> ops[t].source != d,
            None => forall|t: int| j <= t < ops.len() ==> ops[t].source != d,
        },
    decreases ops.len() - j,
{
    if !(j < 0 || j >= ops.len()) && ops[j].source != d {
        lemma_find_props(ops, d, j + 1);
    }
}

/// Once the walk has ended, it stays ended.
pub proof fn lemma_iter_none_absorbs(ops: Seq<OpView>, i: int, t0: int, t: int)
    requires
        0 <= t0 <= t,
        iter_succ(ops, i, t0) is None,
    ensures
        iter_succ(ops, i, t) is None,
    decreases t - t0,
{
    if t > t0 {
        lemma_iter_none_absorbs(ops, i, t0, t - 1);
    }
}

/// A walk ends after at most one number of steps.
pub proof fn lemma_terminal_unique(ops: Seq<OpView>, i: int, t1: int, t2: int)
    requires
        terminal_at(ops, i, t1),
        terminal_at(ops, i, t2),
    ensures
        t1 == t2,
{
    if t1 < t2 {
        assert(iter_succ(ops, i, t1 + 1) is None);
        lemma_iter_none_absorbs(ops, i, t1 + 1, t2);
    }
    if t2 < t1 {
        assert(iter_succ(ops, i, t2 + 1) is None);
        lemma_iter_none_absorbs(ops, i, t2 + 1, t1);
    }
}

/// A free operation's walk ends immediately.
pub proof fn lemma_free_terminal(ops: Seq<OpView>, i: int)
    requires
        0 <= i < ops.len(),
        succ_of(ops, i) is None,
    ensures
        terminal_at(ops, i, 0),
        !op_cyclic(ops, i),
{
    assert(iter_succ(ops, i, 0) == Some(i));
    assert forall|a: int, b: int|
        #![trigger iter_succ(ops, i, a), iter_succ(ops, i, b)]
        0 <= a < b && iter_succ(ops, i, a) is Some implies !(iter_succ(ops, i, b) is Some) by {
        assert(iter_succ(ops, i, 1) is None);
        lemma_iter_none_absorbs(ops, i, 1, b);
    }
}

/// The hazard class of one operation.
#[derive(Clone, Copy, Debug, PartialEq, Eq, Structural)]
pub enum Hazard {
    /// The destination is no pending source: safe to execute at any time.
    Free,
    /// The destination is a pending source, but the dependency chain ends:
    /// ordering the batch resolves the hazard.
    Chained,
    /// The dependency chain loops back on itself: no ordering is safe.
    Cyclic,
}

/// The hazard class of operation `i`.
pub open spec fn hazard_of(ops: Seq<OpView>, i: int) -> Hazard {
    if op_cyclic(ops, i) {
        Hazard::Cyclic
    } else if succ_of(ops, i) is Some {
        Hazard::Chained
    } else {
        Hazard::Free
    }
}

/// Every step of a walk lands on a valid operation index.
pub proof fn lemma_iter_in_range(ops: Seq<OpView>, i: int, k: int)
    requires
        0 <= i < ops.len(),
        0 <= k,
    ensures
        iter_succ(ops, i, k) matches Some(j) ==> 0 <= j < ops.len(),
    decreases k,
{
    if k > 0 {
        lemma_iter_in_range(ops, i, k - 1);
        match iter_succ(ops, i, k - 1) {
            Some(j) => {
                if 0 <= j < ops.len() {
                    lemma_find_props(ops, ops[j].dest, 0);
                }
            },
            None => {},
        }
    }
}

/// While no step has been terminal, the walk is still going.
proof fn lemma_no_terminal_defined(ops: Seq<OpView>, i: int, k: int)
    requires
        0 <= i < ops.len(),
        0 <= k,
        forall|t: int| 0 <= t < k ==> !terminal_at(ops, i, t),
    ensures
        iter_succ(ops, i, k) is Some,
    decreases k,
{
    if k > 0 {
        lemma_no_terminal_defined(ops, i, k - 1);
        lemma_iter_in_range(ops, i, k - 1);
        let j = iter_succ(ops, i, k - 1)->Some_0;
        assert(!terminal_at(ops, i, k - 1));
        assert(succ_of(ops, j) is Some);
    }
}

/// An acyclic walk ends within the batch: there are only `n` operations to
/// step through, and revisiting one would be a cycle.
pub proof fn lemma_acyclic_terminates(ops: Seq<OpView>, i: int)
    requires
        0 <= i < ops.len(),
        !op_cyclic(ops, i),
    ensures
        exists|t: int| 0 <= t < ops.len() && #[trigger] terminal_at(ops, i, t),
{
    let n = ops.len() as int;
    if forall|t: int| 0 <= t < n ==> !terminal_at(ops, i, t) {
        assert forall|k: int| 0 <= k <= n implies iter_succ(ops, i, k) is Some by {
            lemma_no_terminal_defined(ops, i, k);
        }
        let vs = Seq::new((n + 1) as nat, |t: int| iter_succ(ops, i, t)->Some_0);
        if vs.no_duplicates() {
            vs.unique_seq_to_set();
            vstd::set_lib::lemma_int_range(0, n);
            assert forall|x: int| vs.to_set().contains(x) implies vstd::set_lib::set_int_range(
                0,
                n,
            ).contains(x) by {
                let t = choose|t: int| 0 <= t < vs.len() && vs[t] == x;
                lemma_iter_in_range(ops, i, t);
            }
            assert(vs.to_set() <= vstd::set_lib::set_int_range(0, n));
            vstd::set_lib::lemma_len_subset(vs.to_set(), vstd::set_lib::set_int_range(0, n));
            assert(false);
        } else {
            let (a, b) = choose|a: int, b: int|
                0 <= a < b < vs.len() && #[trigger] vs[a] == #[trigger] vs[b];
            assert(iter_succ(ops, i, a) is Some && iter_succ(ops, i, b) is Some);
            assert(iter_succ(ops, i, a) == iter_succ(ops, i, b));
            assert(op_cyclic(ops, i));
        }
    }
}

/// A walk from `l` is the walk from its successor, one step behind.
proof fn lemma_iter_shift(ops: Seq<OpView>, l: int, j: int, t: int)
    requires
        succ_of(ops, l) == Some(j),
        0 <= l < ops.len(),
        1 <= t,
    ensures
        iter_succ(ops, l, t) == iter_succ(ops, j, t - 1),
    decreases t,
{
    if t == 1 {
        assert(iter_succ(ops, l, 0) == Some(l));
        assert(iter_succ(ops, j, 0) == Some(j));
    } else {
        lemma_iter_shift(ops, l, j, t - 1);
    }
}

/// An operation with a successor walks exactly one step further than it.
pub proof fn lemma_chain_key_succ(ops: Seq<OpView>, l: int, j: int)
    requires
        0 <= l < ops.len(),
        succ_of(ops, l) == Some(j),
        !op_cyclic(ops, l),
        !op_cyclic(ops, j),
        0 <= j < ops.len(),
    ensures
        chain_key(ops, l) == chain_key(ops, j) + 1,
        chain_key(ops, l) >= 1,
{
    lemma_acyclic_terminates(ops, l);
    let tl = chain_key(ops, l);
    assert(terminal_at(ops, l, tl));
    if tl == 0 {
        assert(succ_of(ops, l) is None);
    }
    lemma_iter_shift(ops, l, j, tl);
    assert(terminal_at(ops, j, tl - 1));
    lemma_acyclic_terminates(ops, j);
    let tj = chain_key(ops, j);
    assert(terminal_at(ops, j, tj));
    lemma_terminal_unique(ops, j, tj, tl - 1);
}

/// The result of one hazard walk: whether it closed a cycle, and if not, how
/// many steps it took to reach a terminal operation.
pub struct WalkOutcome {
    pub cyclic: bool,
    pub steps: usize,
}

/// Finds the operation whose source is operation `i`'s destination.
pub fn find_succ_idx(os: &OperationSet, i: usize) -> (r: Option<usize>)
    requires
        i < os.ops@.len(),
    ensures
        match r {
            Some(k) => k < os.ops@.len() && succ_of(op_views(os.ops@), i as int) == Some(k as int),
            None => succ_of(op_views(os.ops@), i as int) is None,
        },
{
    let ghost ops = op_views(os.ops@);
    let n = os.ops.len();
    let mut j: usize = 0;
    while j < n
        invariant
            j <= n,
            i < n,
            n == os.ops@.len(),
            ops == op_views(os.ops@),
            forall|t: int| 0 <= t < j ==> (#[trigger] ops[t]).source != ops[i as int].dest,
        decreases n - j,
    {
        if bytes_eq(&os.ops[j].source, &os.ops[i].dest) {
            proof {
                lemma_find_props(ops, ops[i as int].dest, 0);
                assert(ops[j as int].source == ops[i as int].dest);
                if find_src_from(ops, ops[i as int].dest, 0) is None {
                    assert(false);
                }
                let k = find_src_from(ops, ops[i as int].dest, 0)->Some_0;
                if k < j {
                    assert(ops[k].source != ops[i as int].dest);
                }
                if k > j {
                    assert(ops[j as int].source != ops[i as int].dest);
                }
            }
            return Some(j);
        }
        j = j + 1;
    }
    proof {
        lemma_find_props(ops, ops[i as int].dest, 0);
        if find_src_from(ops, ops[i as int].dest, 0) is Some {
            let k = find_src_from(ops, ops[i as int].dest, 0)->Some_0;
            assert(ops[k].source == ops[i as int].dest);
        }
    }
    None
}

/// Walks the successor chain from `start` until it ends or closes a cycle.
pub fn walk_from(os: &OperationSet, start: usize) -> (r: WalkOutcome)
    requires
        start < os.ops@.len(),
    ensures
        r.cyclic == op_cyclic(op_views(os.ops@), start as int),
        !r.cyclic ==> terminal_at(op_views(os.ops@), start as int, r.steps as int) && r.steps
            < os.ops@.len(),
{
    let ghost ops = op_views(os.ops@);
    let n = os.ops.len();
    let mut path: Vec<usize> = Vec::new();
    path.push(start);
    loop
        invariant
            1 <= path@.len() <= n,
            n == os.ops@.len(),
            ops == op_views(os.ops@),
            start < n,
            path@[0] == start,
            forall|t: int| 0 <= t < path@.len() ==> #[trigger] path@[t] < n,
            forall|t: int|
                0 <= t < path@.len() ==> iter_succ(ops, start as int, t) == Some(
                    #[trigger] path@[t] as int,
                ),
            forall|a: int, b: int| 0 <= a < b < path@.len() ==> path@[a] != path@[b],
        decreases n - path@.len(),
    {
        let cur = path[path.len() - 1];
        let ghost len_t = path@.len() - 1;
        match find_succ_idx(os, cur) {
            None => {
                let steps = path.len() - 1;
                proof {
                    assert(iter_succ(ops, start as int, len_t) == Some(cur as int));
                    assert(terminal_at(ops, start as int, len_t));
                    assert(iter_succ(ops, start as int, len_t + 1) is None);
                    assert forall|a: int, b: int|
                        #![trigger iter_succ(ops, start as int, a), iter_succ(ops, start as int, b)]
                        0 <= a < b && iter_succ(ops, start as int, a) is Some && iter_succ(
                            ops,
                            start as int,
                            b,
                        ) is Some implies iter_succ(ops, start as int, a) != iter_succ(
                        ops,
                        start as int,
                        b,
                    ) by {
                        if b > len_t {
                            lemma_iter_none_absorbs(ops, start as int, len_t + 1, b);
                        } else {
                            assert(iter_succ(ops, start as int, a) == Some(path@[a] as int));
                            assert(iter_succ(ops, start as int, b) == Some(path@[b] as int));
                        }
                    }
                }
                return WalkOutcome { cyclic: false, steps };
            },
            Some(nx) => {
                proof {
                    assert(iter_succ(ops, start as int, len_t) == Some(cur as int));
                    assert(iter_succ(ops, start as int, len_t + 1) == Some(nx as int));
                }
                let mut t: usize = 0;
                let mut seen = false;
                let plen = path.len();
                while t < plen
                    invariant
                        t <= plen,
                        plen == path@.len(),
                        seen == exists|u: int| 0 <= u < t && #[trigger] path@[u] == nx,
                    decreases plen - t,
                {
                    if path[t] == nx {
                        seen = true;
                    }
                    t = t + 1;
                }
                if seen {
                    proof {
                        let u = choose|u: int| 0 <= u < path@.len() && #[trigger] path@[u] == nx;
                        assert(iter_succ(ops, start as int, u) == Some(nx as int));
                        assert(iter_succ(ops, start as int, u) == iter_succ(
                            ops,
                            start as int,
                            len_t + 1,
                        ));
                        assert(op_cyclic(ops, start as int));
                    }
                    return WalkOutcome { cyclic: true, steps: 0 };
                }
                proof {
                    // a repeat-free walk cannot be longer than the batch
                    let ps = path@.map_values(|x: usize| x as int).push(nx as int);
                    assert forall|a: int, b: int| 0 <= a < b < ps.len() implies ps[a] != ps[b] by {
                        if b < ps.len() - 1 {
                            assert(path@[a] != path@[b]);
                        } else if a < ps.len() - 1 {
                            assert(path@[a] != nx);
                        }
                    }
                    assert(ps.no_duplicates());
                    ps.unique_seq_to_set();
                    assert forall|x: int| ps.to_set().contains(x) implies vstd::set_lib::set_int_range(
                        0,
                        n as int,
                    ).contains(x) by {
                        let k = choose|k: int| 0 <= k < ps.len() && ps[k] == x;
                        if k < ps.len() - 1 {
                            assert(path@[k] < n);
                        }
                    }
                    vstd::set_lib::lemma_int_range(0, n as int);
                    assert(ps.to_set() <= vstd::set_lib::set_int_range(0, n as int));
                    vstd::set_lib::lemma_len_subset(
                        ps.to_set(),
                        vstd::set_lib::set_int_range(0, n as int),
                    );
                    assert(path@.len() < n);
                }
                path.push(nx);
            },
        }
    }
}

/// Whether any operation of the set is cyclic.
pub fn detect_cycle(os: &OperationSet) -> (r: bool)
    ensures
        r == has_cycle(op_views(os.ops@)),
{
    let ghost ops = op_views(os.ops@);
    let n = os.ops.len();
    let mut i: usize = 0;
    while i < n
        invariant
            i <= n,
            n == os.ops@.len(),
            ops == op_views(os.ops@),
            forall|t: int| 0 <= t < i ==> !(#[trigger] op_cyclic(ops, t)),
        decreases n - i,
    {
        let w = walk_from(os, i);
        if w.cyclic {
            return true;
        }
        i = i + 1;
    }
    false
}

/// Renders the conflicting operations as sorted `source -> destination`
/// lines.
pub fn conflict_listing(os: &OperationSet) -> (r: Vec<Vec<u8>>)
    ensures
        sorted_leq(views(r@)),
        views(r@).to_multiset() == conflict_lines(op_views(os.ops@)).to_multiset(),
        r@.len() == conflict_lines(op_views(os.ops@)).len(),
{
    let ghost ops = op_views(os.ops@);
    let n = os.ops.len();
    let mut lines: Vec<Vec<u8>> = Vec::new();
    let mut i: usize = 0;
    while i < n
        invariant
            i <= n,
            n == os.ops@.len(),
            ops == op_views(os.ops@),
            views(lines@) == collect(
                i as int,
                |k: int| conflicting(ops, k),
                |k: int| arrow_line(ops[k].source, ops[k].dest),
            ),
        decreases n - i,
    {
        let ghost pre = lines@;
        match find_succ_idx(os, i) {
            Some(_) => {
                lines.push(render_arrow_line(&os.ops[i].source, &os.ops[i].dest));
                proof {
                    assert(views(lines@) =~= views(pre).push(
                        arrow_line(ops[i as int].source, ops[i as int].dest),
                    ));
                }
            },
            None => {},
        }
        i = i + 1;
    }
    let sorted = sort_paths(&lines);
    sorted
}

/// Classifies every operation of the set as free, chained or cyclic.
pub fn classify(os: &OperationSet) -> (r: Vec<Hazard>)
    ensures
        r@.len() == os.ops@.len(),
        forall|i: int| 0 <= i < r@.len() ==> #[trigger] r@[i] == hazard_of(op_views(os.ops@), i),
{
    let ghost ops = op_views(os.ops@);
    let n = os.ops.len();
    let mut classes: Vec<Hazard> = Vec::new();
    let mut i: usize = 0;
    while i < n
        invariant
            i <= n,
            n == os.ops@.len(),
            ops == op_views(os.ops@),
            classes@.len() == i,
            forall|t: int| 0 <= t < i ==> #[trigger] classes@[t] == hazard_of(ops, t),
        decreases n - i,
    {
        let w = walk_from(os, i);
        let h = if w.cyclic {
            Hazard::Cyclic
        } else {
            match find_succ_idx(os, i) {
                Some(_) => Hazard::Chained,
                None => Hazard::Free,
            }
        };
        classes.push(h);
        i = i + 1;
    }
    classes
}

} // verus!
