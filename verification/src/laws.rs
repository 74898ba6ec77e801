//! The guarantees that tie the components together, stated and proved once.
//!
//! Each law here is a statement about the specification-level artifacts that
//! the validator, planner and executor are contracted to produce, so it holds
//! of every run of the library.

use vstd::prelude::*;

use crate::executor::{apply_prefix, ok_upto};
use crate::fs_model::FsMeta;
use crate::graph::{chain_key, has_cycle, lemma_acyclic_terminates, lemma_find_props,
    lemma_free_terminal, lemma_terminal_unique, op_cyclic, succ_of, terminal_at};
use crate::ops::{dup_dest, duplicate_dests, live, any_dup_dest, eff_dest, op_at, planned,
    planned_ops, OpView};
use crate::planner::{bucket, buckets_upto, delivery_moves, final_move, ordered_moves,
    staging_moves, MoveView};
use crate::seqtool::{collect, comes_from, lemma_collect_empty, lemma_collect_full,
    lemma_collect_membership, lemma_collect_ordered_pairs, pair_from};

verus! {

/// Every operation's final hop, in batch order.
pub open spec fn all_final_moves(ops: Seq<OpView>) -> Seq<MoveView> {
    Seq::new(ops.len(), |i: int| final_move(ops[i]))
}

/// No path is touched by any move of `s`.
pub open spec fn untouched(s: Seq<MoveView>, p: Seq<u8>) -> bool {
    forall|k: int| 0 <= k < s.len() ==> p != (#[trigger] s[k]).from && p != s[k].to
}

/// `apply_prefix` and `ok_upto` read only the moves before `k`.
proof fn lemma_prefix_agrees(
    m: Map<Seq<u8>, FsMeta>,
    s: Seq<MoveView>,
    t: Seq<MoveView>,
    k: int,
)
    requires
        0 <= k <= s.len(),
        k <= t.len(),
        forall|j: int| 0 <= j < k ==> s[j] == t[j],
    ensures
        apply_prefix(m, s, k) == apply_prefix(m, t, k),
        ok_upto(m, s, k) == ok_upto(m, t, k),
    decreases k,
{
    if k > 0 {
        lemma_prefix_agrees(m, s, t, k - 1);
    }
}

/// Moves with pairwise distinct origins, pairwise distinct targets, and no
/// target among the origins all succeed, in any order, and act
/// independently: afterwards each target holds what its origin held, each
/// origin is gone, and every other path is untouched.
pub proof fn lemma_apply_disjoint_moves(m: Map<Seq<u8>, FsMeta>, s: Seq<MoveView>)
    requires
        forall|k: int| 0 <= k < s.len() ==> m.contains_key((#[trigger] s[k]).from),
        forall|k: int, l: int|
            0 <= k < s.len() && 0 <= l < s.len() && k != l ==> (#[trigger] s[k]).from != (
            #[trigger] s[l]).from,
        forall|k: int, l: int|
            0 <= k < s.len() && 0 <= l < s.len() && k != l ==> (#[trigger] s[k]).to != (
            #[trigger] s[l]).to,
        forall|k: int, l: int|
            0 <= k < s.len() && 0 <= l < s.len() ==> (#[trigger] s[k]).to != (#[trigger] s[l]).from,
    ensures
        ok_upto(m, s, s.len() as int),
        forall|k: int|
            0 <= k < s.len() ==> apply_prefix(m, s, s.len() as int).contains_key(
                (#[trigger] s[k]).to,
            ) && apply_prefix(m, s, s.len() as int)[s[k].to] == m[s[k].from],
        forall|k: int|
            0 <= k < s.len() ==> !apply_prefix(m, s, s.len() as int).contains_key(
                (#[trigger] s[k]).from,
            ),
        forall|p: Seq<u8>|
            #[trigger] untouched(s, p) ==> apply_prefix(m, s, s.len() as int).contains_key(p)
                == m.contains_key(p) && (m.contains_key(p) ==> apply_prefix(
                m,
                s,
                s.len() as int,
            )[p] == m[p]),
    decreases s.len(),
{
    if s.len() > 0 {
        let init = s.drop_last();
        let last = s.last();
        let n = s.len() as int;
        assert forall|k: int| 0 <= k < init.len() implies m.contains_key(
            (#[trigger] init[k]).from,
        ) by {
            assert(init[k] == s[k]);
        }
        lemma_apply_disjoint_moves(m, init);
        lemma_prefix_agrees(m, s, init, n - 1);
        let m1 = apply_prefix(m, init, n - 1);
        assert(untouched(init, last.from)) by {
            assert forall|k: int|
                0 <= k < init.len() implies last.from != (#[trigger] init[k]).from && last.from
                != init[k].to by {
                assert(s[k].from != s[n - 1].from);
                assert(s[k].to != s[n - 1].from);
            }
        }
        assert(m1.contains_key(last.from) && m1[last.from] == m[last.from]);
        assert(ok_upto(m, s, n));
        let m2 = apply_prefix(m, s, n);
        assert(m2 == m1.remove(last.from).insert(last.to, m1[last.from]));
        assert forall|k: int| 0 <= k < s.len() implies m2.contains_key((#[trigger] s[k]).to)
            && m2[s[k].to] == m[s[k].from] by {
            if k < n - 1 {
                assert(init[k] == s[k]);
                assert(s[k].to != s[n - 1].from);
                assert(s[k].to != s[n - 1].to);
            } else {
                assert(s[k].to != s[k].from);
            }
        }
        assert forall|k: int| 0 <= k < s.len() implies !m2.contains_key(
            (#[trigger] s[k]).from,
        ) by {
            if k < n - 1 {
                assert(init[k] == s[k]);
                assert(s[n - 1].to != s[k].from);
            } else {
                assert(s[k].to != s[k].from);
            }
        }
        assert forall|p: Seq<u8>| #[trigger] untouched(s, p) implies m2.contains_key(p)
            == m.contains_key(p) && (m.contains_key(p) ==> m2[p] == m[p]) by {
            assert(untouched(init, p)) by {
                assert forall|k: int|
                    0 <= k < init.len() implies p != (#[trigger] init[k]).from && p
                    != init[k].to by {
                    assert(init[k] == s[k]);
                }
            }
            assert(p != s[n - 1].from && p != s[n - 1].to);
        }
    }
}

/// In an all-free batch no operation has a successor, so every chain key is
/// zero and the unresolved ordering is simply the batch order: each
/// operation's final hop, once, in the order requested.
pub proof fn law_all_free_ordering(ops: Seq<OpView>)
    requires
        forall|k: int, l: int|
            0 <= k < ops.len() && 0 <= l < ops.len() ==> (#[trigger] ops[k]).dest != (
            #[trigger] ops[l]).source,
    ensures
        ordered_moves(ops) == all_final_moves(ops),
{
    let n = ops.len() as int;
    assert forall|i: int| 0 <= i < n implies succ_of(ops, i) is None by {
        lemma_find_props(ops, ops[i].dest, 0);
        if succ_of(ops, i) is Some {
            let k = succ_of(ops, i)->Some_0;
            assert(ops[k].source == ops[i].dest);
        }
    }
    assert forall|i: int| 0 <= i < n implies #[trigger] chain_key(ops, i) == 0 by {
        lemma_free_terminal(ops, i);
        assert(terminal_at(ops, i, chain_key(ops, i)));
        lemma_terminal_unique(ops, i, chain_key(ops, i), 0);
    }
    let p0 = |i: int| chain_key(ops, i) == 0;
    let f = |i: int| final_move(ops[i]);
    lemma_collect_full(n, p0, f);
    assert(bucket(ops, 0) == Seq::new(ops.len(), f));
    assert(bucket(ops, 0) =~= all_final_moves(ops));
    if n == 0 {
        assert(ordered_moves(ops) =~= all_final_moves(ops));
    } else {
        lemma_buckets_only_zero(ops, n);
        assert(ordered_moves(ops) == bucket(ops, 0));
    }
}

/// With every chain key zero, only the first bucket is inhabited.
proof fn lemma_buckets_only_zero(ops: Seq<OpView>, k: int)
    requires
        1 <= k,
        forall|i: int| 0 <= i < ops.len() ==> #[trigger] chain_key(ops, i) == 0,
    ensures
        buckets_upto(ops, k) == bucket(ops, 0),
    decreases k,
{
    if k == 1 {
        assert(buckets_upto(ops, 0) =~= Seq::<MoveView>::empty());
        assert(buckets_upto(ops, 1) == buckets_upto(ops, 0) + bucket(ops, 0));
        assert(Seq::<MoveView>::empty() + bucket(ops, 0) =~= bucket(ops, 0));
    } else {
        lemma_buckets_only_zero(ops, k - 1);
        let pk = |i: int| chain_key(ops, i) == k - 1;
        let f = |i: int| final_move(ops[i]);
        lemma_collect_empty(ops.len() as int, pk, f);
        assert forall|j: int| 0 <= j < ops.len() implies !(#[trigger] pk(j)) by {
            assert(chain_key(ops, j) == 0);
        }
        assert(bucket(ops, k - 1).len() == 0);
        assert(buckets_upto(ops, k) =~= buckets_upto(ops, k - 1));
    }
}

/// All-free batches execute fully in the unresolved-mode order, and leave
/// each destination holding its source's former content while each source is
/// gone.  Untouched paths keep their record.
pub proof fn law_all_free_execution(ops: Seq<OpView>, m: Map<Seq<u8>, FsMeta>)
    requires
        forall|k: int, l: int|
            0 <= k < ops.len() && 0 <= l < ops.len() ==> (#[trigger] ops[k]).dest != (
            #[trigger] ops[l]).source,
        forall|k: int, l: int|
            0 <= k < ops.len() && 0 <= l < ops.len() && k != l ==> (#[trigger] ops[k]).source != (
            #[trigger] ops[l]).source,
        forall|k: int, l: int|
            0 <= k < ops.len() && 0 <= l < ops.len() && k != l ==> (#[trigger] ops[k]).dest != (
            #[trigger] ops[l]).dest,
        forall|k: int| 0 <= k < ops.len() ==> m.contains_key((#[trigger] ops[k]).source),
    ensures
        ordered_moves(ops) == all_final_moves(ops),
        ok_upto(m, ordered_moves(ops), ordered_moves(ops).len() as int),
        forall|k: int|
            0 <= k < ops.len() ==> apply_prefix(
                m,
                ordered_moves(ops),
                ordered_moves(ops).len() as int,
            ).contains_key((#[trigger] ops[k]).dest) && apply_prefix(
                m,
                ordered_moves(ops),
                ordered_moves(ops).len() as int,
            )[ops[k].dest] == m[ops[k].source],
        forall|k: int|
            0 <= k < ops.len() ==> !apply_prefix(
                m,
                ordered_moves(ops),
                ordered_moves(ops).len() as int,
            ).contains_key((#[trigger] ops[k]).source),
{
    law_all_free_ordering(ops);
    let s = all_final_moves(ops);
    assert(s.len() == ops.len());
    assert(forall|k: int| 0 <= k < s.len() ==> (#[trigger] s[k]) == final_move(ops[k]));
    lemma_apply_disjoint_moves(m, s);
    assert forall|k: int| 0 <= k < ops.len() implies apply_prefix(
        m,
        ordered_moves(ops),
        ordered_moves(ops).len() as int,
    ).contains_key((#[trigger] ops[k]).dest) && apply_prefix(
        m,
        ordered_moves(ops),
        ordered_moves(ops).len() as int,
    )[ops[k].dest] == m[ops[k].source] by {
        assert(s[k] == final_move(ops[k]));
        assert(s[k].to == ops[k].dest && s[k].from == ops[k].source);
    }
    assert forall|k: int| 0 <= k < ops.len() implies !apply_prefix(
        m,
        ordered_moves(ops),
        ordered_moves(ops).len() as int,
    ).contains_key((#[trigger] ops[k]).source) by {
        assert(s[k] == final_move(ops[k]));
        assert(s[k].from == ops[k].source);
    }
}

/// A reported move arose from some operation of the set.
pub open spec fn from_some_op(ops: Seq<OpView>, mv: MoveView) -> bool {
    exists|i: int| 0 <= i < ops.len() && mv == final_move(#[trigger] ops[i])
}

/// Every move of the unresolved-mode ordering is some operation's final hop.
proof fn lemma_buckets_membership(ops: Seq<OpView>, k: int)
    requires
        0 <= k,
    ensures
        forall|t: int|
            0 <= t < buckets_upto(ops, k).len() ==> from_some_op(
                ops,
                #[trigger] buckets_upto(ops, k)[t],
            ),
    decreases k,
{
    if k > 0 {
        lemma_buckets_membership(ops, k - 1);
        let pk = |i: int| chain_key(ops, i) == k - 1;
        let f = |i: int| final_move(ops[i]);
        lemma_collect_membership(ops.len() as int, pk, f);
        assert forall|t: int|
            0 <= t < buckets_upto(ops, k).len() implies from_some_op(
            ops,
            #[trigger] buckets_upto(ops, k)[t],
        ) by {
            let prev = buckets_upto(ops, k - 1);
            if t < prev.len() {
                assert(buckets_upto(ops, k)[t] == prev[t]);
            } else {
                let b = bucket(ops, k - 1);
                assert(buckets_upto(ops, k)[t] == b[t - prev.len()]);
                assert(comes_from(ops.len() as int, pk, f, b[t - prev.len()]));
                let i = choose|i: int|
                    0 <= i < ops.len() && #[trigger] pk(i) && b[t - prev.len()] == f(i);
                assert(b[t - prev.len()] == final_move(ops[i]));
            }
        }
    }
}

/// A batch with no self-renames reports none, in either mode: every move
/// that carries a report line came from an operation whose source and
/// destination differ, and in resolved mode the staging hops report nothing.
pub proof fn law_no_self_reports(ops: Seq<OpView>, ints: Seq<Seq<u8>>)
    requires
        forall|k: int| 0 <= k < ops.len() ==> (#[trigger] ops[k]).source != ops[k].dest,
        ints.len() == ops.len(),
    ensures
        forall|t: int|
            0 <= t < ordered_moves(ops).len() && (#[trigger] ordered_moves(ops)[t]).orig is Some
                ==> ordered_moves(ops)[t].orig->Some_0 != ordered_moves(ops)[t].to,
        forall|j: int| 0 <= j < staging_moves(ops, ints).len() ==> (#[trigger] staging_moves(
            ops,
            ints,
        )[j]).orig is None,
        forall|t: int|
            0 <= t < delivery_moves(ops, ints).len() && (#[trigger] delivery_moves(
                ops,
                ints,
            )[t]).orig is Some ==> delivery_moves(ops, ints)[t].orig->Some_0 != delivery_moves(
                ops,
                ints,
            )[t].to,
{
    lemma_buckets_membership(ops, ops.len() as int);
    assert forall|t: int|
        0 <= t < ordered_moves(ops).len() && (#[trigger] ordered_moves(ops)[t]).orig is Some
        implies ordered_moves(ops)[t].orig->Some_0 != ordered_moves(ops)[t].to by {
        assert(from_some_op(ops, ordered_moves(ops)[t]));
        let i = choose|i: int|
            0 <= i < ops.len() && ordered_moves(ops)[t] == final_move(#[trigger] ops[i]);
        assert(ops[i].source != ops[i].dest);
    }
}

/// A position that renames a path to itself contributes no operation, and
/// every validated operation moves a path somewhere else.  Together with
/// [`law_no_self_reports`] and the executor's contract, a self-rename never
/// appears among the report lines and never counts as a change.
pub proof fn law_self_renames_excluded(
    ss: Seq<Seq<u8>>,
    ds: Seq<Seq<u8>>,
    m: Map<Seq<u8>, FsMeta>,
)
    ensures
        forall|i: int|
            0 <= i < ss.len() && (ss[i] == ds[i] || ss[i] == eff_dest(ss, ds, m, i))
                ==> !planned(ss, ds, m, i),
        forall|k: int|
            0 <= k < planned_ops(ss, ds, m).len() ==> (#[trigger] planned_ops(ss, ds, m)[k]).source
                != planned_ops(ss, ds, m)[k].dest,
{
    let n = ss.len() as int;
    let pp = |i: int| planned(ss, ds, m, i);
    let ff = |i: int| op_at(ss, ds, m, i);
    lemma_collect_membership(n, pp, ff);
    assert forall|k: int|
        0 <= k < planned_ops(ss, ds, m).len() implies (#[trigger] planned_ops(ss, ds, m)[k]).source
        != planned_ops(ss, ds, m)[k].dest by {
        assert(comes_from(n, pp, ff, planned_ops(ss, ds, m)[k]));
        let i = choose|i: int|
            0 <= i < n && #[trigger] pp(i) && planned_ops(ss, ds, m)[k] == ff(i);
        assert(planned(ss, ds, m, i));
        assert(planned_ops(ss, ds, m)[k] == op_at(ss, ds, m, i));
    }
}

/// Duplicate-destination detection ignores positions whose destination is
/// their own source: such a position is never flagged itself, and a batch
/// whose only destination sharing involves self-renames raises no duplicate.
pub proof fn law_duplicate_ignores_self(ss: Seq<Seq<u8>>, ds: Seq<Seq<u8>>)
    requires
        forall|i: int, j: int|
            0 <= i < ss.len() && 0 <= j < ss.len() && i != j && ds[i] == ds[j] ==> ss[i] == ds[i]
                || ss[j] == ds[j],
    ensures
        forall|i: int| 0 <= i < ss.len() && ss[i] == ds[i] ==> !dup_dest(ss, ds, i),
        !any_dup_dest(ss, ds),
{
    assert forall|i: int| 0 <= i < ss.len() implies !dup_dest(ss, ds, i) by {
        if dup_dest(ss, ds, i) {
            let j = choose|j: int|
                0 <= j < ss.len() && j != i && #[trigger] live(ss, ds, j) && ds[j] == ds[i];
            assert(ss[i] == ds[i] || ss[j] == ds[j]);
            assert(live(ss, ds, i));
        }
    }
    let pd = |i: int| dup_dest(ss, ds, i);
    let fd = |i: int| ds[i];
    lemma_collect_empty(ss.len() as int, pd, fd);
    assert forall|j: int| 0 <= j < ss.len() implies !(#[trigger] pd(j)) by {
        assert(!dup_dest(ss, ds, j));
    }
    assert(duplicate_dests(ss, ds).len() == 0);
}

/// Under no cycle, every chain key lies below the batch size.
proof fn lemma_chain_key_bound(ops: Seq<OpView>, i: int)
    requires
        0 <= i < ops.len(),
        !op_cyclic(ops, i),
    ensures
        0 <= chain_key(ops, i) < ops.len(),
        terminal_at(ops, i, chain_key(ops, i)),
{
    lemma_acyclic_terminates(ops, i);
    let t = choose|t: int| 0 <= t < ops.len() && #[trigger] terminal_at(ops, i, t);
    assert(terminal_at(ops, i, chain_key(ops, i)));
    lemma_terminal_unique(ops, i, chain_key(ops, i), t);
}

/// The ordering up to `m` carries everything the bucket for `k < m` holds.
proof fn lemma_buckets_contain(ops: Seq<OpView>, k: int, m: int, e: MoveView)
    requires
        0 <= k < m,
        bucket(ops, k).contains(e),
    ensures
        buckets_upto(ops, m).contains(e),
    decreases m,
{
    if k == m - 1 {
        let t = choose|t: int| 0 <= t < bucket(ops, k).len() && #[trigger] bucket(ops, k)[t] == e;
        assert(buckets_upto(ops, m) == buckets_upto(ops, m - 1) + bucket(ops, k));
        assert(buckets_upto(ops, m)[buckets_upto(ops, m - 1).len() + t] == e);
    } else {
        lemma_buckets_contain(ops, k, m - 1, e);
        let t = choose|t: int|
            0 <= t < buckets_upto(ops, m - 1).len() && #[trigger] buckets_upto(ops, m - 1)[t]
                == e;
        assert(buckets_upto(ops, m)[t] == e);
    }
}

/// In an acyclic batch the unresolved-mode ordering applies every
/// operation: each final hop appears in the plan.
pub proof fn law_unresolved_applies_all(ops: Seq<OpView>)
    requires
        !has_cycle(ops),
    ensures
        forall|i: int|
            0 <= i < ops.len() ==> ordered_moves(ops).contains(final_move(#[trigger] ops[i])),
{
    let n = ops.len() as int;
    assert forall|i: int| 0 <= i < n implies ordered_moves(ops).contains(
        final_move(#[trigger] ops[i]),
    ) by {
        assert(!op_cyclic(ops, i));
        lemma_chain_key_bound(ops, i);
        let kv = chain_key(ops, i);
        let p = |t: int| chain_key(ops, t) == kv;
        let f = |t: int| final_move(ops[t]);
        lemma_collect_membership(n, p, f);
        assert(p(i));
        assert(bucket(ops, kv).contains(final_move(ops[i])));
        lemma_buckets_contain(ops, kv, n, final_move(ops[i]));
    }
}

/// Running one move listing after another composes their effects.
proof fn lemma_apply_concat(m: Map<Seq<u8>, FsMeta>, s1: Seq<MoveView>, s2: Seq<MoveView>)
    ensures
        apply_prefix(m, s1 + s2, s1.len() + s2.len() as int) == apply_prefix(
            apply_prefix(m, s1, s1.len() as int),
            s2,
            s2.len() as int,
        ),
        ok_upto(m, s1 + s2, s1.len() + s2.len() as int) == (ok_upto(m, s1, s1.len() as int)
            && ok_upto(apply_prefix(m, s1, s1.len() as int), s2, s2.len() as int)),
    decreases s2.len(),
{
    if s2.len() == 0 {
        assert(s1 + s2 =~= s1);
        lemma_prefix_agrees(m, s1 + s2, s1, s1.len() as int);
    } else {
        let s2i = s2.drop_last();
        lemma_apply_concat(m, s1, s2i);
        assert((s1 + s2).drop_last() =~= s1 + s2i);
        lemma_prefix_agrees(
            m,
            s1 + s2,
            (s1 + s2).drop_last(),
            s1.len() + s2.len() - 1,
        );
        assert((s1 + s2)[s1.len() + s2.len() - 1] == s2.last());
        lemma_prefix_agrees(
            apply_prefix(m, s1, s1.len() as int),
            s2,
            s2i,
            s2.len() - 1,
        );
    }
}

/// Staged execution is safe for every batch, cyclic ones included: with
/// fresh, pairwise distinct intermediates, both stages run to completion,
/// each requested destination ends up holding its source's former content,
/// every source that is no destination is gone, and every intermediate is
/// consumed.
pub proof fn law_staged_execution(ops: Seq<OpView>, ints: Seq<Seq<u8>>, m: Map<Seq<u8>, FsMeta>)
    requires
        ints.len() == ops.len(),
        forall|k: int, l: int|
            0 <= k < ops.len() && 0 <= l < ops.len() && k != l ==> (#[trigger] ops[k]).source != (
            #[trigger] ops[l]).source,
        forall|k: int, l: int|
            0 <= k < ops.len() && 0 <= l < ops.len() && k != l ==> (#[trigger] ops[k]).dest != (
            #[trigger] ops[l]).dest,
        forall|k: int, l: int| 0 <= k < l < ints.len() ==> #[trigger] ints[k] != #[trigger] ints[l],
        forall|k: int, l: int|
            #![trigger ints[k], ops[l]]
            0 <= k < ints.len() && 0 <= l < ops.len() ==> ints[k] != ops[l].source && ints[k]
                != ops[l].dest,
        forall|k: int| 0 <= k < ops.len() ==> m.contains_key((#[trigger] ops[k]).source),
    ensures
        ({
            let s = staging_moves(ops, ints) + delivery_moves(ops, ints);
            let m2 = apply_prefix(m, s, s.len() as int);
            &&& ok_upto(m, s, s.len() as int)
            &&& forall|k: int|
                0 <= k < ops.len() ==> m2.contains_key((#[trigger] ops[k]).dest) && m2[
                    ops[k].dest
                ] == m[ops[k].source]
            &&& forall|k: int|
                0 <= k < ops.len() && (forall|l: int|
                    0 <= l < ops.len() ==> (#[trigger] ops[k]).source != (
                    #[trigger] ops[l]).dest) ==> !m2.contains_key(ops[k].source)
            &&& forall|k: int| 0 <= k < ints.len() ==> !m2.contains_key(#[trigger] ints[k])
        }),
{
    let sm = staging_moves(ops, ints);
    let dm = delivery_moves(ops, ints);
    let n = ops.len() as int;
    assert(sm.len() == n && dm.len() == n);
    assert(forall|k: int| 0 <= k < n ==> (#[trigger] sm[k]).from == ops[k].source && sm[k].to
        == ints[k]);
    assert(forall|k: int| 0 <= k < n ==> (#[trigger] dm[k]).from == ints[k] && dm[k].to
        == ops[k].dest);
    assert forall|k: int, l: int|
        0 <= k < sm.len() && 0 <= l < sm.len() implies (#[trigger] sm[k]).to != (
    #[trigger] sm[l]).from by {
        assert(ints[k] != ops[l].source);
    }
    lemma_apply_disjoint_moves(m, sm);
    let m1 = apply_prefix(m, sm, n);
    assert forall|k: int| 0 <= k < dm.len() implies m1.contains_key((#[trigger] dm[k]).from)
        && m1[dm[k].from] == m[ops[k].source] by {
        assert(sm[k].to == ints[k] && sm[k].from == ops[k].source);
    }
    assert forall|k: int, l: int|
        0 <= k < dm.len() && 0 <= l < dm.len() implies (#[trigger] dm[k]).to != (
    #[trigger] dm[l]).from by {
        assert(ints[l] != ops[k].dest);
    }
    lemma_apply_disjoint_moves(m1, dm);
    let s = sm + dm;
    lemma_apply_concat(m, sm, dm);
    let m2 = apply_prefix(m, s, s.len() as int);
    assert(m2 == apply_prefix(m1, dm, n));
    assert forall|k: int| 0 <= k < ops.len() implies m2.contains_key((#[trigger] ops[k]).dest)
        && m2[ops[k].dest] == m[ops[k].source] by {
        assert(dm[k].to == ops[k].dest && dm[k].from == ints[k]);
        assert(m2[dm[k].to] == m1[dm[k].from]);
    }
    assert forall|k: int|
        0 <= k < ops.len() && (forall|l: int|
            0 <= l < ops.len() ==> (#[trigger] ops[k]).source != (
            #[trigger] ops[l]).dest) implies !m2.contains_key(ops[k].source) by {
        assert(!m1.contains_key(ops[k].source)) by {
            assert(sm[k].from == ops[k].source);
        }
        assert(untouched(dm, ops[k].source)) by {
            assert forall|l: int|
                0 <= l < dm.len() implies ops[k].source != (#[trigger] dm[l]).from && ops[
                k
            ].source != dm[l].to by {
                assert(ints[l] != ops[k].source);
                assert(ops[k].source != ops[l].dest);
            }
        }
    }
    assert forall|k: int| 0 <= k < ints.len() implies !m2.contains_key(#[trigger] ints[k]) by {
        assert(dm[k].from == ints[k]);
    }
}

/// No operation writes to `p`.
pub open spec fn no_op_targets(ops: Seq<OpView>, p: Seq<u8>) -> bool {
    forall|l: int| 0 <= l < ops.len() ==> (#[trigger] ops[l]).dest != p
}

/// The hypotheses under which the unresolved-mode ordering is proved
/// correct: a well-formed acyclic batch whose sources are pairwise distinct,
/// whose destinations are pairwise distinct, and whose sources all exist.
pub open spec fn ordered_batch(ops: Seq<OpView>, m: Map<Seq<u8>, FsMeta>) -> bool {
    &&& forall|i: int| 0 <= i < ops.len() ==> (#[trigger] ops[i]).source != ops[i].dest
    &&& forall|i: int, j: int|
        0 <= i < ops.len() && 0 <= j < ops.len() && i != j ==> (#[trigger] ops[i]).source != (
        #[trigger] ops[j]).source
    &&& forall|i: int, j: int|
        0 <= i < ops.len() && 0 <= j < ops.len() && i != j ==> (#[trigger] ops[i]).dest != (
        #[trigger] ops[j]).dest
    &&& !has_cycle(ops)
    &&& forall|i: int| 0 <= i < ops.len() ==> m.contains_key((#[trigger] ops[i]).source)
}

/// Whoever reads what operation `i` is about to overwrite sits one chain
/// key above it.
proof fn lemma_reader_key(ops: Seq<OpView>, m: Map<Seq<u8>, FsMeta>, i: int, j: int)
    requires
        ordered_batch(ops, m),
        0 <= i < ops.len(),
        0 <= j < ops.len(),
        ops[j].source == ops[i].dest,
    ensures
        succ_of(ops, i) == Some(j),
        chain_key(ops, i) == chain_key(ops, j) + 1,
{
    lemma_find_props(ops, ops[i].dest, 0);
    match succ_of(ops, i) {
        Some(t) => {
            assert(ops[t].source == ops[i].dest);
            assert(t == j);
        },
        None => {
            assert(ops[j].source != ops[i].dest);
        },
    }
    assert(!op_cyclic(ops, i) && !op_cyclic(ops, j)) by {
        if op_cyclic(ops, i) || op_cyclic(ops, j) {
            assert(has_cycle(ops));
        }
    }
    crate::graph::lemma_chain_key_succ(ops, i, j);
}

/// After executing every bucket below `k`: all of them succeeded, each
/// finished operation's destination holds its source's former content, each
/// unfinished operation's source is untouched, and each finished source that
/// no operation targets is gone.
proof fn lemma_buckets_execution(ops: Seq<OpView>, m: Map<Seq<u8>, FsMeta>, k: int)
    requires
        ordered_batch(ops, m),
        0 <= k,
    ensures
        ({
            let bu = buckets_upto(ops, k);
            let mk = apply_prefix(m, bu, bu.len() as int);
            &&& ok_upto(m, bu, bu.len() as int)
            &&& forall|i: int|
                0 <= i < ops.len() && chain_key(ops, i) < k ==> mk.contains_key(
                    (#[trigger] ops[i]).dest,
                ) && mk[ops[i].dest] == m[ops[i].source]
            &&& forall|i: int|
                0 <= i < ops.len() && chain_key(ops, i) >= k ==> mk.contains_key(
                    (#[trigger] ops[i]).source,
                ) && mk[ops[i].source] == m[ops[i].source]
            &&& forall|i: int|
                0 <= i < ops.len() && chain_key(ops, i) < k && no_op_targets(ops, ops[i].source)
                    ==> !mk.contains_key((#[trigger] ops[i]).source)
        }),
    decreases k,
{
    let n = ops.len() as int;
    assert forall|i: int| 0 <= i < n implies 0 <= #[trigger] chain_key(ops, i) < n by {
        if op_cyclic(ops, i) {
            assert(has_cycle(ops));
        }
        lemma_chain_key_bound(ops, i);
    }
    if k == 0 {
        assert(buckets_upto(ops, 0) =~= Seq::<MoveView>::empty());
    } else {
        lemma_buckets_execution(ops, m, k - 1);
        let prev = buckets_upto(ops, k - 1);
        let m_prev = apply_prefix(m, prev, prev.len() as int);
        let pk = |i: int| chain_key(ops, i) == k - 1;
        let fb = |i: int| final_move(ops[i]);
        let b = bucket(ops, k - 1);
        lemma_collect_membership(n, pk, fb);
        lemma_collect_ordered_pairs(n, pk, fb);
        // every move of the bucket belongs to an operation with this key
        assert forall|t: int| 0 <= t < b.len() implies comes_from(n, pk, fb, #[trigger] b[t]) by {
            assert(collect(n, pk, fb)[t] == b[t]);
        }
        // the bucket's moves are pairwise disjoint
        assert forall|t: int| 0 <= t < b.len() implies m_prev.contains_key(
            (#[trigger] b[t]).from,
        ) by {
            let i = choose|i: int| 0 <= i < n && #[trigger] pk(i) && b[t] == fb(i);
            assert(b[t].from == ops[i].source && chain_key(ops, i) >= k - 1);
        }
        assert forall|t: int, u: int|
            0 <= t < b.len() && 0 <= u < b.len() && t != u implies (#[trigger] b[t]).from != (
        #[trigger] b[u]).from && b[t].to != b[u].to by {
            if t < u {
                assert(pair_from(n, pk, fb, b[t], b[u]));
                let (i, j) = choose|i: int, j: int|
                    #![trigger pk(i), pk(j)]
                    0 <= i < j < n && pk(i) && pk(j) && b[t] == fb(i) && b[u] == fb(j);
                assert(ops[i].source != ops[j].source && ops[i].dest != ops[j].dest);
            } else {
                assert(pair_from(n, pk, fb, b[u], b[t]));
                let (i, j) = choose|i: int, j: int|
                    #![trigger pk(i), pk(j)]
                    0 <= i < j < n && pk(i) && pk(j) && b[u] == fb(i) && b[t] == fb(j);
                assert(ops[i].source != ops[j].source && ops[i].dest != ops[j].dest);
            }
        }
        assert forall|t: int, u: int|
            0 <= t < b.len() && 0 <= u < b.len() implies (#[trigger] b[t]).to != (
        #[trigger] b[u]).from by {
            let i = choose|i: int| 0 <= i < n && #[trigger] pk(i) && b[t] == fb(i);
            let j = choose|j: int| 0 <= j < n && #[trigger] pk(j) && b[u] == fb(j);
            if ops[j].source == ops[i].dest {
                lemma_reader_key(ops, m, i, j);
            }
        }
        lemma_apply_disjoint_moves(m_prev, b);
        lemma_apply_concat(m, prev, b);
        assert(buckets_upto(ops, k) == prev + b);
        let bu = buckets_upto(ops, k);
        let mk = apply_prefix(m, bu, bu.len() as int);
        assert(mk == apply_prefix(m_prev, b, b.len() as int));
        // finished destinations hold their sources' former content
        assert forall|i: int| 0 <= i < ops.len() && chain_key(ops, i) < k implies mk.contains_key(
            (#[trigger] ops[i]).dest,
        ) && mk[ops[i].dest] == m[ops[i].source] by {
            if chain_key(ops, i) == k - 1 {
                assert(pk(i));
                assert(b.contains(fb(i)));
                let t = choose|t: int| 0 <= t < b.len() && b[t] == fb(i);
                assert(b[t].to == ops[i].dest && b[t].from == ops[i].source);
                assert(m_prev[ops[i].source] == m[ops[i].source]);
            } else {
                assert(untouched(b, ops[i].dest)) by {
                    assert forall|t: int|
                        0 <= t < b.len() implies ops[i].dest != (#[trigger] b[t]).from && ops[
                        i
                    ].dest != b[t].to by {
                        let j = choose|j: int| 0 <= j < n && #[trigger] pk(j) && b[t] == fb(j);
                        if ops[j].source == ops[i].dest {
                            lemma_reader_key(ops, m, i, j);
                        }
                        if ops[j].dest == ops[i].dest {
                            assert(i == j);
                        }
                    }
                }
            }
        }
        // unfinished sources are untouched
        assert forall|i: int| 0 <= i < ops.len() && chain_key(ops, i) >= k implies mk.contains_key(
            (#[trigger] ops[i]).source,
        ) && mk[ops[i].source] == m[ops[i].source] by {
            assert(untouched(b, ops[i].source)) by {
                assert forall|t: int|
                    0 <= t < b.len() implies ops[i].source != (#[trigger] b[t]).from && ops[
                    i
                ].source != b[t].to by {
                    let j = choose|j: int| 0 <= j < n && #[trigger] pk(j) && b[t] == fb(j);
                    if ops[j].source == ops[i].source {
                        assert(i == j);
                    }
                    if ops[j].dest == ops[i].source {
                        lemma_reader_key(ops, m, j, i);
                    }
                }
            }
            assert(m_prev.contains_key(ops[i].source) && m_prev[ops[i].source] == m[
                ops[i].source
            ]);
        }
        // finished, untargeted sources are gone
        assert forall|i: int|
            0 <= i < ops.len() && chain_key(ops, i) < k && no_op_targets(ops, ops[i].source)
            implies !mk.contains_key((#[trigger] ops[i]).source) by {
            if chain_key(ops, i) == k - 1 {
                assert(pk(i));
                assert(b.contains(fb(i)));
                let t = choose|t: int| 0 <= t < b.len() && b[t] == fb(i);
                assert(b[t].from == ops[i].source);
            } else {
                assert(untouched(b, ops[i].source)) by {
                    assert forall|t: int|
                        0 <= t < b.len() implies ops[i].source != (#[trigger] b[t]).from && ops[
                        i
                    ].source != b[t].to by {
                        let j = choose|j: int| 0 <= j < n && #[trigger] pk(j) && b[t] == fb(j);
                        if ops[j].source == ops[i].source {
                            assert(i == j);
                        }
                        assert(ops[j].dest != ops[i].source);
                    }
                }
                assert(!m_prev.contains_key(ops[i].source));
            }
        }
    }
}

/// The unresolved-mode ordering is correct for every acyclic batch: all of
/// its moves succeed in order, afterwards each destination holds its
/// source's former content, and each source that no operation targets is
/// gone.  Cyclic batches never reach this ordering: the planner rejects
/// them.
pub proof fn law_unresolved_execution(ops: Seq<OpView>, m: Map<Seq<u8>, FsMeta>)
    requires
        ordered_batch(ops, m),
    ensures
        ({
            let s = ordered_moves(ops);
            let m2 = apply_prefix(m, s, s.len() as int);
            &&& ok_upto(m, s, s.len() as int)
            &&& forall|i: int|
                0 <= i < ops.len() ==> m2.contains_key((#[trigger] ops[i]).dest) && m2[
                    ops[i].dest
                ] == m[ops[i].source]
            &&& forall|i: int|
                0 <= i < ops.len() && no_op_targets(ops, ops[i].source) ==> !m2.contains_key(
                    (#[trigger] ops[i]).source,
                )
        }),
{
    let n = ops.len() as int;
    lemma_buckets_execution(ops, m, n);
    assert forall|i: int| 0 <= i < n implies #[trigger] chain_key(ops, i) < n by {
        if op_cyclic(ops, i) {
            assert(has_cycle(ops));
        }
        lemma_chain_key_bound(ops, i);
    }
}

} // verus!
