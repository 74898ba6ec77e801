//! The planner: from a classified operation set to an execution plan.
//!
//! In unresolved mode no staging is permitted: a cyclic batch is rejected,
//! and an acyclic one is ordered into a single stage by each operation's
//! chain key — how many successor hops follow its destination — so that every
//! chain is unwound tail first and no move overwrites a path that a later
//! move still has to read.  In resolved mode every operation is staged
//! through a private intermediate: stage one moves each source into its own
//! fresh intermediate, stage two moves each intermediate onto the requested
//! destination, so the moves of each stage touch pairwise disjoint paths.

use vstd::prelude::*;

use crate::errors::RenameError;
use crate::graph::{
    chain_key, conflict_lines, conflict_listing, detect_cycle, has_cycle, lemma_terminal_unique,
    op_cyclic, terminal_at, walk_from,
};
use crate::ops::{op_views, OperationSet, OpView};
use crate::path_text::{clone_bytes, sorted_leq, views};
use crate::seqtool::collect;

verus! {

/// One elementary move.  When the move is the final hop of an operation,
/// `orig` carries the operation's original source, and the executor reports
/// the line `orig -> to` for it.
pub struct MoveAction {
    pub from: Vec<u8>,
    pub to: Vec<u8>,
    pub orig: Option<Vec<u8>>,
}

/// The specification-level image of a [`MoveAction`].
pub struct MoveView {
    pub from: Seq<u8>,
    pub to: Seq<u8>,
    pub orig: Option<Seq<u8>>,
}

impl View for MoveAction {
    type V = MoveView;

    open spec fn view(&self) -> MoveView {
        MoveView {
            from: self.from@,
            to: self.to@,
            orig: match self.orig {
                Some(ref o) => Some(o@),
                None => None,
            },
        }
    }
}

/// The views of a listing of moves.
pub open spec fn move_views(s: Seq<MoveAction>) -> Seq<MoveView> {
    Seq::new(s.len(), |i: int| s[i]@)
}

/// An ordered sequence of stages; the moves of one stage are safe in any
/// relative order, and stages execute in sequence.
pub struct Plan {
    pub stages: Vec<Vec<MoveAction>>,
}

impl View for Plan {
    type V = Seq<Seq<MoveView>>;

    open spec fn view(&self) -> Seq<Seq<MoveView>> {
        Seq::new(self.stages@.len(), |i: int| move_views(self.stages@[i]@))
    }
}

/// The final hop of one operation, reported as `source -> destination`.
pub open spec fn final_move(op: OpView) -> MoveView {
    MoveView { from: op.source, to: op.dest, orig: Some(op.source) }
}

/// The operations whose chain key is `k`, in batch order.
pub open spec fn bucket(ops: Seq<OpView>, k: int) -> Seq<MoveView> {
    collect(ops.len() as int, |i: int| chain_key(ops, i) == k, |i: int| final_move(ops[i]))
}

/// The buckets for keys below `k`, concatenated in increasing key order.
pub open spec fn buckets_upto(ops: Seq<OpView>, k: int) -> Seq<MoveView>
    decreases k,
{
    if k <= 0 {
        Seq::empty()
    } else {
        buckets_upto(ops, k - 1) + bucket(ops, k - 1)
    }
}

/// The single-stage ordering of an acyclic batch: every operation once,
/// lowest chain key first, batch order within one key.
pub open spec fn ordered_moves(ops: Seq<OpView>) -> Seq<MoveView> {
    buckets_upto(ops, ops.len() as int)
}

/// The first hop of resolved-mode staging: each source into its own
/// intermediate.
pub open spec fn staging_moves(ops: Seq<OpView>, ints: Seq<Seq<u8>>) -> Seq<MoveView> {
    Seq::new(ops.len(), |j: int| MoveView { from: ops[j].source, to: ints[j], orig: None })
}

/// The second hop of resolved-mode staging: each intermediate onto the
/// requested destination, reported against the original source.
pub open spec fn delivery_moves(ops: Seq<OpView>, ints: Seq<Seq<u8>>) -> Seq<MoveView> {
    Seq::new(
        ops.len(),
        |j: int| MoveView { from: ints[j], to: ops[j].dest, orig: Some(ops[j].source) },
    )
}

/// Computes each operation's chain key by walking its successor chain.
fn chain_keys(os: &OperationSet) -> (r: Vec<usize>)
    requires
        !has_cycle(op_views(os.ops@)),
    ensures
        r@.len() == os.ops@.len(),
        forall|i: int|
            0 <= i < r@.len() ==> #[trigger] r@[i] as int == chain_key(op_views(os.ops@), i)
                && r@[i] < os.ops@.len(),
{
    let ghost ops = op_views(os.ops@);
    let n = os.ops.len();
    let mut keys: Vec<usize> = Vec::new();
    let mut i: usize = 0;
    while i < n
        invariant
            i <= n,
            n == os.ops@.len(),
            ops == op_views(os.ops@),
            !has_cycle(ops),
            keys@.len() == i,
            forall|t: int|
                0 <= t < i ==> #[trigger] keys@[t] as int == chain_key(ops, t) && keys@[t] < n,
        decreases n - i,
    {
        let w = walk_from(os, i);
        proof {
            if op_cyclic(ops, i as int) {
                assert(has_cycle(ops));
            }
            assert(!w.cyclic);
            assert(terminal_at(ops, i as int, w.steps as int));
            let t = chain_key(ops, i as int);
            assert(terminal_at(ops, i as int, t));
            lemma_terminal_unique(ops, i as int, t, w.steps as int);
        }
        keys.push(w.steps);
        i = i + 1;
    }
    keys
}

/// Plans an acyclic batch as one chain-key-ordered stage, or rejects a
/// cyclic one with its conflicting pairs, sorted.
pub fn plan_unresolved(os: &OperationSet) -> (r: Result<Plan, RenameError>)
    ensures
        match r {
            Result::Ok(p) => !has_cycle(op_views(os.ops@)) && p@ =~= seq![
                ordered_moves(op_views(os.ops@)),
            ],
            Result::Err(RenameError::ConflictingOperations(l)) => has_cycle(op_views(os.ops@))
                && sorted_leq(views(l@)) && views(l@).to_multiset() == conflict_lines(
                op_views(os.ops@),
            ).to_multiset(),
            Result::Err(_) => false,
        },
{
    let ghost ops = op_views(os.ops@);
    if detect_cycle(os) {
        let listing = conflict_listing(os);
        return Result::Err(RenameError::ConflictingOperations(listing));
    }
    let keys = chain_keys(os);
    let n = os.ops.len();
    let mut moves: Vec<MoveAction> = Vec::new();
    let mut k: usize = 0;
    proof {
        assert(move_views(moves@) =~= buckets_upto(ops, 0));
    }
    while k < n
        invariant
            k <= n,
            n == os.ops@.len(),
            ops == op_views(os.ops@),
            keys@.len() == n,
            forall|i: int|
                0 <= i < n ==> #[trigger] keys@[i] as int == chain_key(ops, i) && keys@[i] < n,
            move_views(moves@) == buckets_upto(ops, k as int),
        decreases n - k,
    {
        let mut i: usize = 0;
        proof {
            assert(move_views(moves@) =~= buckets_upto(ops, k as int) + collect(
                0,
                |t: int| chain_key(ops, t) == k as int,
                |t: int| final_move(ops[t]),
            ));
        }
        while i < n
            invariant
                i <= n,
                k < n,
                n == os.ops@.len(),
                ops == op_views(os.ops@),
                keys@.len() == n,
                forall|t: int|
                    0 <= t < n ==> #[trigger] keys@[t] as int == chain_key(ops, t) && keys@[t]
                        < n,
                move_views(moves@) == buckets_upto(ops, k as int) + collect(
                    i as int,
                    |t: int| chain_key(ops, t) == k as int,
                    |t: int| final_move(ops[t]),
                ),
            decreases n - i,
        {
            let ghost pre = moves@;
            if keys[i] == k {
                let op = &os.ops[i];
                let mv = MoveAction {
                    from: clone_bytes(&op.source),
                    to: clone_bytes(&op.dest),
                    orig: Some(clone_bytes(&op.source)),
                };
                proof {
                    assert(mv@ == final_move(ops[i as int]));
                }
                moves.push(mv);
                proof {
                    assert(move_views(moves@) =~= move_views(pre).push(
                        final_move(ops[i as int]),
                    ));
                }
            }
            i = i + 1;
        }
        proof {
            assert(buckets_upto(ops, k + 1) == buckets_upto(ops, k as int) + bucket(
                ops,
                k as int,
            ));
        }
        k = k + 1;
    }
    let p = Plan { stages: vec![moves] };
    proof {
        assert(ordered_moves(ops) == buckets_upto(ops, n as int));
        assert(p@ =~= seq![ordered_moves(ops)]);
    }
    Result::Ok(p)
}

/// Plans a staged batch: every operation routes through the private
/// intermediate at its own position, so the two stages are each hazard-free.
pub fn plan_resolved(os: &OperationSet, intermediates: &Vec<Vec<u8>>) -> (r: Plan)
    requires
        intermediates@.len() == os.ops@.len(),
    ensures
        r@.len() == 2,
        r@[0] == staging_moves(op_views(os.ops@), views(intermediates@)),
        r@[1] == delivery_moves(op_views(os.ops@), views(intermediates@)),
{
    let ghost ops = op_views(os.ops@);
    let ghost ints = views(intermediates@);
    let n = os.ops.len();
    let mut stage_in: Vec<MoveAction> = Vec::new();
    let mut stage_out: Vec<MoveAction> = Vec::new();
    let mut j: usize = 0;
    proof {
        assert(move_views(stage_in@) =~= staging_moves(ops, ints).take(0));
        assert(move_views(stage_out@) =~= delivery_moves(ops, ints).take(0));
    }
    while j < n
        invariant
            j <= n,
            n == os.ops@.len(),
            ops == op_views(os.ops@),
            ints == views(intermediates@),
            n == intermediates@.len(),
            move_views(stage_in@) == staging_moves(ops, ints).take(j as int),
            move_views(stage_out@) == delivery_moves(ops, ints).take(j as int),
        decreases n - j,
    {
        let ghost pre_in = stage_in@;
        let ghost pre_out = stage_out@;
        let op = &os.ops[j];
        let mv_in = MoveAction {
            from: clone_bytes(&op.source),
            to: clone_bytes(&intermediates[j]),
            orig: None,
        };
        let mv_out = MoveAction {
            from: clone_bytes(&intermediates[j]),
            to: clone_bytes(&op.dest),
            orig: Some(clone_bytes(&op.source)),
        };
        proof {
            assert(mv_in@ == staging_moves(ops, ints)[j as int]);
            assert(mv_out@ == delivery_moves(ops, ints)[j as int]);
        }
        stage_in.push(mv_in);
        stage_out.push(mv_out);
        proof {
            assert(move_views(stage_in@) =~= move_views(pre_in).push(
                staging_moves(ops, ints)[j as int],
            ));
            assert(staging_moves(ops, ints).take(j + 1) =~= staging_moves(ops, ints).take(
                j as int,
            ).push(staging_moves(ops, ints)[j as int]));
            assert(move_views(stage_out@) =~= move_views(pre_out).push(
                delivery_moves(ops, ints)[j as int],
            ));
            assert(delivery_moves(ops, ints).take(j + 1) =~= delivery_moves(ops, ints).take(
                j as int,
            ).push(delivery_moves(ops, ints)[j as int]));
        }
        j = j + 1;
    }
    let p = Plan { stages: vec![stage_in, stage_out] };
    proof {
        assert(staging_moves(ops, ints).take(n as int) =~= staging_moves(ops, ints));
        assert(delivery_moves(ops, ints).take(n as int) =~= delivery_moves(ops, ints));
        assert(p@ =~= seq![staging_moves(ops, ints), delivery_moves(ops, ints)]);
    }
    p
}

/// The kind of intermediate each operation needs: a directory for a
/// directory source, a plain file otherwise.
pub fn staging_kinds(os: &OperationSet) -> (r: Vec<bool>)
    ensures
        r@.len() == os.ops@.len(),
        forall|i: int|
            0 <= i < r@.len() ==> #[trigger] r@[i] == op_views(os.ops@)[i].source_is_dir,
{
    let n = os.ops.len();
    let mut kinds: Vec<bool> = Vec::new();
    let mut i: usize = 0;
    while i < n
        invariant
            i <= n,
            n == os.ops@.len(),
            kinds@.len() == i,
            forall|t: int| 0 <= t < i ==> #[trigger] kinds@[t] == op_views(os.ops@)[t].source_is_dir,
        decreases n - i,
    {
        kinds.push(os.ops[i].source_is_dir);
        i = i + 1;
    }
    kinds
}

} // verus!
