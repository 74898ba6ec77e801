//! The executor: performs a plan's moves, stage by stage, against the
//! filesystem model.
//!
//! Stage order matters; order within a stage does not.  Each elementary move
//! either succeeds or aborts the whole run on the spot: moves already
//! performed stay performed.  A dry run performs nothing and reports every
//! line with a change count of zero.  The change count equals the number of
//! final-hop moves actually performed.
//!
//! The caller that renames real files mirrors this loop one call for one
//! call; what is verified here is everything the loop decides: the order of
//! the moves, which of them are reported, the count, and where an abort
//! leaves the tree.

use vstd::prelude::*;

use crate::errors::RenameError;
use crate::fs_model::{apply_move, FsMeta, FsState};
use crate::path_text::{arrow_line, clone_bytes, render_arrow_line, views};
use crate::planner::{MoveView, Plan};
use crate::seqtool::collect;

verus! {

/// A plan's moves in execution order: its stages, concatenated.
pub open spec fn flat_moves(stages: Seq<Seq<MoveView>>) -> Seq<MoveView>
    decreases stages.len(),
{
    if stages.len() == 0 {
        Seq::empty()
    } else {
        flat_moves(stages.drop_last()) + stages.last()
    }
}

/// The model after the first `k` moves of `s`, applied in order to `m`.
pub open spec fn apply_prefix(m: Map<Seq<u8>, FsMeta>, s: Seq<MoveView>, k: int) -> Map<
    Seq<u8>,
    FsMeta,
>
    decreases k,
{
    if k <= 0 {
        m
    } else {
        apply_move(apply_prefix(m, s, k - 1), s[k - 1].from, s[k - 1].to)
    }
}

/// Each of the first `k` moves finds its origin present when its turn comes.
pub open spec fn ok_upto(m: Map<Seq<u8>, FsMeta>, s: Seq<MoveView>, k: int) -> bool
    decreases k,
{
    k <= 0 || (ok_upto(m, s, k - 1) && apply_prefix(m, s, k - 1).contains_key(s[k - 1].from))
}

/// The report lines of the final-hop moves among the first `k` of `s`.
pub open spec fn report_lines_upto(s: Seq<MoveView>, k: int) -> Seq<Seq<u8>> {
    collect(k, |j: int| s[j].orig is Some, |j: int| arrow_line(s[j].orig->Some_0, s[j].to))
}

/// What one run reports: the `original-source -> final-destination` lines in
/// plan order, the change count, how many elementary moves were performed,
/// and the rejection wrapping the move that failed, if one did.
#[derive(Debug)]
pub struct ExecReport {
    pub lines: Vec<Vec<u8>>,
    pub count: usize,
    pub applied: usize,
    pub failure: Option<RenameError>,
}

/// A prefix of the stages never holds more moves than the whole plan.
proof fn lemma_flat_take_len(stages: Seq<Seq<MoveView>>, k: int)
    requires
        0 <= k <= stages.len(),
    ensures
        flat_moves(stages.take(k)).len() <= flat_moves(stages).len(),
    decreases stages.len(),
{
    if k < stages.len() {
        assert(stages.drop_last().take(k) =~= stages.take(k));
        lemma_flat_take_len(stages.drop_last(), k);
    } else {
        assert(stages.take(k) =~= stages);
    }
}

/// Where stage `si`'s move `mi` sits in the flattened order.
proof fn lemma_flat_index(stages: Seq<Seq<MoveView>>, si: int, mi: int)
    requires
        0 <= si < stages.len(),
        0 <= mi < stages[si].len(),
    ensures
        flat_moves(stages.take(si)).len() + stages[si].len() <= flat_moves(stages).len(),
        flat_moves(stages)[flat_moves(stages.take(si)).len() + mi] == stages[si][mi],
    decreases stages.len(),
{
    if si == stages.len() - 1 {
        assert(stages.take(si) =~= stages.drop_last());
        assert(flat_moves(stages) == flat_moves(stages.drop_last()) + stages.last());
    } else {
        lemma_flat_index(stages.drop_last(), si, mi);
        assert(stages.drop_last().take(si) =~= stages.take(si));
        assert(stages.drop_last()[si] == stages[si]);
        assert(flat_moves(stages) == flat_moves(stages.drop_last()) + stages.last());
    }
}

/// One more stage appends exactly its moves to the flattened order.
proof fn lemma_flat_take_step(stages: Seq<Seq<MoveView>>, si: int)
    requires
        0 <= si < stages.len(),
    ensures
        flat_moves(stages.take(si + 1)) == flat_moves(stages.take(si)) + stages[si],
{
    assert(stages.take(si + 1).drop_last() =~= stages.take(si));
    assert(stages.take(si + 1).last() == stages[si]);
}

/// A single-stage plan runs exactly that stage's moves.
pub proof fn lemma_flat_single(stage: Seq<MoveView>)
    ensures
        flat_moves(seq![stage]) == stage,
{
    assert(seq![stage].drop_last() =~= Seq::<Seq<MoveView>>::empty());
    assert(flat_moves(Seq::<Seq<MoveView>>::empty()) =~= Seq::<MoveView>::empty());
    assert(seq![stage].last() == stage);
    assert(Seq::<MoveView>::empty() + stage =~= stage);
}

/// A two-stage plan runs the first stage's moves, then the second's.
pub proof fn lemma_flat_pair(first: Seq<MoveView>, second: Seq<MoveView>)
    ensures
        flat_moves(seq![first, second]) == first + second,
{
    assert(seq![first, second].drop_last() =~= seq![first]);
    lemma_flat_single(first);
    assert(flat_moves(seq![first, second]) =~= first + second);
}

/// Performs the plan against the model, stage by stage and move by move,
/// aborting on the first move whose origin is absent.
pub fn execute(fs: &mut FsState, plan: &Plan, dry_run: bool) -> (r: ExecReport)
    requires
        old(fs).wf(),
        flat_moves(plan@).len() <= usize::MAX,
    ensures
        ({
            let s = flat_moves(plan@);
            &&& final(fs).wf()
            &&& r.applied <= s.len()
            &&& views(r.lines@) == report_lines_upto(s, r.applied as int)
            &&& (dry_run ==> final(fs)@ == old(fs)@ && r.count == 0 && r.applied == s.len()
                && r.failure is None)
            &&& (!dry_run ==> ok_upto(old(fs)@, s, r.applied as int) && final(fs)@
                == apply_prefix(old(fs)@, s, r.applied as int) && r.count == report_lines_upto(
                s,
                r.applied as int,
            ).len() && (match r.failure {
                Some(e) => r.applied < s.len() && !apply_prefix(
                    old(fs)@,
                    s,
                    r.applied as int,
                ).contains_key(s[r.applied as int].from) && (e matches
                    RenameError::FilesystemError { from, to } && from@ == s[
                    r.applied as int
                ].from && to@ == s[r.applied as int].to),
                None => r.applied == s.len(),
            }))
        }),
{
    let ghost sv = plan@;
    let ghost s = flat_moves(sv);
    let mut lines: Vec<Vec<u8>> = Vec::new();
    let mut count: usize = 0;
    let mut applied: usize = 0;
    let mut si: usize = 0;
    proof {
        assert(flat_moves(sv.take(0)) =~= Seq::<MoveView>::empty());
        assert(views(lines@) =~= report_lines_upto(s, 0));
    }
    while si < plan.stages.len()
        invariant
            old(fs).wf(),
            fs.wf(),
            si <= plan.stages@.len(),
            sv == plan@,
            s == flat_moves(sv),
            s.len() <= usize::MAX,
            applied == flat_moves(sv.take(si as int)).len(),
            applied <= s.len(),
            !dry_run ==> ok_upto(old(fs)@, s, applied as int) && fs@ == apply_prefix(
                old(fs)@,
                s,
                applied as int,
            ),
            dry_run ==> fs@ == old(fs)@,
            views(lines@) == report_lines_upto(s, applied as int),
            count == if dry_run {
                0int
            } else {
                report_lines_upto(s, applied as int).len() as int
            },
        decreases plan.stages@.len() - si,
    {
        let stage_len = plan.stages[si].len();
        let mut mi: usize = 0;
        while mi < stage_len
            invariant
                old(fs).wf(),
                fs.wf(),
                si < plan.stages@.len(),
                mi <= stage_len,
                stage_len == plan.stages@[si as int]@.len(),
                sv == plan@,
                s == flat_moves(sv),
                s.len() <= usize::MAX,
                applied == flat_moves(sv.take(si as int)).len() + mi,
                applied <= s.len(),
                !dry_run ==> ok_upto(old(fs)@, s, applied as int) && fs@ == apply_prefix(
                    old(fs)@,
                    s,
                    applied as int,
                ),
                dry_run ==> fs@ == old(fs)@,
                views(lines@) == report_lines_upto(s, applied as int),
                count == if dry_run {
                    0int
                } else {
                    report_lines_upto(s, applied as int).len() as int
                },
            decreases stage_len - mi,
        {
            proof {
                lemma_flat_index(sv, si as int, mi as int);
                assert(s[applied as int] == sv[si as int][mi as int]);
                assert(sv[si as int] == plan@[si as int]);
            }
            let ghost pre_lines = lines@;
            let mv_from = clone_bytes(&plan.stages[si][mi].from);
            let mv_to = clone_bytes(&plan.stages[si][mi].to);
            proof {
                assert(plan.stages@[si as int]@[mi as int]@ == s[applied as int]);
            }
            if !dry_run {
                let ok = fs.move_entry(&mv_from, &mv_to);
                if !ok {
                    proof {
                        assert(!apply_prefix(old(fs)@, s, applied as int).contains_key(
                            s[applied as int].from,
                        ));
                    }
                    return ExecReport {
                        lines,
                        count,
                        applied,
                        failure: Some(
                            RenameError::FilesystemError { from: mv_from, to: mv_to },
                        ),
                    };
                }
            }
            match &plan.stages[si][mi].orig {
                Some(orig) => {
                    let line = render_arrow_line(orig, &mv_to);
                    proof {
                        assert(line@ == arrow_line(
                            s[applied as int].orig->Some_0,
                            s[applied as int].to,
                        ));
                    }
                    lines.push(line);
                    proof {
                        assert(views(lines@) =~= views(pre_lines).push(
                            arrow_line(s[applied as int].orig->Some_0, s[applied as int].to),
                        ));
                    }
                    if !dry_run {
                        count = lines.len();
                    }
                },
                None => {},
            }
            applied = applied + 1;
            mi = mi + 1;
        }
        proof {
            lemma_flat_take_step(sv, si as int);
            lemma_flat_take_len(sv, si + 1);
        }
        si = si + 1;
    }
    proof {
        assert(sv.take(sv.len() as int) =~= sv);
    }
    ExecReport { lines, count, applied, failure: None }
}

} // verus!
