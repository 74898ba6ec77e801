//! The validator: from a requested batch to a validated operation set.
//!
//! The batch pairs each requested source with the edited destination at the
//! same position.  The checks run in a fixed order against a snapshot of the
//! filesystem, each rejecting the whole batch before any mutation: missing
//! sources, a miscounted destination listing, duplicated destinations,
//! destinations that already exist (unless overridden), directories aimed at
//! plain files, and destinations whose containing directory is absent.  A
//! position whose destination equals its own source is a self-rename: it is
//! ignored by every check after the first two and contributes no operation.
//! Last, a destination naming an existing directory is rewritten to
//! `destination/basename(source)` before the operation set is built.

use vstd::prelude::*;

use crate::errors::RenameError;
use crate::fs_model::{FsMeta, FsState};
use crate::path_text::{
    arrow_line, basename, bytes_eq, clone_bytes, dedup_sorted, join_dir, path_basename,
    path_join_dir, render_arrow_line, sort_paths, sorted_leq, sorted_strict, views,
};
use crate::seqtool::collect;

verus! {

/// One validated rename: a source, its effective destination, and whether
/// the source is a directory (which fixes the kind of any staging object).
pub struct Operation {
    pub source: Vec<u8>,
    pub dest: Vec<u8>,
    pub source_is_dir: bool,
}

/// The specification-level image of an [`Operation`].
pub struct OpView {
    pub source: Seq<u8>,
    pub dest: Seq<u8>,
    pub source_is_dir: bool,
}

impl View for Operation {
    type V = OpView;

    open spec fn view(&self) -> OpView {
        OpView { source: self.source@, dest: self.dest@, source_is_dir: self.source_is_dir }
    }
}

/// The views of a listing of operations.
pub open spec fn op_views(s: Seq<Operation>) -> Seq<OpView> {
    Seq::new(s.len(), |i: int| s[i]@)
}

/// A validated batch: the live operations, in batch order.
pub struct OperationSet {
    pub ops: Vec<Operation>,
}

impl OperationSet {
    /// No operation is a self-rename.
    pub open spec fn wf(self) -> bool {
        forall|k: int| 0 <= k < self.ops@.len() ==> (#[trigger] self.ops@[k])@.source
            != self.ops@[k]@.dest
    }
}

/// The requested source at `i` is absent from the snapshot.
pub open spec fn src_missing(ss: Seq<Seq<u8>>, m: Map<Seq<u8>, FsMeta>, i: int) -> bool {
    !m.contains_key(ss[i])
}

pub open spec fn any_src_missing(ss: Seq<Seq<u8>>, m: Map<Seq<u8>, FsMeta>) -> bool {
    missing_sources(ss, m).len() > 0
}

/// Position `i` is live: not a self-rename of its literal destination.
pub open spec fn live(ss: Seq<Seq<u8>>, ds: Seq<Seq<u8>>, i: int) -> bool {
    ss[i] != ds[i]
}

/// Position `i` shares its destination with another live position.
pub open spec fn dup_dest(ss: Seq<Seq<u8>>, ds: Seq<Seq<u8>>, i: int) -> bool {
    live(ss, ds, i) && exists|j: int|
        0 <= j < ss.len() && j != i && #[trigger] live(ss, ds, j) && ds[j] == ds[i]
}

pub open spec fn any_dup_dest(ss: Seq<Seq<u8>>, ds: Seq<Seq<u8>>) -> bool {
    duplicate_dests(ss, ds).len() > 0
}

/// The live destination at `i` already exists in the snapshot.
pub open spec fn dest_clash(
    ss: Seq<Seq<u8>>,
    ds: Seq<Seq<u8>>,
    m: Map<Seq<u8>, FsMeta>,
    i: int,
) -> bool {
    live(ss, ds, i) && m.contains_key(ds[i])
}

pub open spec fn any_dest_clash(ss: Seq<Seq<u8>>, ds: Seq<Seq<u8>>, m: Map<Seq<u8>, FsMeta>) -> bool {
    clashing_dests(ss, ds, m).len() > 0
}

/// A directory source aimed at an existing plain file.
pub open spec fn dir_onto_file(
    ss: Seq<Seq<u8>>,
    ds: Seq<Seq<u8>>,
    m: Map<Seq<u8>, FsMeta>,
    i: int,
) -> bool {
    live(ss, ds, i) && m.contains_key(ss[i]) && m[ss[i]].is_dir && m.contains_key(ds[i])
        && !m[ds[i]].is_dir
}

pub open spec fn any_dir_onto_file(
    ss: Seq<Seq<u8>>,
    ds: Seq<Seq<u8>>,
    m: Map<Seq<u8>, FsMeta>,
) -> bool {
    dir_file_lines(ss, ds, m).len() > 0
}

/// The live destination at `i` sits in a directory that does not exist.
pub open spec fn orphan_dest(ss: Seq<Seq<u8>>, ds: Seq<Seq<u8>>, pe: Seq<bool>, i: int) -> bool {
    live(ss, ds, i) && !pe[i]
}

pub open spec fn any_orphan_dest(ss: Seq<Seq<u8>>, ds: Seq<Seq<u8>>, pe: Seq<bool>) -> bool {
    orphan_dests(ss, ds, pe).len() > 0
}

/// The effective destination at `i`: a destination naming an existing
/// directory places the source into it.
pub open spec fn eff_dest(
    ss: Seq<Seq<u8>>,
    ds: Seq<Seq<u8>>,
    m: Map<Seq<u8>, FsMeta>,
    i: int,
) -> Seq<u8> {
    if m.contains_key(ds[i]) && m[ds[i]].is_dir {
        join_dir(ds[i], basename(ss[i]))
    } else {
        ds[i]
    }
}

/// Position `i` contributes an operation: live, and not a self-rename after
/// place-into-directory resolution.
pub open spec fn planned(ss: Seq<Seq<u8>>, ds: Seq<Seq<u8>>, m: Map<Seq<u8>, FsMeta>, i: int) -> bool {
    live(ss, ds, i) && ss[i] != eff_dest(ss, ds, m, i)
}

/// The operation contributed by position `i`.
pub open spec fn op_at(ss: Seq<Seq<u8>>, ds: Seq<Seq<u8>>, m: Map<Seq<u8>, FsMeta>, i: int) -> OpView {
    OpView {
        source: ss[i],
        dest: eff_dest(ss, ds, m, i),
        source_is_dir: m.contains_key(ss[i]) && m[ss[i]].is_dir,
    }
}

/// The sources absent from the snapshot, in batch order.
pub open spec fn missing_sources(ss: Seq<Seq<u8>>, m: Map<Seq<u8>, FsMeta>) -> Seq<Seq<u8>> {
    collect(ss.len() as int, |i: int| src_missing(ss, m, i), |i: int| ss[i])
}

/// The destinations shared by several live positions, in batch order.
pub open spec fn duplicate_dests(ss: Seq<Seq<u8>>, ds: Seq<Seq<u8>>) -> Seq<Seq<u8>> {
    collect(ss.len() as int, |i: int| dup_dest(ss, ds, i), |i: int| ds[i])
}

/// The live destinations that already exist, in batch order.
pub open spec fn clashing_dests(
    ss: Seq<Seq<u8>>,
    ds: Seq<Seq<u8>>,
    m: Map<Seq<u8>, FsMeta>,
) -> Seq<Seq<u8>> {
    collect(ss.len() as int, |i: int| dest_clash(ss, ds, m, i), |i: int| ds[i])
}

/// The `source -> destination` lines of directory-onto-file positions.
pub open spec fn dir_file_lines(
    ss: Seq<Seq<u8>>,
    ds: Seq<Seq<u8>>,
    m: Map<Seq<u8>, FsMeta>,
) -> Seq<Seq<u8>> {
    collect(
        ss.len() as int,
        |i: int| dir_onto_file(ss, ds, m, i),
        |i: int| arrow_line(ss[i], ds[i]),
    )
}

/// The live destinations with a missing containing directory, in batch order.
pub open spec fn orphan_dests(ss: Seq<Seq<u8>>, ds: Seq<Seq<u8>>, pe: Seq<bool>) -> Seq<Seq<u8>> {
    collect(ss.len() as int, |i: int| orphan_dest(ss, ds, pe, i), |i: int| ds[i])
}

/// The validated operations, in batch order.
pub open spec fn planned_ops(ss: Seq<Seq<u8>>, ds: Seq<Seq<u8>>, m: Map<Seq<u8>, FsMeta>) -> Seq<
    OpView,
> {
    collect(ss.len() as int, |i: int| planned(ss, ds, m, i), |i: int| op_at(ss, ds, m, i))
}

/// `any_src_missing` says exactly that some requested source is absent.
pub proof fn lemma_any_src_missing_iff(ss: Seq<Seq<u8>>, m: Map<Seq<u8>, FsMeta>)
    ensures
        any_src_missing(ss, m) <==> exists|i: int|
            0 <= i < ss.len() && #[trigger] src_missing(ss, m, i),
{
    let p = |i: int| src_missing(ss, m, i);
    let f = |i: int| ss[i];
    crate::seqtool::lemma_collect_empty(ss.len() as int, p, f);
    if missing_sources(ss, m).len() > 0 {
        let j = choose|j: int| 0 <= j < ss.len() && #[trigger] p(j);
        assert(src_missing(ss, m, j));
    } else {
        assert forall|i: int| 0 <= i < ss.len() implies !src_missing(ss, m, i) by {
            assert(!p(i));
        }
    }
}

/// `any_dup_dest` says exactly that some live position shares its
/// destination with another.
pub proof fn lemma_any_dup_dest_iff(ss: Seq<Seq<u8>>, ds: Seq<Seq<u8>>)
    ensures
        any_dup_dest(ss, ds) <==> exists|i: int|
            0 <= i < ss.len() && #[trigger] dup_dest(ss, ds, i),
{
    let p = |i: int| dup_dest(ss, ds, i);
    let f = |i: int| ds[i];
    crate::seqtool::lemma_collect_empty(ss.len() as int, p, f);
    if duplicate_dests(ss, ds).len() > 0 {
        let j = choose|j: int| 0 <= j < ss.len() && #[trigger] p(j);
        assert(dup_dest(ss, ds, j));
    } else {
        assert forall|i: int| 0 <= i < ss.len() implies !dup_dest(ss, ds, i) by {
            assert(!p(i));
        }
    }
}

/// `any_dest_clash` says exactly that some live destination already exists.
pub proof fn lemma_any_dest_clash_iff(ss: Seq<Seq<u8>>, ds: Seq<Seq<u8>>, m: Map<Seq<u8>, FsMeta>)
    ensures
        any_dest_clash(ss, ds, m) <==> exists|i: int|
            0 <= i < ss.len() && #[trigger] dest_clash(ss, ds, m, i),
{
    let p = |i: int| dest_clash(ss, ds, m, i);
    let f = |i: int| ds[i];
    crate::seqtool::lemma_collect_empty(ss.len() as int, p, f);
    if clashing_dests(ss, ds, m).len() > 0 {
        let j = choose|j: int| 0 <= j < ss.len() && #[trigger] p(j);
        assert(dest_clash(ss, ds, m, j));
    } else {
        assert forall|i: int| 0 <= i < ss.len() implies !dest_clash(ss, ds, m, i) by {
            assert(!p(i));
        }
    }
}

/// `any_dir_onto_file` says exactly that some directory source aims at an
/// existing plain file.
pub proof fn lemma_any_dir_onto_file_iff(
    ss: Seq<Seq<u8>>,
    ds: Seq<Seq<u8>>,
    m: Map<Seq<u8>, FsMeta>,
)
    ensures
        any_dir_onto_file(ss, ds, m) <==> exists|i: int|
            0 <= i < ss.len() && #[trigger] dir_onto_file(ss, ds, m, i),
{
    let p = |i: int| dir_onto_file(ss, ds, m, i);
    let f = |i: int| arrow_line(ss[i], ds[i]);
    crate::seqtool::lemma_collect_empty(ss.len() as int, p, f);
    if dir_file_lines(ss, ds, m).len() > 0 {
        let j = choose|j: int| 0 <= j < ss.len() && #[trigger] p(j);
        assert(dir_onto_file(ss, ds, m, j));
    } else {
        assert forall|i: int| 0 <= i < ss.len() implies !dir_onto_file(ss, ds, m, i) by {
            assert(!p(i));
        }
    }
}

/// `any_orphan_dest` says exactly that some live destination sits in a
/// missing directory.
pub proof fn lemma_any_orphan_dest_iff(ss: Seq<Seq<u8>>, ds: Seq<Seq<u8>>, pe: Seq<bool>)
    ensures
        any_orphan_dest(ss, ds, pe) <==> exists|i: int|
            0 <= i < ss.len() && #[trigger] orphan_dest(ss, ds, pe, i),
{
    let p = |i: int| orphan_dest(ss, ds, pe, i);
    let f = |i: int| ds[i];
    crate::seqtool::lemma_collect_empty(ss.len() as int, p, f);
    if orphan_dests(ss, ds, pe).len() > 0 {
        let j = choose|j: int| 0 <= j < ss.len() && #[trigger] p(j);
        assert(orphan_dest(ss, ds, pe, j));
    } else {
        assert forall|i: int| 0 <= i < ss.len() implies !orphan_dest(ss, ds, pe, i) by {
            assert(!p(i));
        }
    }
}

/// Checks a requested batch against the snapshot and builds the operation
/// set, or rejects the whole batch with the first failing check's reason.
///
/// `parents_exist[i]` reports whether the containing directory of
/// `destinations[i]`, once absolutized, exists; the caller probes it because
/// absolutization depends on the process's working directory.
pub fn validate(
    sources: &Vec<Vec<u8>>,
    destinations: &Vec<Vec<u8>>,
    parents_exist: &Vec<bool>,
    fs: &FsState,
    force: bool,
) -> (r: Result<OperationSet, RenameError>)
    requires
        fs.wf(),
        parents_exist@.len() == destinations@.len(),
    ensures
        ({
            let ss = views(sources@);
            let ds = views(destinations@);
            let pe = parents_exist@;
            let m = fs@;
            match r {
                Result::Ok(os) => !any_src_missing(ss, m) && ss.len() == ds.len()
                    && !any_dup_dest(ss, ds) && (force || !any_dest_clash(ss, ds, m))
                    && !any_dir_onto_file(ss, ds, m) && !any_orphan_dest(ss, ds, pe) && os.wf()
                    && op_views(os.ops@) == planned_ops(ss, ds, m),
                Result::Err(RenameError::NotFound(l)) => any_src_missing(ss, m) && sorted_leq(
                    views(l@),
                ) && views(l@).to_multiset() == missing_sources(ss, m).to_multiset(),
                Result::Err(RenameError::CountMismatch { expected, received }) => !any_src_missing(
                    ss,
                    m,
                ) && ss.len() != ds.len() && expected == ss.len() && received == ds.len(),
                Result::Err(RenameError::DuplicateDestination(l)) => !any_src_missing(ss, m)
                    && ss.len() == ds.len() && any_dup_dest(ss, ds) && sorted_strict(views(l@))
                    && views(l@).to_set() == duplicate_dests(ss, ds).to_set(),
                Result::Err(RenameError::DestinationExists(l)) => !any_src_missing(ss, m)
                    && ss.len() == ds.len() && !any_dup_dest(ss, ds) && !force && any_dest_clash(
                    ss,
                    ds,
                    m,
                ) && sorted_leq(views(l@)) && views(l@).to_multiset() == clashing_dests(
                    ss,
                    ds,
                    m,
                ).to_multiset(),
                Result::Err(RenameError::DirectoryToFile(l)) => !any_src_missing(ss, m)
                    && ss.len() == ds.len() && !any_dup_dest(ss, ds) && (force || !any_dest_clash(
                    ss,
                    ds,
                    m,
                )) && any_dir_onto_file(ss, ds, m) && views(l@) == dir_file_lines(ss, ds, m),
                Result::Err(RenameError::MissingParentDirectory(l)) => !any_src_missing(ss, m)
                    && ss.len() == ds.len() && !any_dup_dest(ss, ds) && (force || !any_dest_clash(
                    ss,
                    ds,
                    m,
                )) && !any_dir_onto_file(ss, ds, m) && any_orphan_dest(ss, ds, pe) && views(l@)
                    == orphan_dests(ss, ds, pe),
                Result::Err(RenameError::ConflictingOperations(_)) => false,
                Result::Err(RenameError::FilesystemError { .. }) => false,
            }
        }),
{
    let ghost ss = views(sources@);
    let ghost ds = views(destinations@);
    let ghost pe = parents_exist@;
    let ghost m = fs@;
    let n = sources.len();

    // Check: every requested source exists.
    let mut missing: Vec<Vec<u8>> = Vec::new();
    let mut i: usize = 0;
    while i < n
        invariant
            i <= n,
            n == ss.len(),
            ss == views(sources@),
            m == fs@,
            fs.wf(),
            views(missing@) == collect(
                i as int,
                |k: int| src_missing(ss, m, k),
                |k: int| ss[k],
            ),
        decreases n - i,
    {
        let ghost pre = missing@;
        if !fs.contains_path(&sources[i]) {
            missing.push(clone_bytes(&sources[i]));
            proof {
                assert(views(missing@) =~= views(pre).push(ss[i as int]));
            }
        }
        i = i + 1;
    }
    if missing.len() > 0 {
        let sorted = sort_paths(&missing);
        return Result::Err(RenameError::NotFound(sorted));
    }

    // Check: one destination line per source.
    if destinations.len() != n {
        return Result::Err(
            RenameError::CountMismatch { expected: n, received: destinations.len() },
        );
    }

    // Check: no two live positions share a destination.
    let mut dups: Vec<Vec<u8>> = Vec::new();
    let mut i: usize = 0;
    while i < n
        invariant
            i <= n,
            n == ss.len() && n == ds.len(),
            ss == views(sources@),
            ds == views(destinations@),
            views(dups@) == collect(i as int, |k: int| dup_dest(ss, ds, k), |k: int| ds[k]),
        decreases n - i,
    {
        let ghost pre = dups@;
        let is_live = !bytes_eq(&sources[i], &destinations[i]);
        let mut shared = false;
        if is_live {
            let mut j: usize = 0;
            while j < n
                invariant
                    j <= n,
                    n == ss.len() && n == ds.len(),
                    ss == views(sources@),
                    ds == views(destinations@),
                    i < n,
                    shared == exists|t: int|
                        0 <= t < j && t != i && #[trigger] live(ss, ds, t) && ds[t] == ds[
                            i as int
                        ],
                decreases n - j,
            {
                let hit = j != i && !bytes_eq(&sources[j], &destinations[j]) && bytes_eq(
                    &destinations[j],
                    &destinations[i],
                );
                proof {
                    assert(hit == (j != i && live(ss, ds, j as int) && ds[j as int] == ds[
                        i as int
                    ]));
                }
                if hit {
                    shared = true;
                }
                j = j + 1;
            }
        }
        if is_live && shared {
            dups.push(clone_bytes(&destinations[i]));
            proof {
                assert(dup_dest(ss, ds, i as int));
                assert(views(dups@) =~= views(pre).push(ds[i as int]));
            }
        } else {
            proof {
                assert(!dup_dest(ss, ds, i as int));
            }
        }
        i = i + 1;
    }
    if dups.len() > 0 {
        let sorted = sort_paths(&dups);
        let listing = dedup_sorted(&sorted);
        proof {
            crate::path_text::lemma_multiset_eq_set_eq(views(sorted@), views(dups@));
            assert(views(listing@).to_set() == duplicate_dests(ss, ds).to_set());
        }
        return Result::Err(RenameError::DuplicateDestination(listing));
    }

    // Check: no live destination already exists, unless overridden.
    let mut clashes: Vec<Vec<u8>> = Vec::new();
    let mut i: usize = 0;
    while i < n
        invariant
            i <= n,
            n == ss.len() && n == ds.len(),
            ss == views(sources@),
            ds == views(destinations@),
            m == fs@,
            fs.wf(),
            views(clashes@) == collect(
                i as int,
                |k: int| dest_clash(ss, ds, m, k),
                |k: int| ds[k],
            ),
        decreases n - i,
    {
        let ghost pre = clashes@;
        let is_live = !bytes_eq(&sources[i], &destinations[i]);
        if is_live && fs.contains_path(&destinations[i]) {
            clashes.push(clone_bytes(&destinations[i]));
            proof {
                assert(views(clashes@) =~= views(pre).push(ds[i as int]));
            }
        }
        i = i + 1;
    }
    if !force && clashes.len() > 0 {
        let sorted = sort_paths(&clashes);
        return Result::Err(RenameError::DestinationExists(sorted));
    }

    // Check: no directory source aimed at an existing plain file.
    let mut wrong_kind: Vec<Vec<u8>> = Vec::new();
    let mut i: usize = 0;
    while i < n
        invariant
            i <= n,
            n == ss.len() && n == ds.len(),
            ss == views(sources@),
            ds == views(destinations@),
            m == fs@,
            fs.wf(),
            views(wrong_kind@) == collect(
                i as int,
                |k: int| dir_onto_file(ss, ds, m, k),
                |k: int| arrow_line(ss[k], ds[k]),
            ),
        decreases n - i,
    {
        let ghost pre = wrong_kind@;
        let is_live = !bytes_eq(&sources[i], &destinations[i]);
        let src_is_dir = match fs.dir_at(&sources[i]) {
            Some(d) => d,
            None => false,
        };
        let dst_is_file = match fs.dir_at(&destinations[i]) {
            Some(d) => !d,
            None => false,
        };
        if is_live && src_is_dir && dst_is_file {
            wrong_kind.push(render_arrow_line(&sources[i], &destinations[i]));
            proof {
                assert(views(wrong_kind@) =~= views(pre).push(
                    arrow_line(ss[i as int], ds[i as int]),
                ));
            }
        }
        i = i + 1;
    }
    if wrong_kind.len() > 0 {
        return Result::Err(RenameError::DirectoryToFile(wrong_kind));
    }

    // Check: every live destination's containing directory exists.
    let mut orphans: Vec<Vec<u8>> = Vec::new();
    let mut i: usize = 0;
    while i < n
        invariant
            i <= n,
            n == ss.len() && n == ds.len() && n == pe.len(),
            ss == views(sources@),
            ds == views(destinations@),
            pe == parents_exist@,
            views(orphans@) == collect(
                i as int,
                |k: int| orphan_dest(ss, ds, pe, k),
                |k: int| ds[k],
            ),
        decreases n - i,
    {
        let ghost pre = orphans@;
        let is_live = !bytes_eq(&sources[i], &destinations[i]);
        if is_live && !parents_exist[i] {
            orphans.push(clone_bytes(&destinations[i]));
            proof {
                assert(views(orphans@) =~= views(pre).push(ds[i as int]));
            }
        }
        i = i + 1;
    }
    if orphans.len() > 0 {
        return Result::Err(RenameError::MissingParentDirectory(orphans));
    }

    // Build the operation set, resolving place-into-directory destinations
    // and dropping what they turn into self-renames.
    let mut ops: Vec<Operation> = Vec::new();
    let mut i: usize = 0;
    while i < n
        invariant
            i <= n,
            n == ss.len() && n == ds.len(),
            ss == views(sources@),
            ds == views(destinations@),
            m == fs@,
            fs.wf(),
            op_views(ops@) == collect(
                i as int,
                |k: int| planned(ss, ds, m, k),
                |k: int| op_at(ss, ds, m, k),
            ),
        decreases n - i,
    {
        let ghost pre = ops@;
        let is_live = !bytes_eq(&sources[i], &destinations[i]);
        if is_live {
            let dst_is_dir = match fs.dir_at(&destinations[i]) {
                Some(d) => d,
                None => false,
            };
            let eff = if dst_is_dir {
                let base = path_basename(&sources[i]);
                path_join_dir(&destinations[i], &base)
            } else {
                clone_bytes(&destinations[i])
            };
            proof {
                assert(eff@ == eff_dest(ss, ds, m, i as int));
            }
            if !bytes_eq(&sources[i], &eff) {
                let src_is_dir = match fs.dir_at(&sources[i]) {
                    Some(d) => d,
                    None => false,
                };
                let op = Operation {
                    source: clone_bytes(&sources[i]),
                    dest: eff,
                    source_is_dir: src_is_dir,
                };
                proof {
                    assert(op@ == op_at(ss, ds, m, i as int));
                }
                ops.push(op);
                proof {
                    assert(op_views(ops@) =~= op_views(pre).push(op_at(ss, ds, m, i as int)));
                }
            } else {
                proof {
                    assert(!planned(ss, ds, m, i as int));
                }
            }
        } else {
            proof {
                assert(!planned(ss, ds, m, i as int));
            }
        }
        i = i + 1;
    }
    let os = OperationSet { ops };
    proof {
        crate::seqtool::lemma_collect_membership(
            n as int,
            |k: int| planned(ss, ds, m, k),
            |k: int| op_at(ss, ds, m, k),
        );
        assert forall|k: int| 0 <= k < os.ops@.len() implies (#[trigger] os.ops@[k])@.source
            != os.ops@[k]@.dest by {
            assert(op_views(os.ops@)[k] == os.ops@[k]@);
        }
    }
    Result::Ok(os)
}

} // verus!
