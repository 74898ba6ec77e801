use edmv::errors::RenameError;
use edmv::executor::{execute, ExecReport};
use edmv::fs_model::FsState;
use edmv::graph::{classify, Hazard};
use edmv::ops::validate;
use edmv::planner::{plan_resolved, plan_unresolved};

fn b(s: &str) -> Vec<u8> {
    s.as_bytes().to_vec()
}

fn bv(xs: &[&str]) -> Vec<Vec<u8>> {
    xs.iter().map(|s| b(s)).collect()
}

fn files(fs: &mut FsState, names: &[&str]) {
    for name in names {
        let tag = format!("content of {name}");
        fs.record(b(name), false, b(&tag));
    }
}

fn dirs(fs: &mut FsState, names: &[&str]) {
    for name in names {
        fs.record(b(name), true, Vec::new());
    }
}

fn content_tag(name: &str) -> Vec<u8> {
    b(&format!("content of {name}"))
}

#[allow(clippy::too_many_arguments)]
fn run_batch(
    fs: &mut FsState,
    sources: &[&str],
    dests: &[&str],
    parents: Vec<bool>,
    force: bool,
    resolve: bool,
    dry_run: bool,
    intermediates: &[&str],
) -> Result<ExecReport, RenameError> {
    let ss = bv(sources);
    let ds = bv(dests);
    let os = validate(&ss, &ds, &parents, fs, force)?;
    let plan = if resolve {
        let ints = bv(intermediates);
        assert_eq!(ints.len(), os.ops.len(), "one intermediate per operation");
        plan_resolved(&os, &ints)
    } else {
        plan_unresolved(&os)?
    };
    Ok(execute(fs, &plan, dry_run))
}

fn lines_of(strs: &[&str]) -> Vec<Vec<u8>> {
    bv(strs)
}

#[test]
fn renames_to_non_existing_file_destinations() {
    let mut fs = FsState::new();
    files(&mut fs, &["a.txt", "b.txt", "c.txt"]);
    let r = run_batch(
        &mut fs,
        &["a.txt", "b.txt", "c.txt"],
        &["d.txt", "e.txt", "f.txt"],
        vec![true, true, true],
        false,
        false,
        false,
        &[],
    )
    .unwrap();
    assert_eq!(
        r.lines,
        lines_of(&["a.txt -> d.txt", "b.txt -> e.txt", "c.txt -> f.txt"])
    );
    assert_eq!(r.count, 3);
    assert!(r.failure.is_none());
    for gone in ["a.txt", "b.txt", "c.txt"] {
        assert!(!fs.contains_path(&b(gone)));
    }
    assert_eq!(fs.data_at(&b("d.txt")).unwrap(), content_tag("a.txt"));
    assert_eq!(fs.data_at(&b("e.txt")).unwrap(), content_tag("b.txt"));
    assert_eq!(fs.data_at(&b("f.txt")).unwrap(), content_tag("c.txt"));
}

#[test]
fn renames_to_non_existent_directory_destinations() {
    let mut fs = FsState::new();
    dirs(&mut fs, &["a", "b", "c"]);
    let r = run_batch(
        &mut fs,
        &["a", "b", "c"],
        &["d", "e", "f"],
        vec![true, true, true],
        false,
        false,
        false,
        &[],
    )
    .unwrap();
    assert_eq!(r.lines, lines_of(&["a -> d", "b -> e", "c -> f"]));
    assert_eq!(r.count, 3);
    for gone in ["a", "b", "c"] {
        assert!(!fs.contains_path(&b(gone)));
    }
    for there in ["d", "e", "f"] {
        assert_eq!(fs.dir_at(&b(there)), Some(true));
    }
}

#[test]
fn gives_error_for_existing_destinations() {
    let mut fs = FsState::new();
    files(&mut fs, &["a.txt", "b.txt", "c.txt", "d.txt", "e.txt"]);
    let err = run_batch(
        &mut fs,
        &["a.txt", "b.txt", "c.txt"],
        &["d.txt", "e.txt", "f.txt"],
        vec![true, true, true],
        false,
        false,
        false,
        &[],
    )
    .unwrap_err();
    match &err {
        RenameError::DestinationExists(l) => assert_eq!(*l, bv(&["d.txt", "e.txt"])),
        other => panic!("unexpected rejection: {:?}", other.message()),
    }
    assert_eq!(
        err.message(),
        b("Found destination(s) that already exist: d.txt, e.txt, use --force to overwrite")
    );
    for kept in ["a.txt", "b.txt", "c.txt", "d.txt", "e.txt"] {
        assert!(fs.contains_path(&b(kept)));
    }
}

#[test]
fn forces_existing_destinations() {
    let mut fs = FsState::new();
    files(&mut fs, &["a.txt", "b.txt", "c.txt", "d.txt"]);
    let r = run_batch(
        &mut fs,
        &["a.txt", "b.txt", "c.txt"],
        &["d.txt", "e.txt", "f.txt"],
        vec![true, true, true],
        true,
        false,
        false,
        &[],
    )
    .unwrap();
    assert_eq!(
        r.lines,
        lines_of(&["a.txt -> d.txt", "b.txt -> e.txt", "c.txt -> f.txt"])
    );
    assert_eq!(r.count, 3);
    for gone in ["a.txt", "b.txt", "c.txt"] {
        assert!(!fs.contains_path(&b(gone)));
    }
    for there in ["d.txt", "e.txt", "f.txt"] {
        assert!(fs.contains_path(&b(there)));
    }
    assert_eq!(fs.data_at(&b("d.txt")).unwrap(), content_tag("a.txt"));
}

#[test]
fn dry_run_works() {
    let mut fs = FsState::new();
    files(&mut fs, &["a.txt", "b.txt", "c.txt"]);
    let r = run_batch(
        &mut fs,
        &["a.txt", "b.txt", "c.txt"],
        &["d.txt", "e.txt", "f.txt"],
        vec![true, true, true],
        false,
        false,
        true,
        &[],
    )
    .unwrap();
    assert_eq!(
        r.lines,
        lines_of(&["a.txt -> d.txt", "b.txt -> e.txt", "c.txt -> f.txt"])
    );
    assert_eq!(r.count, 0);
    for kept in ["a.txt", "b.txt", "c.txt"] {
        assert!(fs.contains_path(&b(kept)));
    }
    for never in ["d.txt", "e.txt", "f.txt"] {
        assert!(!fs.contains_path(&b(never)));
    }
}

#[test]
fn errors_when_passed_invalid_operations() {
    let mut fs = FsState::new();
    let err = run_batch(
        &mut fs,
        &["a.txt", "c.txt"],
        &["b.txt", "b.txt"],
        vec![true, true],
        false,
        false,
        false,
        &[],
    )
    .unwrap_err();
    match &err {
        RenameError::NotFound(l) => assert_eq!(*l, bv(&["a.txt", "c.txt"])),
        other => panic!("unexpected rejection: {:?}", other.message()),
    }
    assert_eq!(
        err.message(),
        b("Found non-existent path(s): a.txt, c.txt")
    );
}

#[test]
fn disallow_duplicate_operations() {
    let mut fs = FsState::new();
    files(&mut fs, &["a.txt", "b.txt", "e.txt"]);
    let err = run_batch(
        &mut fs,
        &["a.txt", "b.txt", "e.txt", "e.txt"],
        &["c.txt", "c.txt", "f.txt", "f.txt"],
        vec![true, true, true, true],
        false,
        false,
        false,
        &[],
    )
    .unwrap_err();
    match &err {
        RenameError::DuplicateDestination(l) => assert_eq!(*l, bv(&["c.txt", "f.txt"])),
        other => panic!("unexpected rejection: {:?}", other.message()),
    }
    assert_eq!(
        err.message(),
        b("Found duplicate destination(s): c.txt, f.txt")
    );
}

#[test]
fn handles_intermediate_conflicts() {
    let mut fs = FsState::new();
    files(&mut fs, &["a.txt", "b.txt", "d.txt"]);
    let r = run_batch(
        &mut fs,
        &["a.txt", "b.txt", "d.txt"],
        &["b.txt", "c.txt", "e.txt"],
        vec![true, true, true],
        true,
        true,
        false,
        &["stage-0", "stage-1", "stage-2"],
    )
    .unwrap();
    assert_eq!(
        r.lines,
        lines_of(&["a.txt -> b.txt", "b.txt -> c.txt", "d.txt -> e.txt"])
    );
    assert_eq!(r.count, 3);
    assert!(!fs.contains_path(&b("a.txt")));
    assert!(!fs.contains_path(&b("d.txt")));
    assert_eq!(fs.data_at(&b("b.txt")).unwrap(), content_tag("a.txt"));
    assert_eq!(fs.data_at(&b("c.txt")).unwrap(), content_tag("b.txt"));
    assert_eq!(fs.data_at(&b("e.txt")).unwrap(), content_tag("d.txt"));
}

#[test]
fn does_not_perform_self_renames() {
    let mut fs = FsState::new();
    files(&mut fs, &["a.txt", "b.txt", "c.txt"]);
    let r = run_batch(
        &mut fs,
        &["a.txt", "b.txt", "c.txt"],
        &["a.txt", "b.txt", "c.txt"],
        vec![true, true, true],
        false,
        false,
        false,
        &[],
    )
    .unwrap();
    assert!(r.lines.is_empty());
    assert_eq!(r.count, 0);
    for kept in ["a.txt", "b.txt", "c.txt"] {
        assert!(fs.contains_path(&b(kept)));
    }
}

#[test]
fn gives_error_for_invalid_destination_directory() {
    let mut fs = FsState::new();
    files(&mut fs, &["a.txt", "b.txt"]);
    let err = run_batch(
        &mut fs,
        &["a.txt", "b.txt"],
        &["foo/a.txt", "bar/baz/c.txt"],
        vec![false, false],
        false,
        false,
        false,
        &[],
    )
    .unwrap_err();
    match &err {
        RenameError::MissingParentDirectory(l) => {
            assert_eq!(*l, bv(&["foo/a.txt", "bar/baz/c.txt"]))
        }
        other => panic!("unexpected rejection: {:?}", other.message()),
    }
    assert_eq!(
        err.message(),
        b("Found destination(s) placed within a non-existent directory: foo/a.txt, bar/baz/c.txt")
    );
    assert!(fs.contains_path(&b("a.txt")));
    assert!(fs.contains_path(&b("b.txt")));
}

#[test]
fn circular_rename() {
    let mut fs = FsState::new();
    files(&mut fs, &["a.txt", "b.txt"]);
    let r = run_batch(
        &mut fs,
        &["a.txt", "b.txt"],
        &["b.txt", "a.txt"],
        vec![true, true],
        true,
        true,
        false,
        &["spare-0", "spare-1"],
    )
    .unwrap();
    assert_eq!(r.lines, lines_of(&["a.txt -> b.txt", "b.txt -> a.txt"]));
    assert_eq!(r.count, 2);
    assert_eq!(fs.data_at(&b("b.txt")).unwrap(), content_tag("a.txt"));
    assert_eq!(fs.data_at(&b("a.txt")).unwrap(), content_tag("b.txt"));
    assert!(!fs.contains_path(&b("spare-0")));
    assert!(!fs.contains_path(&b("spare-1")));
}

#[test]
fn mixed_self_and_proper_renames() {
    let mut fs = FsState::new();
    files(&mut fs, &["a.txt", "b.txt", "c.txt"]);
    let r = run_batch(
        &mut fs,
        &["a.txt", "b.txt", "c.txt"],
        &["a.txt", "b.txt", "d.txt"],
        vec![true, true, true],
        false,
        false,
        false,
        &[],
    )
    .unwrap();
    assert_eq!(r.lines, lines_of(&["c.txt -> d.txt"]));
    assert_eq!(r.count, 1);
    assert!(fs.contains_path(&b("a.txt")));
    assert!(fs.contains_path(&b("b.txt")));
    assert!(!fs.contains_path(&b("c.txt")));
    assert_eq!(fs.data_at(&b("d.txt")).unwrap(), content_tag("c.txt"));
}

#[test]
fn place_file_into_directory() {
    let mut fs = FsState::new();
    files(&mut fs, &["a.txt"]);
    dirs(&mut fs, &["b"]);
    let r = run_batch(
        &mut fs,
        &["a.txt"],
        &["b"],
        vec![true],
        true,
        false,
        false,
        &[],
    )
    .unwrap();
    assert_eq!(r.lines, lines_of(&["a.txt -> b/a.txt"]));
    assert_eq!(r.count, 1);
    assert!(fs.contains_path(&b("b")));
    assert!(!fs.contains_path(&b("a.txt")));
    assert_eq!(fs.data_at(&b("b/a.txt")).unwrap(), content_tag("a.txt"));
}

#[test]
fn place_directory_into_directory() {
    let mut fs = FsState::new();
    dirs(&mut fs, &["a", "b"]);
    let r = run_batch(
        &mut fs,
        &["a"],
        &["b"],
        vec![true],
        true,
        false,
        false,
        &[],
    )
    .unwrap();
    assert_eq!(r.lines, lines_of(&["a -> b/a"]));
    assert_eq!(r.count, 1);
    assert!(fs.contains_path(&b("b")));
    assert!(!fs.contains_path(&b("a")));
    assert_eq!(fs.dir_at(&b("b/a")), Some(true));
}

#[test]
fn destination_count_mismatch() {
    let mut fs = FsState::new();
    files(&mut fs, &["a.txt", "b.txt"]);
    let err = run_batch(
        &mut fs,
        &["a.txt", "b.txt"],
        &["c.txt"],
        vec![true],
        false,
        false,
        false,
        &[],
    )
    .unwrap_err();
    match &err {
        RenameError::CountMismatch { expected, received } => {
            assert_eq!(*expected, 2);
            assert_eq!(*received, 1);
        }
        other => panic!("unexpected rejection: {:?}", other.message()),
    }
    assert_eq!(
        err.message(),
        b("Destination count mismatch, should be 2 but received 1")
    );
}

#[test]
fn gives_error_for_directory_to_file_operations() {
    let mut fs = FsState::new();
    dirs(&mut fs, &["a", "b"]);
    files(&mut fs, &["a.txt", "b.txt"]);
    let err = run_batch(
        &mut fs,
        &["a", "b"],
        &["a.txt", "b.txt"],
        vec![true, true],
        true,
        false,
        false,
        &[],
    )
    .unwrap_err();
    match &err {
        RenameError::DirectoryToFile(l) => {
            assert_eq!(*l, bv(&["a -> a.txt", "b -> b.txt"]))
        }
        other => panic!("unexpected rejection: {:?}", other.message()),
    }
    assert_eq!(
        err.message(),
        b("Found directory to file operation(s): a -> a.txt, b -> b.txt")
    );
}

#[test]
fn detects_conflicts() {
    let mut fs = FsState::new();
    files(&mut fs, &["a.txt", "b.txt"]);
    let err = run_batch(
        &mut fs,
        &["a.txt", "b.txt"],
        &["b.txt", "a.txt"],
        vec![true, true],
        true,
        false,
        false,
        &[],
    )
    .unwrap_err();
    match &err {
        RenameError::ConflictingOperations(l) => {
            assert_eq!(*l, bv(&["a.txt -> b.txt", "b.txt -> a.txt"]))
        }
        other => panic!("unexpected rejection: {:?}", other.message()),
    }
    assert_eq!(
        err.message(),
        b("Found conflicting operation(s): a.txt -> b.txt, b.txt -> a.txt, use --resolve to properly handle the conflicts")
    );
    assert!(fs.contains_path(&b("a.txt")));
    assert!(fs.contains_path(&b("b.txt")));
}

#[test]
fn nested_directory() {
    let mut fs = FsState::new();
    dirs(&mut fs, &["foo", "foo/bar", "foo/bar/baz"]);
    files(&mut fs, &["a.txt"]);
    let r = run_batch(
        &mut fs,
        &["a.txt"],
        &["foo/bar/baz"],
        vec![true],
        true,
        false,
        false,
        &[],
    )
    .unwrap();
    assert_eq!(r.lines, lines_of(&["a.txt -> foo/bar/baz/a.txt"]));
    assert_eq!(r.count, 1);
    assert!(fs.contains_path(&b("foo/bar/baz")));
    assert!(!fs.contains_path(&b("a.txt")));
    assert_eq!(
        fs.data_at(&b("foo/bar/baz/a.txt")).unwrap(),
        content_tag("a.txt")
    );
}

#[test]
fn ignores_self_renames_as_duplicates() {
    let mut fs = FsState::new();
    files(&mut fs, &["a.txt", "b.txt"]);
    let r = run_batch(
        &mut fs,
        &["a.txt", "b.txt"],
        &["b.txt", "b.txt"],
        vec![true, true],
        true,
        false,
        false,
        &[],
    )
    .unwrap();
    assert_eq!(r.lines, lines_of(&["a.txt -> b.txt"]));
    assert_eq!(r.count, 1);
    assert!(!fs.contains_path(&b("a.txt")));
    assert_eq!(fs.data_at(&b("b.txt")).unwrap(), content_tag("a.txt"));
}

#[test]
fn chain_is_unwound_tail_first_without_staging() {
    let mut fs = FsState::new();
    files(&mut fs, &["a.txt", "b.txt"]);
    let r = run_batch(
        &mut fs,
        &["a.txt", "b.txt"],
        &["b.txt", "c.txt"],
        vec![true, true],
        true,
        false,
        false,
        &[],
    )
    .unwrap();
    assert_eq!(r.lines, lines_of(&["b.txt -> c.txt", "a.txt -> b.txt"]));
    assert_eq!(r.count, 2);
    assert!(!fs.contains_path(&b("a.txt")));
    assert_eq!(fs.data_at(&b("b.txt")).unwrap(), content_tag("a.txt"));
    assert_eq!(fs.data_at(&b("c.txt")).unwrap(), content_tag("b.txt"));
}

#[test]
fn dry_run_with_staging_reports_and_keeps_everything() {
    let mut fs = FsState::new();
    files(&mut fs, &["a.txt", "b.txt"]);
    let r = run_batch(
        &mut fs,
        &["a.txt", "b.txt"],
        &["b.txt", "a.txt"],
        vec![true, true],
        true,
        true,
        true,
        &["spare-0", "spare-1"],
    )
    .unwrap();
    assert_eq!(r.lines, lines_of(&["a.txt -> b.txt", "b.txt -> a.txt"]));
    assert_eq!(r.count, 0);
    assert_eq!(fs.data_at(&b("a.txt")).unwrap(), content_tag("a.txt"));
    assert_eq!(fs.data_at(&b("b.txt")).unwrap(), content_tag("b.txt"));
}

#[test]
fn lone_self_rename_is_not_a_duplicate() {
    let mut fs = FsState::new();
    files(&mut fs, &["a.txt"]);
    let r = run_batch(
        &mut fs,
        &["a.txt"],
        &["a.txt"],
        vec![true],
        false,
        false,
        false,
        &[],
    )
    .unwrap();
    assert!(r.lines.is_empty());
    assert_eq!(r.count, 0);
    assert!(fs.contains_path(&b("a.txt")));
}

#[test]
fn self_target_overwritten_by_live_operation_with_force() {
    let mut fs = FsState::new();
    files(&mut fs, &["a.txt", "b.txt"]);
    let r = run_batch(
        &mut fs,
        &["a.txt", "b.txt"],
        &["a.txt", "a.txt"],
        vec![true, true],
        true,
        false,
        false,
        &[],
    )
    .unwrap();
    assert_eq!(r.lines, lines_of(&["b.txt -> a.txt"]));
    assert_eq!(r.count, 1);
    assert!(!fs.contains_path(&b("b.txt")));
    assert_eq!(fs.data_at(&b("a.txt")).unwrap(), content_tag("b.txt"));
}

#[test]
fn missing_sources_are_listed_sorted() {
    let mut fs = FsState::new();
    let err = run_batch(
        &mut fs,
        &["z.txt", "a.txt"],
        &["x.txt", "y.txt"],
        vec![true, true],
        false,
        false,
        false,
        &[],
    )
    .unwrap_err();
    assert_eq!(
        err.message(),
        b("Found non-existent path(s): a.txt, z.txt")
    );
}

#[test]
fn slashed_source_keeps_only_its_basename_when_placed() {
    let mut fs = FsState::new();
    dirs(&mut fs, &["sub", "b"]);
    files(&mut fs, &["sub/a.txt"]);
    let r = run_batch(
        &mut fs,
        &["sub/a.txt"],
        &["b"],
        vec![true],
        true,
        false,
        false,
        &[],
    )
    .unwrap();
    assert_eq!(r.lines, lines_of(&["sub/a.txt -> b/a.txt"]));
    assert_eq!(r.count, 1);
    assert_eq!(fs.data_at(&b("b/a.txt")).unwrap(), content_tag("sub/a.txt"));
}

#[test]
fn failed_move_aborts_and_keeps_committed_prefix() {
    let mut fs = FsState::new();
    files(&mut fs, &["a.txt"]);
    // the same source twice: the second move finds its origin already gone
    let r = run_batch(
        &mut fs,
        &["a.txt", "a.txt"],
        &["b.txt", "c.txt"],
        vec![true, true],
        false,
        false,
        false,
        &[],
    )
    .unwrap();
    assert_eq!(r.lines, lines_of(&["a.txt -> b.txt"]));
    assert_eq!(r.count, 1);
    match r.failure {
        Some(RenameError::FilesystemError { from, to }) => {
            assert_eq!(from, b("a.txt"));
            assert_eq!(to, b("c.txt"));
        }
        other => panic!("expected a filesystem failure, got {other:?}"),
    }
    assert_eq!(fs.data_at(&b("b.txt")).unwrap(), content_tag("a.txt"));
    assert!(!fs.contains_path(&b("c.txt")));
}

#[test]
fn filesystem_error_message_names_the_pair() {
    let err = RenameError::FilesystemError {
        from: b("x.txt"),
        to: b("y.txt"),
    };
    assert_eq!(err.message(), b("Failed to rename x.txt -> y.txt"));
}

#[test]
fn staging_kinds_follow_source_kinds() {
    let mut fs = FsState::new();
    dirs(&mut fs, &["d"]);
    files(&mut fs, &["f.txt"]);
    let ss = bv(&["d", "f.txt"]);
    let ds = bv(&["d2", "f2.txt"]);
    let os = validate(&ss, &ds, &vec![true, true], &fs, false).unwrap();
    let kinds = edmv::planner::staging_kinds(&os);
    assert_eq!(kinds, vec![true, false]);
}

#[test]
fn classifies_free_chained_and_cyclic_operations() {
    let mut fs = FsState::new();
    files(&mut fs, &["a.txt", "b.txt", "x.txt", "y.txt", "p.txt"]);
    let ss = bv(&["a.txt", "b.txt", "x.txt", "y.txt", "p.txt"]);
    let ds = bv(&["b.txt", "c.txt", "y.txt", "x.txt", "q.txt"]);
    let os = validate(&ss, &ds, &vec![true; 5], &fs, true).unwrap();
    let classes = classify(&os);
    assert_eq!(
        classes,
        vec![
            Hazard::Chained,
            Hazard::Free,
            Hazard::Cyclic,
            Hazard::Cyclic,
            Hazard::Free,
        ]
    );
}
