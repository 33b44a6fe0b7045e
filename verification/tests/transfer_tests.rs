use treesize::path::{FsPath, PathPart};
use treesize::transfer::{
    delete_request_for, delete_step, is_path_too_long, CopyEntry, DeleteOutcome, DeleteStage,
    FsEvent, FsRequest, Transfer, TransferError, TransferProgress,
};

fn abs(names: &[&str]) -> FsPath {
    let mut parts = vec![PathPart::Root];
    for name in names {
        parts.push(PathPart::Normal(name.to_string()));
    }
    FsPath { parts }
}

fn go_on(progress: TransferProgress) -> Transfer {
    match progress {
        TransferProgress::Continue(transfer) => transfer,
        TransferProgress::Done(result) => panic!("operation ended early: {:?}", result),
    }
}

fn done(progress: TransferProgress) -> Result<(), TransferError> {
    match progress {
        TransferProgress::Done(result) => result,
        TransferProgress::Continue(transfer) => panic!("operation goes on: {:?}", transfer.request()),
    }
}

fn probed(found: bool, is_dir: bool) -> FsEvent {
    FsEvent::Probed { found, is_dir }
}

fn failed(message: &str) -> FsEvent {
    FsEvent::Failed { message: message.to_string() }
}

fn file_entry(name: &str) -> CopyEntry {
    CopyEntry { name: name.to_string(), is_dir: false }
}

fn dir_entry(name: &str) -> CopyEntry {
    CopyEntry { name: name.to_string(), is_dir: true }
}

fn checked(src: FsPath, dest_dir: FsPath, is_cut: bool) -> Transfer {
    let t = Transfer::copy_or_move(src.duplicate(), dest_dir.duplicate(), is_cut, None);
    assert_eq!(t.request(), FsRequest::ProbeDestination { path: dest_dir });
    let t = go_on(t.step(probed(true, true)));
    assert_eq!(t.request(), FsRequest::ProbeSource { path: src });
    go_on(t.step(probed(true, false)))
}

#[test]
fn missing_destination_is_invalid() {
    let t = Transfer::copy_or_move(abs(&["a"]), abs(&["gone"]), false, None);
    assert_eq!(done(t.step(probed(false, false))), Err(TransferError::InvalidDestination));
}

#[test]
fn destination_that_is_a_file_is_invalid() {
    let t = Transfer::copy_or_move(abs(&["a"]), abs(&["file"]), true, None);
    assert_eq!(done(t.step(probed(true, false))), Err(TransferError::InvalidDestination));
}

#[test]
fn missing_source_is_not_found() {
    let t = Transfer::copy_or_move(abs(&["gone"]), abs(&["d"]), false, None);
    let t = go_on(t.step(probed(true, true)));
    assert_eq!(done(t.step(probed(false, false))), Err(TransferError::SourceNotFound));
}

#[test]
fn move_into_itself_is_refused_after_probes_only() {
    let src = abs(&["data", "dir"]);
    let t = Transfer::copy_or_move(src.duplicate(), src.duplicate(), true, None);
    assert_eq!(t.request(), FsRequest::ProbeDestination { path: src.duplicate() });
    let t = go_on(t.step(probed(true, true)));
    assert_eq!(t.request(), FsRequest::ProbeSource { path: src.duplicate() });
    assert_eq!(done(t.step(probed(true, true))), Err(TransferError::SelfNestedMove));
}

#[test]
fn move_into_a_directory_below_itself_is_refused() {
    let t = Transfer::copy_or_move(abs(&["data"]), abs(&["data", "x", "y"]), true, None);
    let t = go_on(t.step(probed(true, true)));
    assert_eq!(done(t.step(probed(true, true))), Err(TransferError::SelfNestedMove));
}

#[test]
fn copy_into_itself_is_not_refused() {
    let src = abs(&["data"]);
    let t = Transfer::copy_or_move(src.duplicate(), src.duplicate(), false, None);
    let t = go_on(t.step(probed(true, true)));
    let t = go_on(t.step(probed(true, true)));
    assert_eq!(t.request(), FsRequest::Stat { path: src });
}

#[test]
fn move_beside_a_name_that_only_begins_alike_is_allowed() {
    let t = Transfer::copy_or_move(abs(&["data"]), abs(&["database"]), true, None);
    let t = go_on(t.step(probed(true, true)));
    let t = go_on(t.step(probed(true, true)));
    assert_eq!(
        t.request(),
        FsRequest::Rename { from: abs(&["data"]), to: abs(&["database", "data"]) }
    );
}

#[test]
fn destination_path_over_the_limit_is_too_long() {
    // "/dest/file.txt" takes 14 bytes
    let t = Transfer::copy_or_move(abs(&["src", "file.txt"]), abs(&["dest"]), false, Some(13));
    let t = go_on(t.step(probed(true, true)));
    assert_eq!(done(t.step(probed(true, false))), Err(TransferError::PathTooLong));
    let t = Transfer::copy_or_move(abs(&["src", "file.txt"]), abs(&["dest"]), false, Some(14));
    let t = go_on(t.step(probed(true, true)));
    let t = go_on(t.step(probed(true, false)));
    assert_eq!(t.request(), FsRequest::Stat { path: abs(&["src", "file.txt"]) });
}

#[test]
fn path_length_is_checked_against_the_limit_only_where_there_is_one() {
    let p = abs(&["ab", "cde"]);
    assert!(is_path_too_long(&p, Some(6)));
    assert!(!is_path_too_long(&p, Some(7)));
    assert!(!is_path_too_long(&p, None));
}

#[test]
fn source_without_a_name_is_copied_as_unnamed() {
    let src = FsPath { parts: vec![PathPart::Root] };
    let t = Transfer::copy_or_move(src.duplicate(), abs(&["d"]), false, None);
    let t = go_on(t.step(probed(true, true)));
    let t = go_on(t.step(probed(true, true)));
    let t = go_on(t.step(FsEvent::Kind { is_dir: false }));
    assert_eq!(t.request(), FsRequest::CopyFile { from: src, to: abs(&["d", "unnamed"]) });
}

#[test]
fn copy_of_a_file_is_one_copy() {
    let t = checked(abs(&["s", "f.txt"]), abs(&["d"]), false);
    assert_eq!(t.request(), FsRequest::Stat { path: abs(&["s", "f.txt"]) });
    let t = go_on(t.step(FsEvent::Kind { is_dir: false }));
    assert_eq!(
        t.request(),
        FsRequest::CopyFile { from: abs(&["s", "f.txt"]), to: abs(&["d", "f.txt"]) }
    );
    assert_eq!(done(t.step(FsEvent::Succeeded)), Ok(()));
}

#[test]
fn move_by_rename_is_done_when_the_rename_succeeds() {
    let t = checked(abs(&["s", "f.txt"]), abs(&["d"]), true);
    assert_eq!(
        t.request(),
        FsRequest::Rename { from: abs(&["s", "f.txt"]), to: abs(&["d", "f.txt"]) }
    );
    assert_eq!(done(t.step(FsEvent::Succeeded)), Ok(()));
}

#[test]
fn move_falls_back_to_copy_then_delete_when_the_rename_fails() {
    let src = abs(&["s", "f.txt"]);
    let t = checked(src.duplicate(), abs(&["d"]), true);
    let t = go_on(t.step(failed("cross-device link")));
    assert_eq!(t.request(), FsRequest::Stat { path: src.duplicate() });
    let t = go_on(t.step(FsEvent::Kind { is_dir: false }));
    assert_eq!(t.request(), FsRequest::CopyFile { from: src.duplicate(), to: abs(&["d", "f.txt"]) });
    let t = go_on(t.step(FsEvent::Succeeded));
    assert_eq!(t.request(), FsRequest::Stat { path: src.duplicate() });
    let t = go_on(t.step(FsEvent::Kind { is_dir: false }));
    assert_eq!(t.request(), FsRequest::RemoveFile { path: src.duplicate() });
    assert_eq!(done(t.step(FsEvent::Succeeded)), Ok(()));
}

#[test]
fn fallback_move_keeps_the_source_when_the_copy_fails() {
    let t = checked(abs(&["s", "f.txt"]), abs(&["d"]), true);
    let t = go_on(t.step(failed("cross-device link")));
    let t = go_on(t.step(FsEvent::Kind { is_dir: false }));
    assert_eq!(
        done(t.step(failed("disk full"))),
        Err(TransferError::IoError("disk full".to_string()))
    );
}

#[test]
fn copy_of_a_directory_walks_it_entry_by_entry() {
    let t = checked(abs(&["s", "dir"]), abs(&["d"]), false);
    let t = go_on(t.step(FsEvent::Kind { is_dir: true }));
    assert_eq!(t.request(), FsRequest::CreateDirAll { path: abs(&["d", "dir"]) });
    let t = go_on(t.step(FsEvent::Succeeded));
    assert_eq!(t.request(), FsRequest::ReadDir { path: abs(&["s", "dir"]) });
    let t = go_on(t.step(FsEvent::Listed {
        entries: vec![file_entry("a"), dir_entry("sub"), file_entry("z")],
    }));
    assert_eq!(
        t.request(),
        FsRequest::CopyFile { from: abs(&["s", "dir", "a"]), to: abs(&["d", "dir", "a"]) }
    );
    let t = go_on(t.step(FsEvent::Succeeded));
    assert_eq!(t.request(), FsRequest::CreateDirAll { path: abs(&["d", "dir", "sub"]) });
    let t = go_on(t.step(FsEvent::Succeeded));
    assert_eq!(t.request(), FsRequest::ReadDir { path: abs(&["s", "dir", "sub"]) });
    let t = go_on(t.step(FsEvent::Listed { entries: vec![file_entry("in")] }));
    assert_eq!(
        t.request(),
        FsRequest::CopyFile {
            from: abs(&["s", "dir", "sub", "in"]),
            to: abs(&["d", "dir", "sub", "in"]),
        }
    );
    let t = go_on(t.step(FsEvent::Succeeded));
    assert_eq!(
        t.request(),
        FsRequest::CopyFile { from: abs(&["s", "dir", "z"]), to: abs(&["d", "dir", "z"]) }
    );
    assert_eq!(done(t.step(FsEvent::Succeeded)), Ok(()));
}

#[test]
fn copy_of_an_empty_directory_only_creates_it() {
    let t = checked(abs(&["s", "dir"]), abs(&["d"]), false);
    let t = go_on(t.step(FsEvent::Kind { is_dir: true }));
    let t = go_on(t.step(FsEvent::Succeeded));
    assert_eq!(done(t.step(FsEvent::Listed { entries: vec![] })), Ok(()));
}

#[test]
fn fallback_move_of_a_directory_removes_the_tree_after_the_copy() {
    let src = abs(&["s", "dir"]);
    let t = checked(src.duplicate(), abs(&["d"]), true);
    let t = go_on(t.step(failed("cross-device link")));
    let t = go_on(t.step(FsEvent::Kind { is_dir: true }));
    let t = go_on(t.step(FsEvent::Succeeded));
    let t = go_on(t.step(FsEvent::Listed { entries: vec![dir_entry("e")] }));
    assert_eq!(t.request(), FsRequest::CreateDirAll { path: abs(&["d", "dir", "e"]) });
    let t = go_on(t.step(FsEvent::Succeeded));
    let t = go_on(t.step(FsEvent::Listed { entries: vec![] }));
    assert_eq!(t.request(), FsRequest::Stat { path: src.duplicate() });
    let t = go_on(t.step(FsEvent::Kind { is_dir: true }));
    assert_eq!(t.request(), FsRequest::RemoveDirAll { path: src.duplicate() });
    assert_eq!(done(t.step(FsEvent::Succeeded)), Ok(()));
}

#[test]
fn failures_while_copying_a_directory_end_the_operation() {
    let begin = || {
        let t = checked(abs(&["s", "dir"]), abs(&["d"]), false);
        go_on(t.step(FsEvent::Kind { is_dir: true }))
    };
    assert_eq!(
        done(begin().step(failed("mkdir"))),
        Err(TransferError::IoError("mkdir".to_string()))
    );
    let t = go_on(begin().step(FsEvent::Succeeded));
    assert_eq!(done(t.step(failed("list"))), Err(TransferError::IoError("list".to_string())));
    let t = go_on(begin().step(FsEvent::Succeeded));
    let t = go_on(t.step(FsEvent::Listed { entries: vec![file_entry("a")] }));
    assert_eq!(done(t.step(failed("copy"))), Err(TransferError::IoError("copy".to_string())));
}

#[test]
fn failed_stat_and_failed_removal_are_io_errors() {
    let t = checked(abs(&["s", "f"]), abs(&["d"]), false);
    assert_eq!(done(t.step(failed("stat"))), Err(TransferError::IoError("stat".to_string())));
    let t = checked(abs(&["s", "f"]), abs(&["d"]), true);
    let t = go_on(t.step(failed("rename")));
    let t = go_on(t.step(FsEvent::Kind { is_dir: false }));
    let t = go_on(t.step(FsEvent::Succeeded));
    let t = go_on(t.step(FsEvent::Kind { is_dir: false }));
    assert_eq!(done(t.step(failed("busy"))), Err(TransferError::IoError("busy".to_string())));
}

#[test]
fn failed_probes_count_as_absent() {
    let t = Transfer::copy_or_move(abs(&["a"]), abs(&["d"]), false, None);
    assert_eq!(done(t.step(failed("x"))), Err(TransferError::InvalidDestination));
    let t = Transfer::copy_or_move(abs(&["a"]), abs(&["d"]), false, None);
    let t = go_on(t.step(probed(true, true)));
    assert_eq!(done(t.step(failed("x"))), Err(TransferError::SourceNotFound));
}

#[test]
fn events_that_do_not_answer_change_nothing() {
    let t = Transfer::copy_or_move(abs(&["a"]), abs(&["d"]), false, None);
    let t = go_on(t.step(FsEvent::Succeeded));
    assert_eq!(t.request(), FsRequest::ProbeDestination { path: abs(&["d"]) });
    let t = go_on(t.step(FsEvent::Kind { is_dir: true }));
    assert_eq!(t.request(), FsRequest::ProbeDestination { path: abs(&["d"]) });
}

#[test]
fn delete_removes_a_directory_with_all_it_holds() {
    let p = abs(&["x"]);
    assert_eq!(delete_request_for(&p, DeleteStage::Stat), FsRequest::Stat { path: abs(&["x"]) });
    let next = delete_step(DeleteStage::Stat, FsEvent::Kind { is_dir: true });
    assert_eq!(next, DeleteOutcome::Next(DeleteStage::RemoveTree));
    assert_eq!(
        delete_request_for(&p, DeleteStage::RemoveTree),
        FsRequest::RemoveDirAll { path: abs(&["x"]) }
    );
    assert_eq!(
        delete_step(DeleteStage::RemoveTree, FsEvent::Succeeded),
        DeleteOutcome::Finished(Ok(()))
    );
}

#[test]
fn delete_removes_anything_else_by_itself() {
    let p = abs(&["x"]);
    let next = delete_step(DeleteStage::Stat, FsEvent::Kind { is_dir: false });
    assert_eq!(next, DeleteOutcome::Next(DeleteStage::RemoveFile));
    assert_eq!(
        delete_request_for(&p, DeleteStage::RemoveFile),
        FsRequest::RemoveFile { path: abs(&["x"]) }
    );
    assert_eq!(
        delete_step(DeleteStage::RemoveFile, FsEvent::Succeeded),
        DeleteOutcome::Finished(Ok(()))
    );
}

#[test]
fn delete_fails_with_the_message_of_the_system() {
    for stage in [DeleteStage::Stat, DeleteStage::RemoveTree, DeleteStage::RemoveFile] {
        assert_eq!(
            delete_step(stage, failed("no such file")),
            DeleteOutcome::Finished(Err(TransferError::IoError("no such file".to_string())))
        );
    }
    assert_eq!(
        delete_step(DeleteStage::Stat, FsEvent::Succeeded),
        DeleteOutcome::Next(DeleteStage::Stat)
    );
    assert_eq!(
        delete_step(DeleteStage::RemoveFile, FsEvent::Kind { is_dir: true }),
        DeleteOutcome::Next(DeleteStage::RemoveFile)
    );
}

enum Source {
    File(String),
    Dir(String, Vec<Source>),
}

impl Source {
    fn name(&self) -> &str {
        match self {
            Source::File(name) => name,
            Source::Dir(name, _) => name,
        }
    }

    fn is_dir(&self) -> bool {
        matches!(self, Source::Dir(..))
    }
}

fn find<'a>(tree: &'a Source, root: &FsPath, path: &FsPath) -> &'a Source {
    let mut here = tree;
    for part in &path.parts[root.parts.len()..] {
        let name = match part {
            PathPart::Normal(name) => name,
            _ => panic!("unexpected component"),
        };
        here = match here {
            Source::Dir(_, entries) => entries.iter().find(|e| e.name() == name).unwrap(),
            Source::File(_) => panic!("not a directory"),
        };
    }
    here
}

fn copy_ops(tree: &Source, src: &FsPath, dest: &FsPath, ops: &mut Vec<FsRequest>) {
    match tree {
        Source::File(_) => {
            ops.push(FsRequest::CopyFile { from: src.duplicate(), to: dest.duplicate() })
        }
        Source::Dir(_, entries) => {
            ops.push(FsRequest::CreateDirAll { path: dest.duplicate() });
            ops.push(FsRequest::ReadDir { path: src.duplicate() });
            for e in entries {
                copy_ops(e, &src.join(e.name().to_string()), &dest.join(e.name().to_string()), ops);
            }
        }
    }
}

fn run(tree: &Source, src: &FsPath, dest_dir: &FsPath, is_cut: bool) -> (Vec<FsRequest>, Result<(), TransferError>) {
    let mut asked = Vec::new();
    let mut transfer = Transfer::copy_or_move(src.duplicate(), dest_dir.duplicate(), is_cut, None);
    loop {
        let request = transfer.request();
        let event = match &request {
            FsRequest::ProbeDestination { .. } => probed(true, true),
            FsRequest::ProbeSource { .. } => probed(true, tree.is_dir()),
            FsRequest::Rename { .. } => failed("cross-device link"),
            FsRequest::Stat { path } => FsEvent::Kind { is_dir: find(tree, src, path).is_dir() },
            FsRequest::ReadDir { path } => match find(tree, src, path) {
                Source::Dir(_, entries) => FsEvent::Listed {
                    entries: entries
                        .iter()
                        .map(|e| CopyEntry { name: e.name().to_string(), is_dir: e.is_dir() })
                        .collect(),
                },
                Source::File(_) => failed("not a directory"),
            },
            _ => FsEvent::Succeeded,
        };
        asked.push(request);
        match transfer.step(event) {
            TransferProgress::Continue(next) => transfer = next,
            TransferProgress::Done(result) => return (asked, result),
        }
    }
}

fn sample() -> Source {
    let f = |name: &str| Source::File(name.to_string());
    let d = |name: &str, entries: Vec<Source>| Source::Dir(name.to_string(), entries);
    d(
        "top",
        vec![
            f("a"),
            d("b", vec![d("c", vec![f("d"), d("e", vec![])]), f("g")]),
            d("h", vec![]),
            f("i"),
            d("j", vec![f("k")]),
        ],
    )
}

#[test]
fn copy_asks_for_the_operations_of_the_tree_in_order() {
    let tree = sample();
    let src = abs(&["from", "top"]);
    let dest_dir = abs(&["to"]);
    let (asked, result) = run(&tree, &src, &dest_dir, false);
    assert_eq!(result, Ok(()));
    let mut want = vec![
        FsRequest::ProbeDestination { path: dest_dir.duplicate() },
        FsRequest::ProbeSource { path: src.duplicate() },
        FsRequest::Stat { path: src.duplicate() },
    ];
    copy_ops(&tree, &src, &abs(&["to", "top"]), &mut want);
    assert_eq!(asked, want);
    assert_eq!(asked.len(), 3 + 17);
}

#[test]
fn fallback_move_copies_everything_and_then_removes_the_source() {
    let tree = sample();
    let src = abs(&["from", "top"]);
    let dest_dir = abs(&["to"]);
    let (asked, result) = run(&tree, &src, &dest_dir, true);
    assert_eq!(result, Ok(()));
    let mut want = vec![
        FsRequest::ProbeDestination { path: dest_dir.duplicate() },
        FsRequest::ProbeSource { path: src.duplicate() },
        FsRequest::Rename { from: src.duplicate(), to: abs(&["to", "top"]) },
        FsRequest::Stat { path: src.duplicate() },
    ];
    copy_ops(&tree, &src, &abs(&["to", "top"]), &mut want);
    want.push(FsRequest::Stat { path: src.duplicate() });
    want.push(FsRequest::RemoveDirAll { path: src.duplicate() });
    assert_eq!(asked, want);
}
