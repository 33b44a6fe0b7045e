//! Deleting, copying and moving, as machines that are driven from outside.
//!
//! A machine never touches the file system. It says which operation it
//! needs next (`FsRequest`), the driver performs it and reports how it
//! went (`FsEvent`), and the machine decides what follows. Nothing is
//! rolled back when an operation fails: what was copied stays.

use vstd::prelude::*;
use crate::path::{FsPath, PartView, final_name, lies_under, written_len};

verus! {

/// Why a deletion, a copy or a move failed.
#[derive(Debug, PartialEq, Eq)]
pub enum TransferError {
    /// The destination is missing or is not a directory.
    InvalidDestination,
    /// The source is missing.
    SourceNotFound,
    /// The source was to be moved into itself or into a directory below it.
    SelfNestedMove,
    /// The path of the copy would be longer than the system allows.
    PathTooLong,
    /// The system refused an operation; the message is the system's.
    IoError(String),
}

pub enum TransferErrorView {
    InvalidDestination,
    SourceNotFound,
    SelfNestedMove,
    PathTooLong,
    IoError(Seq<char>),
}

impl View for TransferError {
    type V = TransferErrorView;

    open spec fn view(&self) -> TransferErrorView {
        match self {
            TransferError::InvalidDestination => TransferErrorView::InvalidDestination,
            TransferError::SourceNotFound => TransferErrorView::SourceNotFound,
            TransferError::SelfNestedMove => TransferErrorView::SelfNestedMove,
            TransferError::PathTooLong => TransferErrorView::PathTooLong,
            TransferError::IoError(message) => TransferErrorView::IoError(message@),
        }
    }
}

/// One entry of a directory that is being copied.
#[derive(Debug)]
pub struct CopyEntry {
    pub name: String,
    pub is_dir: bool,
}

pub struct CopyEntryView {
    pub name: Seq<char>,
    pub is_dir: bool,
}

impl View for CopyEntry {
    type V = CopyEntryView;

    open spec fn view(&self) -> CopyEntryView {
        CopyEntryView { name: self.name@, is_dir: self.is_dir }
    }
}

/// The views of a sequence of entries, element by element.
pub open spec fn copy_entry_views(entries: Seq<CopyEntry>) -> Seq<CopyEntryView> {
    Seq::new(entries.len(), |i: int| entries[i]@)
}

/// What the driver reports of the operation it was asked for.
#[derive(Debug)]
pub enum FsEvent {
    /// Answer to a probe: whether the path exists, and whether it is a directory.
    Probed { found: bool, is_dir: bool },
    /// Answer to `FsRequest::Stat`: whether the entry itself, not what a
    /// link leads to, is a directory.
    Kind { is_dir: bool },
    /// Answer to `FsRequest::ReadDir`: the directory's entries.
    Listed { entries: Vec<CopyEntry> },
    /// The operation was done.
    Succeeded,
    /// The system refused the operation.
    Failed { message: String },
}

pub enum FsEventView {
    Probed { found: bool, is_dir: bool },
    Kind { is_dir: bool },
    Listed { entries: Seq<CopyEntryView> },
    Succeeded,
    Failed { message: Seq<char> },
}

impl View for FsEvent {
    type V = FsEventView;

    open spec fn view(&self) -> FsEventView {
        match self {
            FsEvent::Probed { found, is_dir } => FsEventView::Probed {
                found: *found,
                is_dir: *is_dir,
            },
            FsEvent::Kind { is_dir } => FsEventView::Kind { is_dir: *is_dir },
            FsEvent::Listed { entries } => FsEventView::Listed {
                entries: copy_entry_views(entries@),
            },
            FsEvent::Succeeded => FsEventView::Succeeded,
            FsEvent::Failed { message } => FsEventView::Failed { message: message@ },
        }
    }
}

/// An operation that the driver is to perform.
#[derive(Debug, PartialEq, Eq)]
pub enum FsRequest {
    /// Say whether the destination exists and is a directory.
    ProbeDestination { path: FsPath },
    /// Say whether the source exists.
    ProbeSource { path: FsPath },
    /// Rename `from` to `to`.
    Rename { from: FsPath, to: FsPath },
    /// Say whether the entry is a directory, without following a link.
    Stat { path: FsPath },
    /// Copy the file `from` to `to`.
    CopyFile { from: FsPath, to: FsPath },
    /// Create the directory and whatever is missing above it.
    CreateDirAll { path: FsPath },
    /// List the directory.
    ReadDir { path: FsPath },
    /// Remove the directory with all it holds.
    RemoveDirAll { path: FsPath },
    /// Remove the single entry.
    RemoveFile { path: FsPath },
}

pub enum FsRequestView {
    ProbeDestination { path: Seq<PartView> },
    ProbeSource { path: Seq<PartView> },
    Rename { from: Seq<PartView>, to: Seq<PartView> },
    Stat { path: Seq<PartView> },
    CopyFile { from: Seq<PartView>, to: Seq<PartView> },
    CreateDirAll { path: Seq<PartView> },
    ReadDir { path: Seq<PartView> },
    RemoveDirAll { path: Seq<PartView> },
    RemoveFile { path: Seq<PartView> },
}

impl View for FsRequest {
    type V = FsRequestView;

    open spec fn view(&self) -> FsRequestView {
        match self {
            FsRequest::ProbeDestination { path } => FsRequestView::ProbeDestination { path: path@ },
            FsRequest::ProbeSource { path } => FsRequestView::ProbeSource { path: path@ },
            FsRequest::Rename { from, to } => FsRequestView::Rename { from: from@, to: to@ },
            FsRequest::Stat { path } => FsRequestView::Stat { path: path@ },
            FsRequest::CopyFile { from, to } => FsRequestView::CopyFile { from: from@, to: to@ },
            FsRequest::CreateDirAll { path } => FsRequestView::CreateDirAll { path: path@ },
            FsRequest::ReadDir { path } => FsRequestView::ReadDir { path: path@ },
            FsRequest::RemoveDirAll { path } => FsRequestView::RemoveDirAll { path: path@ },
            FsRequest::RemoveFile { path } => FsRequestView::RemoveFile { path: path@ },
        }
    }
}

impl FsRequestView {
    /// Whether the operation only reads: a probe, a stat or a listing.
    pub open spec fn is_read_only(self) -> bool {
        self is ProbeDestination || self is ProbeSource || self is Stat || self is ReadDir
    }
}

/// How far a deletion has come.
#[derive(Clone, Copy, Debug, PartialEq, Eq, Structural)]
pub enum DeleteStage {
    /// The kind of the entry is to be found out.
    Stat,
    /// The entry is a directory and is to be removed with all it holds.
    RemoveTree,
    /// The entry is not a directory and is to be removed by itself.
    RemoveFile,
}

/// What an event does to a deletion.
#[derive(Debug, PartialEq, Eq)]
pub enum DeleteOutcome {
    /// The deletion goes on in this stage.
    Next(DeleteStage),
    /// The deletion is over.
    Finished(Result<(), TransferError>),
}

pub enum DeleteOutcomeView {
    Next(DeleteStage),
    Finished(Result<(), TransferErrorView>),
}

/// The view of a result, which is the result of the error's view.
pub open spec fn result_view(result: Result<(), TransferError>) -> Result<(), TransferErrorView> {
    match result {
        Ok(()) => Ok(()),
        Err(error) => Err(error@),
    }
}

impl View for DeleteOutcome {
    type V = DeleteOutcomeView;

    open spec fn view(&self) -> DeleteOutcomeView {
        match self {
            DeleteOutcome::Next(stage) => DeleteOutcomeView::Next(*stage),
            DeleteOutcome::Finished(result) => DeleteOutcomeView::Finished(result_view(*result)),
        }
    }
}

/// What follows from `event` at `stage` of a deletion: a directory is
/// removed with all it holds, anything else by itself, and whatever the
/// system refuses ends the deletion with the system's message. An event
/// that does not answer the stage's request changes nothing.
pub open spec fn delete_next(stage: DeleteStage, event: FsEventView) -> DeleteOutcomeView {
    match (stage, event) {
        (_, FsEventView::Failed { message }) => DeleteOutcomeView::Finished(
            Err(TransferErrorView::IoError(message)),
        ),
        (DeleteStage::Stat, FsEventView::Kind { is_dir }) => DeleteOutcomeView::Next(
            if is_dir {
                DeleteStage::RemoveTree
            } else {
                DeleteStage::RemoveFile
            },
        ),
        (DeleteStage::RemoveTree, FsEventView::Succeeded) => DeleteOutcomeView::Finished(Ok(())),
        (DeleteStage::RemoveFile, FsEventView::Succeeded) => DeleteOutcomeView::Finished(Ok(())),
        _ => DeleteOutcomeView::Next(stage),
    }
}

/// The operation that a deletion of `path` needs at `stage`.
pub open spec fn delete_request(path: Seq<PartView>, stage: DeleteStage) -> FsRequestView {
    match stage {
        DeleteStage::Stat => FsRequestView::Stat { path },
        DeleteStage::RemoveTree => FsRequestView::RemoveDirAll { path },
        DeleteStage::RemoveFile => FsRequestView::RemoveFile { path },
    }
}

/// Takes the driver's answer at `stage` of a deletion.
pub fn delete_step(stage: DeleteStage, event: FsEvent) -> (outcome: DeleteOutcome)
    ensures
        outcome@ == delete_next(stage, event@),
{
    match event {
        FsEvent::Failed { message } => DeleteOutcome::Finished(Err(TransferError::IoError(message))),
        FsEvent::Kind { is_dir } => match stage {
            DeleteStage::Stat => DeleteOutcome::Next(
                if is_dir {
                    DeleteStage::RemoveTree
                } else {
                    DeleteStage::RemoveFile
                },
            ),
            _ => DeleteOutcome::Next(stage),
        },
        FsEvent::Succeeded => match stage {
            DeleteStage::Stat => DeleteOutcome::Next(stage),
            _ => DeleteOutcome::Finished(Ok(())),
        },
        _ => DeleteOutcome::Next(stage),
    }
}

/// The operation that a deletion of `path` needs at `stage`.
pub fn delete_request_for(path: &FsPath, stage: DeleteStage) -> (request: FsRequest)
    ensures
        request@ == delete_request(path@, stage),
{
    match stage {
        DeleteStage::Stat => FsRequest::Stat { path: path.duplicate() },
        DeleteStage::RemoveTree => FsRequest::RemoveDirAll { path: path.duplicate() },
        DeleteStage::RemoveFile => FsRequest::RemoveFile { path: path.duplicate() },
    }
}

/// A directory that is being copied: where from, where to, and which of
/// its entries are still to be copied.
pub struct CopyFrameView {
    pub src: Seq<PartView>,
    pub dest: Seq<PartView>,
    pub pending: Seq<CopyEntryView>,
}

/// How far a copy or move has come.
pub enum StageView {
    /// The destination is to be probed.
    ProbeDestination,
    /// The source is to be probed.
    ProbeSource,
    /// The source is to be renamed to its new path.
    Rename,
    /// The kind of the source is to be found out.
    StatSource,
    /// The source is a single file and is to be copied.
    CopyFile,
    /// The copy of the last directory of `stack` is to be created. The
    /// directories before it, outermost first, are those it lies in.
    MakeDir { stack: Seq<CopyFrameView> },
    /// The last directory of `stack` is to be listed.
    ListDir { stack: Seq<CopyFrameView> },
    /// The first pending entry of the last directory of `stack` is a file
    /// and is to be copied.
    CopyEntry { stack: Seq<CopyFrameView> },
    /// The copy is complete and the source is being deleted.
    DeleteSource { stage: DeleteStage },
}

/// The state of a copy or move.
pub struct TransferView {
    pub src: Seq<PartView>,
    pub dest_dir: Seq<PartView>,
    pub is_cut: bool,
    /// The most bytes a written-out path may take, where there is a limit.
    pub limit: Option<usize>,
    pub stage: StageView,
}

/// How a step ends: with a new state, or with the operation's result.
pub enum TransferProgressView {
    Continue(TransferView),
    Done(Result<(), TransferErrorView>),
}

/// The name under which a source is copied: its own final name, or
/// `unnamed` if its path does not end in a name.
pub open spec fn copy_name(src: Seq<PartView>) -> Seq<char> {
    match final_name(src) {
        Some(name) => name,
        None => "unnamed"@,
    }
}

/// Where the copy of `src` in `dest_dir` goes.
pub open spec fn destination(src: Seq<PartView>, dest_dir: Seq<PartView>) -> Seq<PartView> {
    dest_dir.push(PartView::Normal(copy_name(src)))
}

/// Whether `path` is longer than `limit` allows.
pub open spec fn too_long(path: Seq<PartView>, limit: Option<usize>) -> bool {
    match limit {
        Some(limit) => written_len(path) > limit,
        None => false,
    }
}

/// The path of the entry `name` of the directory `dir`.
pub open spec fn entry_path(dir: Seq<PartView>, name: Seq<char>) -> Seq<PartView> {
    dir.push(PartView::Normal(name))
}

/// `frame` with its first pending entry taken off.
pub open spec fn copy_advance(frame: CopyFrameView) -> CopyFrameView {
    CopyFrameView { pending: frame.pending.drop_first(), ..frame }
}

/// `stack` with the first pending entry of its last directory taken off.
pub open spec fn advance_top(stack: Seq<CopyFrameView>) -> Seq<CopyFrameView> {
    if stack.len() == 0 {
        stack
    } else {
        stack.drop_last().push(copy_advance(stack.last()))
    }
}

/// `stack` with `entries` as the pending entries of its last directory.
pub open spec fn list_top(stack: Seq<CopyFrameView>, entries: Seq<CopyEntryView>) -> Seq<CopyFrameView> {
    if stack.len() == 0 {
        stack
    } else {
        stack.drop_last().push(CopyFrameView { pending: entries, ..stack.last() })
    }
}

impl TransferView {
    /// The state in which a copy (`is_cut` false) or move (`is_cut` true)
    /// of `src` into the directory `dest_dir` begins.
    pub open spec fn initial(
        src: Seq<PartView>,
        dest_dir: Seq<PartView>,
        is_cut: bool,
        limit: Option<usize>,
    ) -> TransferView {
        TransferView { src, dest_dir, is_cut, limit, stage: StageView::ProbeDestination }
    }

    /// This state at another stage.
    pub open spec fn at(self, stage: StageView) -> TransferView {
        TransferView { stage, ..self }
    }

    /// Where the copy goes.
    pub open spec fn dest(self) -> Seq<PartView> {
        destination(self.src, self.dest_dir)
    }

    /// What follows once everything is copied: a copy is done, and a move
    /// goes on to delete the source.
    pub open spec fn after_copy(self) -> TransferProgressView {
        if self.is_cut {
            TransferProgressView::Continue(
                self.at(StageView::DeleteSource { stage: DeleteStage::Stat }),
            )
        } else {
            TransferProgressView::Done(Ok(()))
        }
    }

    /// Goes on with the copy of the directories of `stack`: a directory
    /// with nothing pending is complete, and the one around it is taken
    /// up again; a pending file is copied next; a pending directory is
    /// entered, beginning with the creation of its copy. With no
    /// directory left the copy is complete.
    pub open spec fn resume(self, stack: Seq<CopyFrameView>) -> TransferProgressView
        decreases stack.len(),
    {
        if stack.len() == 0 {
            self.after_copy()
        } else {
            let top = stack.last();
            if top.pending.len() == 0 {
                self.resume(stack.drop_last())
            } else if top.pending[0].is_dir {
                let name = top.pending[0].name;
                TransferProgressView::Continue(
                    self.at(
                        StageView::MakeDir {
                            stack: advance_top(stack).push(
                                CopyFrameView {
                                    src: entry_path(top.src, name),
                                    dest: entry_path(top.dest, name),
                                    pending: Seq::empty(),
                                },
                            ),
                        },
                    ),
                )
            } else {
                TransferProgressView::Continue(self.at(StageView::CopyEntry { stack }))
            }
        }
    }

    /// The operation that the driver is to perform in this state.
    pub open spec fn request(self) -> FsRequestView {
        match self.stage {
            StageView::ProbeDestination => FsRequestView::ProbeDestination { path: self.dest_dir },
            StageView::ProbeSource => FsRequestView::ProbeSource { path: self.src },
            StageView::Rename => FsRequestView::Rename { from: self.src, to: self.dest() },
            StageView::StatSource => FsRequestView::Stat { path: self.src },
            StageView::CopyFile => FsRequestView::CopyFile { from: self.src, to: self.dest() },
            StageView::MakeDir { stack } => FsRequestView::CreateDirAll { path: stack.last().dest },
            StageView::ListDir { stack } => FsRequestView::ReadDir { path: stack.last().src },
            StageView::CopyEntry { stack } => FsRequestView::CopyFile {
                from: entry_path(stack.last().src, stack.last().pending[0].name),
                to: entry_path(stack.last().dest, stack.last().pending[0].name),
            },
            StageView::DeleteSource { stage } => delete_request(self.src, stage),
        }
    }

    /// What follows from `event` in this state.
    ///
    /// The destination must exist and be a directory, then the source must
    /// exist. A move into the source itself or below it is refused, and so
    /// is a copy whose path would be too long. A move first tries a
    /// rename; if that fails it copies and then deletes the source. A
    /// directory is copied entry by entry, directories within it likewise.
    /// Whatever the system refuses after the checks ends the operation
    /// with the system's message, except the rename; a probe that fails
    /// counts as a path that is not there. An event that does not answer
    /// the state's request changes nothing.
    pub open spec fn step(self, event: FsEventView) -> TransferProgressView {
        match (self.stage, event) {
            (StageView::ProbeDestination, FsEventView::Probed { found, is_dir }) => {
                if !found || !is_dir {
                    TransferProgressView::Done(Err(TransferErrorView::InvalidDestination))
                } else {
                    TransferProgressView::Continue(self.at(StageView::ProbeSource))
                }
            },
            (StageView::ProbeSource, FsEventView::Probed { found, is_dir }) => {
                if !found {
                    TransferProgressView::Done(Err(TransferErrorView::SourceNotFound))
                } else if self.is_cut && lies_under(self.dest_dir, self.src) {
                    TransferProgressView::Done(Err(TransferErrorView::SelfNestedMove))
                } else if too_long(self.dest(), self.limit) {
                    TransferProgressView::Done(Err(TransferErrorView::PathTooLong))
                } else if self.is_cut {
                    TransferProgressView::Continue(self.at(StageView::Rename))
                } else {
                    TransferProgressView::Continue(self.at(StageView::StatSource))
                }
            },
            (StageView::Rename, FsEventView::Succeeded) => TransferProgressView::Done(Ok(())),
            (StageView::Rename, FsEventView::Failed { message }) => TransferProgressView::Continue(
                self.at(StageView::StatSource),
            ),
            (StageView::StatSource, FsEventView::Kind { is_dir }) => {
                if is_dir {
                    TransferProgressView::Continue(
                        self.at(
                            StageView::MakeDir {
                                stack: seq![
                                    CopyFrameView {
                                        src: self.src,
                                        dest: self.dest(),
                                        pending: Seq::empty(),
                                    },
                                ],
                            },
                        ),
                    )
                } else {
                    TransferProgressView::Continue(self.at(StageView::CopyFile))
                }
            },
            (StageView::CopyFile, FsEventView::Succeeded) => self.after_copy(),
            (StageView::MakeDir { stack }, FsEventView::Succeeded) => TransferProgressView::Continue(
                self.at(StageView::ListDir { stack }),
            ),
            (StageView::ListDir { stack }, FsEventView::Listed { entries }) => self.resume(
                list_top(stack, entries),
            ),
            (StageView::CopyEntry { stack }, FsEventView::Succeeded) => self.resume(
                advance_top(stack),
            ),
            (StageView::DeleteSource { stage }, _) => match delete_next(stage, event) {
                DeleteOutcomeView::Next(stage) => TransferProgressView::Continue(
                    self.at(StageView::DeleteSource { stage }),
                ),
                DeleteOutcomeView::Finished(result) => TransferProgressView::Done(result),
            },
            (StageView::ProbeDestination, FsEventView::Failed { message }) => {
                TransferProgressView::Done(Err(TransferErrorView::InvalidDestination))
            },
            (StageView::ProbeSource, FsEventView::Failed { message }) => {
                TransferProgressView::Done(Err(TransferErrorView::SourceNotFound))
            },
            (_, FsEventView::Failed { message }) => TransferProgressView::Done(
                Err(TransferErrorView::IoError(message)),
            ),
            _ => TransferProgressView::Continue(self),
        }
    }
}

/// How the copy of directories goes on does not depend on the stage at
/// which the state stands.
pub proof fn lemma_resume_from_any_stage(state: TransferView, stage: StageView, stack: Seq<CopyFrameView>)
    ensures
        state.at(stage).resume(stack) == state.resume(stack),
    decreases stack.len(),
{
    if stack.len() > 0 && stack.last().pending.len() == 0 {
        lemma_resume_from_any_stage(state, stage, stack.drop_last());
    }
}

/// A move of something into itself, or into a directory below it, is
/// refused with `SelfNestedMove` as soon as destination and source are
/// known to be there, and up to then only probes were asked for: nothing
/// is changed.
pub proof fn lemma_move_into_itself_is_refused(
    src: Seq<PartView>,
    dest_dir: Seq<PartView>,
    limit: Option<usize>,
    src_is_dir: bool,
)
    requires
        lies_under(dest_dir, src),
    ensures
        ({
            let begun = TransferView::initial(src, dest_dir, true, limit);
            let probed = begun.at(StageView::ProbeSource);
            &&& begun.request() == FsRequestView::ProbeDestination { path: dest_dir }
            &&& begun.step(FsEventView::Probed { found: true, is_dir: true })
                == TransferProgressView::Continue(probed)
            &&& probed.request() == FsRequestView::ProbeSource { path: src }
            &&& probed.step(FsEventView::Probed { found: true, is_dir: src_is_dir })
                == TransferProgressView::Done(Err(TransferErrorView::SelfNestedMove))
        }),
{
}

/// The same for the plainest case, a move of a directory into itself.
pub proof fn lemma_move_onto_itself_is_refused(src: Seq<PartView>, limit: Option<usize>)
    ensures
        ({
            let begun = TransferView::initial(src, src, true, limit);
            let probed = begun.at(StageView::ProbeSource);
            &&& begun.request().is_read_only()
            &&& begun.step(FsEventView::Probed { found: true, is_dir: true })
                == TransferProgressView::Continue(probed)
            &&& probed.request().is_read_only()
            &&& probed.step(FsEventView::Probed { found: true, is_dir: true })
                == TransferProgressView::Done(Err(TransferErrorView::SelfNestedMove))
        }),
{
    crate::path::lemma_lies_under_itself(src);
}

/// An operation is refused for what it asks (a bad destination, a missing
/// source, a move into itself, a path too long) only while it is still
/// probing, before it has asked for any change.
pub proof fn lemma_refusal_comes_before_any_change(state: TransferView, event: FsEventView)
    requires
        state.step(event) is Done,
        state.step(event)->Done_0 is Err,
        !(state.step(event)->Done_0->Err_0 is IoError),
    ensures
        state.stage is ProbeDestination || state.stage is ProbeSource,
        state.request().is_read_only(),
{
    match state.stage {
        StageView::ListDir { stack } => {
            if event is Listed {
                lemma_resume_result(state, list_top(stack, event->entries));
            }
        },
        StageView::CopyEntry { stack } => {
            if event is Succeeded {
                lemma_resume_result(state, advance_top(stack));
            }
        },
        _ => {},
    }
}

/// Going on with a copy ends the operation only if nothing is left to
/// copy and it is no move; it never fails by itself.
proof fn lemma_resume_result(state: TransferView, stack: Seq<CopyFrameView>)
    ensures
        state.resume(stack) is Done ==> !state.is_cut && state.resume(stack)->Done_0 is Ok,
    decreases stack.len(),
{
    if stack.len() > 0 && stack.last().pending.len() == 0 {
        lemma_resume_result(state, stack.drop_last());
    }
}

/// When the rename of a move fails, the move goes on as a copy: next it
/// finds out what the source is.
pub proof fn lemma_failed_rename_falls_back_to_copy(state: TransferView, message: Seq<char>)
    requires
        state.stage is Rename,
    ensures
        state.request() == (FsRequestView::Rename { from: state.src, to: state.dest() }),
        state.step(FsEventView::Failed { message }) == TransferProgressView::Continue(
            state.at(StageView::StatSource),
        ),
        state.at(StageView::StatSource).request() == (FsRequestView::Stat { path: state.src }),
{
}

/// A move whose rename failed and whose source is a single file: it
/// copies the file to its new path, finds out what the source is,
/// removes it, and only then reports success.
pub proof fn lemma_fallback_move_of_a_file(state: TransferView, message: Seq<char>)
    requires
        state.stage is Rename,
        state.is_cut,
    ensures
        ({
            let stat = state.at(StageView::StatSource);
            let copy = state.at(StageView::CopyFile);
            let check = state.at(StageView::DeleteSource { stage: DeleteStage::Stat });
            let remove = state.at(StageView::DeleteSource { stage: DeleteStage::RemoveFile });
            &&& state.step(FsEventView::Failed { message }) == TransferProgressView::Continue(stat)
            &&& stat.step(FsEventView::Kind { is_dir: false }) == TransferProgressView::Continue(copy)
            &&& copy.request() == (FsRequestView::CopyFile { from: state.src, to: state.dest() })
            &&& copy.step(FsEventView::Succeeded) == TransferProgressView::Continue(check)
            &&& check.request() == (FsRequestView::Stat { path: state.src })
            &&& check.step(FsEventView::Kind { is_dir: false }) == TransferProgressView::Continue(
                remove,
            )
            &&& remove.request() == (FsRequestView::RemoveFile { path: state.src })
            &&& remove.step(FsEventView::Succeeded) == TransferProgressView::Done(Ok(()))
        }),
{
}

/// A move reports success in two cases only: its rename succeeded, or,
/// after the copy, the removal of the source succeeded. Either way the
/// source is gone when it does.
pub proof fn lemma_move_succeeds_only_with_source_gone(state: TransferView, event: FsEventView)
    requires
        state.is_cut,
        state.step(event) == TransferProgressView::Done(Ok(())),
    ensures
        event is Succeeded,
        state.request() == (FsRequestView::Rename { from: state.src, to: state.dest() })
            || state.request() == (FsRequestView::RemoveDirAll { path: state.src })
            || state.request() == (FsRequestView::RemoveFile { path: state.src }),
{
    match state.stage {
        StageView::ListDir { stack } => {
            if event is Listed {
                lemma_resume_result(state, list_top(stack, event->entries));
            }
        },
        StageView::CopyEntry { stack } => {
            if event is Succeeded {
                lemma_resume_result(state, advance_top(stack));
            }
        },
        _ => {},
    }
}

/// A move removes the source only after the copy is complete: the
/// deletion begins from a successful copy of the single file, or from
/// the directory copy having nothing left to do.
pub proof fn lemma_delete_only_after_copy(state: TransferView, event: FsEventView)
    requires
        !(state.stage is DeleteSource),
        state.step(event) is Continue,
        state.step(event)->Continue_0.stage is DeleteSource,
    ensures
        state.is_cut,
        event is Succeeded || event is Listed,
        state.stage is CopyFile || state.stage is CopyEntry || state.stage is ListDir,
        state.step(event)->Continue_0.stage == (StageView::DeleteSource {
            stage: DeleteStage::Stat,
        }),
{
    match state.stage {
        StageView::ListDir { stack } => {
            if event is Listed {
                lemma_resume_stage(state, list_top(stack, event->entries));
            }
        },
        StageView::CopyEntry { stack } => {
            if event is Succeeded {
                lemma_resume_stage(state, advance_top(stack));
            }
        },
        _ => {},
    }
}

proof fn lemma_resume_stage(state: TransferView, stack: Seq<CopyFrameView>)
    ensures
        state.resume(stack) is Continue ==> {
            let stage = state.resume(stack)->Continue_0.stage;
            ||| stage is MakeDir
            ||| stage is CopyEntry
            ||| (state.is_cut && stage == StageView::DeleteSource { stage: DeleteStage::Stat })
        },
    decreases stack.len(),
{
    if stack.len() > 0 && stack.last().pending.len() == 0 {
        lemma_resume_stage(state, stack.drop_last());
    }
}

#[derive(Debug)]
struct CopyFrame {
    src: FsPath,
    dest: FsPath,
    entries: Vec<CopyEntry>,
    next: usize,
}

impl View for CopyFrame {
    type V = CopyFrameView;

    closed spec fn view(&self) -> CopyFrameView {
        CopyFrameView {
            src: self.src@,
            dest: self.dest@,
            pending: copy_entry_views(self.entries@).skip(self.next as int),
        }
    }
}

impl CopyFrame {
    spec fn wf(&self) -> bool {
        self.next <= self.entries@.len()
    }

    fn new(src: FsPath, dest: FsPath) -> (frame: CopyFrame)
        ensures
            frame.wf(),
            frame@ == (CopyFrameView { src: src@, dest: dest@, pending: Seq::empty() }),
    {
        let frame = CopyFrame { src, dest, entries: Vec::new(), next: 0 };
        proof {
            assert(copy_entry_views(frame.entries@).skip(0) =~= Seq::<CopyEntryView>::empty());
        }
        frame
    }
}

spec fn copy_frame_views(stack: Seq<CopyFrame>) -> Seq<CopyFrameView> {
    Seq::new(stack.len(), |i: int| stack[i]@)
}

spec fn copy_frames_wf(stack: Seq<CopyFrame>) -> bool {
    forall|i: int| 0 <= i < stack.len() ==> (#[trigger] stack[i]).wf()
}

#[derive(Debug)]
enum Stage {
    ProbeDestination,
    ProbeSource,
    Rename,
    StatSource,
    CopyFile,
    MakeDir(Vec<CopyFrame>),
    ListDir(Vec<CopyFrame>),
    CopyEntry(Vec<CopyFrame>),
    DeleteSource(DeleteStage),
}

impl View for Stage {
    type V = StageView;

    closed spec fn view(&self) -> StageView {
        match self {
            Stage::ProbeDestination => StageView::ProbeDestination,
            Stage::ProbeSource => StageView::ProbeSource,
            Stage::Rename => StageView::Rename,
            Stage::StatSource => StageView::StatSource,
            Stage::CopyFile => StageView::CopyFile,
            Stage::MakeDir(stack) => StageView::MakeDir { stack: copy_frame_views(stack@) },
            Stage::ListDir(stack) => StageView::ListDir { stack: copy_frame_views(stack@) },
            Stage::CopyEntry(stack) => StageView::CopyEntry { stack: copy_frame_views(stack@) },
            Stage::DeleteSource(stage) => StageView::DeleteSource { stage: *stage },
        }
    }
}

impl Stage {
    spec fn wf(&self) -> bool {
        match self {
            Stage::MakeDir(stack) => stack@.len() > 0 && copy_frames_wf(stack@),
            Stage::ListDir(stack) => stack@.len() > 0 && copy_frames_wf(stack@),
            Stage::CopyEntry(stack) => {
                &&& stack@.len() > 0
                &&& copy_frames_wf(stack@)
                &&& stack@.last().next < stack@.last().entries@.len()
            },
            _ => true,
        }
    }
}

/// A copy or move in progress.
#[derive(Debug)]
pub struct Transfer {
    src: FsPath,
    dest_dir: FsPath,
    dest: FsPath,
    is_cut: bool,
    limit: Option<usize>,
    stage: Stage,
}

impl View for Transfer {
    type V = TransferView;

    closed spec fn view(&self) -> TransferView {
        TransferView {
            src: self.src@,
            dest_dir: self.dest_dir@,
            is_cut: self.is_cut,
            limit: self.limit,
            stage: self.stage@,
        }
    }
}

/// How a step ended.
#[derive(Debug)]
pub enum TransferProgress {
    /// The operation goes on from this state.
    Continue(Transfer),
    /// The operation is over.
    Done(Result<(), TransferError>),
}

impl View for TransferProgress {
    type V = TransferProgressView;

    open spec fn view(&self) -> TransferProgressView {
        match self {
            TransferProgress::Continue(transfer) => TransferProgressView::Continue(transfer@),
            TransferProgress::Done(result) => TransferProgressView::Done(result_view(*result)),
        }
    }
}

/// Whether `path` is longer than `limit` allows; with no limit, no path is.
pub fn is_path_too_long(path: &FsPath, limit: Option<usize>) -> (longer: bool)
    ensures
        longer == too_long(path@, limit),
{
    match limit {
        Some(limit) => path.is_longer_than(limit),
        None => false,
    }
}

impl Transfer {
    #[verifier::type_invariant]
    spec fn inv(&self) -> bool {
        &&& self.dest@ == destination(self.src@, self.dest_dir@)
        &&& self.stage.wf()
    }

    /// Begins to copy `src` into the directory `dest_dir`, or, if
    /// `is_cut`, to move it there. `limit` is the most bytes that the
    /// system allows a written-out path to take, if it sets a limit.
    pub fn copy_or_move(src: FsPath, dest_dir: FsPath, is_cut: bool, limit: Option<usize>) -> (transfer: Transfer)
        ensures
            transfer@ == TransferView::initial(src@, dest_dir@, is_cut, limit),
    {
        let name = match src.file_name() {
            Some(name) => name,
            None => "unnamed".to_owned(),
        };
        let dest = dest_dir.join(name);
        Transfer { src, dest_dir, dest, is_cut, limit, stage: Stage::ProbeDestination }
    }

    /// The operation that the driver is to perform next.
    pub fn request(&self) -> (request: FsRequest)
        ensures
            request@ == self@.request(),
    {
        proof {
            use_type_invariant(self);
        }
        match &self.stage {
            Stage::ProbeDestination => FsRequest::ProbeDestination { path: self.dest_dir.duplicate() },
            Stage::ProbeSource => FsRequest::ProbeSource { path: self.src.duplicate() },
            Stage::Rename => FsRequest::Rename {
                from: self.src.duplicate(),
                to: self.dest.duplicate(),
            },
            Stage::StatSource => FsRequest::Stat { path: self.src.duplicate() },
            Stage::CopyFile => FsRequest::CopyFile {
                from: self.src.duplicate(),
                to: self.dest.duplicate(),
            },
            Stage::MakeDir(stack) => FsRequest::CreateDirAll {
                path: stack[stack.len() - 1].dest.duplicate(),
            },
            Stage::ListDir(stack) => FsRequest::ReadDir {
                path: stack[stack.len() - 1].src.duplicate(),
            },
            Stage::CopyEntry(stack) => {
                let top = &stack[stack.len() - 1];
                let entry = &top.entries[top.next];
                proof {
                    assert(top@.pending[0] == entry@);
                }
                FsRequest::CopyFile {
                    from: top.src.join(entry.name.clone()),
                    to: top.dest.join(entry.name.clone()),
                }
            },
            Stage::DeleteSource(stage) => delete_request_for(&self.src, *stage),
        }
    }

    /// Takes the driver's answer and says how the operation goes on.
    pub fn step(self, event: FsEvent) -> (out: TransferProgress)
        ensures
            out@ == self@.step(event@),
    {
        proof {
            use_type_invariant(&self);
        }
        let ghost state = self@;
        let Transfer { src, dest_dir, dest, is_cut, limit, stage } = self;
        assert(stage.wf());
        assert(state == TransferView::initial(src@, dest_dir@, is_cut, limit).at(stage@));
        match stage {
            Stage::ProbeDestination => match event {
                FsEvent::Probed { found, is_dir } => {
                    if !found || !is_dir {
                        TransferProgress::Done(Err(TransferError::InvalidDestination))
                    } else {
                        TransferProgress::Continue(
                            Transfer { src, dest_dir, dest, is_cut, limit, stage: Stage::ProbeSource },
                        )
                    }
                },
                FsEvent::Failed { message } => TransferProgress::Done(
                    Err(TransferError::InvalidDestination),
                ),
                _ => TransferProgress::Continue(
                    Transfer { src, dest_dir, dest, is_cut, limit, stage: Stage::ProbeDestination },
                ),
            },
            Stage::ProbeSource => match event {
                FsEvent::Probed { found, is_dir } => {
                    if !found {
                        TransferProgress::Done(Err(TransferError::SourceNotFound))
                    } else if is_cut && dest_dir.starts_with(&src) {
                        TransferProgress::Done(Err(TransferError::SelfNestedMove))
                    } else if is_path_too_long(&dest, limit) {
                        TransferProgress::Done(Err(TransferError::PathTooLong))
                    } else if is_cut {
                        TransferProgress::Continue(
                            Transfer { src, dest_dir, dest, is_cut, limit, stage: Stage::Rename },
                        )
                    } else {
                        TransferProgress::Continue(
                            Transfer { src, dest_dir, dest, is_cut, limit, stage: Stage::StatSource },
                        )
                    }
                },
                FsEvent::Failed { message } => TransferProgress::Done(
                    Err(TransferError::SourceNotFound),
                ),
                _ => TransferProgress::Continue(
                    Transfer { src, dest_dir, dest, is_cut, limit, stage: Stage::ProbeSource },
                ),
            },
            Stage::Rename => match event {
                FsEvent::Succeeded => TransferProgress::Done(Ok(())),
                FsEvent::Failed { message } => TransferProgress::Continue(
                    Transfer { src, dest_dir, dest, is_cut, limit, stage: Stage::StatSource },
                ),
                _ => TransferProgress::Continue(
                    Transfer { src, dest_dir, dest, is_cut, limit, stage: Stage::Rename },
                ),
            },
            Stage::StatSource => match event {
                FsEvent::Kind { is_dir } => {
                    if is_dir {
                        let frame = CopyFrame::new(src.duplicate(), dest.duplicate());
                        let mut stack: Vec<CopyFrame> = Vec::new();
                        stack.push(frame);
                        proof {
                            assert(copy_frame_views(stack@) =~= seq![
                                CopyFrameView { src: src@, dest: dest@, pending: Seq::empty() },
                            ]);
                        }
                        TransferProgress::Continue(
                            Transfer { src, dest_dir, dest, is_cut, limit, stage: Stage::MakeDir(stack) },
                        )
                    } else {
                        TransferProgress::Continue(
                            Transfer { src, dest_dir, dest, is_cut, limit, stage: Stage::CopyFile },
                        )
                    }
                },
                FsEvent::Failed { message } => TransferProgress::Done(
                    Err(TransferError::IoError(message)),
                ),
                _ => TransferProgress::Continue(
                    Transfer { src, dest_dir, dest, is_cut, limit, stage: Stage::StatSource },
                ),
            },
            Stage::CopyFile => match event {
                FsEvent::Succeeded => finish_copy(src, dest_dir, dest, is_cut, limit),
                FsEvent::Failed { message } => TransferProgress::Done(
                    Err(TransferError::IoError(message)),
                ),
                _ => TransferProgress::Continue(
                    Transfer { src, dest_dir, dest, is_cut, limit, stage: Stage::CopyFile },
                ),
            },
            Stage::MakeDir(stack) => match event {
                FsEvent::Succeeded => TransferProgress::Continue(
                    Transfer { src, dest_dir, dest, is_cut, limit, stage: Stage::ListDir(stack) },
                ),
                FsEvent::Failed { message } => TransferProgress::Done(
                    Err(TransferError::IoError(message)),
                ),
                _ => TransferProgress::Continue(
                    Transfer { src, dest_dir, dest, is_cut, limit, stage: Stage::MakeDir(stack) },
                ),
            },
            Stage::ListDir(stack) => match event {
                FsEvent::Listed { entries } => {
                    let mut stack = stack;
                    let ghost before = copy_frame_views(stack@);
                    let top = stack.pop().unwrap();
                    let listed = CopyFrame { src: top.src, dest: top.dest, entries, next: 0 };
                    proof {
                        assert(copy_entry_views(listed.entries@).skip(0) =~= copy_entry_views(
                            listed.entries@,
                        ));
                        assert(copy_frame_views(stack@.push(listed)) =~= list_top(
                            before,
                            copy_entry_views(listed.entries@),
                        ));
                        lemma_resume_from_any_stage(
                            TransferView::initial(src@, dest_dir@, is_cut, limit),
                            state.stage,
                            list_top(before, copy_entry_views(listed.entries@)),
                        );
                    }
                    stack.push(listed);
                    resume_copy(src, dest_dir, dest, is_cut, limit, stack)
                },
                FsEvent::Failed { message } => TransferProgress::Done(
                    Err(TransferError::IoError(message)),
                ),
                _ => TransferProgress::Continue(
                    Transfer { src, dest_dir, dest, is_cut, limit, stage: Stage::ListDir(stack) },
                ),
            },
            Stage::CopyEntry(stack) => match event {
                FsEvent::Succeeded => {
                    let mut stack = stack;
                    let ghost before = copy_frame_views(stack@);
                    assert(stack@.last().next < stack@.last().entries@.len());
                    let mut top = stack.pop().unwrap();
                    assert(top.entries@.len() == top.entries.len());
                    top.next = top.next + 1;
                    proof {
                        assert(top@.pending =~= before.last().pending.drop_first());
                        assert(copy_frame_views(stack@.push(top)) =~= advance_top(before));
                        lemma_resume_from_any_stage(
                            TransferView::initial(src@, dest_dir@, is_cut, limit),
                            state.stage,
                            advance_top(before),
                        );
                    }
                    stack.push(top);
                    resume_copy(src, dest_dir, dest, is_cut, limit, stack)
                },
                FsEvent::Failed { message } => TransferProgress::Done(
                    Err(TransferError::IoError(message)),
                ),
                _ => TransferProgress::Continue(
                    Transfer { src, dest_dir, dest, is_cut, limit, stage: Stage::CopyEntry(stack) },
                ),
            },
            Stage::DeleteSource(stage) => match delete_step(stage, event) {
                DeleteOutcome::Next(stage) => TransferProgress::Continue(
                    Transfer {
                        src,
                        dest_dir,
                        dest,
                        is_cut,
                        limit,
                        stage: Stage::DeleteSource(stage),
                    },
                ),
                DeleteOutcome::Finished(result) => TransferProgress::Done(result),
            },
        }
    }
}

/// What follows once everything is copied.
fn finish_copy(src: FsPath, dest_dir: FsPath, dest: FsPath, is_cut: bool, limit: Option<usize>) -> (out: TransferProgress)
    requires
        dest@ == destination(src@, dest_dir@),
    ensures
        out@ == TransferView::initial(src@, dest_dir@, is_cut, limit).after_copy(),
{
    if is_cut {
        TransferProgress::Continue(
            Transfer {
                src,
                dest_dir,
                dest,
                is_cut,
                limit,
                stage: Stage::DeleteSource(DeleteStage::Stat),
            },
        )
    } else {
        TransferProgress::Done(Ok(()))
    }
}

/// Goes on with the copy of the directories of `frames`.
fn resume_copy(
    src: FsPath,
    dest_dir: FsPath,
    dest: FsPath,
    is_cut: bool,
    limit: Option<usize>,
    frames: Vec<CopyFrame>,
) -> (out: TransferProgress)
    requires
        dest@ == destination(src@, dest_dir@),
        copy_frames_wf(frames@),
    ensures
        out@ == TransferView::initial(src@, dest_dir@, is_cut, limit).resume(
            copy_frame_views(frames@),
        ),
{
    let ghost state = TransferView::initial(src@, dest_dir@, is_cut, limit);
    let mut stack = frames;
    while stack.len() > 0
        invariant
            copy_frames_wf(stack@),
            dest@ == destination(src@, dest_dir@),
            state == TransferView::initial(src@, dest_dir@, is_cut, limit),
            state.resume(copy_frame_views(stack@)) == state.resume(copy_frame_views(frames@)),
        decreases stack@.len(),
    {
        let ghost all = copy_frame_views(stack@);
        let mut top = stack.pop().unwrap();
        proof {
            assert(copy_frame_views(stack@) =~= all.drop_last());
            assert(all.last() == top@);
        }
        if top.next < top.entries.len() {
            if top.entries[top.next].is_dir {
                let name = top.entries[top.next].name.clone();
                let frame = CopyFrame::new(top.src.join(name.clone()), top.dest.join(name));
                let ghost before = top@;
                top.next = top.next + 1;
                proof {
                    assert(before.pending[0] == top.entries@[top.next - 1]@);
                    assert(top@.pending =~= before.pending.drop_first());
                    assert(copy_frame_views(stack@.push(top).push(frame)) =~= advance_top(all).push(
                        frame@,
                    ));
                }
                stack.push(top);
                stack.push(frame);
                let next = Transfer { src, dest_dir, dest, is_cut, limit, stage: Stage::MakeDir(stack) };
                proof {
                    assert(state.resume(all) == TransferProgressView::Continue(next@));
                }
                return TransferProgress::Continue(next);
            } else {
                proof {
                    assert(top@.pending[0] == top.entries@[top.next as int]@);
                    assert(copy_frame_views(stack@.push(top)) =~= all);
                }
                stack.push(top);
                let next = Transfer { src, dest_dir, dest, is_cut, limit, stage: Stage::CopyEntry(stack) };
                proof {
                    assert(state.resume(all) == TransferProgressView::Continue(next@));
                }
                return TransferProgress::Continue(next);
            }
        }
        proof {
            assert(top@.pending.len() == 0);
        }
    }
    proof {
        assert(copy_frame_views(stack@).len() == 0);
    }
    finish_copy(src, dest_dir, dest, is_cut, limit)
}

} // verus!
