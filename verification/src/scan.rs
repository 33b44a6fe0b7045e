//! The scan of a directory tree, as a machine that is driven from outside.
//!
//! The machine never touches the file system. It says what it needs next
//! (`Scanner::request`), the driver does that and reports what it found
//! (`ScanEvent`), and `Scanner::step` decides what follows from it. The
//! driver polls the cancellation flag before each piece of work and
//! answers `ScanEvent::Cancelled` once the flag is set.

use vstd::prelude::*;
use crate::node::{Node, NodeView, views, total_size, total_files, file_view, dir_view};

verus! {

/// Why a scan produced no tree.
#[derive(Debug, PartialEq, Eq)]
pub enum ScanError {
    /// The root does not exist.
    NotFound,
    /// The root exists but is not a directory.
    NotADirectory,
    /// The root could not be listed; the message is the system's.
    IoError(String),
    /// Cancellation was requested before the scan was complete.
    Cancelled,
}

pub enum ScanErrorView {
    NotFound,
    NotADirectory,
    IoError(Seq<char>),
    Cancelled,
}

impl View for ScanError {
    type V = ScanErrorView;

    open spec fn view(&self) -> ScanErrorView {
        match self {
            ScanError::NotFound => ScanErrorView::NotFound,
            ScanError::NotADirectory => ScanErrorView::NotADirectory,
            ScanError::IoError(message) => ScanErrorView::IoError(message@),
            ScanError::Cancelled => ScanErrorView::Cancelled,
        }
    }
}

/// What a scan ended with: the tree of the root, or the reason why there is none.
#[derive(Debug)]
pub struct ScanResult {
    pub root_path: String,
    pub root_node: Option<Node>,
    pub error: Option<ScanError>,
}

pub struct ScanResultView {
    pub root_path: Seq<char>,
    pub root_node: Option<NodeView>,
    pub error: Option<ScanErrorView>,
}

impl View for ScanResult {
    type V = ScanResultView;

    open spec fn view(&self) -> ScanResultView {
        ScanResultView {
            root_path: self.root_path@,
            root_node: match self.root_node {
                Some(node) => Some(node@),
                None => None,
            },
            error: match self.error {
                Some(error) => Some(error@),
                None => None,
            },
        }
    }
}

/// The result of a scan of `root_path` that failed with `error`.
pub open spec fn failed(root_path: Seq<char>, error: ScanErrorView) -> ScanResultView {
    ScanResultView { root_path, root_node: None, error: Some(error) }
}

/// The result of a scan of `root_path` that built `root`.
pub open spec fn succeeded(root_path: Seq<char>, root: NodeView) -> ScanResultView {
    ScanResultView { root_path, root_node: Some(root), error: None }
}

/// What the driver found out about one directory entry.
#[derive(Clone, Copy, Debug, PartialEq, Eq, Structural)]
pub enum Probe {
    /// The cancellation flag was set, so the entry was not looked at.
    NotVisited,
    /// A file of this many bytes.
    File { size: u64 },
    /// A directory.
    Directory,
    /// Neither a file nor a directory.
    Unsupported,
}

/// One entry of a listed directory.
#[derive(Debug)]
pub struct Entry {
    pub name: String,
    pub path: String,
    pub probe: Probe,
}

pub struct EntryView {
    pub name: Seq<char>,
    pub path: Seq<char>,
    pub probe: Probe,
}

impl View for Entry {
    type V = EntryView;

    open spec fn view(&self) -> EntryView {
        EntryView { name: self.name@, path: self.path@, probe: self.probe }
    }
}

/// The views of a sequence of entries, element by element.
pub open spec fn entry_views(entries: Seq<Entry>) -> Seq<EntryView> {
    Seq::new(entries.len(), |i: int| entries[i]@)
}

/// What the driver reports back to the machine.
#[derive(Debug)]
pub enum ScanEvent {
    /// The cancellation flag was found set; the requested work was not done.
    Cancelled,
    /// Answer to `ScanRequest::ProbeRoot`.
    RootProbed { found: bool, is_dir: bool },
    /// Answer to `ScanRequest::List`: the directory could not be listed.
    Unreadable { message: String },
    /// Answer to `ScanRequest::List`: the directory's entries, in the
    /// order in which the system gave them.
    Listed { entries: Vec<Entry> },
    /// Answer to `ScanRequest::FinalPoll`: the flag is still clear.
    Proceed,
}

pub enum ScanEventView {
    Cancelled,
    RootProbed { found: bool, is_dir: bool },
    Unreadable { message: Seq<char> },
    Listed { entries: Seq<EntryView> },
    Proceed,
}

impl View for ScanEvent {
    type V = ScanEventView;

    open spec fn view(&self) -> ScanEventView {
        match self {
            ScanEvent::Cancelled => ScanEventView::Cancelled,
            ScanEvent::RootProbed { found, is_dir } => ScanEventView::RootProbed {
                found: *found,
                is_dir: *is_dir,
            },
            ScanEvent::Unreadable { message } => ScanEventView::Unreadable { message: message@ },
            ScanEvent::Listed { entries } => ScanEventView::Listed {
                entries: entry_views(entries@),
            },
            ScanEvent::Proceed => ScanEventView::Proceed,
        }
    }
}

/// What the machine needs the driver to do next. Before each, the driver
/// polls the cancellation flag.
#[derive(Debug, PartialEq, Eq)]
pub enum ScanRequest {
    /// Say whether the root exists and whether it is a directory.
    ProbeRoot { path: String },
    /// List this directory and probe each of its entries.
    List { path: String },
    /// Nothing is left to read: poll the flag one last time.
    FinalPoll,
}

pub enum ScanRequestView {
    ProbeRoot { path: Seq<char> },
    List { path: Seq<char> },
    FinalPoll,
}

impl View for ScanRequest {
    type V = ScanRequestView;

    open spec fn view(&self) -> ScanRequestView {
        match self {
            ScanRequest::ProbeRoot { path } => ScanRequestView::ProbeRoot { path: path@ },
            ScanRequest::List { path } => ScanRequestView::List { path: path@ },
            ScanRequest::FinalPoll => ScanRequestView::FinalPoll,
        }
    }
}

/// A directory whose entries are being worked through.
pub struct FrameView {
    pub name: Seq<char>,
    pub path: Seq<char>,
    /// Entries not yet looked at, in listing order.
    pub pending: Seq<EntryView>,
    /// Nodes built for the entries before them, in listing order.
    pub done: Seq<NodeView>,
}

/// Where a scan stands.
pub enum PhaseView {
    /// Nothing is known of the root yet.
    AwaitRoot,
    /// The listing of the last directory of `stack` is awaited. The
    /// directories before it, outermost first, are those it lies in.
    AwaitListing { stack: Seq<FrameView> },
    /// The tree is built, and only the last poll is left.
    AwaitFinal { root: NodeView },
}

/// The state of a scan.
pub struct ScannerView {
    pub root_path: Seq<char>,
    pub root_name: Seq<char>,
    pub phase: PhaseView,
}

/// How a step ends: with a new state, or with the scan's result.
pub enum ProgressView {
    Continue(ScannerView),
    Done(ScanResultView),
}

/// A directory that was just entered: nothing listed, nothing built.
pub open spec fn fresh_frame(name: Seq<char>, path: Seq<char>) -> FrameView {
    FrameView { name, path, pending: Seq::empty(), done: Seq::empty() }
}

/// Whether the totals of `done` with `node` added still fit the counters.
pub open spec fn fits(done: Seq<NodeView>, node: NodeView) -> bool {
    &&& total_size(done) + node.size <= u64::MAX
    &&& total_files(done) + node.file_count <= u64::MAX
}

/// `frame` after `node` was built for its next entry. A node that would
/// carry the directory's totals beyond what the counters hold is left out.
pub open spec fn adopt(frame: FrameView, node: NodeView) -> FrameView {
    if fits(frame.done, node) {
        FrameView { done: frame.done.push(node), ..frame }
    } else {
        frame
    }
}

/// `frame` with its first pending entry taken off.
pub open spec fn advance(frame: FrameView) -> FrameView {
    FrameView { pending: frame.pending.drop_first(), ..frame }
}

/// Number of entries still pending in all of `stack`.
pub open spec fn pending_total(stack: Seq<FrameView>) -> nat
    decreases stack.len(),
{
    if stack.len() == 0 {
        0
    } else {
        pending_total(stack.drop_last()) + stack.last().pending.len()
    }
}

pub proof fn lemma_pending_push(stack: Seq<FrameView>, frame: FrameView)
    ensures
        pending_total(stack.push(frame)) == pending_total(stack) + frame.pending.len(),
{
    assert(stack.push(frame).drop_last() =~= stack);
}

/// Whether cancellation kept the driver from looking at one of `entries`.
pub open spec fn has_unvisited(entries: Seq<EntryView>) -> bool {
    exists|i: int| 0 <= i < entries.len() && (#[trigger] entries[i]).probe == Probe::NotVisited
}

/// Works through pending entries for as long as no listing is needed.
///
/// In the innermost directory a file becomes a leaf, an unsupported entry
/// is passed over, and a directory is entered: the machine then waits for
/// its listing. A directory with nothing pending is complete: it becomes a
/// node of the directory around it, or, if it is the root, the tree.
pub open spec fn settle(root_path: Seq<char>, root_name: Seq<char>, stack: Seq<FrameView>) -> ScannerView
    decreases pending_total(stack) + stack.len(),
{
    if stack.len() == 0 {
        ScannerView { root_path, root_name, phase: PhaseView::AwaitRoot }
    } else {
        let top = stack.last();
        let below = stack.drop_last();
        if top.pending.len() == 0 {
            let node = dir_view(top.name, top.path, top.done);
            if below.len() == 0 {
                ScannerView { root_path, root_name, phase: PhaseView::AwaitFinal { root: node } }
            } else {
                proof {
                    lemma_pending_push(below.drop_last(), adopt(below.last(), node));
                    assert(pending_total(below) == pending_total(below.drop_last())
                        + below.last().pending.len());
                    assert(pending_total(stack) == pending_total(below) + top.pending.len());
                }
                settle(root_path, root_name, below.drop_last().push(adopt(below.last(), node)))
            }
        } else {
            let entry = top.pending[0];
            proof {
                lemma_pending_push(below, advance(top));
                if entry.probe is File {
                    lemma_pending_push(
                        below,
                        adopt(
                            advance(top),
                            file_view(entry.name, entry.path, entry.probe->size as nat),
                        ),
                    );
                }
            }
            match entry.probe {
                Probe::File { size } => settle(
                    root_path,
                    root_name,
                    below.push(adopt(advance(top), file_view(entry.name, entry.path, size as nat))),
                ),
                Probe::Directory => ScannerView {
                    root_path,
                    root_name,
                    phase: PhaseView::AwaitListing {
                        stack: below.push(advance(top)).push(fresh_frame(entry.name, entry.path)),
                    },
                },
                _ => settle(root_path, root_name, below.push(advance(top))),
            }
        }
    }
}

impl ScannerView {
    /// The state in which a scan of `root_path` begins.
    pub open spec fn initial(root_path: Seq<char>, root_name: Seq<char>) -> ScannerView {
        ScannerView { root_path, root_name, phase: PhaseView::AwaitRoot }
    }

    /// What the driver is to do in this state.
    pub open spec fn request(self) -> ScanRequestView {
        match self.phase {
            PhaseView::AwaitRoot => ScanRequestView::ProbeRoot { path: self.root_path },
            PhaseView::AwaitListing { stack } => ScanRequestView::List { path: stack.last().path },
            PhaseView::AwaitFinal { .. } => ScanRequestView::FinalPoll,
        }
    }

    /// What follows from `event` in this state.
    ///
    /// A cancellation ends the scan at once, with no tree, wherever it
    /// stands; so does a listing with an entry that cancellation kept the
    /// driver from looking at. The root is checked first for existence,
    /// then for being a directory. A root that cannot be listed fails the
    /// scan; a directory below it that cannot be listed counts as empty.
    /// The tree is handed out only after a last poll found the flag clear.
    /// An event that does not answer the state's request changes nothing.
    pub open spec fn step(self, event: ScanEventView) -> ProgressView {
        match (self.phase, event) {
            (_, ScanEventView::Cancelled) => ProgressView::Done(
                failed(self.root_path, ScanErrorView::Cancelled),
            ),
            (PhaseView::AwaitRoot, ScanEventView::RootProbed { found, is_dir }) => {
                if !found {
                    ProgressView::Done(failed(self.root_path, ScanErrorView::NotFound))
                } else if !is_dir {
                    ProgressView::Done(failed(self.root_path, ScanErrorView::NotADirectory))
                } else {
                    ProgressView::Continue(
                        ScannerView {
                            phase: PhaseView::AwaitListing {
                                stack: seq![fresh_frame(self.root_name, self.root_path)],
                            },
                            ..self
                        },
                    )
                }
            },
            (PhaseView::AwaitListing { stack }, ScanEventView::Unreadable { message }) => {
                if stack.len() <= 1 {
                    ProgressView::Done(failed(self.root_path, ScanErrorView::IoError(message)))
                } else {
                    ProgressView::Continue(settle(self.root_path, self.root_name, stack))
                }
            },
            (PhaseView::AwaitListing { stack }, ScanEventView::Listed { entries }) => {
                if has_unvisited(entries) {
                    ProgressView::Done(failed(self.root_path, ScanErrorView::Cancelled))
                } else if stack.len() == 0 {
                    ProgressView::Continue(self)
                } else {
                    ProgressView::Continue(
                        settle(
                            self.root_path,
                            self.root_name,
                            stack.drop_last().push(
                                FrameView { pending: entries, ..stack.last() },
                            ),
                        ),
                    )
                }
            },
            (PhaseView::AwaitFinal { root }, ScanEventView::Proceed) => ProgressView::Done(
                succeeded(self.root_path, root),
            ),
            _ => ProgressView::Continue(self),
        }
    }
}

/// The nodes built in `frame` are well formed and their totals fit the counters.
pub open spec fn frame_valid(frame: FrameView) -> bool {
    &&& total_size(frame.done) <= u64::MAX
    &&& total_files(frame.done) <= u64::MAX
    &&& forall|i: int| 0 <= i < frame.done.len() ==> (#[trigger] frame.done[i]).wf()
}

/// Every directory of `stack` is valid.
pub open spec fn stack_valid(stack: Seq<FrameView>) -> bool {
    forall|i: int| 0 <= i < stack.len() ==> frame_valid(#[trigger] stack[i])
}

impl ScannerView {
    /// What holds of every state that a scan passes through: while a
    /// listing is awaited some directory is open, and whatever was built
    /// is well formed.
    pub open spec fn valid(self) -> bool {
        match self.phase {
            PhaseView::AwaitRoot => true,
            PhaseView::AwaitListing { stack } => stack.len() > 0 && stack_valid(stack),
            PhaseView::AwaitFinal { root } => root.wf(),
        }
    }
}

proof fn lemma_adopt_valid(frame: FrameView, node: NodeView)
    requires
        frame_valid(frame),
        node.wf(),
    ensures
        frame_valid(adopt(frame, node)),
{
    if fits(frame.done, node) {
        let done = frame.done.push(node);
        assert(done.drop_last() =~= frame.done);
        assert forall|i: int| 0 <= i < done.len() implies (#[trigger] done[i]).wf() by {
            if i < frame.done.len() {
                assert(done[i] == frame.done[i]);
            }
        }
    }
}

proof fn lemma_settle_valid(root_path: Seq<char>, root_name: Seq<char>, stack: Seq<FrameView>)
    requires
        stack.len() > 0,
        stack_valid(stack),
    ensures
        settle(root_path, root_name, stack).valid(),
    decreases pending_total(stack) + stack.len(),
{
    let top = stack.last();
    let below = stack.drop_last();
    assert(frame_valid(stack[stack.len() - 1]));
    assert forall|i: int| 0 <= i < below.len() implies frame_valid(#[trigger] below[i]) by {
        assert(below[i] == stack[i]);
    }
    assert(pending_total(stack) == pending_total(below) + top.pending.len());
    if top.pending.len() == 0 {
        let node = dir_view(top.name, top.path, top.done);
        crate::node::lemma_dir_view_wf(top.name, top.path, top.done);
        if below.len() > 0 {
            let next = below.drop_last().push(adopt(below.last(), node));
            assert(frame_valid(below[below.len() - 1]));
            lemma_adopt_valid(below.last(), node);
            lemma_pending_push(below.drop_last(), adopt(below.last(), node));
            assert(pending_total(below) == pending_total(below.drop_last())
                + below.last().pending.len());
            assert forall|i: int| 0 <= i < next.len() implies frame_valid(#[trigger] next[i]) by {
                if i < below.len() - 1 {
                    assert(next[i] == below[i]);
                }
            }
            lemma_settle_valid(root_path, root_name, next);
        }
    } else {
        let entry = top.pending[0];
        let rest = advance(top);
        lemma_pending_push(below, rest);
        match entry.probe {
            Probe::File { size } => {
                let leaf = file_view(entry.name, entry.path, size as nat);
                lemma_adopt_valid(rest, leaf);
                let next = below.push(adopt(rest, leaf));
                lemma_pending_push(below, adopt(rest, leaf));
                assert forall|i: int| 0 <= i < next.len() implies frame_valid(
                    #[trigger] next[i],
                ) by {
                    if i < below.len() {
                        assert(next[i] == below[i]);
                    }
                }
                lemma_settle_valid(root_path, root_name, next);
            },
            Probe::Directory => {
                let next = below.push(rest).push(fresh_frame(entry.name, entry.path));
                assert forall|i: int| 0 <= i < next.len() implies frame_valid(
                    #[trigger] next[i],
                ) by {
                    if i < below.len() {
                        assert(next[i] == below[i]);
                    }
                }
            },
            _ => {
                let next = below.push(rest);
                assert forall|i: int| 0 <= i < next.len() implies frame_valid(
                    #[trigger] next[i],
                ) by {
                    if i < below.len() {
                        assert(next[i] == below[i]);
                    }
                }
                lemma_settle_valid(root_path, root_name, next);
            },
        }
    }
}

/// A step takes valid states to valid states, and a scan that ends hands
/// out either a well-formed tree and no error, or an error and no tree.
pub proof fn lemma_step_keeps_valid(state: ScannerView, event: ScanEventView)
    requires
        state.valid(),
    ensures
        match state.step(event) {
            ProgressView::Continue(next) => next.valid(),
            ProgressView::Done(result) => match result.root_node {
                Some(root) => root.wf() && result.error is None,
                None => result.error is Some,
            },
        },
{
    match (state.phase, event) {
        (PhaseView::AwaitRoot, ScanEventView::RootProbed { found, is_dir }) => {
            if found && is_dir {
                let frame = fresh_frame(state.root_name, state.root_path);
                assert(seq![frame][0] == frame);
            }
        },
        (PhaseView::AwaitListing { stack }, ScanEventView::Unreadable { message }) => {
            if stack.len() > 1 {
                lemma_settle_valid(state.root_path, state.root_name, stack);
            }
        },
        (PhaseView::AwaitListing { stack }, ScanEventView::Listed { entries }) => {
            if !has_unvisited(entries) {
                let listed = FrameView { pending: entries, ..stack.last() };
                let next = stack.drop_last().push(listed);
                assert(frame_valid(stack[stack.len() - 1]));
                assert forall|i: int| 0 <= i < next.len() implies frame_valid(
                    #[trigger] next[i],
                ) by {
                    if i < stack.len() - 1 {
                        assert(next[i] == stack[i]);
                    }
                }
                lemma_settle_valid(state.root_path, state.root_name, next);
            }
        },
        _ => {},
    }
}

/// Once cancellation is reported the scan is over and has no tree, in
/// whatever state it was: before the root was looked at, in the middle of
/// the walk, or with the whole tree built. The same holds of a listing in
/// which cancellation kept the driver from looking at an entry.
pub proof fn lemma_cancellation_ends_scan(state: ScannerView, event: ScanEventView)
    requires
        event is Cancelled || (state.phase is AwaitListing && event is Listed && has_unvisited(
            event->entries,
        )),
    ensures
        state.step(event) == ProgressView::Done(failed(state.root_path, ScanErrorView::Cancelled)),
        failed(state.root_path, ScanErrorView::Cancelled).root_node is None,
{
}

/// Whether `event` reports cancellation to a scan in `state`.
pub open spec fn reports_cancellation(state: ScannerView, event: ScanEventView) -> bool {
    event is Cancelled || (state.phase is AwaitListing && event is Listed && has_unvisited(
        event->entries,
    ))
}

impl ScannerView {
    /// Where the scan stands after the driver's answers `events`, taken
    /// one after another; answers that come after its end are not looked at.
    pub open spec fn run(self, events: Seq<ScanEventView>) -> ProgressView
        decreases events.len(),
    {
        if events.len() == 0 {
            ProgressView::Continue(self)
        } else {
            match self.run(events.drop_last()) {
                ProgressView::Continue(state) => state.step(events.last()),
                ProgressView::Done(result) => ProgressView::Done(result),
            }
        }
    }
}

/// Running through a single answer is one step.
pub proof fn lemma_run_one(state: ScannerView, event: ScanEventView)
    ensures
        state.run(seq![event]) == state.step(event),
{
    assert(seq![event].drop_last() =~= Seq::<ScanEventView>::empty());
    assert(state.run(Seq::<ScanEventView>::empty()) == ProgressView::Continue(state));
}

/// Running through `first + second` is running through `first` and, if
/// the scan has not ended by then, going on through `second`.
pub proof fn lemma_run_concat(
    state: ScannerView,
    first: Seq<ScanEventView>,
    second: Seq<ScanEventView>,
)
    ensures
        state.run(first + second) == match state.run(first) {
            ProgressView::Continue(next) => next.run(second),
            ProgressView::Done(result) => ProgressView::Done(result),
        },
    decreases second.len(),
{
    if second.len() == 0 {
        assert(first + second =~= first);
    } else {
        lemma_run_concat(state, first, second.drop_last());
        assert((first + second).drop_last() =~= first + second.drop_last());
        assert((first + second).last() == second.last());
    }
}

/// A scan passes through valid states only, and what it ends with is
/// either a well-formed tree and no error, or an error and no tree.
pub proof fn lemma_run_keeps_valid(state: ScannerView, events: Seq<ScanEventView>)
    requires
        state.valid(),
    ensures
        match state.run(events) {
            ProgressView::Continue(next) => next.valid(),
            ProgressView::Done(result) => match result.root_node {
                Some(root) => root.wf() && result.error is None,
                None => result.error is Some,
            },
        },
    decreases events.len(),
{
    if events.len() > 0 {
        lemma_run_keeps_valid(state, events.drop_last());
        match state.run(events.drop_last()) {
            ProgressView::Continue(before) => {
                lemma_step_keeps_valid(before, events.last());
            },
            ProgressView::Done(result) => {},
        }
    }
}

proof fn lemma_settle_keeps_root(root_path: Seq<char>, root_name: Seq<char>, stack: Seq<FrameView>)
    ensures
        settle(root_path, root_name, stack).root_path == root_path,
        settle(root_path, root_name, stack).root_name == root_name,
    decreases pending_total(stack) + stack.len(),
{
    if stack.len() > 0 {
        let top = stack.last();
        let below = stack.drop_last();
        assert(pending_total(stack) == pending_total(below) + top.pending.len());
        if top.pending.len() == 0 {
            if below.len() > 0 {
                let node = dir_view(top.name, top.path, top.done);
                lemma_pending_push(below.drop_last(), adopt(below.last(), node));
                assert(pending_total(below) == pending_total(below.drop_last())
                    + below.last().pending.len());
                lemma_settle_keeps_root(
                    root_path,
                    root_name,
                    below.drop_last().push(adopt(below.last(), node)),
                );
            }
        } else {
            let entry = top.pending[0];
            lemma_pending_push(below, advance(top));
            match entry.probe {
                Probe::File { size } => {
                    let leaf = file_view(entry.name, entry.path, size as nat);
                    lemma_pending_push(below, adopt(advance(top), leaf));
                    lemma_settle_keeps_root(
                        root_path,
                        root_name,
                        below.push(adopt(advance(top), leaf)),
                    );
                },
                Probe::Directory => {},
                _ => {
                    lemma_settle_keeps_root(root_path, root_name, below.push(advance(top)));
                },
            }
        }
    }
}

/// A step changes neither the root path of a scan nor its name.
pub proof fn lemma_step_keeps_root(state: ScannerView, event: ScanEventView)
    ensures
        match state.step(event) {
            ProgressView::Continue(next) => next.root_path == state.root_path && next.root_name
                == state.root_name,
            ProgressView::Done(result) => result.root_path == state.root_path,
        },
{
    match (state.phase, event) {
        (PhaseView::AwaitListing { stack }, ScanEventView::Unreadable { message }) => {
            lemma_settle_keeps_root(state.root_path, state.root_name, stack);
        },
        (PhaseView::AwaitListing { stack }, ScanEventView::Listed { entries }) => {
            lemma_settle_keeps_root(
                state.root_path,
                state.root_name,
                stack.drop_last().push(FrameView { pending: entries, ..stack.last() }),
            );
        },
        _ => {},
    }
}

/// The root path of a scan never changes.
pub proof fn lemma_run_keeps_root(state: ScannerView, events: Seq<ScanEventView>)
    ensures
        match state.run(events) {
            ProgressView::Continue(next) => next.root_path == state.root_path && next.root_name
                == state.root_name,
            ProgressView::Done(result) => result.root_path == state.root_path,
        },
    decreases events.len(),
{
    if events.len() > 0 {
        lemma_run_keeps_root(state, events.drop_last());
        match state.run(events.drop_last()) {
            ProgressView::Continue(before) => {
                lemma_step_keeps_root(before, events.last());
            },
            ProgressView::Done(result) => {},
        }
    }
}

/// If cancellation was reported to a scan at any time before it ended,
/// whether before its first step or in the middle of the walk, the scan
/// ended right there as cancelled and with no tree, and that is its
/// result whatever the driver reports afterwards.
pub proof fn lemma_cancellation_always_wins(
    state: ScannerView,
    events: Seq<ScanEventView>,
    at: int,
)
    requires
        0 <= at < events.len(),
        state.run(events.take(at)) is Continue,
        reports_cancellation(state.run(events.take(at))->Continue_0, events[at]),
    ensures
        state.run(events) == ProgressView::Done(failed(state.root_path, ScanErrorView::Cancelled)),
    decreases events.len(),
{
    let before = events.drop_last();
    if at == events.len() - 1 {
        assert(events.take(at) =~= before);
        lemma_run_keeps_root(state, before);
    } else {
        assert(before.take(at) =~= events.take(at));
        lemma_cancellation_always_wins(state, before, at);
    }
}

/// A tree is handed out in one case only: the whole walk is done and the
/// last poll found the flag clear.
pub proof fn lemma_tree_only_after_final_poll(state: ScannerView, event: ScanEventView)
    requires
        state.step(event) is Done,
        state.step(event)->Done_0.root_node is Some,
    ensures
        state.phase is AwaitFinal,
        event is Proceed,
        state.step(event)->Done_0 == succeeded(state.root_path, state.phase->root),
{
}

/// A directory being worked through: its listing, how far the work has
/// come in it, and the nodes built so far with their running totals.
#[derive(Debug)]
struct Frame {
    name: String,
    path: String,
    entries: Vec<Entry>,
    next: usize,
    done: Vec<Node>,
    size: u64,
    files: u64,
}

impl Frame {
    spec fn wf(&self) -> bool {
        &&& self.next <= self.entries@.len()
        &&& self.size == total_size(views(self.done@))
        &&& self.files == total_files(views(self.done@))
        &&& forall|i: int| 0 <= i < self.done@.len() ==> (#[trigger] self.done@[i])@.wf()
    }

    fn new(name: String, path: String) -> (frame: Frame)
        ensures
            frame.wf(),
            frame@ == fresh_frame(name@, path@),
    {
        let frame = Frame {
            name,
            path,
            entries: Vec::new(),
            next: 0,
            done: Vec::new(),
            size: 0,
            files: 0,
        };
        proof {
            assert(views(frame.done@) =~= Seq::<NodeView>::empty());
            assert(entry_views(frame.entries@).skip(0) =~= Seq::<EntryView>::empty());
        }
        frame
    }

    /// Adds `node` to the nodes built, unless the totals would overflow.
    fn adopt(&mut self, node: Node)
        requires
            old(self).wf(),
        ensures
            final(self).wf(),
            final(self)@ == adopt(old(self)@, node@),
    {
        let size = node.size();
        let files = node.file_count();
        if size <= u64::MAX - self.size && files <= u64::MAX - self.files {
            proof {
                assert(views(self.done@.push(node)) =~= views(self.done@).push(node@));
                assert(views(self.done@).push(node@).drop_last() =~= views(self.done@));
            }
            self.size = self.size + size;
            self.files = self.files + files;
            self.done.push(node);
        }
    }
}

impl View for Frame {
    type V = FrameView;

    closed spec fn view(&self) -> FrameView {
        FrameView {
            name: self.name@,
            path: self.path@,
            pending: entry_views(self.entries@).skip(self.next as int),
            done: views(self.done@),
        }
    }
}

spec fn frame_views(stack: Seq<Frame>) -> Seq<FrameView> {
    Seq::new(stack.len(), |i: int| stack[i]@)
}

spec fn frames_wf(stack: Seq<Frame>) -> bool {
    forall|i: int| 0 <= i < stack.len() ==> (#[trigger] stack[i]).wf()
}

proof fn lemma_frames_valid(stack: Seq<Frame>)
    requires
        frames_wf(stack),
    ensures
        stack_valid(frame_views(stack)),
{
    assert forall|i: int| 0 <= i < stack.len() implies frame_valid(
        #[trigger] frame_views(stack)[i],
    ) by {
        let frame = stack[i];
        assert(frame.wf());
        assert forall|k: int| 0 <= k < frame@.done.len() implies (#[trigger] frame@.done[k]).wf() by {
            assert(frame.done@[k]@.wf());
        }
    }
}

#[derive(Debug)]
enum Stage {
    AwaitRoot,
    AwaitListing(Vec<Frame>),
    AwaitFinal(Node),
}

/// A scan in progress.
#[derive(Debug)]
pub struct Scanner {
    root_path: String,
    root_name: String,
    stage: Stage,
}

impl View for Scanner {
    type V = ScannerView;

    closed spec fn view(&self) -> ScannerView {
        ScannerView {
            root_path: self.root_path@,
            root_name: self.root_name@,
            phase: match self.stage {
                Stage::AwaitRoot => PhaseView::AwaitRoot,
                Stage::AwaitListing(stack) => PhaseView::AwaitListing {
                    stack: frame_views(stack@),
                },
                Stage::AwaitFinal(root) => PhaseView::AwaitFinal { root: root@ },
            },
        }
    }
}

/// How a step ended.
#[derive(Debug)]
pub enum ScanProgress {
    /// The scan goes on from this state.
    Continue(Scanner),
    /// The scan is over.
    Done(ScanResult),
}

impl View for ScanProgress {
    type V = ProgressView;

    open spec fn view(&self) -> ProgressView {
        match self {
            ScanProgress::Continue(scanner) => ProgressView::Continue(scanner@),
            ScanProgress::Done(result) => ProgressView::Done(result@),
        }
    }
}

/// Whether one of `entries` was not looked at.
fn any_unvisited(entries: &Vec<Entry>) -> (found: bool)
    ensures
        found == has_unvisited(entry_views(entries@)),
{
    let mut i: usize = 0;
    while i < entries.len()
        invariant
            i <= entries.len(),
            forall|j: int| 0 <= j < i ==> (#[trigger] entry_views(entries@)[j]).probe != Probe::NotVisited,
        decreases entries.len() - i,
    {
        match entries[i].probe {
            Probe::NotVisited => {
                assert(entry_views(entries@)[i as int].probe == Probe::NotVisited);
                return true;
            },
            _ => {},
        }
        i = i + 1;
    }
    false
}

impl Scanner {
    #[verifier::type_invariant]
    spec fn inv(&self) -> bool {
        match self.stage {
            Stage::AwaitRoot => true,
            Stage::AwaitListing(stack) => stack@.len() > 0 && frames_wf(stack@),
            Stage::AwaitFinal(root) => root@.wf(),
        }
    }

    /// A scan of the directory at `root_path`, whose tree will be named `root_name`.
    pub fn new(root_path: String, root_name: String) -> (scanner: Scanner)
        ensures
            scanner@ == ScannerView::initial(root_path@, root_name@),
            scanner@.valid(),
    {
        Scanner { root_path, root_name, stage: Stage::AwaitRoot }
    }

    /// What the driver is to do next.
    pub fn request(&self) -> (request: ScanRequest)
        ensures
            request@ == self@.request(),
            self@.valid(),
    {
        proof {
            use_type_invariant(self);
            self.lemma_valid();
        }
        match &self.stage {
            Stage::AwaitRoot => ScanRequest::ProbeRoot { path: self.root_path.clone() },
            Stage::AwaitListing(stack) => ScanRequest::List {
                path: stack[stack.len() - 1].path.clone(),
            },
            Stage::AwaitFinal(_) => ScanRequest::FinalPoll,
        }
    }

    /// The state of a scanner is a valid one.
    proof fn lemma_valid(&self)
        requires
            self.inv(),
        ensures
            self@.valid(),
    {
        match self.stage {
            Stage::AwaitListing(stack) => {
                lemma_frames_valid(stack@);
            },
            _ => {},
        }
    }

    /// Takes the driver's answer and says how the scan goes on. A tree
    /// that is handed out is well formed.
    pub fn step(self, event: ScanEvent) -> (out: ScanProgress)
        ensures
            out@ == self@.step(event@),
            match out {
                ScanProgress::Continue(next) => next@.valid(),
                ScanProgress::Done(result) => match result.root_node {
                    Some(root) => root@.wf() && result.error is None,
                    None => result.error is Some,
                },
            },
    {
        proof {
            use_type_invariant(&self);
            self.lemma_valid();
            lemma_step_keeps_valid(self@, event@);
        }
        let Scanner { root_path, root_name, stage } = self;
        match event {
            ScanEvent::Cancelled => ScanProgress::Done(
                ScanResult { root_path, root_node: None, error: Some(ScanError::Cancelled) },
            ),
            ScanEvent::RootProbed { found, is_dir } => match stage {
                Stage::AwaitRoot => {
                    if !found {
                        ScanProgress::Done(
                            ScanResult { root_path, root_node: None, error: Some(ScanError::NotFound) },
                        )
                    } else if !is_dir {
                        ScanProgress::Done(
                            ScanResult {
                                root_path,
                                root_node: None,
                                error: Some(ScanError::NotADirectory),
                            },
                        )
                    } else {
                        let frame = Frame::new(root_name.clone(), root_path.clone());
                        let mut stack: Vec<Frame> = Vec::new();
                        stack.push(frame);
                        proof {
                            assert(frame_views(stack@) =~= seq![fresh_frame(root_name@, root_path@)]);
                        }
                        ScanProgress::Continue(
                            Scanner { root_path, root_name, stage: Stage::AwaitListing(stack) },
                        )
                    }
                },
                other => ScanProgress::Continue(Scanner { root_path, root_name, stage: other }),
            },
            ScanEvent::Unreadable { message } => match stage {
                Stage::AwaitListing(stack) => {
                    if stack.len() <= 1 {
                        ScanProgress::Done(
                            ScanResult {
                                root_path,
                                root_node: None,
                                error: Some(ScanError::IoError(message)),
                            },
                        )
                    } else {
                        ScanProgress::Continue(settle_frames(root_path, root_name, stack))
                    }
                },
                other => ScanProgress::Continue(Scanner { root_path, root_name, stage: other }),
            },
            ScanEvent::Listed { entries } => match stage {
                Stage::AwaitListing(stack) => {
                    if any_unvisited(&entries) {
                        ScanProgress::Done(
                            ScanResult { root_path, root_node: None, error: Some(ScanError::Cancelled) },
                        )
                    } else {
                        let mut stack = stack;
                        let ghost before = frame_views(stack@);
                        let top = stack.pop().unwrap();
                        let Frame { name, path, entries: _, next: _, done, size, files } = top;
                        let listed = Frame { name, path, entries, next: 0, done, size, files };
                        proof {
                            assert(entry_views(listed.entries@).skip(0) =~= entry_views(
                                listed.entries@,
                            ));
                            assert(frame_views(stack@.push(listed)) =~= before.drop_last().push(
                                FrameView { pending: entry_views(listed.entries@), ..before.last() },
                            ));
                        }
                        stack.push(listed);
                        ScanProgress::Continue(settle_frames(root_path, root_name, stack))
                    }
                },
                other => ScanProgress::Continue(Scanner { root_path, root_name, stage: other }),
            },
            ScanEvent::Proceed => match stage {
                Stage::AwaitFinal(root) => ScanProgress::Done(
                    ScanResult { root_path, root_node: Some(root), error: None },
                ),
                other => ScanProgress::Continue(Scanner { root_path, root_name, stage: other }),
            },
        }
    }
}

/// Works through the pending entries of `frames` up to the next listing.
fn settle_frames(root_path: String, root_name: String, frames: Vec<Frame>) -> (scanner: Scanner)
    requires
        frames@.len() > 0,
        frames_wf(frames@),
    ensures
        scanner@ == settle(root_path@, root_name@, frame_views(frames@)),
{
    let ghost goal = settle(root_path@, root_name@, frame_views(frames@));
    let mut stack = frames;
    loop
        invariant
            stack@.len() > 0,
            frames_wf(stack@),
            settle(root_path@, root_name@, frame_views(stack@)) == goal,
            goal == settle(root_path@, root_name@, frame_views(frames@)),
        decreases pending_total(frame_views(stack@)) + stack@.len(),
    {
        let ghost all = frame_views(stack@);
        let mut top = stack.pop().unwrap();
        let ghost below = frame_views(stack@);
        proof {
            assert(below =~= all.drop_last());
            assert(all.last() == top@);
            assert(pending_total(all) == pending_total(below) + top@.pending.len());
        }
        if top.next >= top.entries.len() {
            proof {
                assert(top@.pending.len() == 0);
            }
            let node = Node::new_dir(top.name, top.path, top.done);
            if stack.len() == 0 {
                let scanner = Scanner { root_path, root_name, stage: Stage::AwaitFinal(node) };
                proof {
                    assert(below.len() == 0);
                    assert(settle(root_path@, root_name@, all) == scanner@);
                }
                return scanner;
            }
            let mut parent = stack.pop().unwrap();
            proof {
                assert(frame_views(stack@) =~= below.drop_last());
                assert(below.last() == parent@);
                assert(pending_total(below) == pending_total(below.drop_last())
                    + parent@.pending.len());
            }
            parent.adopt(node);
            proof {
                lemma_pending_push(below.drop_last(), parent@);
                assert(frame_views(stack@.push(parent)) =~= below.drop_last().push(parent@));
            }
            stack.push(parent);
        } else {
            let name = top.entries[top.next].name.clone();
            let path = top.entries[top.next].path.clone();
            let probe = top.entries[top.next].probe;
            let ghost before = top@;
            let ghost entry = before.pending[0];
            top.next = top.next + 1;
            proof {
                assert(entry == top.entries@[top.next - 1]@);
                assert(top@.pending =~= before.pending.drop_first());
                assert(top@ == advance(before));
                lemma_pending_push(below, top@);
            }
            match probe {
                Probe::File { size } => {
                    top.adopt(Node::new_file(name, path, size));
                    proof {
                        lemma_pending_push(below, top@);
                        assert(frame_views(stack@.push(top)) =~= below.push(top@));
                    }
                    stack.push(top);
                },
                Probe::Directory => {
                    let frame = Frame::new(name, path);
                    proof {
                        assert(frame_views(stack@.push(top).push(frame)) =~= below.push(top@).push(
                            frame@,
                        ));
                    }
                    stack.push(top);
                    stack.push(frame);
                    let scanner = Scanner { root_path, root_name, stage: Stage::AwaitListing(stack) };
                    proof {
                        assert(all.last().pending[0].probe == Probe::Directory);
                        assert(settle(root_path@, root_name@, all) == scanner@);
                    }
                    return scanner;
                },
                _ => {
                    proof {
                        assert(frame_views(stack@.push(top)) =~= below.push(top@));
                    }
                    stack.push(top);
                },
            }
        }
    }
}

} // verus!
