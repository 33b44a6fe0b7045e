//! What a scan is for: a directory tree as a finite value, the size tree
//! that belongs to it, and the proof that the scanner, driven by answers
//! that are true of the directory tree, builds exactly that size tree.

use vstd::prelude::*;
use crate::node::{NodeView, file_view, dir_view};
use crate::scan::{
    EntryView, FrameView, PhaseView, Probe, ProgressView, ScanEventView, ScannerView, adopt,
    advance, fits, fresh_frame, has_unvisited, lemma_run_concat, lemma_run_one, settle, succeeded,
};

verus! {

/// A directory tree as it stands on disk.
pub enum FsTree {
    /// A file of `size` bytes.
    File { name: Seq<char>, path: Seq<char>, size: u64 },
    /// A directory with its entries in the order in which the system
    /// gives them, or with the system's message if it cannot be listed.
    Dir { name: Seq<char>, path: Seq<char>, listing: Result<Seq<FsTree>, Seq<char>> },
    /// Something that is neither a file nor a directory.
    Other { name: Seq<char>, path: Seq<char> },
}

impl FsTree {
    pub open spec fn name(self) -> Seq<char> {
        match self {
            FsTree::File { name, .. } => name,
            FsTree::Dir { name, .. } => name,
            FsTree::Other { name, .. } => name,
        }
    }

    pub open spec fn path(self) -> Seq<char> {
        match self {
            FsTree::File { path, .. } => path,
            FsTree::Dir { path, .. } => path,
            FsTree::Other { path, .. } => path,
        }
    }

    /// The entries of a directory that can be listed; of anything else, none.
    pub open spec fn entries(self) -> Seq<FsTree> {
        match self {
            FsTree::Dir { listing: Ok(entries), .. } => entries,
            _ => Seq::empty(),
        }
    }

    /// What a probe of this entry finds.
    pub open spec fn probe(self) -> Probe {
        match self {
            FsTree::File { size, .. } => Probe::File { size },
            FsTree::Dir { .. } => Probe::Directory,
            FsTree::Other { .. } => Probe::Unsupported,
        }
    }

    /// This entry as a driver reports it in the listing of its directory.
    pub open spec fn entry(self) -> EntryView {
        EntryView { name: self.name(), path: self.path(), probe: self.probe() }
    }

    /// What a driver answers when asked to list this directory.
    pub open spec fn answer(self) -> ScanEventView {
        match self {
            FsTree::Dir { listing: Err(message), .. } => ScanEventView::Unreadable { message },
            _ => ScanEventView::Listed { entries: reported(self.entries()) },
        }
    }
}

/// The entries of a directory as a driver reports them.
pub open spec fn reported(entries: Seq<FsTree>) -> Seq<EntryView> {
    Seq::new(entries.len(), |i: int| entries[i].entry())
}

/// `done` with `node` added, unless the totals would no longer fit the counters.
pub open spec fn keep(done: Seq<NodeView>, node: NodeView) -> Seq<NodeView> {
    if fits(done, node) {
        done.push(node)
    } else {
        done
    }
}

/// The size tree of a directory tree: a file is a leaf, a directory has
/// the size trees of its entries, and of anything else there is none. A
/// directory that cannot be listed counts as empty.
pub open spec fn scanned(tree: FsTree) -> Option<NodeView>
    decreases tree,
{
    match tree {
        FsTree::File { name, path, size } => Some(file_view(name, path, size as nat)),
        FsTree::Dir { name, path, listing } => Some(
            dir_view(
                name,
                path,
                match listing {
                    Ok(entries) => collected(Seq::empty(), entries),
                    Err(_) => Seq::empty(),
                },
            ),
        ),
        FsTree::Other { .. } => None,
    }
}

/// `done` followed by the size trees of `entries`, in their order.
pub open spec fn collected(done: Seq<NodeView>, entries: Seq<FsTree>) -> Seq<NodeView>
    decreases entries,
{
    if entries.len() == 0 {
        done
    } else {
        collected(
            match scanned(entries[0]) {
                Some(node) => keep(done, node),
                None => done,
            },
            entries.drop_first(),
        )
    }
}

/// A directory that a scan is working through, with its pending entries
/// as trees rather than as what a driver reports of them.
pub struct Walk {
    pub name: Seq<char>,
    pub path: Seq<char>,
    pub pending: Seq<FsTree>,
    pub done: Seq<NodeView>,
}

/// A directory as the scan enters it: all its entries pending.
pub open spec fn opened(dir: FsTree) -> Walk {
    Walk { name: dir.name(), path: dir.path(), pending: dir.entries(), done: Seq::empty() }
}

/// What the scanner knows of `walk`.
pub open spec fn shadow(walk: Walk) -> FrameView {
    FrameView { name: walk.name, path: walk.path, pending: reported(walk.pending), done: walk.done }
}

/// What the scanner knows of `walks`.
pub open spec fn shadows(walks: Seq<Walk>) -> Seq<FrameView> {
    Seq::new(walks.len(), |i: int| shadow(walks[i]))
}

/// `walk` after `node` was built for its next entry.
pub open spec fn taken(walk: Walk, node: NodeView) -> Walk {
    Walk { done: keep(walk.done, node), ..walk }
}

/// `walk` with its first pending entry taken off.
pub open spec fn passed(walk: Walk) -> Walk {
    Walk { pending: walk.pending.drop_first(), ..walk }
}

/// The size tree of the outermost directory of `walks` once every
/// directory of `walks`, innermost first, has been worked through.
pub open spec fn completed(walks: Seq<Walk>) -> NodeView
    decreases walks.len(),
{
    if walks.len() == 0 {
        arbitrary()
    } else {
        let top = walks.last();
        let node = dir_view(top.name, top.path, collected(top.done, top.pending));
        if walks.len() == 1 {
            node
        } else {
            let below = walks.drop_last();
            completed(below.drop_last().push(taken(below.last(), node)))
        }
    }
}

/// Where the work on `walks` comes to a halt.
pub enum Halt {
    /// Everything is worked through; this is the tree.
    Complete(NodeView),
    /// This directory is to be entered, within these.
    Entering(Seq<Walk>, FsTree),
}

/// Number of entries pending in all of `walks`.
pub open spec fn waiting(walks: Seq<Walk>) -> nat
    decreases walks.len(),
{
    if walks.len() == 0 {
        0
    } else {
        waiting(walks.drop_last()) + walks.last().pending.len()
    }
}

pub proof fn lemma_waiting_push(walks: Seq<Walk>, walk: Walk)
    ensures
        waiting(walks.push(walk)) == waiting(walks) + walk.pending.len(),
{
    assert(walks.push(walk).drop_last() =~= walks);
}

/// Works through `walks` as the scanner does, up to the next directory
/// that is to be entered.
pub open spec fn descend(walks: Seq<Walk>) -> Halt
    decreases waiting(walks) + walks.len(),
{
    if walks.len() == 0 {
        Halt::Complete(arbitrary())
    } else {
        let top = walks.last();
        let below = walks.drop_last();
        if top.pending.len() == 0 {
            let node = dir_view(top.name, top.path, top.done);
            if below.len() == 0 {
                Halt::Complete(node)
            } else {
                proof {
                    lemma_waiting_push(below.drop_last(), taken(below.last(), node));
                    assert(waiting(below) == waiting(below.drop_last())
                        + below.last().pending.len());
                    assert(waiting(walks) == waiting(below) + top.pending.len());
                }
                descend(below.drop_last().push(taken(below.last(), node)))
            }
        } else {
            let entry = top.pending[0];
            proof {
                lemma_waiting_push(below, passed(top));
                lemma_waiting_push(below, taken(passed(top), scanned(entry).unwrap()));
            }
            match entry {
                FsTree::File { .. } => descend(
                    below.push(taken(passed(top), scanned(entry).unwrap())),
                ),
                FsTree::Dir { .. } => Halt::Entering(below.push(passed(top)), entry),
                FsTree::Other { .. } => descend(below.push(passed(top))),
            }
        }
    }
}

/// The state of the scanner at a halt: the tree is built, or the listing
/// of the directory that is to be entered is awaited.
pub open spec fn state_at(root_path: Seq<char>, root_name: Seq<char>, halt: Halt) -> ScannerView {
    match halt {
        Halt::Complete(root) => ScannerView {
            root_path,
            root_name,
            phase: PhaseView::AwaitFinal { root },
        },
        Halt::Entering(walks, dir) => ScannerView {
            root_path,
            root_name,
            phase: PhaseView::AwaitListing {
                stack: shadows(walks).push(fresh_frame(dir.name(), dir.path())),
            },
        },
    }
}

proof fn lemma_shadows_push(walks: Seq<Walk>, walk: Walk)
    ensures
        shadows(walks.push(walk)) == shadows(walks).push(shadow(walk)),
{
    assert(shadows(walks.push(walk)) =~= shadows(walks).push(shadow(walk)));
}

proof fn lemma_shadows_pop(walks: Seq<Walk>)
    requires
        walks.len() > 0,
    ensures
        shadows(walks).drop_last() == shadows(walks.drop_last()),
        shadows(walks).last() == shadow(walks.last()),
{
    assert(shadows(walks).drop_last() =~= shadows(walks.drop_last()));
}

proof fn lemma_shadow_passed(walk: Walk)
    requires
        walk.pending.len() > 0,
    ensures
        shadow(passed(walk)) == advance(shadow(walk)),
        shadow(walk).pending[0] == walk.pending[0].entry(),
{
    assert(reported(walk.pending.drop_first()) =~= reported(walk.pending).drop_first());
}

/// The scanner, working through what it knows of `walks`, halts where
/// the work on `walks` halts.
pub proof fn lemma_settle_descends(root_path: Seq<char>, root_name: Seq<char>, walks: Seq<Walk>)
    requires
        walks.len() > 0,
    ensures
        settle(root_path, root_name, shadows(walks)) == state_at(
            root_path,
            root_name,
            descend(walks),
        ),
    decreases waiting(walks) + walks.len(),
{
    let top = walks.last();
    let below = walks.drop_last();
    lemma_shadows_pop(walks);
    assert(waiting(walks) == waiting(below) + top.pending.len());
    if top.pending.len() == 0 {
        let node = dir_view(top.name, top.path, top.done);
        if below.len() > 0 {
            let next = below.drop_last().push(taken(below.last(), node));
            lemma_shadows_pop(below);
            lemma_shadows_push(below.drop_last(), taken(below.last(), node));
            lemma_waiting_push(below.drop_last(), taken(below.last(), node));
            assert(waiting(below) == waiting(below.drop_last()) + below.last().pending.len());
            assert(shadow(taken(below.last(), node)) == adopt(shadow(below.last()), node));
            lemma_settle_descends(root_path, root_name, next);
        }
    } else {
        let entry = top.pending[0];
        lemma_shadow_passed(top);
        lemma_waiting_push(below, passed(top));
        match entry {
            FsTree::File { name, path, size } => {
                let leaf = file_view(name, path, size as nat);
                let next = below.push(taken(passed(top), leaf));
                lemma_shadows_push(below, taken(passed(top), leaf));
                lemma_waiting_push(below, taken(passed(top), leaf));
                assert(shadow(taken(passed(top), leaf)) == adopt(advance(shadow(top)), leaf));
                lemma_settle_descends(root_path, root_name, next);
            },
            FsTree::Dir { .. } => {
                lemma_shadows_push(below, passed(top));
            },
            FsTree::Other { .. } => {
                lemma_shadows_push(below, passed(top));
                lemma_settle_descends(root_path, root_name, below.push(passed(top)));
            },
        }
    }
}

/// Number of entries in `tree`, itself included.
pub open spec fn weight(tree: FsTree) -> nat
    decreases tree,
{
    match tree {
        FsTree::Dir { listing: Ok(entries), .. } => 1 + weight_all(entries),
        _ => 1,
    }
}

/// Number of entries in all of `trees`.
pub open spec fn weight_all(trees: Seq<FsTree>) -> nat
    decreases trees,
{
    if trees.len() == 0 {
        0
    } else {
        weight(trees[0]) + weight_all(trees.drop_first())
    }
}

/// Number of entries in all that is pending in `walks`.
pub open spec fn burden(walks: Seq<Walk>) -> nat
    decreases walks.len(),
{
    if walks.len() == 0 {
        0
    } else {
        burden(walks.drop_last()) + weight_all(walks.last().pending)
    }
}

pub proof fn lemma_burden_push(walks: Seq<Walk>, walk: Walk)
    ensures
        burden(walks.push(walk)) == burden(walks) + weight_all(walk.pending),
{
    assert(walks.push(walk).drop_last() =~= walks);
}

/// The tree that `walks` complete to depends on the innermost directory
/// only through its name, its path and the nodes it will have.
proof fn lemma_completed_by_top(below: Seq<Walk>, a: Walk, b: Walk)
    requires
        a.name == b.name,
        a.path == b.path,
        collected(a.done, a.pending) == collected(b.done, b.pending),
    ensures
        completed(below.push(a)) == completed(below.push(b)),
{
    assert(below.push(a).drop_last() =~= below);
    assert(below.push(b).drop_last() =~= below);
}

/// Where the work on `walks` halts, it has neither lost nor gained
/// anything: what is left completes to the same tree. A directory that is
/// to be entered is a directory, lies within some directory, and leaves
/// less to do than there was.
pub proof fn lemma_descend_keeps_completed(walks: Seq<Walk>)
    requires
        walks.len() > 0,
    ensures
        match descend(walks) {
            Halt::Complete(root) => root == completed(walks),
            Halt::Entering(around, dir) => {
                &&& dir is Dir
                &&& around.len() > 0
                &&& completed(around.push(opened(dir))) == completed(walks)
                &&& burden(around) + weight(dir) <= burden(walks)
            },
        },
    decreases waiting(walks) + walks.len(),
{
    let top = walks.last();
    let below = walks.drop_last();
    assert(walks =~= below.push(top));
    assert(waiting(walks) == waiting(below) + top.pending.len());
    assert(burden(walks) == burden(below) + weight_all(top.pending));
    if top.pending.len() == 0 {
        let node = dir_view(top.name, top.path, top.done);
        if below.len() > 0 {
            let next = below.drop_last().push(taken(below.last(), node));
            lemma_waiting_push(below.drop_last(), taken(below.last(), node));
            lemma_burden_push(below.drop_last(), taken(below.last(), node));
            assert(waiting(below) == waiting(below.drop_last()) + below.last().pending.len());
            assert(burden(below) == burden(below.drop_last()) + weight_all(
                below.last().pending,
            ));
            lemma_descend_keeps_completed(next);
        }
    } else {
        let entry = top.pending[0];
        let rest = passed(top);
        lemma_waiting_push(below, rest);
        lemma_burden_push(below, rest);
        match entry {
            FsTree::File { name, path, size } => {
                let leaf = file_view(name, path, size as nat);
                let next = below.push(taken(rest, leaf));
                lemma_waiting_push(below, taken(rest, leaf));
                lemma_burden_push(below, taken(rest, leaf));
                lemma_descend_keeps_completed(next);
                lemma_completed_by_top(below, taken(rest, leaf), top);
            },
            FsTree::Dir { name, path, listing } => {
                let node = scanned(entry).unwrap();
                let around = below.push(rest);
                let inner = opened(entry);
                assert(around.push(inner).drop_last() =~= around);
                assert(around.drop_last() =~= below);
                assert(dir_view(inner.name, inner.path, collected(inner.done, inner.pending))
                    == node);
                assert(completed(around.push(inner)) == completed(below.push(taken(rest, node))));
                lemma_completed_by_top(below, taken(rest, node), top);
            },
            FsTree::Other { .. } => {
                lemma_descend_keeps_completed(below.push(rest));
                lemma_completed_by_top(below, rest, top);
            },
        }
    }
}

/// What a driver reports while the scanner works through the directory
/// `dir`, which lies within `walks`, and through all that is pending
/// around it: the listing of `dir`, then the listings of the directories
/// that the scanner enters after it, each in its turn.
pub open spec fn faithful(walks: Seq<Walk>, dir: FsTree) -> Seq<ScanEventView>
    decreases burden(walks) + weight(dir),
{
    let entered = walks.push(opened(dir));
    proof {
        lemma_burden_push(walks, opened(dir));
        lemma_descend_keeps_completed(entered);
    }
    seq![dir.answer()] + match descend(entered) {
        Halt::Complete(_) => Seq::empty(),
        Halt::Entering(around, next) => faithful(around, next),
    }
}

proof fn lemma_reported_all_visited(entries: Seq<FsTree>)
    ensures
        !has_unvisited(reported(entries)),
{
    assert forall|i: int| 0 <= i < reported(entries).len() implies (
    #[trigger] reported(entries)[i]).probe != Probe::NotVisited by {
        assert(reported(entries)[i] == entries[i].entry());
    }
}

/// The scanner that awaits the listing of the directory `dir` within
/// `walks`, given the reports of a driver that reads the directory tree,
/// comes to the last poll with the tree that `walks` and `dir` complete to.
pub proof fn lemma_faithful_run(
    root_path: Seq<char>,
    root_name: Seq<char>,
    walks: Seq<Walk>,
    dir: FsTree,
)
    requires
        dir is Dir,
        walks.len() > 0 || dir->listing is Ok,
    ensures
        state_at(root_path, root_name, Halt::Entering(walks, dir)).run(faithful(walks, dir))
            == ProgressView::Continue(
            state_at(
                root_path,
                root_name,
                Halt::Complete(completed(walks.push(opened(dir)))),
            ),
        ),
    decreases burden(walks) + weight(dir),
{
    let state = state_at(root_path, root_name, Halt::Entering(walks, dir));
    let entered = walks.push(opened(dir));
    let first = seq![dir.answer()];
    let rest = match descend(entered) {
        Halt::Complete(_) => Seq::empty(),
        Halt::Entering(around, next) => faithful(around, next),
    };
    lemma_burden_push(walks, opened(dir));
    lemma_descend_keeps_completed(entered);
    lemma_shadows_push(walks, opened(dir));
    lemma_reported_all_visited(dir.entries());
    lemma_settle_descends(root_path, root_name, entered);
    let stack = shadows(walks).push(fresh_frame(dir.name(), dir.path()));
    assert(stack.drop_last() =~= shadows(walks));
    assert(reported(Seq::<FsTree>::empty()) =~= Seq::<EntryView>::empty());
    assert(state.step(dir.answer()) == ProgressView::Continue(
        state_at(root_path, root_name, descend(entered)),
    ));
    lemma_run_one(state, dir.answer());
    lemma_run_concat(state, first, rest);
    assert(faithful(walks, dir) == first + rest);
    match descend(entered) {
        Halt::Complete(root) => {},
        Halt::Entering(around, next) => {
            lemma_faithful_run(root_path, root_name, around, next);
        },
    }
}

/// What a driver reports in the course of a whole scan of `root`: that
/// the root is there and is a directory, then the listings as the
/// scanner asks for them, then that the flag is still clear.
pub open spec fn reports(root: FsTree) -> Seq<ScanEventView> {
    seq![ScanEventView::RootProbed { found: true, is_dir: true }] + faithful(Seq::empty(), root)
        + seq![ScanEventView::Proceed]
}

/// A scan of a directory that can be listed, driven by reports that are
/// true of the directory tree and never cancelled, ends with exactly the
/// size tree of the directory tree.
pub proof fn lemma_scan_builds_the_size_tree(root: FsTree)
    requires
        root is Dir,
        root->listing is Ok,
    ensures
        scanned(root) is Some,
        scanned(root)->Some_0.wf(),
        ScannerView::initial(root.path(), root.name()).run(reports(root)) == ProgressView::Done(
            succeeded(root.path(), scanned(root)->Some_0),
        ),
{
    crate::scan::lemma_run_keeps_valid(
        ScannerView::initial(root.path(), root.name()),
        reports(root),
    );
    let begun = ScannerView::initial(root.path(), root.name());
    let probe = seq![ScanEventView::RootProbed { found: true, is_dir: true }];
    let walk = faithful(Seq::empty(), root);
    let last = seq![ScanEventView::Proceed];
    let listing = state_at(root.path(), root.name(), Halt::Entering(Seq::empty(), root));
    let built = state_at(
        root.path(),
        root.name(),
        Halt::Complete(completed(Seq::<Walk>::empty().push(opened(root)))),
    );
    assert(shadows(Seq::<Walk>::empty()).push(fresh_frame(root.name(), root.path())) =~= seq![
        fresh_frame(root.name(), root.path()),
    ]);
    lemma_run_one(begun, ScanEventView::RootProbed { found: true, is_dir: true });
    assert(begun.run(probe) == ProgressView::Continue(listing));
    lemma_run_concat(begun, probe, walk);
    lemma_faithful_run(root.path(), root.name(), Seq::empty(), root);
    assert(begun.run(probe + walk) == ProgressView::Continue(built));
    lemma_run_concat(begun, probe + walk, last);
    lemma_run_one(built, ScanEventView::Proceed);
    assert(completed(Seq::<Walk>::empty().push(opened(root))) == scanned(root)->Some_0);
}

} // verus!
