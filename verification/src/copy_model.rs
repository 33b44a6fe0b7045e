//! What a copy is for: the tree that lies at the source as a finite
//! value, the operations that copy it, and the proof that a copy or move
//! whose operations all succeed asks for exactly those, in order.

use vstd::prelude::*;
use crate::path::{PartView, lies_under};
use crate::transfer::{
    CopyEntryView, CopyFrameView, DeleteStage, FsEventView, FsRequestView, StageView,
    TransferProgressView, TransferView, advance_top, entry_path, lemma_resume_from_any_stage,
    list_top, too_long,
};

verus! {

/// What lies at the source of a copy.
pub enum SourceTree {
    /// Anything that is not a directory.
    File { name: Seq<char> },
    /// A directory with its entries in the order in which they are listed.
    Dir { name: Seq<char>, entries: Seq<SourceTree> },
}

impl SourceTree {
    pub open spec fn name(self) -> Seq<char> {
        match self {
            SourceTree::File { name } => name,
            SourceTree::Dir { name, .. } => name,
        }
    }

    /// This entry as a driver reports it in the listing of its directory.
    pub open spec fn entry(self) -> CopyEntryView {
        CopyEntryView { name: self.name(), is_dir: self is Dir }
    }
}

/// The entries of a directory as a driver reports them.
pub open spec fn listed(entries: Seq<SourceTree>) -> Seq<CopyEntryView> {
    Seq::new(entries.len(), |i: int| entries[i].entry())
}

/// The operations that copy `tree`, which lies at `src`, to `dest`: a
/// file is copied; a directory is created, listed, and its entries are
/// copied in their order, each to the path of the same name under `dest`.
pub open spec fn copy_ops(tree: SourceTree, src: Seq<PartView>, dest: Seq<PartView>) -> Seq<FsRequestView>
    decreases tree,
{
    match tree {
        SourceTree::File { .. } => seq![FsRequestView::CopyFile { from: src, to: dest }],
        SourceTree::Dir { entries, .. } => seq![
            FsRequestView::CreateDirAll { path: dest },
            FsRequestView::ReadDir { path: src },
        ] + copy_all(entries, src, dest),
    }
}

/// The operations that copy `entries`, which lie in the directory `src`,
/// into the directory `dest`.
pub open spec fn copy_all(entries: Seq<SourceTree>, src: Seq<PartView>, dest: Seq<PartView>) -> Seq<FsRequestView>
    decreases entries,
{
    if entries.len() == 0 {
        Seq::empty()
    } else {
        copy_ops(
            entries[0],
            entry_path(src, entries[0].name()),
            entry_path(dest, entries[0].name()),
        ) + copy_all(entries.drop_first(), src, dest)
    }
}

/// What a driver reports of the operations of `copy_ops` when all succeed.
pub open spec fn copy_reports(tree: SourceTree) -> Seq<FsEventView>
    decreases tree,
{
    match tree {
        SourceTree::File { .. } => seq![FsEventView::Succeeded],
        SourceTree::Dir { entries, .. } => seq![
            FsEventView::Succeeded,
            FsEventView::Listed { entries: listed(entries) },
        ] + copy_reports_all(entries),
    }
}

/// What a driver reports of the operations of `copy_all` when all succeed.
pub open spec fn copy_reports_all(entries: Seq<SourceTree>) -> Seq<FsEventView>
    decreases entries,
{
    if entries.len() == 0 {
        Seq::empty()
    } else {
        copy_reports(entries[0]) + copy_reports_all(entries.drop_first())
    }
}

/// Where an operation stands after the answers `events`, going on from `progress`.
pub open spec fn run_on(progress: TransferProgressView, events: Seq<FsEventView>) -> TransferProgressView
    decreases events.len(),
{
    if events.len() == 0 {
        progress
    } else {
        match run_on(progress, events.drop_last()) {
            TransferProgressView::Continue(state) => state.step(events.last()),
            TransferProgressView::Done(result) => TransferProgressView::Done(result),
        }
    }
}

/// The operations asked for while the answers `events` came in, going on
/// from `progress`: one before each answer, as long as the operation goes on.
pub open spec fn asked_on(progress: TransferProgressView, events: Seq<FsEventView>) -> Seq<FsRequestView>
    decreases events.len(),
{
    if events.len() == 0 {
        Seq::empty()
    } else {
        asked_on(progress, events.drop_last()) + match run_on(progress, events.drop_last()) {
            TransferProgressView::Continue(state) => seq![state.request()],
            TransferProgressView::Done(result) => Seq::empty(),
        }
    }
}

/// Running through `first + second` is running through `first` and going
/// on through `second`, and what is asked for adds up likewise.
pub proof fn lemma_run_on_concat(
    progress: TransferProgressView,
    first: Seq<FsEventView>,
    second: Seq<FsEventView>,
)
    ensures
        run_on(progress, first + second) == run_on(run_on(progress, first), second),
        asked_on(progress, first + second) == asked_on(progress, first) + asked_on(
            run_on(progress, first),
            second,
        ),
    decreases second.len(),
{
    if second.len() == 0 {
        assert(first + second =~= first);
        assert(asked_on(progress, first) + Seq::<FsRequestView>::empty() =~= asked_on(
            progress,
            first,
        ));
    } else {
        lemma_run_on_concat(progress, first, second.drop_last());
        assert((first + second).drop_last() =~= first + second.drop_last());
        assert((first + second).last() == second.last());
        let head = asked_on(progress, first);
        let tail = asked_on(run_on(progress, first), second.drop_last());
        let last = match run_on(progress, (first + second).drop_last()) {
            TransferProgressView::Continue(state) => seq![state.request()],
            TransferProgressView::Done(result) => Seq::empty(),
        };
        assert((head + tail) + last =~= head + (tail + last));
    }
}

/// One answer to an operation that goes on is one step, before which the
/// state's operation was asked for.
pub proof fn lemma_run_on_one(state: TransferView, event: FsEventView)
    ensures
        run_on(TransferProgressView::Continue(state), seq![event]) == state.step(event),
        asked_on(TransferProgressView::Continue(state), seq![event]) == seq![state.request()],
{
    let progress = TransferProgressView::Continue(state);
    assert(seq![event].drop_last() =~= Seq::<FsEventView>::empty());
    assert(run_on(progress, Seq::<FsEventView>::empty()) == progress);
    assert(asked_on(progress, Seq::<FsEventView>::empty()) =~= Seq::<FsRequestView>::empty());
    assert(Seq::<FsRequestView>::empty() + seq![state.request()] =~= seq![state.request()]);
}

/// A directory in the course of being copied, some of whose entries are
/// still to come.
pub open spec fn frame(src: Seq<PartView>, dest: Seq<PartView>, pending: Seq<CopyEntryView>) -> CopyFrameView {
    CopyFrameView { src, dest, pending }
}

/// Going on with a copy, the directory `src`, whose next entries are
/// `entries`, has these copied to `dest` by exactly the operations of
/// `copy_all`, after which the copy goes on with what follows them.
pub proof fn lemma_entries_are_copied(
    state: TransferView,
    around: Seq<CopyFrameView>,
    src: Seq<PartView>,
    dest: Seq<PartView>,
    entries: Seq<SourceTree>,
    after: Seq<CopyEntryView>,
)
    ensures
        run_on(
            state.resume(around.push(frame(src, dest, listed(entries) + after))),
            copy_reports_all(entries),
        ) == state.resume(around.push(frame(src, dest, after))),
        asked_on(
            state.resume(around.push(frame(src, dest, listed(entries) + after))),
            copy_reports_all(entries),
        ) == copy_all(entries, src, dest),
    decreases entries, 0nat,
{
    let top = frame(src, dest, listed(entries) + after);
    let stack = around.push(top);
    let begin = state.resume(stack);
    if entries.len() == 0 {
        assert(listed(entries) + after =~= after);
        assert(copy_reports_all(entries) =~= Seq::<FsEventView>::empty());
        assert(asked_on(begin, copy_reports_all(entries)) =~= copy_all(entries, src, dest));
    } else {
        let first = entries[0];
        let rest = entries.drop_first();
        assert(listed(entries) + after =~= seq![first.entry()] + (listed(rest) + after));
        lemma_tree_is_copied(state, around, src, dest, first, listed(rest) + after);
        lemma_entries_are_copied(state, around, src, dest, rest, after);
        lemma_run_on_concat(begin, copy_reports(first), copy_reports_all(rest));
    }
}

/// Going on with a copy, the next entry of the directory `src` is copied
/// to `dest` by exactly the operations of `copy_ops`, after which the
/// copy goes on with the entries that follow it.
pub proof fn lemma_tree_is_copied(
    state: TransferView,
    around: Seq<CopyFrameView>,
    src: Seq<PartView>,
    dest: Seq<PartView>,
    tree: SourceTree,
    after: Seq<CopyEntryView>,
)
    ensures
        run_on(
            state.resume(around.push(frame(src, dest, seq![tree.entry()] + after))),
            copy_reports(tree),
        ) == state.resume(around.push(frame(src, dest, after))),
        asked_on(
            state.resume(around.push(frame(src, dest, seq![tree.entry()] + after))),
            copy_reports(tree),
        ) == copy_ops(tree, entry_path(src, tree.name()), entry_path(dest, tree.name())),
    decreases tree, 1nat,
{
    let top = frame(src, dest, seq![tree.entry()] + after);
    let stack = around.push(top);
    let begin = state.resume(stack);
    let here = around.push(frame(src, dest, after));
    let from = entry_path(src, tree.name());
    let to = entry_path(dest, tree.name());
    assert(top.pending[0] == tree.entry());
    assert(top.pending.drop_first() =~= after);
    assert(stack.drop_last() =~= around);
    assert(advance_top(stack) == here);
    match tree {
        SourceTree::File { .. } => {
            let copying = state.at(StageView::CopyEntry { stack });
            assert(begin == TransferProgressView::Continue(copying));
            lemma_run_on_one(copying, FsEventView::Succeeded);
            lemma_resume_from_any_stage(state, copying.stage, here);
        },
        SourceTree::Dir { entries, .. } => {
            let inner = here.push(frame(from, to, Seq::empty()));
            assert(begin == TransferProgressView::Continue(state.at(StageView::MakeDir { stack: inner })));
            lemma_dir_is_copied(state, here, from, to, entries);
        },
    }
}

/// A copy that is about to create the directory `dest` for the directory
/// `src` creates it, lists `src` and copies its entries by exactly the
/// operations of `copy_all`, after which the copy goes on with the
/// directories around.
pub proof fn lemma_dir_is_copied(
    state: TransferView,
    around: Seq<CopyFrameView>,
    src: Seq<PartView>,
    dest: Seq<PartView>,
    entries: Seq<SourceTree>,
)
    ensures
        run_on(
            TransferProgressView::Continue(
                state.at(StageView::MakeDir { stack: around.push(frame(src, dest, Seq::empty())) }),
            ),
            seq![FsEventView::Succeeded, FsEventView::Listed { entries: listed(entries) }]
                + copy_reports_all(entries),
        ) == state.resume(around),
        asked_on(
            TransferProgressView::Continue(
                state.at(StageView::MakeDir { stack: around.push(frame(src, dest, Seq::empty())) }),
            ),
            seq![FsEventView::Succeeded, FsEventView::Listed { entries: listed(entries) }]
                + copy_reports_all(entries),
        ) == seq![FsRequestView::CreateDirAll { path: dest }, FsRequestView::ReadDir { path: src }]
            + copy_all(entries, src, dest),
    decreases entries, 1nat,
{
    let inner = around.push(frame(src, dest, Seq::empty()));
    let making = state.at(StageView::MakeDir { stack: inner });
    let listing = state.at(StageView::ListDir { stack: inner });
    let filled = around.push(frame(src, dest, listed(entries)));
    let begin = TransferProgressView::Continue(making);
    lemma_run_on_one(making, FsEventView::Succeeded);
    lemma_run_on_one(listing, FsEventView::Listed { entries: listed(entries) });
    assert(inner.drop_last() =~= around);
    assert(list_top(inner, listed(entries)) == filled);
    lemma_resume_from_any_stage(state, listing.stage, filled);
    let open = seq![FsEventView::Succeeded];
    let list = seq![FsEventView::Listed { entries: listed(entries) }];
    assert(seq![FsEventView::Succeeded, FsEventView::Listed { entries: listed(entries) }]
        =~= open + list);
    lemma_run_on_concat(begin, open, list);
    assert(run_on(begin, open + list) == state.resume(filled));
    assert(asked_on(begin, open + list) =~= seq![
        FsRequestView::CreateDirAll { path: dest },
        FsRequestView::ReadDir { path: src },
    ]);
    assert(listed(entries) + Seq::<CopyEntryView>::empty() =~= listed(entries));
    lemma_entries_are_copied(state, around, src, dest, entries, Seq::empty());
    assert(inner.drop_last() =~= around);
    assert(state.resume(inner) == state.resume(around));
    lemma_run_on_concat(begin, open + list, copy_reports_all(entries));
}

/// Once the checks are passed, the source is copied by exactly the
/// operations of `copy_ops`, from its own path to the path of its name
/// in the destination, and then the copy is complete.
pub proof fn lemma_source_is_copied(state: TransferView, tree: SourceTree)
    requires
        state.stage is StatSource,
    ensures
        run_on(
            TransferProgressView::Continue(state),
            seq![FsEventView::Kind { is_dir: tree is Dir }] + copy_reports(tree),
        ) == state.after_copy(),
        asked_on(
            TransferProgressView::Continue(state),
            seq![FsEventView::Kind { is_dir: tree is Dir }] + copy_reports(tree),
        ) == seq![FsRequestView::Stat { path: state.src }] + copy_ops(
            tree,
            state.src,
            state.dest(),
        ),
{
    let begin = TransferProgressView::Continue(state);
    let kind = seq![FsEventView::Kind { is_dir: tree is Dir }];
    lemma_run_on_one(state, FsEventView::Kind { is_dir: tree is Dir });
    lemma_run_on_concat(begin, kind, copy_reports(tree));
    match tree {
        SourceTree::File { .. } => {
            let copying = state.at(StageView::CopyFile);
            lemma_run_on_one(copying, FsEventView::Succeeded);
        },
        SourceTree::Dir { entries, .. } => {
            assert(Seq::<CopyFrameView>::empty().push(frame(state.src, state.dest(), Seq::empty()))
                =~= seq![frame(state.src, state.dest(), Seq::empty())]);
            lemma_dir_is_copied(state, Seq::empty(), state.src, state.dest(), entries);
        },
    }
}

/// What a driver reports of a copy, or of a move whose rename the system
/// refuses, when the source is `tree` and everything else succeeds.
pub open spec fn transfer_reports(tree: SourceTree, is_cut: bool, refusal: Seq<char>) -> Seq<FsEventView> {
    let checks = seq![
        FsEventView::Probed { found: true, is_dir: true },
        FsEventView::Probed { found: true, is_dir: tree is Dir },
    ];
    let copy = seq![FsEventView::Kind { is_dir: tree is Dir }] + copy_reports(tree);
    if is_cut {
        checks + seq![FsEventView::Failed { message: refusal }] + copy + seq![
            FsEventView::Kind { is_dir: tree is Dir },
            FsEventView::Succeeded,
        ]
    } else {
        checks + copy
    }
}

/// The operations of a copy of `tree` from `src` into `dest_dir`, or of a
/// move whose rename the system refuses.
pub open spec fn transfer_ops(
    tree: SourceTree,
    src: Seq<PartView>,
    dest_dir: Seq<PartView>,
    is_cut: bool,
) -> Seq<FsRequestView> {
    let dest = crate::transfer::destination(src, dest_dir);
    let checks = seq![
        FsRequestView::ProbeDestination { path: dest_dir },
        FsRequestView::ProbeSource { path: src },
    ];
    let copy = seq![FsRequestView::Stat { path: src }] + copy_ops(tree, src, dest);
    if is_cut {
        checks + seq![FsRequestView::Rename { from: src, to: dest }] + copy + seq![
            FsRequestView::Stat { path: src },
            if tree is Dir {
                FsRequestView::RemoveDirAll { path: src }
            } else {
                FsRequestView::RemoveFile { path: src }
            },
        ]
    } else {
        checks + copy
    }
}

/// A copy whose operations all succeed probes destination and source,
/// copies the source tree entry by entry to the paths of the same names
/// under the destination, and reports success. A move whose rename the
/// system refuses does the same and then removes the source, all of it,
/// before it reports success: the source is gone and its copy complete.
pub proof fn lemma_transfer_copies_everything(
    tree: SourceTree,
    src: Seq<PartView>,
    dest_dir: Seq<PartView>,
    is_cut: bool,
    limit: Option<usize>,
    refusal: Seq<char>,
)
    requires
        !too_long(crate::transfer::destination(src, dest_dir), limit),
        is_cut ==> !lies_under(dest_dir, src),
    ensures
        run_on(
            TransferProgressView::Continue(TransferView::initial(src, dest_dir, is_cut, limit)),
            transfer_reports(tree, is_cut, refusal),
        ) == TransferProgressView::Done(Ok(())),
        asked_on(
            TransferProgressView::Continue(TransferView::initial(src, dest_dir, is_cut, limit)),
            transfer_reports(tree, is_cut, refusal),
        ) == transfer_ops(tree, src, dest_dir, is_cut),
{
    let begun = TransferView::initial(src, dest_dir, is_cut, limit);
    let begin = TransferProgressView::Continue(begun);
    let probed = begun.at(StageView::ProbeSource);
    let renaming = begun.at(StageView::Rename);
    let stat = begun.at(StageView::StatSource);
    let first = seq![FsEventView::Probed { found: true, is_dir: true }];
    let second = seq![FsEventView::Probed { found: true, is_dir: tree is Dir }];
    let checks = seq![
        FsEventView::Probed { found: true, is_dir: true },
        FsEventView::Probed { found: true, is_dir: tree is Dir },
    ];
    let copy = seq![FsEventView::Kind { is_dir: tree is Dir }] + copy_reports(tree);
    assert(checks =~= first + second);
    lemma_run_on_one(begun, FsEventView::Probed { found: true, is_dir: true });
    lemma_run_on_one(probed, FsEventView::Probed { found: true, is_dir: tree is Dir });
    lemma_run_on_concat(begin, first, second);
    assert(asked_on(begin, checks) =~= seq![
        FsRequestView::ProbeDestination { path: dest_dir },
        FsRequestView::ProbeSource { path: src },
    ]);
    lemma_source_is_copied(stat, tree);
    if is_cut {
        let refused = seq![FsEventView::Failed { message: refusal }];
        let removal = seq![FsEventView::Kind { is_dir: tree is Dir }, FsEventView::Succeeded];
        let check = begun.at(StageView::DeleteSource { stage: DeleteStage::Stat });
        let removing = begun.at(
            StageView::DeleteSource {
                stage: if tree is Dir {
                    DeleteStage::RemoveTree
                } else {
                    DeleteStage::RemoveFile
                },
            },
        );
        assert(run_on(begin, checks) == TransferProgressView::Continue(renaming));
        lemma_run_on_one(renaming, FsEventView::Failed { message: refusal });
        lemma_run_on_concat(begin, checks, refused);
        lemma_run_on_concat(begin, checks + refused, copy);
        assert(run_on(begin, checks + refused + copy) == TransferProgressView::Continue(check));
        let one = seq![FsEventView::Kind { is_dir: tree is Dir }];
        let two = seq![FsEventView::Succeeded];
        assert(removal =~= one + two);
        lemma_run_on_one(check, FsEventView::Kind { is_dir: tree is Dir });
        lemma_run_on_one(removing, FsEventView::Succeeded);
        lemma_run_on_concat(TransferProgressView::Continue(check), one, two);
        lemma_run_on_concat(begin, checks + refused + copy, removal);
        assert(asked_on(TransferProgressView::Continue(check), removal) =~= seq![
            FsRequestView::Stat { path: src },
            removing.request(),
        ]);
        assert(asked_on(begin, transfer_reports(tree, is_cut, refusal)) =~= transfer_ops(
            tree,
            src,
            dest_dir,
            is_cut,
        ));
    } else {
        assert(run_on(begin, checks) == TransferProgressView::Continue(stat));
        lemma_run_on_concat(begin, checks, copy);
    }
}

/// A move whose rename succeeds asks for nothing but the probes and the rename.
pub proof fn lemma_move_by_rename(
    src: Seq<PartView>,
    dest_dir: Seq<PartView>,
    limit: Option<usize>,
    src_is_dir: bool,
)
    requires
        !too_long(crate::transfer::destination(src, dest_dir), limit),
        !lies_under(dest_dir, src),
    ensures
        ({
            let begin = TransferProgressView::Continue(
                TransferView::initial(src, dest_dir, true, limit),
            );
            let reports = seq![
                FsEventView::Probed { found: true, is_dir: true },
                FsEventView::Probed { found: true, is_dir: src_is_dir },
                FsEventView::Succeeded,
            ];
            &&& run_on(begin, reports) == TransferProgressView::Done(Ok(()))
            &&& asked_on(begin, reports) == seq![
                FsRequestView::ProbeDestination { path: dest_dir },
                FsRequestView::ProbeSource { path: src },
                FsRequestView::Rename {
                    from: src,
                    to: crate::transfer::destination(src, dest_dir),
                },
            ]
        }),
{
    let begun = TransferView::initial(src, dest_dir, true, limit);
    let begin = TransferProgressView::Continue(begun);
    let probed = begun.at(StageView::ProbeSource);
    let renaming = begun.at(StageView::Rename);
    let first = seq![FsEventView::Probed { found: true, is_dir: true }];
    let second = seq![FsEventView::Probed { found: true, is_dir: src_is_dir }];
    let third = seq![FsEventView::Succeeded];
    lemma_run_on_one(begun, FsEventView::Probed { found: true, is_dir: true });
    lemma_run_on_one(probed, FsEventView::Probed { found: true, is_dir: src_is_dir });
    lemma_run_on_one(renaming, FsEventView::Succeeded);
    lemma_run_on_concat(begin, first, second);
    lemma_run_on_concat(begin, first + second, third);
    assert(seq![
        FsEventView::Probed { found: true, is_dir: true },
        FsEventView::Probed { found: true, is_dir: src_is_dir },
        FsEventView::Succeeded,
    ] =~= first + second + third);
    assert(asked_on(begin, first + second + third) =~= seq![
        FsRequestView::ProbeDestination { path: dest_dir },
        FsRequestView::ProbeSource { path: src },
        FsRequestView::Rename { from: src, to: crate::transfer::destination(src, dest_dir) },
    ]);
}

} // verus!
