//! What the operations of a copy or move do to a file system, on a file
//! system held as a finite value, and the proof that a copy leaves a
//! complete copy of the source at the destination, and that a move which
//! has to copy leaves, besides, nothing at the source.

use vstd::prelude::*;
use crate::copy_model::{
    SourceTree, asked_on, copy_all, copy_ops, lemma_run_on_concat, lemma_run_on_one,
    lemma_transfer_copies_everything, run_on, transfer_ops, transfer_reports,
};
use crate::path::{PartView, lemma_lies_under_itself, lemma_lies_under_transitive, lies_under};
use crate::transfer::{
    DeleteOutcomeView, DeleteStage, FsEventView, FsRequestView, StageView, TransferErrorView,
    TransferProgressView, TransferView, delete_next, delete_request, destination, entry_path,
    too_long,
};

verus! {

/// What lies at a path.
pub enum Content {
    File(Seq<u8>),
    Dir,
}

/// A file system: what lies at every path at which something lies.
pub type Volume = Map<Seq<PartView>, Content>;

/// A tree of files and directories, with what the files hold.
pub enum Stored {
    File { name: Seq<char>, bytes: Seq<u8> },
    Dir { name: Seq<char>, entries: Seq<Stored> },
}

impl Stored {
    pub open spec fn name(self) -> Seq<char> {
        match self {
            Stored::File { name, .. } => name,
            Stored::Dir { name, .. } => name,
        }
    }

    /// The tree without what the files hold.
    pub open spec fn shape(self) -> SourceTree
        decreases self,
    {
        match self {
            Stored::File { name, .. } => SourceTree::File { name },
            Stored::Dir { name, entries } => SourceTree::Dir { name, entries: shapes(entries) },
        }
    }

    /// No directory of the tree has two entries of one name.
    pub open spec fn well_named(self) -> bool
        decreases self,
    {
        match self {
            Stored::File { .. } => true,
            Stored::Dir { entries, .. } => all_well_named(entries),
        }
    }
}

/// The shapes of `entries`, element by element.
pub open spec fn shapes(entries: Seq<Stored>) -> Seq<SourceTree>
    decreases entries,
{
    if entries.len() == 0 {
        Seq::empty()
    } else {
        seq![entries[0].shape()] + shapes(entries.drop_first())
    }
}

/// No two of `entries` have one name, and each is well named.
pub open spec fn all_well_named(entries: Seq<Stored>) -> bool
    decreases entries,
{
    if entries.len() == 0 {
        true
    } else {
        &&& entries[0].well_named()
        &&& forall|i: int| 1 <= i < entries.len() ==> (#[trigger] entries[i]).name() != entries[0].name()
        &&& all_well_named(entries.drop_first())
    }
}

/// Whether `tree` lies at `at` in `volume`, whatever else may lie there.
pub open spec fn stored_at(volume: Volume, at: Seq<PartView>, tree: Stored) -> bool
    decreases tree,
{
    match tree {
        Stored::File { bytes, .. } => volume.dom().contains(at) && volume[at] == Content::File(
            bytes,
        ),
        Stored::Dir { entries, .. } => volume.dom().contains(at) && volume[at] == Content::Dir
            && all_stored_in(volume, at, entries),
    }
}

/// Whether each of `entries` lies under its name in the directory `dir`.
pub open spec fn all_stored_in(volume: Volume, dir: Seq<PartView>, entries: Seq<Stored>) -> bool
    decreases entries,
{
    if entries.len() == 0 {
        true
    } else {
        &&& stored_at(volume, entry_path(dir, entries[0].name()), entries[0])
        &&& all_stored_in(volume, dir, entries.drop_first())
    }
}

/// Whether nothing lies at `at` or below it.
pub open spec fn absent(volume: Volume, at: Seq<PartView>) -> bool {
    forall|path: Seq<PartView>| lies_under(path, at) ==> !volume.dom().contains(path)
}

/// Whether the two volumes hold the same at `path`: nothing in either,
/// or the same thing in both.
pub open spec fn same_at(a: Volume, b: Volume, path: Seq<PartView>) -> bool {
    &&& a.dom().contains(path) == b.dom().contains(path)
    &&& a.dom().contains(path) ==> a[path] == b[path]
}

/// Whether no path lies under both `a` and `b`.
pub open spec fn apart(a: Seq<PartView>, b: Seq<PartView>) -> bool {
    forall|path: Seq<PartView>| !(lies_under(path, a) && #[trigger] lies_under(path, b))
}

/// What an operation that succeeds does to a volume. A copy writes the
/// file, the creation of a directory puts it there, a removal takes away
/// the entry or the directory with all below it; probes, listings and a
/// rename that the system refuses change nothing.
pub open spec fn effect(volume: Volume, op: FsRequestView) -> Volume {
    match op {
        FsRequestView::CopyFile { from, to } => volume.insert(to, volume[from]),
        FsRequestView::CreateDirAll { path } => volume.insert(path, Content::Dir),
        FsRequestView::RemoveDirAll { path } => volume.remove_keys(
            Set::new(|p: Seq<PartView>| lies_under(p, path)),
        ),
        FsRequestView::RemoveFile { path } => volume.remove(path),
        _ => volume,
    }
}

/// What the operations `ops` do to a volume, one after another.
pub open spec fn effects(volume: Volume, ops: Seq<FsRequestView>) -> Volume
    decreases ops.len(),
{
    if ops.len() == 0 {
        volume
    } else {
        effect(effects(volume, ops.drop_last()), ops.last())
    }
}

/// The effects of `first + second` are those of `first` and then those of `second`.
pub proof fn lemma_effects_concat(volume: Volume, first: Seq<FsRequestView>, second: Seq<FsRequestView>)
    ensures
        effects(volume, first + second) == effects(effects(volume, first), second),
    decreases second.len(),
{
    if second.len() == 0 {
        assert(first + second =~= first);
    } else {
        lemma_effects_concat(volume, first, second.drop_last());
        assert((first + second).drop_last() =~= first + second.drop_last());
        assert((first + second).last() == second.last());
    }
}

/// The effects of a single operation are its effect.
pub proof fn lemma_effects_one(volume: Volume, op: FsRequestView)
    ensures
        effects(volume, seq![op]) == effect(volume, op),
{
    assert(seq![op].drop_last() =~= Seq::<FsRequestView>::empty());
    assert(effects(volume, Seq::<FsRequestView>::empty()) == volume);
}

/// The path of an entry lies under its directory, and the paths of two
/// entries of different names have nothing in common below them.
pub proof fn lemma_entry_paths(dir: Seq<PartView>, a: Seq<char>, b: Seq<char>)
    ensures
        lies_under(entry_path(dir, a), dir),
        !lies_under(dir, entry_path(dir, a)),
        a != b ==> apart(entry_path(dir, a), entry_path(dir, b)),
{
    assert(entry_path(dir, a).take(dir.len() as int) =~= dir);
    if a != b {
        assert forall|path: Seq<PartView>|
            !(lies_under(path, entry_path(dir, a)) && #[trigger] lies_under(
                path,
                entry_path(dir, b),
            )) by {
            if lies_under(path, entry_path(dir, a)) && lies_under(path, entry_path(dir, b)) {
                let n = dir.len() as int;
                assert(path.take(n + 1)[n] == entry_path(dir, a)[n]);
                assert(path.take(n + 1)[n] == entry_path(dir, b)[n]);
                assert(entry_path(dir, a)[n] == PartView::Normal(a));
                assert(entry_path(dir, b)[n] == PartView::Normal(b));
            }
        }
    }
}

/// Whether a tree lies at a path depends on nothing but what lies at the
/// path and below it.
pub proof fn lemma_stored_frame(a: Volume, b: Volume, at: Seq<PartView>, tree: Stored)
    requires
        stored_at(a, at, tree),
        forall|path: Seq<PartView>| #[trigger] lies_under(path, at) ==> same_at(a, b, path),
    ensures
        stored_at(b, at, tree),
    decreases tree, 1nat,
{
    lemma_lies_under_itself(at);
    assert(same_at(a, b, at));
    match tree {
        Stored::File { .. } => {},
        Stored::Dir { entries, .. } => {
            lemma_all_stored_frame(a, b, at, entries);
        },
    }
}

proof fn lemma_all_stored_frame(a: Volume, b: Volume, dir: Seq<PartView>, entries: Seq<Stored>)
    requires
        all_stored_in(a, dir, entries),
        forall|path: Seq<PartView>| #[trigger] lies_under(path, dir) ==> same_at(a, b, path),
    ensures
        all_stored_in(b, dir, entries),
    decreases entries, 0nat,
{
    if entries.len() > 0 {
        let at = entry_path(dir, entries[0].name());
        lemma_entry_paths(dir, entries[0].name(), entries[0].name());
        assert forall|path: Seq<PartView>| #[trigger] lies_under(path, at) implies same_at(
            a,
            b,
            path,
        ) by {
            lemma_lies_under_transitive(path, at, dir);
        }
        lemma_stored_frame(a, b, at, entries[0]);
        lemma_all_stored_frame(a, b, dir, entries.drop_first());
    }
}

/// Whether `path` lies at or below one of `entries` of the directory `dir`.
pub open spec fn under_entries(path: Seq<PartView>, dir: Seq<PartView>, entries: Seq<Stored>) -> bool
    decreases entries,
{
    if entries.len() == 0 {
        false
    } else {
        lies_under(path, entry_path(dir, entries[0].name())) || under_entries(
            path,
            dir,
            entries.drop_first(),
        )
    }
}

proof fn lemma_under_entries_is_under_dir(path: Seq<PartView>, dir: Seq<PartView>, entries: Seq<Stored>)
    requires
        under_entries(path, dir, entries),
    ensures
        lies_under(path, dir),
        path != dir,
    decreases entries,
{
    if lies_under(path, entry_path(dir, entries[0].name())) {
        lemma_entry_paths(dir, entries[0].name(), entries[0].name());
        lemma_lies_under_transitive(path, entry_path(dir, entries[0].name()), dir);
    } else {
        lemma_under_entries_is_under_dir(path, dir, entries.drop_first());
    }
}

proof fn lemma_not_under_others(
    path: Seq<PartView>,
    dir: Seq<PartView>,
    name: Seq<char>,
    others: Seq<Stored>,
)
    requires
        lies_under(path, entry_path(dir, name)),
        forall|i: int| 0 <= i < others.len() ==> (#[trigger] others[i]).name() != name,
    ensures
        !under_entries(path, dir, others),
    decreases others,
{
    if others.len() > 0 {
        assert(others[0].name() != name);
        lemma_entry_paths(dir, others[0].name(), name);
        assert forall|i: int| 0 <= i < others.drop_first().len() implies (
        #[trigger] others.drop_first()[i]).name() != name by {
            assert(others.drop_first()[i] == others[i + 1]);
        }
        lemma_not_under_others(path, dir, name, others.drop_first());
    }
}

proof fn lemma_shapes(entries: Seq<Stored>)
    requires
        entries.len() > 0,
    ensures
        shapes(entries).len() > 0,
        shapes(entries)[0] == entries[0].shape(),
        shapes(entries).drop_first() == shapes(entries.drop_first()),
        entries[0].shape().name() == entries[0].name(),
{
    assert(shapes(entries).drop_first() =~= shapes(entries.drop_first()));
}

/// The operations that copy a tree which lies at `src`, apart from
/// `dest`, leave the tree at `dest` and change nothing but what lies at
/// `dest` or below it.
pub proof fn lemma_copy_stores(volume: Volume, tree: Stored, src: Seq<PartView>, dest: Seq<PartView>)
    requires
        stored_at(volume, src, tree),
        tree.well_named(),
        apart(src, dest),
    ensures
        stored_at(effects(volume, copy_ops(tree.shape(), src, dest)), dest, tree),
        forall|path: Seq<PartView>|
            !lies_under(path, dest) ==> same_at(
                volume,
                effects(volume, copy_ops(tree.shape(), src, dest)),
                path,
            ),
    decreases tree, 1nat,
{
    let ops = copy_ops(tree.shape(), src, dest);
    let after = effects(volume, ops);
    lemma_lies_under_itself(dest);
    lemma_lies_under_itself(src);
    match tree {
        Stored::File { name, bytes } => {
            lemma_effects_one(volume, FsRequestView::CopyFile { from: src, to: dest });
        },
        Stored::Dir { name, entries } => {
            let make = FsRequestView::CreateDirAll { path: dest };
            let list = FsRequestView::ReadDir { path: src };
            let made = effect(volume, make);
            let rest = copy_all(shapes(entries), src, dest);
            assert(seq![make, list] =~= seq![make] + seq![list]);
            lemma_effects_one(volume, make);
            lemma_effects_one(made, list);
            lemma_effects_concat(volume, seq![make], seq![list]);
            lemma_effects_concat(volume, seq![make, list], rest);
            assert(after == effects(made, rest));
            assert forall|path: Seq<PartView>| #[trigger] lies_under(path, src) implies same_at(
                volume,
                made,
                path,
            ) by {
                assert(!lies_under(path, dest));
            }
            lemma_all_stored_frame(volume, made, src, entries);
            lemma_copy_all_stores(made, entries, src, dest);
            assert(!under_entries(dest, dest, entries)) by {
                if under_entries(dest, dest, entries) {
                    lemma_under_entries_is_under_dir(dest, dest, entries);
                }
            }
            assert forall|path: Seq<PartView>| !lies_under(path, dest) implies same_at(
                volume,
                after,
                path,
            ) by {
                if under_entries(path, dest, entries) {
                    lemma_under_entries_is_under_dir(path, dest, entries);
                }
            }
        },
    }
}

/// The operations that copy the entries of the directory `src` leave
/// each of them under its name in `dest` and change nothing but what lies
/// at or below those paths.
pub proof fn lemma_copy_all_stores(
    volume: Volume,
    entries: Seq<Stored>,
    src: Seq<PartView>,
    dest: Seq<PartView>,
)
    requires
        all_stored_in(volume, src, entries),
        all_well_named(entries),
        apart(src, dest),
    ensures
        all_stored_in(effects(volume, copy_all(shapes(entries), src, dest)), dest, entries),
        forall|path: Seq<PartView>|
            !under_entries(path, dest, entries) ==> same_at(
                volume,
                effects(volume, copy_all(shapes(entries), src, dest)),
                path,
            ),
    decreases entries, 0nat,
{
    let after = effects(volume, copy_all(shapes(entries), src, dest));
    if entries.len() == 0 {
        assert(shapes(entries) =~= Seq::<SourceTree>::empty());
        assert(copy_all(shapes(entries), src, dest) =~= Seq::<FsRequestView>::empty());
    } else {
        let first = entries[0];
        let others = entries.drop_first();
        let from = entry_path(src, first.name());
        let to = entry_path(dest, first.name());
        lemma_shapes(entries);
        lemma_entry_paths(src, first.name(), first.name());
        lemma_entry_paths(dest, first.name(), first.name());
        assert(apart(from, to)) by {
            assert forall|path: Seq<PartView>|
                !(lies_under(path, from) && #[trigger] lies_under(path, to)) by {
                if lies_under(path, from) && lies_under(path, to) {
                    lemma_lies_under_transitive(path, from, src);
                    lemma_lies_under_transitive(path, to, dest);
                }
            }
        }
        let head = copy_ops(first.shape(), from, to);
        let tail = copy_all(shapes(others), src, dest);
        lemma_copy_stores(volume, first, from, to);
        let middle = effects(volume, head);
        lemma_effects_concat(volume, head, tail);
        assert(after == effects(middle, tail));
        assert forall|path: Seq<PartView>| #[trigger] lies_under(path, src) implies same_at(
            volume,
            middle,
            path,
        ) by {
            if lies_under(path, to) {
                lemma_lies_under_transitive(path, to, dest);
            }
        }
        lemma_all_stored_frame(volume, middle, src, others);
        lemma_copy_all_stores(middle, others, src, dest);
        assert forall|i: int| 0 <= i < others.len() implies (#[trigger] others[i]).name()
            != first.name() by {
            assert(others[i] == entries[i + 1]);
        }
        assert forall|path: Seq<PartView>| #[trigger] lies_under(path, to) implies same_at(
            middle,
            after,
            path,
        ) by {
            lemma_not_under_others(path, dest, first.name(), others);
        }
        lemma_stored_frame(middle, after, to, first);
        assert forall|path: Seq<PartView>| !under_entries(path, dest, entries) implies same_at(
            volume,
            after,
            path,
        ) by {
            assert(!lies_under(path, to));
            assert(!under_entries(path, dest, others));
            assert(same_at(volume, middle, path));
            assert(same_at(middle, after, path));
        }
    }
}

/// A copy whose operations all succeed, of a tree that lies apart from
/// where it goes, leaves a complete copy at the destination and the
/// source as it was. A move that has to copy because the system refuses
/// the rename leaves a complete copy at the destination and nothing at
/// the source. Either asks for exactly the operations whose effects
/// these are.
pub proof fn lemma_transfer_moves_the_tree(
    volume: Volume,
    tree: Stored,
    src: Seq<PartView>,
    dest_dir: Seq<PartView>,
    is_cut: bool,
    limit: Option<usize>,
    refusal: Seq<char>,
)
    requires
        stored_at(volume, src, tree),
        tree.well_named(),
        apart(src, destination(src, dest_dir)),
        !too_long(destination(src, dest_dir), limit),
        is_cut ==> !lies_under(dest_dir, src),
    ensures
        ({
            let begin = TransferProgressView::Continue(
                TransferView::initial(src, dest_dir, is_cut, limit),
            );
            let ops = asked_on(begin, transfer_reports(tree.shape(), is_cut, refusal));
            let after = effects(volume, ops);
            &&& stored_at(after, destination(src, dest_dir), tree)
            &&& is_cut ==> !after.dom().contains(src) && (tree is Dir ==> absent(after, src))
            &&& !is_cut ==> stored_at(after, src, tree)
            &&& forall|path: Seq<PartView>|
                !lies_under(path, destination(src, dest_dir)) && !lies_under(path, src)
                    ==> same_at(volume, after, path)
        }),
{
    let dest = destination(src, dest_dir);
    let shape = tree.shape();
    let begin = TransferProgressView::Continue(TransferView::initial(src, dest_dir, is_cut, limit));
    let ops = asked_on(begin, transfer_reports(shape, is_cut, refusal));
    lemma_transfer_copies_everything(shape, src, dest_dir, is_cut, limit, refusal);
    assert(ops == transfer_ops(shape, src, dest_dir, is_cut));
    let probes = seq![
        FsRequestView::ProbeDestination { path: dest_dir },
        FsRequestView::ProbeSource { path: src },
    ];
    let stat = seq![FsRequestView::Stat { path: src }];
    let copy = copy_ops(shape, src, dest);
    assert(probes =~= seq![FsRequestView::ProbeDestination { path: dest_dir }] + seq![
        FsRequestView::ProbeSource { path: src },
    ]);
    lemma_effects_one(volume, FsRequestView::ProbeDestination { path: dest_dir });
    lemma_effects_one(volume, FsRequestView::ProbeSource { path: src });
    lemma_effects_concat(
        volume,
        seq![FsRequestView::ProbeDestination { path: dest_dir }],
        seq![FsRequestView::ProbeSource { path: src }],
    );
    assert(effects(volume, probes) == volume);
    lemma_effects_one(volume, FsRequestView::Stat { path: src });
    lemma_copy_stores(volume, tree, src, dest);
    let copied = effects(volume, copy);
    lemma_lies_under_itself(src);
    lemma_lies_under_itself(dest);
    if is_cut {
        let rename = seq![FsRequestView::Rename { from: src, to: dest }];
        let removal = if tree is Dir {
            FsRequestView::RemoveDirAll { path: src }
        } else {
            FsRequestView::RemoveFile { path: src }
        };
        let tail = seq![FsRequestView::Stat { path: src }, removal];
        lemma_effects_one(volume, FsRequestView::Rename { from: src, to: dest });
        lemma_effects_concat(volume, probes, rename);
        lemma_effects_concat(volume, probes + rename, stat + copy);
        lemma_effects_concat(volume, stat, copy);
        assert(probes + rename + (stat + copy) =~= probes + rename + stat + copy);
        assert(effects(volume, probes + rename + stat + copy) == copied);
        assert(tail =~= seq![FsRequestView::Stat { path: src }] + seq![removal]);
        lemma_effects_one(copied, FsRequestView::Stat { path: src });
        lemma_effects_one(copied, removal);
        lemma_effects_concat(copied, seq![FsRequestView::Stat { path: src }], seq![removal]);
        assert(ops =~= (probes + rename + stat + copy) + tail);
        lemma_effects_concat(volume, probes + rename + stat + copy, tail);
        let after = effect(copied, removal);
        assert(effects(volume, ops) == after);
        let gone = Set::new(|p: Seq<PartView>| lies_under(p, src));
        assert forall|path: Seq<PartView>| !lies_under(path, src) implies same_at(
            copied,
            after,
            path,
        ) by {
            assert(!gone.contains(path));
            assert(path != src);
        }
        assert forall|path: Seq<PartView>| #[trigger] lies_under(path, dest) implies same_at(
            copied,
            after,
            path,
        ) by {
            assert(!lies_under(path, src));
        }
        lemma_stored_frame(copied, after, dest, tree);
        assert(!after.dom().contains(src)) by {
            assert(gone.contains(src));
        }
        if tree is Dir {
            assert forall|path: Seq<PartView>| lies_under(path, src) implies !after.dom().contains(
                path,
            ) by {
                assert(gone.contains(path));
            }
        }
        assert forall|path: Seq<PartView>|
            !lies_under(path, dest) && !lies_under(path, src) implies same_at(
            volume,
            after,
            path,
        ) by {
            assert(same_at(volume, copied, path));
            assert(same_at(copied, after, path));
        }
    } else {
        lemma_effects_concat(volume, probes, stat + copy);
        lemma_effects_concat(volume, stat, copy);
        assert(ops =~= probes + (stat + copy));
        assert(effects(volume, ops) == copied);
        assert forall|path: Seq<PartView>| #[trigger] lies_under(path, src) implies same_at(
            volume,
            copied,
            path,
        ) by {
            assert(!lies_under(path, dest));
        }
        lemma_stored_frame(volume, copied, src, tree);
    }
}

/// A move of a directory into itself, or into a directory below it,
/// fails as a move into itself and leaves the volume as it was: all that
/// was asked for up to the refusal changes nothing.
pub proof fn lemma_move_into_itself_changes_nothing(
    volume: Volume,
    src: Seq<PartView>,
    dest_dir: Seq<PartView>,
    limit: Option<usize>,
    src_is_dir: bool,
)
    requires
        lies_under(dest_dir, src),
    ensures
        ({
            let begin = TransferProgressView::Continue(
                TransferView::initial(src, dest_dir, true, limit),
            );
            let reports = seq![
                FsEventView::Probed { found: true, is_dir: true },
                FsEventView::Probed { found: true, is_dir: src_is_dir },
            ];
            &&& run_on(begin, reports) == TransferProgressView::Done(
                Err(TransferErrorView::SelfNestedMove),
            )
            &&& effects(volume, asked_on(begin, reports)) == volume
        }),
{
    let begun = TransferView::initial(src, dest_dir, true, limit);
    let begin = TransferProgressView::Continue(begun);
    let probed = begun.at(StageView::ProbeSource);
    let first = seq![FsEventView::Probed { found: true, is_dir: true }];
    let second = seq![FsEventView::Probed { found: true, is_dir: src_is_dir }];
    let reports = seq![
        FsEventView::Probed { found: true, is_dir: true },
        FsEventView::Probed { found: true, is_dir: src_is_dir },
    ];
    assert(reports =~= first + second);
    lemma_run_on_one(begun, FsEventView::Probed { found: true, is_dir: true });
    lemma_run_on_one(probed, FsEventView::Probed { found: true, is_dir: src_is_dir });
    lemma_run_on_concat(begin, first, second);
    let one = seq![FsRequestView::ProbeDestination { path: dest_dir }];
    let two = seq![FsRequestView::ProbeSource { path: src }];
    assert(asked_on(begin, reports) == one + two);
    lemma_effects_one(volume, FsRequestView::ProbeDestination { path: dest_dir });
    lemma_effects_one(volume, FsRequestView::ProbeSource { path: src });
    lemma_effects_concat(volume, one, two);
}

/// A deletion whose operations succeed finds out what lies at the path
/// and removes it, a directory with all below it; nothing is left at the
/// path, and what lies elsewhere stays.
pub proof fn lemma_delete_removes(volume: Volume, path: Seq<PartView>, is_dir: bool)
    ensures
        ({
            let removing = if is_dir {
                DeleteStage::RemoveTree
            } else {
                DeleteStage::RemoveFile
            };
            let after = effect(
                effect(volume, delete_request(path, DeleteStage::Stat)),
                delete_request(path, removing),
            );
            &&& delete_next(DeleteStage::Stat, FsEventView::Kind { is_dir })
                == DeleteOutcomeView::Next(removing)
            &&& delete_next(removing, FsEventView::Succeeded) == DeleteOutcomeView::Finished(Ok(()))
            &&& !after.dom().contains(path)
            &&& is_dir ==> absent(after, path)
            &&& forall|other: Seq<PartView>|
                !lies_under(other, path) ==> same_at(volume, after, other)
        }),
{
    let removing = if is_dir {
        DeleteStage::RemoveTree
    } else {
        DeleteStage::RemoveFile
    };
    let after = effect(volume, delete_request(path, removing));
    let gone = Set::new(|p: Seq<PartView>| lies_under(p, path));
    lemma_lies_under_itself(path);
    assert(gone.contains(path));
    assert forall|other: Seq<PartView>| !lies_under(other, path) implies same_at(
        volume,
        after,
        other,
    ) by {
        assert(!gone.contains(other));
        assert(other != path);
    }
    if is_dir {
        assert forall|below: Seq<PartView>| lies_under(below, path) implies !after.dom().contains(
            below,
        ) by {
            assert(gone.contains(below));
        }
    }
}

} // verus!
