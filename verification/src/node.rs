//! The size tree: one `Node` per file or directory, with sizes and file
//! counts aggregated bottom-up and children ordered by descending size.

use vstd::prelude::*;
use crate::order::{
    lemma_stable_sort_is_stable, lemma_with_size_members, sort_by_size, stable_sort, with_size,
};

verus! {

/// The mathematical value of a `Node`: a finite tree of entries.
pub struct NodeView {
    pub name: Seq<char>,
    pub path: Seq<char>,
    pub is_dir: bool,
    pub size: nat,
    pub file_count: nat,
    pub children: Seq<NodeView>,
}

/// Sum of the sizes of `nodes`.
pub open spec fn total_size(nodes: Seq<NodeView>) -> nat
    decreases nodes.len(),
{
    if nodes.len() == 0 {
        0
    } else {
        total_size(nodes.drop_last()) + nodes.last().size
    }
}

/// Sum of the file counts of `nodes`.
pub open spec fn total_files(nodes: Seq<NodeView>) -> nat
    decreases nodes.len(),
{
    if nodes.len() == 0 {
        0
    } else {
        total_files(nodes.drop_last()) + nodes.last().file_count
    }
}

/// Sizes never increase from one element to the next.
pub open spec fn sorted_by_size(nodes: Seq<NodeView>) -> bool {
    forall|i: int, j: int| 0 <= i <= j < nodes.len() ==> nodes[i].size >= nodes[j].size
}

impl NodeView {
    /// The aggregation invariant, at this node and at every node below it:
    /// a directory's size and file count are the sums over its children,
    /// which stand in descending order of size; a file counts once and has
    /// no children.
    pub open spec fn wf(self) -> bool
        decreases self,
    {
        &&& self.size <= u64::MAX
        &&& self.file_count <= u64::MAX
        &&& if self.is_dir {
            &&& self.size == total_size(self.children)
            &&& self.file_count == total_files(self.children)
            &&& sorted_by_size(self.children)
            &&& forall|i: int| 0 <= i < self.children.len() ==> (#[trigger] self.children[i]).wf()
        } else {
            &&& self.file_count == 1
            &&& self.children.len() == 0
        }
    }
}

/// The view of a file of `size` bytes.
pub open spec fn file_view(name: Seq<char>, path: Seq<char>, size: nat) -> NodeView {
    NodeView { name, path, is_dir: false, size, file_count: 1, children: Seq::empty() }
}

/// The view of a directory that holds `children`: their totals, and the
/// children themselves in descending order of size, ties as given.
pub open spec fn dir_view(name: Seq<char>, path: Seq<char>, children: Seq<NodeView>) -> NodeView {
    NodeView {
        name,
        path,
        is_dir: true,
        size: total_size(children),
        file_count: total_files(children),
        children: stable_sort(children),
    }
}

/// The nodes of the tree under `node` in depth-first order, each node
/// before its children and the children in their stored order.
pub open spec fn preorder(node: NodeView) -> Seq<NodeView>
    decreases node,
{
    seq![node] + preorder_forest(node.children)
}

/// The depth-first orders of the trees of `nodes`, one after another.
pub open spec fn preorder_forest(nodes: Seq<NodeView>) -> Seq<NodeView>
    decreases nodes,
{
    if nodes.len() == 0 {
        Seq::empty()
    } else {
        preorder_forest(nodes.drop_last()) + preorder(nodes.last())
    }
}

/// The first node of `nodes` whose path is `path`, if there is one.
pub open spec fn first_with_path(nodes: Seq<NodeView>, path: Seq<char>) -> Option<NodeView>
    decreases nodes.len(),
{
    if nodes.len() == 0 {
        None
    } else if nodes[0].path == path {
        Some(nodes[0])
    } else {
        first_with_path(nodes.drop_first(), path)
    }
}

/// The views of a sequence of nodes, element by element.
pub open spec fn views(nodes: Seq<Node>) -> Seq<NodeView> {
    Seq::new(nodes.len(), |i: int| nodes[i]@)
}

/// A file or directory with its aggregated size and file count.
#[derive(Debug)]
pub struct Node {
    name: String,
    path: String,
    is_dir: bool,
    size: u64,
    file_count: u64,
    children: Vec<Node>,
}

impl View for Node {
    type V = NodeView;

    closed spec fn view(&self) -> NodeView
        decreases self,
    {
        NodeView {
            name: self.name@,
            path: self.path@,
            is_dir: self.is_dir,
            size: self.size as nat,
            file_count: self.file_count as nat,
            children: forest_view(self.children@),
        }
    }
}

/// The views of `nodes`, built one node at a time.
closed spec fn forest_view(nodes: Seq<Node>) -> Seq<NodeView>
    decreases nodes,
{
    if nodes.len() == 0 {
        Seq::empty()
    } else {
        forest_view(nodes.drop_last()).push(nodes.last()@)
    }
}

proof fn lemma_forest_view(nodes: Seq<Node>)
    ensures
        forest_view(nodes) == views(nodes),
    decreases nodes.len(),
{
    if nodes.len() > 0 {
        let rest = nodes.drop_last();
        lemma_forest_view(rest);
        assert(forest_view(nodes) == forest_view(rest).push(nodes.last()@));
        assert(forest_view(rest).len() == rest.len());
        assert forall|i: int| 0 <= i < nodes.len() implies forest_view(nodes)[i] == views(
            nodes,
        )[i] by {
            if i < rest.len() {
                assert(views(rest)[i] == rest[i]@);
            }
        }
    }
    assert(forest_view(nodes) =~= views(nodes));
}

/// Totals add up over concatenation.
pub proof fn lemma_totals_concat(a: Seq<NodeView>, b: Seq<NodeView>)
    ensures
        total_size(a + b) == total_size(a) + total_size(b),
        total_files(a + b) == total_files(a) + total_files(b),
    decreases b.len(),
{
    if b.len() == 0 {
        assert(a + b =~= a);
    } else {
        lemma_totals_concat(a, b.drop_last());
        assert((a + b).drop_last() =~= a + b.drop_last());
    }
}

/// The first match in `a + b` is the first match in `a`, or failing that in `b`.
pub proof fn lemma_first_with_path_concat(a: Seq<NodeView>, b: Seq<NodeView>, path: Seq<char>)
    ensures
        first_with_path(a + b, path) == if first_with_path(a, path) is Some {
            first_with_path(a, path)
        } else {
            first_with_path(b, path)
        },
    decreases a.len(),
{
    if a.len() == 0 {
        assert(a + b =~= b);
    } else {
        assert((a + b)[0] == a[0]);
        assert((a + b).drop_first() =~= a.drop_first() + b);
        lemma_first_with_path_concat(a.drop_first(), b, path);
    }
}

/// Every node of `stable_sort(nodes)` is a node of `nodes`.
proof fn lemma_sorted_members(nodes: Seq<NodeView>, i: int)
    requires
        0 <= i < stable_sort(nodes).len(),
    ensures
        nodes.contains(stable_sort(nodes)[i]),
{
    let sorted = stable_sort(nodes);
    let x = sorted[i];
    lemma_stable_sort_is_stable(nodes);
    lemma_in_own_class(sorted, i);
    assert(with_size(sorted, x.size) == with_size(nodes, x.size));
    let j = choose|j: int| 0 <= j < with_size(sorted, x.size).len() && with_size(sorted, x.size)[j] == x;
    lemma_with_size_members(nodes, x.size);
    assert(nodes.contains(with_size(nodes, x.size)[j]));
}

/// A node is among the nodes of its own size.
proof fn lemma_in_own_class(nodes: Seq<NodeView>, i: int)
    requires
        0 <= i < nodes.len(),
    ensures
        with_size(nodes, nodes[i].size).contains(nodes[i]),
    decreases nodes.len(),
{
    let size = nodes[i].size;
    let rest = nodes.drop_last();
    if i == nodes.len() - 1 {
        let c = with_size(nodes, size);
        assert(c == with_size(rest, size).push(nodes.last()));
        assert(c[c.len() - 1] == nodes[i]);
    } else {
        lemma_in_own_class(rest, i);
        assert(rest[i] == nodes[i]);
        let c = with_size(rest, size);
        let j = choose|j: int| 0 <= j < c.len() && c[j] == nodes[i];
        if nodes.last().size == size {
            assert(with_size(nodes, size) == c.push(nodes.last()));
            assert(with_size(nodes, size)[j] == nodes[i]);
        } else {
            assert(with_size(nodes, size)[j] == nodes[i]);
        }
    }
}

/// A directory made of well-formed children whose totals fit the counters
/// is well formed.
pub proof fn lemma_dir_view_wf(name: Seq<char>, path: Seq<char>, children: Seq<NodeView>)
    requires
        forall|i: int| 0 <= i < children.len() ==> (#[trigger] children[i]).wf(),
        total_size(children) <= u64::MAX,
        total_files(children) <= u64::MAX,
    ensures
        dir_view(name, path, children).wf(),
{
    lemma_stable_sort_is_stable(children);
    let sorted = stable_sort(children);
    assert forall|k: int| 0 <= k < sorted.len() implies (#[trigger] sorted[k]).wf() by {
        lemma_sorted_members(children, k);
    }
}

impl Node {
    #[verifier::type_invariant]
    closed spec fn inv(&self) -> bool {
        self@.wf()
    }

    /// A leaf for one file of `size` bytes.
    pub fn new_file(name: String, path: String, size: u64) -> (node: Node)
        ensures
            node@ == file_view(name@, path@, size as nat),
            node@.wf(),
    {
        Node { name, path, is_dir: false, size, file_count: 1, children: Vec::new() }
    }

    /// A directory holding `children`. Its size and file count are the
    /// sums over the children, which it keeps in descending order of size,
    /// children of equal size in the order given.
    pub fn new_dir(name: String, path: String, children: Vec<Node>) -> (node: Node)
        requires
            total_size(views(children@)) <= u64::MAX,
            total_files(views(children@)) <= u64::MAX,
        ensures
            node@ == dir_view(name@, path@, views(children@)),
            node@.wf(),
    {
        let ghost given = views(children@);
        let mut size: u64 = 0;
        let mut file_count: u64 = 0;
        let mut i: usize = 0;
        while i < children.len()
            invariant
                i <= children.len(),
                given == views(children@),
                size == total_size(given.take(i as int)),
                file_count == total_files(given.take(i as int)),
                total_size(given) <= u64::MAX,
                total_files(given) <= u64::MAX,
                forall|j: int| 0 <= j < i ==> (#[trigger] given[j]).wf(),
            decreases children.len() - i,
        {
            let child = &children[i];
            proof {
                let next = given.take(i as int + 1);
                assert(next.drop_last() =~= given.take(i as int));
                assert(next.last() == child@);
                assert(given =~= next + given.skip(i as int + 1));
                lemma_totals_concat(next, given.skip(i as int + 1));
            }
            size += child.size();
            file_count += child.file_count();
            i += 1;
        }
        let children = sort_by_size(children);
        proof {
            assert(given.take(i as int) =~= given);
            lemma_forest_view(children@);
            lemma_dir_view_wf(name@, path@, given);
        }
        Node { name, path, is_dir: true, size, file_count, children }
    }

    /// The entry's final path component, as shown to the user.
    pub fn name(&self) -> (name: &String)
        ensures
            name@ == self@.name,
    {
        &self.name
    }

    /// The entry's path, which identifies the node within its tree.
    pub fn path(&self) -> (path: &String)
        ensures
            path@ == self@.path,
    {
        &self.path
    }

    /// Whether the entry is a directory.
    pub fn is_dir(&self) -> (is_dir: bool)
        ensures
            is_dir == self@.is_dir,
    {
        self.is_dir
    }

    /// Bytes in the file, or in all files below the directory.
    pub fn size(&self) -> (size: u64)
        ensures
            size as nat == self@.size,
            self@.wf(),
    {
        proof {
            use_type_invariant(self);
        }
        self.size
    }

    /// Number of files at or below the entry.
    pub fn file_count(&self) -> (count: u64)
        ensures
            count as nat == self@.file_count,
            self@.wf(),
    {
        proof {
            use_type_invariant(self);
        }
        self.file_count
    }

    /// The directory's entries, largest first; empty for a file.
    pub fn children(&self) -> (children: &Vec<Node>)
        ensures
            views(children@) == self@.children,
            self@.wf(),
    {
        proof {
            use_type_invariant(self);
            lemma_forest_view(self.children@);
        }
        &self.children
    }
}

/// The first node with path `path` in a depth-first walk of the tree
/// under `node`, each node before its children.
pub fn find_node_by_path<'a>(node: &'a Node, path: &String) -> (found: Option<&'a Node>)
    ensures
        match found {
            Some(hit) => first_with_path(preorder(node@), path@) == Some(hit@),
            None => first_with_path(preorder(node@), path@) is None,
        },
    decreases node@,
{
    let ghost kids = node@.children;
    proof {
        assert(preorder(node@).drop_first() =~= preorder_forest(kids));
    }
    if *node.path() == *path {
        return Some(node);
    }
    let children = node.children();
    let mut i: usize = 0;
    proof {
        assert(kids.take(0) =~= Seq::<NodeView>::empty());
    }
    while i < children.len()
        invariant
            i <= children.len(),
            views(children@) == kids,
            kids == node@.children,
            node@.path != path@,
            first_with_path(preorder_forest(kids.take(i as int)), path@) is None,
        decreases children.len() - i,
    {
        let child = &children[i];
        assert(child@ == node@.children[i as int]);
        let found = find_node_by_path(child, path);
        proof {
            let next = kids.take(i as int + 1);
            assert(next.drop_last() =~= kids.take(i as int));
            assert(next.last() == child@);
            lemma_first_with_path_concat(
                preorder_forest(kids.take(i as int)),
                preorder(child@),
                path@,
            );
            assert(preorder_forest(next) == preorder_forest(kids.take(i as int)) + preorder(
                child@,
            ));
            if found is Some {
                assert(first_with_path(preorder_forest(next), path@) == Some(found.unwrap()@));
                assert(kids =~= next + kids.skip(i as int + 1));
                lemma_preorder_forest_concat(next, kids.skip(i as int + 1));
                lemma_first_with_path_concat(
                    preorder_forest(next),
                    preorder_forest(kids.skip(i as int + 1)),
                    path@,
                );
                assert(first_with_path(preorder_forest(kids), path@) == Some(found.unwrap()@));
                assert(preorder(node@)[0] == node@);
                assert(preorder(node@).drop_first() =~= preorder_forest(kids));
                assert(first_with_path(preorder(node@), path@) == first_with_path(
                    preorder(node@).drop_first(),
                    path@,
                ));
            }
        }
        if found.is_some() {
            return found;
        }
        i += 1;
    }
    proof {
        assert(kids.take(i as int) =~= kids);
    }
    None
}

/// The depth-first order of `a + b` is that of `a` followed by that of `b`.
pub proof fn lemma_preorder_forest_concat(a: Seq<NodeView>, b: Seq<NodeView>)
    ensures
        preorder_forest(a + b) == preorder_forest(a) + preorder_forest(b),
    decreases b.len(),
{
    if b.len() == 0 {
        assert(a + b =~= a);
        assert(preorder_forest(a) + preorder_forest(b) =~= preorder_forest(a));
    } else {
        lemma_preorder_forest_concat(a, b.drop_last());
        assert((a + b).drop_last() =~= a + b.drop_last());
        assert((a + b).last() == b.last());
        assert(preorder_forest(a) + (preorder_forest(b.drop_last()) + preorder(b.last()))
            =~= (preorder_forest(a) + preorder_forest(b.drop_last())) + preorder(b.last()));
    }
}

proof fn lemma_wf_below(node: NodeView, i: int)
    requires
        node.wf(),
        0 <= i < preorder(node).len(),
    ensures
        preorder(node)[i].wf(),
    decreases node, 1nat,
{
    if i > 0 {
        lemma_wf_in_forest(node.children, i - 1);
    }
}

proof fn lemma_wf_in_forest(nodes: Seq<NodeView>, i: int)
    requires
        forall|k: int| 0 <= k < nodes.len() ==> (#[trigger] nodes[k]).wf(),
        0 <= i < preorder_forest(nodes).len(),
    ensures
        preorder_forest(nodes)[i].wf(),
    decreases nodes, 0nat,
{
    let front = preorder_forest(nodes.drop_last());
    if i < front.len() {
        assert forall|k: int| 0 <= k < nodes.drop_last().len() implies (
        #[trigger] nodes.drop_last()[k]).wf() by {
            assert(nodes.drop_last()[k] == nodes[k]);
        }
        lemma_wf_in_forest(nodes.drop_last(), i);
    } else {
        assert(nodes.last() == nodes[nodes.len() - 1]);
        lemma_wf_below(nodes.last(), i - front.len());
    }
}

/// In a well-formed tree every directory, at whatever depth, has as its
/// size the sum of its children's sizes and as its file count the sum of
/// their file counts; every file counts once.
pub proof fn lemma_every_directory_aggregates(root: NodeView, i: int)
    requires
        root.wf(),
        0 <= i < preorder(root).len(),
    ensures
        preorder(root)[i].is_dir ==> {
            &&& preorder(root)[i].size == total_size(preorder(root)[i].children)
            &&& preorder(root)[i].file_count == total_files(preorder(root)[i].children)
        },
        !preorder(root)[i].is_dir ==> preorder(root)[i].file_count == 1,
{
    lemma_wf_below(root, i);
}

/// In a well-formed tree the children of every directory, at whatever
/// depth, stand in descending order of size.
pub proof fn lemma_every_directory_sorted(root: NodeView, i: int)
    requires
        root.wf(),
        0 <= i < preorder(root).len(),
    ensures
        sorted_by_size(preorder(root)[i].children),
{
    lemma_wf_below(root, i);
}

/// A directory keeps children of equal size in the order in which they
/// were given: for every size, the children of that size read the same
/// in the directory as in the list it was made from.
pub proof fn lemma_directory_keeps_ties(
    name: Seq<char>,
    path: Seq<char>,
    children: Seq<NodeView>,
    size: nat,
)
    ensures
        with_size(dir_view(name, path, children).children, size) == with_size(children, size),
        sorted_by_size(dir_view(name, path, children).children),
        dir_view(name, path, children).children.len() == children.len(),
{
    lemma_stable_sort_is_stable(children);
}

} // verus!
