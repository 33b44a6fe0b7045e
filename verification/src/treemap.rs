//! Slice-and-dice treemap: a rectangle is cut into one slice per child,
//! each as wide as the child's share of the total size, and every slice is
//! cut again the other way for the child's own children.
//!
//! Coordinates are whole units on a grid whose origin is the top-left
//! corner. A rectangle covers the cells from `left` up to but not
//! including `right`, and from `top` up to but not including `bottom`.

use vstd::prelude::*;
use crate::node::{Node, NodeView, views, total_size, lemma_totals_concat};

verus! {

/// A slice narrower than this is not shown, and a rectangle no larger
/// than this in either direction is not cut up at all.
pub const MIN_EXTENT: u32 = 2;

/// The margin left between a block and the blocks of its children.
pub const INSET: u32 = 1;

/// Children are laid out below a block only while its depth is less than this.
pub const MAX_DEPTH: usize = 3;

/// An axis-aligned rectangle on the grid.
#[derive(Clone, Copy, Debug, PartialEq, Eq, Structural)]
pub struct Rect {
    pub left: u32,
    pub top: u32,
    pub right: u32,
    pub bottom: u32,
}

impl Rect {
    /// Number of columns covered; none if `right` lies before `left`.
    pub open spec fn spec_width(self) -> nat {
        if self.right >= self.left {
            (self.right - self.left) as nat
        } else {
            0
        }
    }

    /// Number of rows covered; none if `bottom` lies above `top`.
    pub open spec fn spec_height(self) -> nat {
        if self.bottom >= self.top {
            (self.bottom - self.top) as nat
        } else {
            0
        }
    }

    /// Number of cells covered.
    pub open spec fn area(self) -> nat {
        self.spec_width() * self.spec_height()
    }

    /// Whether the cell at column `x`, row `y` lies in the rectangle.
    pub open spec fn spec_contains(self, x: u32, y: u32) -> bool {
        self.left <= x < self.right && self.top <= y < self.bottom
    }

    /// Whether every cell of `self` is a cell of `outer`.
    pub open spec fn within(self, outer: Rect) -> bool {
        forall|x: u32, y: u32| self.spec_contains(x, y) ==> outer.spec_contains(x, y)
    }

    /// Whether `self` and `other` share no cell.
    pub open spec fn disjoint(self, other: Rect) -> bool {
        forall|x: u32, y: u32| !(self.spec_contains(x, y) && other.spec_contains(x, y))
    }

    /// The rectangle with `by` units taken off each of its four sides, or
    /// an empty rectangle at the top-left corner if it is too small for that.
    pub open spec fn spec_shrink(self, by: u32) -> Rect {
        if self.spec_width() >= 2 * by && self.spec_height() >= 2 * by {
            Rect {
                left: (self.left + by) as u32,
                top: (self.top + by) as u32,
                right: (self.right - by) as u32,
                bottom: (self.bottom - by) as u32,
            }
        } else {
            Rect { left: self.left, top: self.top, right: self.left, bottom: self.top }
        }
    }

    pub fn width(&self) -> (w: u32)
        ensures
            w == self.spec_width(),
    {
        if self.right >= self.left {
            self.right - self.left
        } else {
            0
        }
    }

    pub fn height(&self) -> (h: u32)
        ensures
            h == self.spec_height(),
    {
        if self.bottom >= self.top {
            self.bottom - self.top
        } else {
            0
        }
    }

    pub fn contains(&self, x: u32, y: u32) -> (inside: bool)
        ensures
            inside == self.spec_contains(x, y),
    {
        self.left <= x && x < self.right && self.top <= y && y < self.bottom
    }

    pub fn shrink(&self, by: u32) -> (inner: Rect)
        ensures
            inner == self.spec_shrink(by),
    {
        if self.width() / 2 >= by && self.height() / 2 >= by {
            Rect {
                left: self.left + by,
                top: self.top + by,
                right: self.right - by,
                bottom: self.bottom - by,
            }
        } else {
            Rect { left: self.left, top: self.top, right: self.left, bottom: self.top }
        }
    }
}

/// One block of the treemap: where a node is drawn, and what it is.
#[derive(Debug)]
pub struct Hit {
    pub rect: Rect,
    pub path: String,
    pub name: String,
    pub size: u64,
    pub is_dir: bool,
    pub depth: usize,
}

/// The mathematical value of a `Hit`.
pub struct HitView {
    pub rect: Rect,
    pub path: Seq<char>,
    pub name: Seq<char>,
    pub size: nat,
    pub is_dir: bool,
    pub depth: nat,
}

impl View for Hit {
    type V = HitView;

    open spec fn view(&self) -> HitView {
        HitView {
            rect: self.rect,
            path: self.path@,
            name: self.name@,
            size: self.size as nat,
            is_dir: self.is_dir,
            depth: self.depth as nat,
        }
    }
}

/// The views of a sequence of hits, element by element.
pub open spec fn hit_views(hits: Seq<Hit>) -> Seq<HitView> {
    Seq::new(hits.len(), |i: int| hits[i]@)
}

/// The block of `node` drawn at `rect`, `depth` levels below the top.
pub open spec fn hit_of(node: NodeView, rect: Rect, depth: nat) -> HitView {
    HitView {
        rect,
        path: node.path,
        name: node.name,
        size: node.size,
        is_dir: node.is_dir,
        depth,
    }
}

/// The length of `rect` along the axis that is being cut: its width for a
/// horizontal layout, its height for a vertical one.
pub open spec fn span(rect: Rect, horizontal: bool) -> nat {
    if horizontal {
        rect.spec_width()
    } else {
        rect.spec_height()
    }
}

/// Where the slice that follows nodes of combined size `before` begins,
/// measured from the near edge of a span of `len` units shared out over
/// `total`.
pub open spec fn slice_start(len: nat, before: nat, total: nat) -> nat {
    len * before / total
}

/// Where the slice that closes nodes of combined size `upto` ends: at its
/// share of the span, but never beyond the far edge.
pub open spec fn slice_end(len: nat, upto: nat, total: nat) -> nat {
    if len * upto / total < len {
        len * upto / total
    } else {
        len
    }
}

/// Start of the slice of `nodes[k]`, from the near edge of `rect`.
pub open spec fn start_of(rect: Rect, horizontal: bool, nodes: Seq<NodeView>, total: nat, k: int) -> nat {
    slice_start(span(rect, horizontal), total_size(nodes.take(k)), total)
}

/// End of the slice of `nodes[k]`, from the near edge of `rect`.
pub open spec fn end_of(rect: Rect, horizontal: bool, nodes: Seq<NodeView>, total: nat, k: int) -> nat {
    slice_end(span(rect, horizontal), total_size(nodes.take(k + 1)), total)
}

/// The part of `rect` between `start` and `end` along the axis being cut.
pub open spec fn slice_rect(rect: Rect, horizontal: bool, start: nat, end: nat) -> Rect {
    if horizontal {
        Rect {
            left: (rect.left + start) as u32,
            top: rect.top,
            right: (rect.left + end) as u32,
            bottom: rect.bottom,
        }
    } else {
        Rect {
            left: rect.left,
            top: (rect.top + start) as u32,
            right: rect.right,
            bottom: (rect.top + end) as u32,
        }
    }
}

/// The slice of `rect` that belongs to `nodes[k]`.
pub open spec fn child_rect(rect: Rect, horizontal: bool, nodes: Seq<NodeView>, total: nat, k: int) -> Rect {
    slice_rect(
        rect,
        horizontal,
        start_of(rect, horizontal, nodes, total, k),
        end_of(rect, horizontal, nodes, total, k),
    )
}

/// Whether `nodes[k]` gets a block: it has a size, and its slice is at
/// least `MIN_EXTENT` long. The other way the block is as long as the
/// rectangle, which is more than `MIN_EXTENT` wherever anything is laid out.
pub open spec fn is_shown(rect: Rect, horizontal: bool, nodes: Seq<NodeView>, total: nat, k: int) -> bool {
    &&& nodes[k].size > 0
    &&& start_of(rect, horizontal, nodes, total, k) + MIN_EXTENT <= end_of(
        rect,
        horizontal,
        nodes,
        total,
        k,
    )
}

/// The total over which a node's children share its block: the sum of
/// their sizes, or 1 if that is 0.
pub open spec fn share_total(children: Seq<NodeView>) -> nat {
    if total_size(children) == 0 {
        1
    } else {
        total_size(children)
    }
}

/// The blocks for `nodes` laid into `rect`, in the order in which they are
/// made: each node's block, then the blocks of its descendants, then the
/// next node. Nothing is made for an empty list or for a rectangle that
/// is no more than `MIN_EXTENT` wide or high.
pub open spec fn layout(rect: Rect, horizontal: bool, nodes: Seq<NodeView>, total: nat, depth: nat) -> Seq<HitView>
    decreases MAX_DEPTH - depth, 2nat, 0nat,
{
    if nodes.len() == 0 || rect.spec_width() <= MIN_EXTENT || rect.spec_height() <= MIN_EXTENT {
        Seq::empty()
    } else {
        blocks(rect, horizontal, nodes, total, depth, nodes.len())
    }
}

/// The blocks for the first `count` nodes of `nodes` and their descendants.
pub open spec fn blocks(
    rect: Rect,
    horizontal: bool,
    nodes: Seq<NodeView>,
    total: nat,
    depth: nat,
    count: nat,
) -> Seq<HitView>
    decreases MAX_DEPTH - depth, 1nat, count,
{
    if count == 0 {
        Seq::empty()
    } else {
        blocks(rect, horizontal, nodes, total, depth, (count - 1) as nat) + block(
            rect,
            horizontal,
            nodes,
            total,
            depth,
            count - 1,
        )
    }
}

/// The block of `nodes[k]`, if it is shown, followed by the blocks of its
/// descendants, which are laid the other way into its block less the inset.
pub open spec fn block(
    rect: Rect,
    horizontal: bool,
    nodes: Seq<NodeView>,
    total: nat,
    depth: nat,
    k: int,
) -> Seq<HitView>
    decreases MAX_DEPTH - depth, 0nat, 0nat,
{
    if !is_shown(rect, horizontal, nodes, total, k) {
        Seq::empty()
    } else {
        let r = child_rect(rect, horizontal, nodes, total, k);
        let below = if nodes[k].children.len() > 0 && depth < MAX_DEPTH {
            layout(
                r.spec_shrink(INSET),
                !horizontal,
                nodes[k].children,
                share_total(nodes[k].children),
                depth + 1,
            )
        } else {
            Seq::empty()
        };
        seq![hit_of(nodes[k], r, depth)] + below
    }
}

/// Facts about slices: they begin inside the span exactly when something
/// of the total is left for them, they never end beyond it, and a slice
/// that comes later begins no earlier.
pub proof fn lemma_slices(len: nat, before: nat, upto: nat, total: nat)
    requires
        total > 0,
        before <= upto,
    ensures
        slice_start(len, before, total) <= slice_start(len, upto, total),
        slice_end(len, before, total) <= slice_start(len, upto, total),
        slice_end(len, upto, total) <= len,
        before < total && len > 0 ==> slice_start(len, before, total) < len,
        before <= total ==> slice_start(len, before, total) <= len,
        before >= total ==> slice_start(len, before, total) >= len,
        upto <= total ==> slice_end(len, upto, total) == slice_start(len, upto, total),
        upto >= total ==> slice_end(len, upto, total) == len,
        slice_start(len, 0, total) == 0,
        len * before <= len * upto,
{
    let l = len as int;
    let t = total as int;
    assert(l * (before as int) <= l * (upto as int)) by (nonlinear_arith)
        requires
            0 <= l,
            before <= upto,
    ;
    vstd::arithmetic::div_mod::lemma_div_is_ordered(l * (before as int), l * (upto as int), t);
    vstd::arithmetic::div_mod::lemma_div_multiples_vanish(l, t);
    assert(t * l == l * t) by (nonlinear_arith);
    if before < total && len > 0 {
        assert(l * (before as int) < t * l) by (nonlinear_arith)
            requires
                0 < l,
                0 <= before < t,
        ;
        vstd::arithmetic::div_mod::lemma_multiply_divide_lt(l * (before as int), t, l);
    }
    if before <= total {
        assert(l * (before as int) <= t * l) by (nonlinear_arith)
            requires
                0 <= l,
                0 <= before <= t,
        ;
        vstd::arithmetic::div_mod::lemma_multiply_divide_le(l * (before as int), t, l);
    }
    if upto <= total {
        assert(l * (upto as int) <= t * l) by (nonlinear_arith)
            requires
                0 <= l,
                0 <= upto <= t,
        ;
        vstd::arithmetic::div_mod::lemma_multiply_divide_le(l * (upto as int), t, l);
    }
    if before >= total {
        assert(l * t <= l * (before as int)) by (nonlinear_arith)
            requires
                0 <= l,
                t <= before,
        ;
        vstd::arithmetic::div_mod::lemma_div_is_ordered(l * t, l * (before as int), t);
    }
    if upto >= total {
        assert(l * t <= l * (upto as int)) by (nonlinear_arith)
            requires
                0 <= l,
                t <= upto,
        ;
        vstd::arithmetic::div_mod::lemma_div_is_ordered(l * t, l * (upto as int), t);
    }
    assert(l * 0 == 0) by (nonlinear_arith);
}

proof fn lemma_hit_views_push(hits: Seq<Hit>, hit: Hit)
    ensures
        hit_views(hits.push(hit)) == hit_views(hits) + seq![hit@],
{
    assert(hit_views(hits.push(hit)) =~= hit_views(hits) + seq![hit@]);
}

/// Lays `nodes` into `rect` and appends their blocks to `hits`.
///
/// The rectangle is cut along its width if `horizontal`, else along its
/// height; each node gets the share `size / total` of it, in the order of
/// `nodes`. A node of size 0, or whose slice is less than `MIN_EXTENT`
/// long, gets no block. The children of a node with a block are laid the
/// other way into that block less `INSET` on each side, sharing it in
/// proportion to their sizes, as long as `depth` is less than `MAX_DEPTH`.
pub fn layout_treemap_rect(
    rect: Rect,
    horizontal: bool,
    nodes: &Vec<Node>,
    total: u64,
    hits: &mut Vec<Hit>,
    depth: usize,
)
    requires
        total > 0,
    ensures
        hit_views(final(hits)@) == hit_views(old(hits)@) + layout(
            rect,
            horizontal,
            views(nodes@),
            total as nat,
            depth as nat,
        ),
    decreases MAX_DEPTH - depth,
{
    let ghost given = views(nodes@);
    let ghost earlier = hit_views(hits@);
    if nodes.len() == 0 || rect.width() <= MIN_EXTENT || rect.height() <= MIN_EXTENT {
        proof {
            assert(earlier + Seq::<HitView>::empty() =~= earlier);
        }
        return ;
    }
    let len: u32 = if horizontal {
        rect.width()
    } else {
        rect.height()
    };
    let near: u32 = if horizontal {
        rect.left
    } else {
        rect.top
    };
    let mut before: u128 = 0;
    let mut k: usize = 0;
    proof {
        assert(given.take(0) =~= Seq::<NodeView>::empty());
        assert(earlier + Seq::<HitView>::empty() =~= earlier);
    }
    while k < nodes.len()
        invariant
            k <= nodes.len(),
            given == views(nodes@),
            total > 0,
            len == span(rect, horizontal),
            len > MIN_EXTENT,
            rect.spec_width() > MIN_EXTENT,
            rect.spec_height() > MIN_EXTENT,
            near == if horizontal {
                rect.left
            } else {
                rect.top
            },
            before == total_size(given.take(k as int)),
            before <= k * u64::MAX,
            hit_views(hits@) == earlier + blocks(
                rect,
                horizontal,
                given,
                total as nat,
                depth as nat,
                k as nat,
            ),
        decreases nodes.len() - k,
    {
        let node = &nodes[k];
        let size = node.size();
        let after: u128 = before + size as u128;
        let ghost shown_before = blocks(rect, horizontal, given, total as nat, depth as nat, k as nat);
        proof {
            let next = given.take(k as int + 1);
            assert(next.drop_last() =~= given.take(k as int));
            assert(next.last() == node@);
            assert(after == total_size(next));
            lemma_slices(len as nat, before as nat, after as nat, total as nat);
        }
        let mut shown = false;
        if size > 0 && before < total as u128 {
            assert(len * before <= 0xFFFF_FFFF * 0xFFFF_FFFF_FFFF_FFFF) by (nonlinear_arith)
                requires
                    0 <= len <= 0xFFFF_FFFF,
                    0 <= before <= 0xFFFF_FFFF_FFFF_FFFF,
            ;
            let start: u32 = (len as u128 * before / total as u128) as u32;
            let end: u32 = if after >= total as u128 {
                len
            } else {
                assert(len * after <= 0xFFFF_FFFF * 0xFFFF_FFFF_FFFF_FFFF) by (nonlinear_arith)
                    requires
                        0 <= len <= 0xFFFF_FFFF,
                        0 <= after <= 0xFFFF_FFFF_FFFF_FFFF,
                ;
                (len as u128 * after / total as u128) as u32
            };
            assert(start == start_of(rect, horizontal, given, total as nat, k as int));
            assert(end == end_of(rect, horizontal, given, total as nat, k as int));
            if end - start >= MIN_EXTENT {
                shown = true;
                let r = if horizontal {
                    Rect { left: near + start, top: rect.top, right: near + end, bottom: rect.bottom }
                } else {
                    Rect { left: rect.left, top: near + start, right: rect.right, bottom: near + end }
                };
                assert(r == child_rect(rect, horizontal, given, total as nat, k as int));
                let hit = Hit {
                    rect: r,
                    path: node.path().clone(),
                    name: node.name().clone(),
                    size,
                    is_dir: node.is_dir(),
                    depth,
                };
                proof {
                    lemma_hit_views_push(hits@, hit);
                    assert(hit@ == hit_of(node@, r, depth as nat));
                }
                hits.push(hit);
                let children = node.children();
                if children.len() > 0 && depth < MAX_DEPTH {
                    assert(share_total(node@.children) == size);
                    layout_treemap_rect(r.shrink(INSET), !horizontal, children, size, hits, depth + 1);
                }
                proof {
                    let made = block(rect, horizontal, given, total as nat, depth as nat, k as int);
                    assert(hit_views(hits@) =~= earlier + (shown_before + made));
                }
            }
        }
        proof {
            let made = block(rect, horizontal, given, total as nat, depth as nat, k as int);
            if !shown {
                assert(!is_shown(rect, horizontal, given, total as nat, k as int));
                assert(shown_before + made =~= shown_before);
            }
            assert(blocks(rect, horizontal, given, total as nat, depth as nat, (k + 1) as nat)
                == shown_before + made);
        }
        before = after;
        k = k + 1;
    }
    proof {
        assert(nodes@.len() == given.len());
    }
}

/// The treemap of the tree under `root` drawn into `rect`: the blocks of
/// its children, cut along the width first, then of theirs, and so on.
pub fn layout_treemap(rect: Rect, root: &Node) -> (hits: Vec<Hit>)
    ensures
        hit_views(hits@) == layout(rect, true, root@.children, share_total(root@.children), 0),
{
    let mut hits: Vec<Hit> = Vec::new();
    let children = root.children();
    let size = root.size();
    let total = if children.len() == 0 || size == 0 {
        1
    } else {
        size
    };
    proof {
        assert(hit_views(hits@) =~= Seq::<HitView>::empty());
        assert(Seq::<HitView>::empty() + layout(
            rect,
            true,
            root@.children,
            share_total(root@.children),
            0,
        ) =~= layout(rect, true, root@.children, share_total(root@.children), 0));
    }
    layout_treemap_rect(rect, true, children, total, &mut hits, 0);
    hits
}

/// The index of the last block of `hits` that holds the cell at column
/// `x`, row `y`. Blocks come in the order in which they were made, so this
/// is the block drawn on top of the others there.
pub open spec fn topmost_at(hits: Seq<HitView>, x: u32, y: u32) -> Option<int>
    decreases hits.len(),
{
    if hits.len() == 0 {
        None
    } else if hits.last().rect.spec_contains(x, y) {
        Some(hits.len() - 1)
    } else {
        topmost_at(hits.drop_last(), x, y)
    }
}

/// `topmost_at` finds a block that holds the cell, after which no block
/// holds it; it finds none only if none holds it.
pub proof fn lemma_topmost_at(hits: Seq<HitView>, x: u32, y: u32)
    ensures
        match topmost_at(hits, x, y) {
            Some(i) => {
                &&& 0 <= i < hits.len()
                &&& hits[i].rect.spec_contains(x, y)
                &&& forall|j: int| i < j < hits.len() ==> !hits[j].rect.spec_contains(x, y)
            },
            None => forall|j: int| 0 <= j < hits.len() ==> !hits[j].rect.spec_contains(x, y),
        },
    decreases hits.len(),
{
    if hits.len() > 0 && !hits.last().rect.spec_contains(x, y) {
        lemma_topmost_at(hits.drop_last(), x, y);
        match topmost_at(hits, x, y) {
            Some(i) => {
                assert(hits.drop_last()[i] == hits[i]);
                assert forall|j: int| i < j < hits.len() implies !hits[j].rect.spec_contains(
                    x,
                    y,
                ) by {
                    if j < hits.len() - 1 {
                        assert(hits.drop_last()[j] == hits[j]);
                    }
                }
            },
            None => {
                assert forall|j: int| 0 <= j < hits.len() implies !hits[j].rect.spec_contains(
                    x,
                    y,
                ) by {
                    if j < hits.len() - 1 {
                        assert(hits.drop_last()[j] == hits[j]);
                    }
                }
            },
        }
    }
}

/// Which block a pointer at column `x`, row `y` is on: the one made last
/// among those that hold the cell, so a block nested in another wins over it.
pub fn hit_test(hits: &Vec<Hit>, x: u32, y: u32) -> (found: Option<usize>)
    ensures
        match found {
            Some(i) => topmost_at(hit_views(hits@), x, y) == Some(i as int),
            None => topmost_at(hit_views(hits@), x, y) is None,
        },
{
    let ghost all = hit_views(hits@);
    let mut i: usize = hits.len();
    proof {
        assert(all.take(i as int) =~= all);
    }
    while i > 0
        invariant
            i <= hits.len(),
            all == hit_views(hits@),
            topmost_at(all, x, y) == topmost_at(all.take(i as int), x, y),
        decreases i,
    {
        proof {
            assert(all.take(i as int).drop_last() =~= all.take(i as int - 1));
            assert(all.take(i as int).last() == hits@[i as int - 1]@);
        }
        if hits[i - 1].rect.contains(x, y) {
            return Some(i - 1);
        }
        i = i - 1;
    }
    None
}

/// The combined size of the first `i` nodes is no more than that of the
/// first `j`, for `i` up to `j`.
pub proof fn lemma_prefix_grows(nodes: Seq<NodeView>, i: int, j: int)
    requires
        0 <= i <= j <= nodes.len(),
    ensures
        total_size(nodes.take(i)) <= total_size(nodes.take(j)),
        total_size(nodes.take(j)) <= total_size(nodes),
{
    assert(nodes.take(j) =~= nodes.take(i) + nodes.subrange(i, j));
    lemma_totals_concat(nodes.take(i), nodes.subrange(i, j));
    assert(nodes =~= nodes.take(j) + nodes.skip(j));
    lemma_totals_concat(nodes.take(j), nodes.skip(j));
}

/// The block of a node that is shown lies within the rectangle that was
/// cut, is at least `MIN_EXTENT` long along the cut, and spans the
/// rectangle the other way.
pub proof fn lemma_block_within(rect: Rect, horizontal: bool, nodes: Seq<NodeView>, total: nat, k: int)
    requires
        total > 0,
        0 <= k < nodes.len(),
        is_shown(rect, horizontal, nodes, total, k),
    ensures
        child_rect(rect, horizontal, nodes, total, k).within(rect),
        span(child_rect(rect, horizontal, nodes, total, k), horizontal) == end_of(
            rect,
            horizontal,
            nodes,
            total,
            k,
        ) - start_of(rect, horizontal, nodes, total, k),
        span(child_rect(rect, horizontal, nodes, total, k), horizontal) >= MIN_EXTENT,
        span(child_rect(rect, horizontal, nodes, total, k), !horizontal) == span(rect, !horizontal),
{
    lemma_prefix_grows(nodes, k, k + 1);
    lemma_slices(
        span(rect, horizontal),
        total_size(nodes.take(k)),
        total_size(nodes.take(k + 1)),
        total,
    );
}

/// The blocks of two nodes of one list share no cell.
pub proof fn lemma_siblings_disjoint(
    rect: Rect,
    horizontal: bool,
    nodes: Seq<NodeView>,
    total: nat,
    i: int,
    j: int,
)
    requires
        total > 0,
        0 <= i < j < nodes.len(),
        is_shown(rect, horizontal, nodes, total, i),
        is_shown(rect, horizontal, nodes, total, j),
    ensures
        child_rect(rect, horizontal, nodes, total, i).disjoint(
            child_rect(rect, horizontal, nodes, total, j),
        ),
        end_of(rect, horizontal, nodes, total, i) <= start_of(rect, horizontal, nodes, total, j),
{
    let len = span(rect, horizontal);
    lemma_prefix_grows(nodes, i, i + 1);
    lemma_prefix_grows(nodes, i + 1, j);
    lemma_prefix_grows(nodes, j, j + 1);
    lemma_slices(len, total_size(nodes.take(i)), total_size(nodes.take(i + 1)), total);
    lemma_slices(len, total_size(nodes.take(i + 1)), total_size(nodes.take(j)), total);
    lemma_slices(len, total_size(nodes.take(j)), total_size(nodes.take(j + 1)), total);
}

/// When the nodes share out exactly their own combined size, their slices
/// tile the span: the first begins at the near edge, each begins where
/// the one before it ended, and the last ends at the far edge. A slice
/// that gets no block is shorter than `MIN_EXTENT`.
pub proof fn lemma_slices_tile(rect: Rect, horizontal: bool, nodes: Seq<NodeView>, k: int)
    requires
        total_size(nodes) > 0,
        0 <= k < nodes.len(),
    ensures
        start_of(rect, horizontal, nodes, total_size(nodes), 0) == 0,
        start_of(rect, horizontal, nodes, total_size(nodes), k) <= end_of(
            rect,
            horizontal,
            nodes,
            total_size(nodes),
            k,
        ),
        end_of(rect, horizontal, nodes, total_size(nodes), k) == start_of(
            rect,
            horizontal,
            nodes,
            total_size(nodes),
            k + 1,
        ),
        end_of(rect, horizontal, nodes, total_size(nodes), nodes.len() - 1) == span(
            rect,
            horizontal,
        ),
        !is_shown(rect, horizontal, nodes, total_size(nodes), k) ==> end_of(
            rect,
            horizontal,
            nodes,
            total_size(nodes),
            k,
        ) - start_of(rect, horizontal, nodes, total_size(nodes), k) < MIN_EXTENT,
{
    let len = span(rect, horizontal);
    let total = total_size(nodes);
    let n = nodes.len() as int;
    lemma_prefix_grows(nodes, 0, k);
    lemma_prefix_grows(nodes, k, k + 1);
    lemma_prefix_grows(nodes, k + 1, n);
    assert(nodes.take(0) =~= Seq::<NodeView>::empty());
    assert(nodes.take(n) =~= nodes);
    lemma_slices(len, 0, total_size(nodes.take(k)), total);
    lemma_slices(len, total_size(nodes.take(k)), total_size(nodes.take(k + 1)), total);
    lemma_slices(len, total_size(nodes.take(k + 1)), total, total);
    assert(nodes.take(k + 1).drop_last() =~= nodes.take(k));
    assert(nodes.take(k + 1).last() == nodes[k]);
}

/// Combined length, along the cut, of the blocks of the first `count` nodes.
pub open spec fn shown_length(
    rect: Rect,
    horizontal: bool,
    nodes: Seq<NodeView>,
    total: nat,
    count: nat,
) -> nat
    decreases count,
{
    if count == 0 {
        0
    } else {
        let k = count - 1;
        shown_length(rect, horizontal, nodes, total, k as nat) + if is_shown(
            rect,
            horizontal,
            nodes,
            total,
            k,
        ) {
            (end_of(rect, horizontal, nodes, total, k) - start_of(rect, horizontal, nodes, total, k)) as nat
        } else {
            0
        }
    }
}

/// Combined area of the blocks of the first `count` nodes.
pub open spec fn shown_area(
    rect: Rect,
    horizontal: bool,
    nodes: Seq<NodeView>,
    total: nat,
    count: nat,
) -> nat
    decreases count,
{
    if count == 0 {
        0
    } else {
        let k = count - 1;
        shown_area(rect, horizontal, nodes, total, k as nat) + if is_shown(
            rect,
            horizontal,
            nodes,
            total,
            k,
        ) {
            child_rect(rect, horizontal, nodes, total, k).area()
        } else {
            0
        }
    }
}

proof fn lemma_shown_length(rect: Rect, horizontal: bool, nodes: Seq<NodeView>, count: nat)
    requires
        total_size(nodes) > 0,
        count <= nodes.len(),
    ensures
        shown_length(rect, horizontal, nodes, total_size(nodes), count) <= start_of(
            rect,
            horizontal,
            nodes,
            total_size(nodes),
            count as int,
        ),
        start_of(rect, horizontal, nodes, total_size(nodes), count as int) <= shown_length(
            rect,
            horizontal,
            nodes,
            total_size(nodes),
            count,
        ) + (MIN_EXTENT - 1) * count,
        shown_area(rect, horizontal, nodes, total_size(nodes), count) == shown_length(
            rect,
            horizontal,
            nodes,
            total_size(nodes),
            count,
        ) * span(rect, !horizontal),
    decreases count,
{
    let total = total_size(nodes);
    if count == 0 {
        assert(nodes.take(0) =~= Seq::<NodeView>::empty());
        lemma_slices(span(rect, horizontal), 0, 0, total);
        assert(0 * span(rect, !horizontal) == 0) by (nonlinear_arith);
    } else {
        let k = (count - 1) as int;
        lemma_shown_length(rect, horizontal, nodes, k as nat);
        lemma_slices_tile(rect, horizontal, nodes, k);
        let before = shown_length(rect, horizontal, nodes, total, k as nat);
        let cross = span(rect, !horizontal);
        if is_shown(rect, horizontal, nodes, total, k) {
            lemma_block_within(rect, horizontal, nodes, total, k);
            let r = child_rect(rect, horizontal, nodes, total, k);
            let piece = span(r, horizontal);
            assert(r.area() == piece * cross) by (nonlinear_arith)
                requires
                    r.area() == r.spec_width() * r.spec_height(),
                    (piece == r.spec_width() && cross == r.spec_height()) || (piece
                        == r.spec_height() && cross == r.spec_width()),
            ;
            assert((before + piece) * cross == before * cross + piece * cross)
                by (nonlinear_arith);
        }
    }
}

/// When the nodes share out exactly their own combined size, their blocks
/// fill the rectangle up to what the slices too short to show leave out:
/// the combined area of the blocks is no more than the rectangle's, and
/// falls short of it by less than a strip `MIN_EXTENT` long for every node.
pub proof fn lemma_blocks_fill_rect(rect: Rect, horizontal: bool, nodes: Seq<NodeView>)
    requires
        total_size(nodes) > 0,
    ensures
        shown_area(rect, horizontal, nodes, total_size(nodes), nodes.len()) <= rect.area(),
        rect.area() <= shown_area(rect, horizontal, nodes, total_size(nodes), nodes.len()) + (
        MIN_EXTENT - 1) * nodes.len() * span(rect, !horizontal),
{
    let total = total_size(nodes);
    let n = nodes.len();
    let len = span(rect, horizontal);
    let cross = span(rect, !horizontal);
    let shown = shown_length(rect, horizontal, nodes, total, n);
    lemma_shown_length(rect, horizontal, nodes, n);
    assert(nodes.take(n as int) =~= nodes);
    lemma_slices(len, total, total, total);
    assert(start_of(rect, horizontal, nodes, total, n as int) == len);
    assert(rect.area() == len * cross) by (nonlinear_arith)
        requires
            rect.area() == rect.spec_width() * rect.spec_height(),
            (len == rect.spec_width() && cross == rect.spec_height()) || (len
                == rect.spec_height() && cross == rect.spec_width()),
    ;
    assert(shown * cross <= len * cross) by (nonlinear_arith)
        requires
            shown <= len,
            cross >= 0,
    ;
    assert(len * cross <= (shown + (MIN_EXTENT - 1) * n) * cross) by (nonlinear_arith)
        requires
            len <= shown + (MIN_EXTENT - 1) * n,
            cross >= 0,
    ;
    assert((shown + (MIN_EXTENT - 1) * n) * cross == shown * cross + (MIN_EXTENT - 1) * n * cross)
        by (nonlinear_arith);
}

/// A rectangle shrunk lies within the rectangle.
pub proof fn lemma_shrink_within(rect: Rect, by: u32)
    ensures
        rect.spec_shrink(by).within(rect),
{
}

proof fn lemma_layout_within(
    rect: Rect,
    horizontal: bool,
    nodes: Seq<NodeView>,
    total: nat,
    depth: nat,
    i: int,
)
    requires
        total > 0,
        0 <= i < layout(rect, horizontal, nodes, total, depth).len(),
    ensures
        layout(rect, horizontal, nodes, total, depth)[i].rect.within(rect),
    decreases MAX_DEPTH - depth, 2nat, 0nat,
{
    let k = lemma_blocks_within(rect, horizontal, nodes, total, depth, nodes.len(), i);
    lemma_block_within(rect, horizontal, nodes, total, k);
}

proof fn lemma_blocks_within(
    rect: Rect,
    horizontal: bool,
    nodes: Seq<NodeView>,
    total: nat,
    depth: nat,
    count: nat,
    i: int,
) -> (k: int)
    requires
        total > 0,
        count <= nodes.len(),
        0 <= i < blocks(rect, horizontal, nodes, total, depth, count).len(),
    ensures
        0 <= k < count,
        is_shown(rect, horizontal, nodes, total, k),
        blocks(rect, horizontal, nodes, total, depth, count)[i].rect.within(
            child_rect(rect, horizontal, nodes, total, k),
        ),
    decreases MAX_DEPTH - depth, 1nat, count,
{
    let front = blocks(rect, horizontal, nodes, total, depth, (count - 1) as nat);
    if i < front.len() {
        lemma_blocks_within(rect, horizontal, nodes, total, depth, (count - 1) as nat, i)
    } else {
        lemma_block_hits_within(rect, horizontal, nodes, total, depth, count - 1, i - front.len());
        count - 1
    }
}

proof fn lemma_block_hits_within(
    rect: Rect,
    horizontal: bool,
    nodes: Seq<NodeView>,
    total: nat,
    depth: nat,
    k: int,
    i: int,
)
    requires
        total > 0,
        0 <= k < nodes.len(),
        0 <= i < block(rect, horizontal, nodes, total, depth, k).len(),
    ensures
        is_shown(rect, horizontal, nodes, total, k),
        block(rect, horizontal, nodes, total, depth, k)[i].rect.within(
            child_rect(rect, horizontal, nodes, total, k),
        ),
    decreases MAX_DEPTH - depth, 0nat, 0nat,
{
    if i > 0 {
        let r = child_rect(rect, horizontal, nodes, total, k);
        lemma_layout_within(
            r.spec_shrink(INSET),
            !horizontal,
            nodes[k].children,
            share_total(nodes[k].children),
            depth + 1,
            i - 1,
        );
        lemma_shrink_within(r, INSET);
    }
}

proof fn lemma_layout_nested(
    rect: Rect,
    horizontal: bool,
    nodes: Seq<NodeView>,
    total: nat,
    depth: nat,
    i: int,
    j: int,
    x: u32,
    y: u32,
)
    requires
        total > 0,
        0 <= i < j < layout(rect, horizontal, nodes, total, depth).len(),
        layout(rect, horizontal, nodes, total, depth)[i].rect.spec_contains(x, y),
        layout(rect, horizontal, nodes, total, depth)[j].rect.spec_contains(x, y),
    ensures
        layout(rect, horizontal, nodes, total, depth)[j].rect.within(
            layout(rect, horizontal, nodes, total, depth)[i].rect,
        ),
    decreases MAX_DEPTH - depth, 2nat, 0nat,
{
    lemma_blocks_nested(rect, horizontal, nodes, total, depth, nodes.len(), i, j, x, y);
}

proof fn lemma_blocks_nested(
    rect: Rect,
    horizontal: bool,
    nodes: Seq<NodeView>,
    total: nat,
    depth: nat,
    count: nat,
    i: int,
    j: int,
    x: u32,
    y: u32,
)
    requires
        total > 0,
        count <= nodes.len(),
        0 <= i < j < blocks(rect, horizontal, nodes, total, depth, count).len(),
        blocks(rect, horizontal, nodes, total, depth, count)[i].rect.spec_contains(x, y),
        blocks(rect, horizontal, nodes, total, depth, count)[j].rect.spec_contains(x, y),
    ensures
        blocks(rect, horizontal, nodes, total, depth, count)[j].rect.within(
            blocks(rect, horizontal, nodes, total, depth, count)[i].rect,
        ),
    decreases MAX_DEPTH - depth, 1nat, count,
{
    let front = blocks(rect, horizontal, nodes, total, depth, (count - 1) as nat);
    let k = count - 1;
    if j < front.len() {
        lemma_blocks_nested(rect, horizontal, nodes, total, depth, (count - 1) as nat, i, j, x, y);
    } else if i >= front.len() {
        lemma_block_nested(
            rect,
            horizontal,
            nodes,
            total,
            depth,
            k,
            i - front.len(),
            j - front.len(),
            x,
            y,
        );
    } else {
        let earlier = lemma_blocks_within(
            rect,
            horizontal,
            nodes,
            total,
            depth,
            (count - 1) as nat,
            i,
        );
        lemma_block_hits_within(rect, horizontal, nodes, total, depth, k, j - front.len());
        lemma_siblings_disjoint(rect, horizontal, nodes, total, earlier, k);
        assert(child_rect(rect, horizontal, nodes, total, earlier).spec_contains(x, y));
        assert(child_rect(rect, horizontal, nodes, total, k).spec_contains(x, y));
    }
}

proof fn lemma_block_nested(
    rect: Rect,
    horizontal: bool,
    nodes: Seq<NodeView>,
    total: nat,
    depth: nat,
    k: int,
    i: int,
    j: int,
    x: u32,
    y: u32,
)
    requires
        total > 0,
        0 <= k < nodes.len(),
        0 <= i < j < block(rect, horizontal, nodes, total, depth, k).len(),
        block(rect, horizontal, nodes, total, depth, k)[i].rect.spec_contains(x, y),
        block(rect, horizontal, nodes, total, depth, k)[j].rect.spec_contains(x, y),
    ensures
        block(rect, horizontal, nodes, total, depth, k)[j].rect.within(
            block(rect, horizontal, nodes, total, depth, k)[i].rect,
        ),
    decreases MAX_DEPTH - depth, 0nat, 0nat,
{
    let r = child_rect(rect, horizontal, nodes, total, k);
    if i == 0 {
        lemma_block_hits_within(rect, horizontal, nodes, total, depth, k, j);
    } else {
        lemma_layout_nested(
            r.spec_shrink(INSET),
            !horizontal,
            nodes[k].children,
            share_total(nodes[k].children),
            depth + 1,
            i - 1,
            j - 1,
            x,
            y,
        );
    }
}

proof fn lemma_layout_depths(
    rect: Rect,
    horizontal: bool,
    nodes: Seq<NodeView>,
    total: nat,
    depth: nat,
    i: int,
)
    requires
        0 <= i < layout(rect, horizontal, nodes, total, depth).len(),
    ensures
        depth <= layout(rect, horizontal, nodes, total, depth)[i].depth,
        layout(rect, horizontal, nodes, total, depth)[i].depth <= MAX_DEPTH
            || layout(rect, horizontal, nodes, total, depth)[i].depth == depth,
    decreases MAX_DEPTH - depth, 2nat, 0nat,
{
    lemma_blocks_depths(rect, horizontal, nodes, total, depth, nodes.len(), i);
}

proof fn lemma_blocks_depths(
    rect: Rect,
    horizontal: bool,
    nodes: Seq<NodeView>,
    total: nat,
    depth: nat,
    count: nat,
    i: int,
)
    requires
        0 <= i < blocks(rect, horizontal, nodes, total, depth, count).len(),
    ensures
        depth <= blocks(rect, horizontal, nodes, total, depth, count)[i].depth,
        blocks(rect, horizontal, nodes, total, depth, count)[i].depth <= MAX_DEPTH || blocks(
            rect,
            horizontal,
            nodes,
            total,
            depth,
            count,
        )[i].depth == depth,
    decreases MAX_DEPTH - depth, 1nat, count,
{
    let front = blocks(rect, horizontal, nodes, total, depth, (count - 1) as nat);
    let k = count - 1;
    let own = block(rect, horizontal, nodes, total, depth, k);
    assert(blocks(rect, horizontal, nodes, total, depth, count) == front + own);
    if i < front.len() {
        lemma_blocks_depths(rect, horizontal, nodes, total, depth, (count - 1) as nat, i);
    } else if i > front.len() {
        let r = child_rect(rect, horizontal, nodes, total, k);
        assert(own.len() > 1);
        assert(depth < MAX_DEPTH);
        lemma_layout_depths(
            r.spec_shrink(INSET),
            !horizontal,
            nodes[k].children,
            share_total(nodes[k].children),
            depth + 1,
            i - front.len() - 1,
        );
    }
}

/// The blocks of a layout that starts at `depth` are no higher up than
/// `depth`, and none lies deeper than `MAX_DEPTH`: below a block at that
/// depth nothing is laid out.
pub proof fn lemma_blocks_stop_at_max_depth(
    rect: Rect,
    horizontal: bool,
    nodes: Seq<NodeView>,
    total: nat,
    depth: nat,
    i: int,
)
    requires
        depth <= MAX_DEPTH,
        0 <= i < layout(rect, horizontal, nodes, total, depth).len(),
    ensures
        depth <= layout(rect, horizontal, nodes, total, depth)[i].depth <= MAX_DEPTH,
{
    lemma_layout_depths(rect, horizontal, nodes, total, depth, i);
}

/// Every block of a layout lies within the rectangle that was laid out.
pub proof fn lemma_blocks_stay_inside(
    rect: Rect,
    horizontal: bool,
    nodes: Seq<NodeView>,
    total: nat,
    depth: nat,
    i: int,
)
    requires
        total > 0,
        0 <= i < layout(rect, horizontal, nodes, total, depth).len(),
    ensures
        layout(rect, horizontal, nodes, total, depth)[i].rect.within(rect),
{
    lemma_layout_within(rect, horizontal, nodes, total, depth, i);
}

/// In a layout, the block found at a cell is the innermost there: it lies
/// within every block that holds the cell. So a block nested in another
/// is found, not the one around it.
pub proof fn lemma_topmost_is_innermost(
    rect: Rect,
    horizontal: bool,
    nodes: Seq<NodeView>,
    total: nat,
    depth: nat,
    x: u32,
    y: u32,
    i: int,
)
    requires
        total > 0,
        0 <= i < layout(rect, horizontal, nodes, total, depth).len(),
        layout(rect, horizontal, nodes, total, depth)[i].rect.spec_contains(x, y),
    ensures
        topmost_at(layout(rect, horizontal, nodes, total, depth), x, y) is Some,
        ({
            let hits = layout(rect, horizontal, nodes, total, depth);
            let found = topmost_at(hits, x, y)->Some_0;
            0 <= i <= found < hits.len() && hits[found].rect.within(hits[i].rect)
        }),
{
    let hits = layout(rect, horizontal, nodes, total, depth);
    lemma_topmost_at(hits, x, y);
    let found = topmost_at(hits, x, y)->Some_0;
    if i < found {
        lemma_layout_nested(rect, horizontal, nodes, total, depth, i, found, x, y);
    }
}

} // verus!
