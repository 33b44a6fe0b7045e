//! Ordering of sibling nodes: descending by size, with nodes of equal size
//! kept in the order in which they were given.

use vstd::prelude::*;
use crate::node::{Node, NodeView, views, total_size, total_files, sorted_by_size};

verus! {

/// The nodes of `nodes` whose size is `size`, in their order of appearance.
pub open spec fn with_size(nodes: Seq<NodeView>, size: nat) -> Seq<NodeView>
    decreases nodes.len(),
{
    if nodes.len() == 0 {
        Seq::empty()
    } else if nodes.last().size == size {
        with_size(nodes.drop_last(), size).push(nodes.last())
    } else {
        with_size(nodes.drop_last(), size)
    }
}

/// For every size, the nodes of that size appear in `output` exactly as
/// they do in `input`: none lost, none added, none overtaking another.
pub open spec fn keeps_order_within_sizes(input: Seq<NodeView>, output: Seq<NodeView>) -> bool {
    forall|size: nat| #[trigger] with_size(output, size) == with_size(input, size)
}

/// `output` is `input` rearranged into descending order of size without
/// disturbing the relative order of nodes of equal size.
pub open spec fn is_stable_sort(input: Seq<NodeView>, output: Seq<NodeView>) -> bool {
    &&& sorted_by_size(output)
    &&& keeps_order_within_sizes(input, output)
}

/// `sorted` with `node` placed behind every node at least as large.
pub open spec fn insert_by_size(sorted: Seq<NodeView>, node: NodeView) -> Seq<NodeView>
    decreases sorted.len(),
{
    if sorted.len() == 0 || sorted.last().size >= node.size {
        sorted.push(node)
    } else {
        insert_by_size(sorted.drop_last(), node).push(sorted.last())
    }
}

/// `nodes` in descending order of size, ties in their given order.
pub open spec fn stable_sort(nodes: Seq<NodeView>) -> Seq<NodeView>
    decreases nodes.len(),
{
    if nodes.len() == 0 {
        Seq::empty()
    } else {
        insert_by_size(stable_sort(nodes.drop_last()), nodes.last())
    }
}

/// Adding a node at the end adds it to the nodes of its own size and
/// leaves the nodes of every other size as they were.
pub proof fn lemma_with_size_push(nodes: Seq<NodeView>, node: NodeView, size: nat)
    ensures
        with_size(nodes.push(node), size) == if node.size == size {
            with_size(nodes, size).push(node)
        } else {
            with_size(nodes, size)
        },
{
    assert(nodes.push(node).drop_last() =~= nodes);
}

/// The nodes of one size in `a + b` are those in `a` followed by those in `b`.
pub proof fn lemma_with_size_concat(a: Seq<NodeView>, b: Seq<NodeView>, size: nat)
    ensures
        with_size(a + b, size) == with_size(a, size) + with_size(b, size),
    decreases b.len(),
{
    if b.len() == 0 {
        assert(a + b =~= a);
        assert(with_size(a, size) + with_size(b, size) =~= with_size(a, size));
    } else {
        lemma_with_size_concat(a, b.drop_last(), size);
        assert((a + b).drop_last() =~= a + b.drop_last());
        assert((a + b).last() == b.last());
        if b.last().size == size {
            assert(with_size(a, size) + with_size(b.drop_last(), size).push(b.last()) =~= (
            with_size(a, size) + with_size(b.drop_last(), size)).push(b.last()));
        }
    }
}

/// Every node of `with_size(nodes, size)` is a node of `nodes` of that size.
pub proof fn lemma_with_size_members(nodes: Seq<NodeView>, size: nat)
    ensures
        with_size(nodes, size).len() <= nodes.len(),
        forall|i: int|
            0 <= i < with_size(nodes, size).len() ==> (#[trigger] with_size(nodes, size)[i]).size
                == size && nodes.contains(with_size(nodes, size)[i]),
        forall|i: int|
            0 <= i < nodes.len() && nodes[i].size == size ==> with_size(nodes, size).len() > 0,
    decreases nodes.len(),
{
    if nodes.len() > 0 {
        let rest = nodes.drop_last();
        lemma_with_size_members(rest, size);
        assert forall|i: int| 0 <= i < with_size(nodes, size).len() implies (#[trigger] with_size(
            nodes,
            size,
        )[i]).size == size && nodes.contains(with_size(nodes, size)[i]) by {
            let x = with_size(nodes, size)[i];
            if i < with_size(rest, size).len() {
                assert(x == with_size(rest, size)[i]);
                assert(rest.contains(x));
                let j = choose|j: int| 0 <= j < rest.len() && rest[j] == x;
                assert(nodes[j] == x);
            } else {
                assert(x == nodes.last());
                assert(nodes[nodes.len() - 1] == x);
            }
        }
        assert forall|i: int| 0 <= i < nodes.len() && nodes[i].size == size implies with_size(
            nodes,
            size,
        ).len() > 0 by {
            if i < nodes.len() - 1 {
                assert(rest[i] == nodes[i]);
            }
        }
    }
}

proof fn lemma_insert_by_size(sorted: Seq<NodeView>, node: NodeView)
    requires
        sorted_by_size(sorted),
    ensures
        sorted_by_size(insert_by_size(sorted, node)),
        insert_by_size(sorted, node).len() == sorted.len() + 1,
        forall|i: int|
            0 <= i < sorted.len() + 1 ==> (#[trigger] insert_by_size(sorted, node)[i]).size
                >= if sorted.len() > 0 && sorted.last().size < node.size {
                sorted.last().size
            } else {
                node.size
            },
        forall|size: nat| #[trigger]
            with_size(insert_by_size(sorted, node), size) == with_size(sorted.push(node), size),
        total_size(insert_by_size(sorted, node)) == total_size(sorted) + node.size,
        total_files(insert_by_size(sorted, node)) == total_files(sorted) + node.file_count,
    decreases sorted.len(),
{
    let out = insert_by_size(sorted, node);
    if sorted.len() == 0 || sorted.last().size >= node.size {
        assert(sorted.push(node).drop_last() =~= sorted);
    } else {
        let rest = sorted.drop_last();
        let last = sorted.last();
        lemma_insert_by_size(rest, node);
        let inner = insert_by_size(rest, node);
        assert(out == inner.push(last));
        assert(out.drop_last() =~= inner);
        assert(sorted =~= rest.push(last));
        assert forall|i: int, j: int| 0 <= i <= j < out.len() implies out[i].size
            >= out[j].size by {
            if j < inner.len() {
            } else {
                if i < inner.len() {
                    assert(inner[i].size >= if rest.len() > 0 && rest.last().size < node.size {
                        rest.last().size
                    } else {
                        node.size
                    });
                    if rest.len() > 0 {
                        assert(rest.last() == sorted[sorted.len() - 2]);
                    }
                }
            }
        }
        assert forall|i: int| 0 <= i < sorted.len() + 1 implies (#[trigger] out[i]).size
            >= last.size by {
            if i < inner.len() {
                assert(inner[i].size >= if rest.len() > 0 && rest.last().size < node.size {
                    rest.last().size
                } else {
                    node.size
                });
                if rest.len() > 0 {
                    assert(rest.last() == sorted[sorted.len() - 2]);
                }
            }
        }
        assert forall|size: nat| #[trigger]
            with_size(out, size) == with_size(sorted.push(node), size) by {
            lemma_with_size_push(inner, last, size);
            lemma_with_size_push(rest, node, size);
            lemma_with_size_push(sorted, node, size);
            lemma_with_size_push(rest, last, size);
            if last.size == size {
                assert(node.size != size);
            }
        }
        assert(total_size(sorted) == total_size(rest) + last.size);
        assert(total_files(sorted) == total_files(rest) + last.file_count);
    }
}

/// `stable_sort` orders by descending size, keeps nodes of equal size in
/// their given order, and keeps the totals.
pub proof fn lemma_stable_sort_is_stable(nodes: Seq<NodeView>)
    ensures
        is_stable_sort(nodes, stable_sort(nodes)),
        stable_sort(nodes).len() == nodes.len(),
        total_size(stable_sort(nodes)) == total_size(nodes),
        total_files(stable_sort(nodes)) == total_files(nodes),
    decreases nodes.len(),
{
    if nodes.len() > 0 {
        let rest = nodes.drop_last();
        lemma_stable_sort_is_stable(rest);
        lemma_insert_by_size(stable_sort(rest), nodes.last());
        assert(nodes =~= rest.push(nodes.last()));
        assert forall|size: nat| #[trigger]
            with_size(stable_sort(nodes), size) == with_size(nodes, size) by {
            lemma_with_size_push(stable_sort(rest), nodes.last(), size);
            lemma_with_size_push(rest, nodes.last(), size);
            assert(with_size(stable_sort(rest), size) == with_size(rest, size));
        }
    }
}

proof fn lemma_insert_permutes(sorted: Seq<NodeView>, node: NodeView)
    ensures
        insert_by_size(sorted, node).to_multiset() == sorted.to_multiset().insert(node),
    decreases sorted.len(),
{
    broadcast use vstd::seq_lib::to_multiset_build;

    if !(sorted.len() == 0 || sorted.last().size >= node.size) {
        let rest = sorted.drop_last();
        let last = sorted.last();
        lemma_insert_permutes(rest, node);
        assert(sorted =~= rest.push(last));
        assert(rest.to_multiset().insert(node).insert(last) =~= rest.to_multiset().insert(
            last,
        ).insert(node));
    }
}

/// `stable_sort` rearranges: every node is in the result as often as it
/// was given.
pub proof fn lemma_stable_sort_permutes(nodes: Seq<NodeView>)
    ensures
        stable_sort(nodes).to_multiset() == nodes.to_multiset(),
    decreases nodes.len(),
{
    broadcast use vstd::seq_lib::to_multiset_build;

    if nodes.len() == 0 {
        assert(stable_sort(nodes) =~= nodes);
    } else {
        lemma_stable_sort_permutes(nodes.drop_last());
        lemma_insert_permutes(stable_sort(nodes.drop_last()), nodes.last());
        assert(nodes =~= nodes.drop_last().push(nodes.last()));
    }
}

/// Two sequences in descending order of size that agree on the nodes of
/// every size are the same sequence: a stable sort has one result.
pub proof fn lemma_stable_order_unique(a: Seq<NodeView>, b: Seq<NodeView>)
    requires
        sorted_by_size(a),
        sorted_by_size(b),
        keeps_order_within_sizes(a, b),
    ensures
        a == b,
    decreases a.len(),
{
    if a.len() == 0 {
        if b.len() > 0 {
            lemma_with_size_members(b, b.last().size);
            assert(b[b.len() - 1].size == b.last().size);
            assert(with_size(b, b.last().size) == with_size(a, b.last().size));
        }
        assert(a =~= b);
    } else {
        let x = a.last();
        let k = x.size;
        lemma_with_size_members(a, k);
        lemma_with_size_members(b, k);
        assert(a[a.len() - 1].size == k);
        assert(with_size(b, k) == with_size(a, k));
        let y = b.last();
        let ky = y.size;
        lemma_with_size_members(a, ky);
        lemma_with_size_members(b, ky);
        assert(b[b.len() - 1].size == ky);
        assert(with_size(b, ky) == with_size(a, ky));
        assert(k >= ky) by {
            let e = with_size(b, k)[0];
            assert(b.contains(e));
            let j = choose|j: int| 0 <= j < b.len() && b[j] == e;
            assert(b[j].size >= b[b.len() - 1].size);
        }
        assert(ky >= k) by {
            let e = with_size(a, ky)[0];
            assert(a.contains(e));
            let j = choose|j: int| 0 <= j < a.len() && a[j] == e;
            assert(a[j].size >= a[a.len() - 1].size);
        }
        let a1 = a.drop_last();
        let b1 = b.drop_last();
        assert(with_size(a, k) == with_size(a1, k).push(x));
        assert(with_size(b, k) == with_size(b1, k).push(y));
        assert(with_size(a, k).last() == x);
        assert(with_size(b, k).last() == y);
        assert(x == y);
        assert forall|size: nat| #[trigger] with_size(b1, size) == with_size(a1, size) by {
            assert(with_size(b, size) == with_size(a, size));
            if size == k {
                assert(with_size(a1, k) =~= with_size(a, k).drop_last());
                assert(with_size(b1, k) =~= with_size(b, k).drop_last());
            }
        }
        lemma_stable_order_unique(a1, b1);
        assert(a =~= a1.push(x));
        assert(b =~= b1.push(y));
    }
}

/// Whatever rearrangement of `input` is a stable sort of it is `stable_sort(input)`.
pub proof fn lemma_stable_sort_characterised(input: Seq<NodeView>, output: Seq<NodeView>)
    requires
        is_stable_sort(input, output),
    ensures
        output == stable_sort(input),
{
    lemma_stable_sort_is_stable(input);
    assert forall|size: nat| #[trigger]
        with_size(stable_sort(input), size) == with_size(output, size) by {
        assert(with_size(output, size) == with_size(input, size));
    }
    lemma_stable_order_unique(output, stable_sort(input));
}

/// The nodes of `nodes` in the opposite order.
fn reversed(nodes: Vec<Node>) -> (out: Vec<Node>)
    ensures
        out@ == nodes@.reverse(),
{
    let ghost given = nodes@;
    let mut rest = nodes;
    let mut out: Vec<Node> = Vec::new();
    while rest.len() > 0
        invariant
            rest@.len() + out@.len() == given.len(),
            rest@ == given.subrange(0, rest@.len() as int),
            forall|i: int| 0 <= i < out@.len() ==> out@[i] == given[given.len() - 1 - i],
        decreases rest.len(),
    {
        let node = rest.pop().unwrap();
        out.push(node);
    }
    assert(out@ =~= given.reverse());
    out
}

/// Sizes never decrease from one element to the next.
spec fn ascending_by_size(nodes: Seq<NodeView>) -> bool {
    forall|i: int, j: int| 0 <= i <= j < nodes.len() ==> nodes[i].size <= nodes[j].size
}

/// No node of `low` is larger than a node of `high`.
spec fn all_at_most(low: Seq<NodeView>, high: Seq<NodeView>) -> bool {
    forall|i: int, j: int|
        0 <= i < low.len() && 0 <= j < high.len() ==> (#[trigger] low[i]).size <= (
        #[trigger] high[j]).size
}

proof fn lemma_with_size_absent(nodes: Seq<NodeView>, size: nat)
    requires
        forall|i: int| 0 <= i < nodes.len() ==> (#[trigger] nodes[i]).size != size,
    ensures
        with_size(nodes, size) == Seq::<NodeView>::empty(),
    decreases nodes.len(),
{
    if nodes.len() > 0 {
        assert(nodes[nodes.len() - 1].size != size);
        assert forall|i: int| 0 <= i < nodes.drop_last().len() implies (
        #[trigger] nodes.drop_last()[i]).size != size by {
            assert(nodes.drop_last()[i] == nodes[i]);
        }
        lemma_with_size_absent(nodes.drop_last(), size);
    }
}

proof fn lemma_views_pop(nodes: Seq<Node>)
    requires
        nodes.len() > 0,
    ensures
        views(nodes.drop_last()) == views(nodes).drop_last(),
        views(nodes).last() == nodes.last()@,
{
    assert(views(nodes.drop_last()) =~= views(nodes).drop_last());
}

proof fn lemma_views_push(nodes: Seq<Node>, node: Node)
    ensures
        views(nodes.push(node)) == views(nodes).push(node@),
{
    assert(views(nodes.push(node)) =~= views(nodes).push(node@));
}

proof fn lemma_views_concat(a: Seq<Node>, b: Seq<Node>)
    ensures
        views(a + b) == views(a) + views(b),
{
    assert(views(a + b) =~= views(a) + views(b));
}

proof fn lemma_views_reverse(nodes: Seq<Node>)
    ensures
        views(nodes.reverse()) == views(nodes).reverse(),
{
    assert(views(nodes.reverse()) =~= views(nodes).reverse());
}

proof fn lemma_reverse_push(nodes: Seq<NodeView>, node: NodeView)
    ensures
        nodes.push(node).reverse() == seq![node] + nodes.reverse(),
{
    assert(nodes.push(node).reverse() =~= seq![node] + nodes.reverse());
}

/// Merges two sequences that are each in descending order of size; where
/// sizes are equal, the nodes of `left` come first.
fn merge(left: Vec<Node>, right: Vec<Node>) -> (out: Vec<Node>)
    requires
        sorted_by_size(views(left@)),
        sorted_by_size(views(right@)),
    ensures
        sorted_by_size(views(out@)),
        forall|size: nat| #[trigger]
            with_size(views(out@), size) == with_size(views(left@), size) + with_size(
                views(right@),
                size,
            ),
{
    let ghost l0 = views(left@);
    let ghost r0 = views(right@);
    let mut left = left;
    let mut right = right;
    let mut tail: Vec<Node> = Vec::new();
    proof {
        assert(views(tail@).reverse() =~= Seq::<NodeView>::empty());
        assert forall|size: nat| #[trigger]
            with_size(l0, size) + with_size(r0, size) == with_size(views(left@), size)
                + with_size(views(right@), size) + with_size(views(tail@).reverse(), size) by {
            assert(with_size(l0, size) + with_size(r0, size) + Seq::<NodeView>::empty()
                =~= with_size(l0, size) + with_size(r0, size));
        }
    }
    while left.len() > 0 || right.len() > 0
        invariant
            sorted_by_size(views(left@)),
            sorted_by_size(views(right@)),
            ascending_by_size(views(tail@)),
            all_at_most(views(tail@), views(left@)),
            all_at_most(views(tail@), views(right@)),
            forall|size: nat| #[trigger]
                with_size(l0, size) + with_size(r0, size) == with_size(views(left@), size)
                    + with_size(views(right@), size) + with_size(views(tail@).reverse(), size),
        decreases left.len() + right.len(),
    {
        let ghost l1 = views(left@);
        let ghost r1 = views(right@);
        let ghost t1 = views(tail@);
        let from_left = if left.len() == 0 {
            false
        } else if right.len() == 0 {
            true
        } else {
            left[left.len() - 1].size() < right[right.len() - 1].size()
        };
        if from_left {
            let ghost before = left@;
            let node = left.pop().unwrap();
            proof {
                lemma_views_pop(before);
                lemma_views_push(tail@, node);
                lemma_reverse_push(t1, node@);
                let l2 = views(left@);
                assert(l1 =~= l2.push(node@));
                assert forall|i: int| 0 <= i < r1.len() implies (#[trigger] r1[i]).size
                    != node@.size by {
                    assert(r1[i].size >= r1[r1.len() - 1].size);
                }
                assert forall|size: nat| #[trigger]
                    with_size(l0, size) + with_size(r0, size) == with_size(l2, size) + with_size(
                        r1,
                        size,
                    ) + with_size(t1.push(node@).reverse(), size) by {
                    lemma_with_size_push(l2, node@, size);
                    lemma_with_size_concat(seq![node@], t1.reverse(), size);
                    lemma_with_size_push(Seq::<NodeView>::empty(), node@, size);
                    assert(Seq::<NodeView>::empty().push(node@) =~= seq![node@]);
                    assert(with_size(l0, size) + with_size(r0, size) == with_size(l1, size)
                        + with_size(r1, size) + with_size(t1.reverse(), size));
                    if node@.size == size {
                        lemma_with_size_absent(r1, size);
                        assert(with_size(l2, size).push(node@) + Seq::<NodeView>::empty()
                            + with_size(t1.reverse(), size) =~= with_size(l2, size)
                            + Seq::<NodeView>::empty() + (seq![node@] + with_size(
                            t1.reverse(),
                            size,
                        )));
                    } else {
                        assert(Seq::<NodeView>::empty() + with_size(t1.reverse(), size)
                            =~= with_size(t1.reverse(), size));
                    }
                }
            }
            tail.push(node);
            proof {
                let l2 = views(left@);
                let t2 = views(tail@);
                assert forall|i: int, j: int| 0 <= i <= j < t2.len() implies t2[i].size
                    <= t2[j].size by {
                    if j == t2.len() - 1 && i < j {
                        assert(t1[i].size <= l1[l1.len() - 1].size);
                    }
                }
                assert forall|i: int, j: int|
                    0 <= i < t2.len() && 0 <= j < l2.len() implies (#[trigger] t2[i]).size <= (
                #[trigger] l2[j]).size by {
                    assert(l2[j] == l1[j]);
                    if i == t2.len() - 1 {
                        assert(l1[j].size >= l1[l1.len() - 1].size);
                    } else {
                        assert(t1[i].size <= l1[j].size);
                    }
                }
                assert forall|i: int, j: int|
                    0 <= i < t2.len() && 0 <= j < r1.len() implies (#[trigger] t2[i]).size <= (
                #[trigger] r1[j]).size by {
                    if i == t2.len() - 1 {
                        assert(r1[j].size >= r1[r1.len() - 1].size);
                    } else {
                        assert(t1[i].size <= r1[j].size);
                    }
                }
            }
        } else {
            let ghost before = right@;
            let node = right.pop().unwrap();
            proof {
                lemma_views_pop(before);
                lemma_views_push(tail@, node);
                lemma_reverse_push(t1, node@);
                let r2 = views(right@);
                assert(r1 =~= r2.push(node@));
                assert forall|size: nat| #[trigger]
                    with_size(l0, size) + with_size(r0, size) == with_size(l1, size) + with_size(
                        r2,
                        size,
                    ) + with_size(t1.push(node@).reverse(), size) by {
                    lemma_with_size_push(r2, node@, size);
                    lemma_with_size_concat(seq![node@], t1.reverse(), size);
                    lemma_with_size_push(Seq::<NodeView>::empty(), node@, size);
                    assert(Seq::<NodeView>::empty().push(node@) =~= seq![node@]);
                    assert(with_size(l0, size) + with_size(r0, size) == with_size(l1, size)
                        + with_size(r1, size) + with_size(t1.reverse(), size));
                    if node@.size == size {
                        assert(with_size(l1, size) + with_size(r2, size).push(node@) + with_size(
                            t1.reverse(),
                            size,
                        ) =~= with_size(l1, size) + with_size(r2, size) + (seq![node@] + with_size(
                            t1.reverse(),
                            size,
                        )));
                    } else {
                        assert(Seq::<NodeView>::empty() + with_size(t1.reverse(), size)
                            =~= with_size(t1.reverse(), size));
                    }
                }
            }
            tail.push(node);
            proof {
                let r2 = views(right@);
                let t2 = views(tail@);
                assert forall|i: int, j: int| 0 <= i <= j < t2.len() implies t2[i].size
                    <= t2[j].size by {
                    if j == t2.len() - 1 && i < j {
                        assert(t1[i].size <= r1[r1.len() - 1].size);
                    }
                }
                assert forall|i: int, j: int|
                    0 <= i < t2.len() && 0 <= j < r2.len() implies (#[trigger] t2[i]).size <= (
                #[trigger] r2[j]).size by {
                    assert(r2[j] == r1[j]);
                    if i == t2.len() - 1 {
                        assert(r1[j].size >= r1[r1.len() - 1].size);
                    } else {
                        assert(t1[i].size <= r1[j].size);
                    }
                }
                assert forall|i: int, j: int|
                    0 <= i < t2.len() && 0 <= j < l1.len() implies (#[trigger] t2[i]).size <= (
                #[trigger] l1[j]).size by {
                    if i == t2.len() - 1 {
                        assert(l1[j].size >= l1[l1.len() - 1].size);
                    } else {
                        assert(t1[i].size <= l1[j].size);
                    }
                }
            }
        }
    }
    let ghost t = views(tail@);
    let out = reversed(tail);
    proof {
        lemma_views_reverse(tail@);
        assert(views(out@) == t.reverse());
        assert forall|i: int, j: int| 0 <= i <= j < t.reverse().len() implies t.reverse()[i].size
            >= t.reverse()[j].size by {
            assert(t[t.len() - 1 - j].size <= t[t.len() - 1 - i].size);
        }
        assert forall|size: nat| #[trigger]
            with_size(views(out@), size) == with_size(l0, size) + with_size(r0, size) by {
            assert(with_size(l0, size) + with_size(r0, size) == with_size(views(left@), size)
                + with_size(views(right@), size) + with_size(t.reverse(), size));
            assert(views(left@) =~= Seq::<NodeView>::empty());
            assert(views(right@) =~= Seq::<NodeView>::empty());
            assert(Seq::<NodeView>::empty() + Seq::<NodeView>::empty() + with_size(
                t.reverse(),
                size,
            ) =~= with_size(t.reverse(), size));
        }
    }
    out
}

/// Puts `nodes` in descending order of size, nodes of equal size staying
/// in the order in which they were given.
pub fn sort_by_size(nodes: Vec<Node>) -> (out: Vec<Node>)
    ensures
        views(out@) == stable_sort(views(nodes@)),
    decreases nodes.len(),
{
    let ghost given = views(nodes@);
    if nodes.len() <= 1 {
        proof {
            assert(sorted_by_size(given));
            lemma_stable_sort_characterised(given, given);
        }
        return nodes;
    }
    let mut left = nodes;
    let ghost whole = left@;
    let mid = left.len() / 2;
    let right = left.split_off(mid);
    let ghost l0 = views(left@);
    let ghost r0 = views(right@);
    proof {
        assert(whole =~= left@ + right@);
        lemma_views_concat(left@, right@);
    }
    let left = sort_by_size(left);
    let right = sort_by_size(right);
    proof {
        lemma_stable_sort_is_stable(l0);
        lemma_stable_sort_is_stable(r0);
    }
    let out = merge(left, right);
    proof {
        assert forall|size: nat| #[trigger] with_size(views(out@), size) == with_size(
            given,
            size,
        ) by {
            lemma_with_size_concat(l0, r0, size);
            assert(with_size(stable_sort(l0), size) == with_size(l0, size));
            assert(with_size(stable_sort(r0), size) == with_size(r0, size));
        }
        lemma_stable_sort_characterised(given, views(out@));
    }
    out
}

} // verus!
