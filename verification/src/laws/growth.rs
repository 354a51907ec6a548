//! Laws of growth: which nodes parsing adds to an arena, and how they are numbered and linked.
use vstd::prelude::*;

use crate::canonical::{element_name, lemma_nodes_proper, proper, proper_attrs};
use crate::document::lemma_grown_numbers;
use crate::forest::{
    below_within, children_in_range, depth_within, descendants, finite_below, grown, grows_down,
    is_below, lemma_depth_raise, lemma_grows_down_finite, lemma_preorder_concat,
    lemma_preorder_reached, lemma_tree, lemma_tree_unfold, numbers, preorder, reached, tree, trees,
    Nodes,
};
use crate::grammar::nodes;
use crate::tree::{size, size_all, void_tag, Content, Tree};

verus! {

/// The nodes that grow are as many as the nodes of the trees, and each new child has the number
/// that follows the nodes before it.
pub proof fn law_growth_is_counted(
    before: Nodes,
    after: Nodes,
    parent: int,
    ts: Seq<Tree>,
    j: int,
)
    requires
        grown(before, after, parent, ts),
    ensures
        after.len() == before.len() + size_all(ts),
        0 <= j < ts.len() ==> after[parent].children[before[parent].children.len() + j]
            == before.len() + size_all(ts.take(j)),
{
    let n = before.len() as int;
    let k = before[parent].children.len() as int;
    let ids = after[parent].children.skip(k);
    lemma_new_children(before, after, parent, ts);
    lemma_preorder_size(after, ids, after.len());
    assert(trees(after, ids) =~= ts);
    if 0 <= j < ts.len() {
        let front = ids.take(j);
        let c = ids[j];
        let back = ids.skip(j + 1);
        assert(ids =~= front + (seq![c] + back));
        lemma_preorder_concat(after, front, seq![c] + back, after.len());
        lemma_preorder_concat(after, seq![c], back, after.len());
        assert forall|i: int| 0 <= i < front.len() implies depth_within(
            after,
            #[trigger] front[i],
            after.len(),
        ) by {
            assert(front[i] == ids[i]);
        }
        lemma_preorder_size(after, front, after.len());
        assert(trees(after, front) =~= ts.take(j)) by {
            assert forall|i: int| 0 <= i < j implies trees(after, front)[i] == ts[i] by {
                assert(front[i] == ids[i]);
            }
        }
        let p = preorder(after, front, after.len());
        let one = preorder(after, seq![c], after.len());
        let none = seq![c].drop_last();
        assert(none =~= Seq::<int>::empty());
        assert(preorder(after, none, after.len()) =~= Seq::<int>::empty());
        assert(one[0] == c);
        assert(numbers(n, after.len() as int)[p.len() as int] == c);
    }
}

/// Growth adds children behind those that were there, one for each tree, from which that tree
/// hangs, and leaves all else as it was.
pub proof fn law_growth_adds_children(
    before: Nodes,
    after: Nodes,
    parent: int,
    ts: Seq<Tree>,
    x: int,
    j: int,
)
    requires
        grown(before, after, parent, ts),
    ensures
        0 <= x < before.len() && x != parent ==> after[x] == before[x],
        after[parent].data == before[parent].data,
        after[parent].parent == before[parent].parent,
        after[parent].children.len() == before[parent].children.len() + ts.len(),
        0 <= j < before[parent].children.len() ==> after[parent].children[j]
            == before[parent].children[j],
        0 <= j < ts.len() ==> {
            let c = after[parent].children[before[parent].children.len() + j];
            before.len() <= c < after.len() && after[c].parent == Some(parent) && tree(after, c)
                == ts[j]
        },
{
    let k = before[parent].children.len() as int;
    if 0 <= j < k {
        assert(after[parent].children.take(k)[j] == before[parent].children[j]);
    }
    if 0 <= j < ts.len() {
        assert(after[after[parent].children[k + j]].parent == Some(parent));
    }
}

/// Where a node without children grows, the nodes below it are then the new ones, numbered on from
/// the old ones in document order.
pub proof fn law_new_nodes_are_numbered(
    before: Nodes,
    after: Nodes,
    parent: int,
    ts: Seq<Tree>,
    i: int,
)
    requires
        grown(before, after, parent, ts),
        before[parent].children.len() == 0,
    ensures
        descendants(after, parent).len() == after.len() - before.len(),
        0 <= i < after.len() - before.len() ==> descendants(after, parent)[i] == before.len() + i,
{
    lemma_grown_numbers(before, after, parent, ts);
}

/// The new children of the node that grows.
proof fn lemma_new_children(before: Nodes, after: Nodes, parent: int, ts: Seq<Tree>)
    requires
        grown(before, after, parent, ts),
    ensures
        ({
            let ids = after[parent].children.skip(before[parent].children.len() as int);
            &&& ids.len() == ts.len()
            &&& forall|i: int|
                0 <= i < ids.len() ==> {
                    let c = #[trigger] ids[i];
                    &&& before.len() <= c < after.len()
                    &&& after[c].parent == Some(parent)
                    &&& tree(after, c) == ts[i]
                    &&& finite_below(after, c)
                    &&& depth_within(after, c, after.len())
                }
        }),
{
    let n = before.len() as int;
    let k = before[parent].children.len() as int;
    let ids = after[parent].children.skip(k);
    assert forall|i: int| 0 <= i < ids.len() implies {
        let c = #[trigger] ids[i];
        &&& before.len() <= c < after.len()
        &&& after[c].parent == Some(parent)
        &&& tree(after, c) == ts[i]
        &&& finite_below(after, c)
        &&& depth_within(after, c, after.len())
    } by {
        let c = after[parent].children[k + i];
        assert(ids[i] == c);
        lemma_grows_down_finite(after, n, c);
        lemma_depth_raise(after, c, (after.len() - c) as nat, after.len());
    }
}

/// Some nodes with what is below them are as many as the nodes of their trees.
proof fn lemma_preorder_size(nodes: Nodes, ids: Seq<int>, d: nat)
    requires
        forall|i: int| 0 <= i < ids.len() ==> depth_within(nodes, #[trigger] ids[i], d),
    ensures
        preorder(nodes, ids, d).len() == size_all(trees(nodes, ids)),
    decreases d, ids.len(),
{
    if ids.len() > 0 {
        let last = ids.last();
        let front = ids.drop_last();
        let kids = nodes[last].children;
        assert(last == ids[ids.len() - 1]);
        assert(depth_within(nodes, last, d));
        assert forall|i: int| 0 <= i < front.len() implies depth_within(
            nodes,
            #[trigger] front[i],
            d,
        ) by {
            assert(front[i] == ids[i]);
        }
        lemma_preorder_size(nodes, front, d);
        lemma_preorder_size(nodes, kids, (d - 1) as nat);
        lemma_tree(nodes, last, d);
        lemma_tree_unfold(nodes, last);
        let ts = trees(nodes, ids);
        assert(ts.drop_last() =~= trees(nodes, front));
        assert(ts.last() == tree(nodes, last));
        assert(size(ts.last()) == 1 + size_all(trees(nodes, kids)));
    } else {
        assert(trees(nodes, ids).len() == 0);
    }
}

/// Every new node hangs from the node that grows or from a new node of a lower number, stands
/// among the children there, and nowhere else and no second time.
pub proof fn law_new_nodes_are_linked_once(
    before: Nodes,
    after: Nodes,
    parent: int,
    ts: Seq<Tree>,
    j: int,
)
    requires
        grown(before, after, parent, ts),
        children_in_range(before),
        before.len() <= j < after.len(),
    ensures
        after[j].parent matches Some(p) && {
            &&& p == parent || before.len() <= p < j
            &&& exists|i: int|
                0 <= i < after[p].children.len() && #[trigger] after[p].children[i] == j
        },
        forall|p: int, i: int, q: int, l: int|
            0 <= p < after.len() && 0 <= i < after[p].children.len() && 0 <= q < after.len() && 0
                <= l < after[q].children.len() && #[trigger] after[p].children[i] == j
                && #[trigger] after[q].children[l] == j ==> p == q && i == l,
{
    let n = before.len() as int;
    let k = before[parent].children.len() as int;
    let ids = after[parent].children.skip(k);
    lemma_new_children(before, after, parent, ts);
    lemma_new_is_reached(before, after, parent, ts, j);
    let r = choose|r: int|
        0 <= r < ids.len() && (#[trigger] ids[r] == j || is_below(after, ids[r], j));
    if ids[r] == j {
        assert(after[parent].children[k + r] == j);
    } else {
        let m = choose|m: nat| below_within(after, ids[r], j, m);
        let (p, i) = lemma_last_step(after, n, ids[r], j, m);
        assert(after[p].children[i] == j);
    }
    assert forall|p: int, i: int|
        0 <= p < after.len() && 0 <= i < after[p].children.len() && #[trigger] after[p].children[i]
            == j implies after[j].parent == Some(p) && (p == parent ==> i >= k) by {
        if p == parent {
            if i < k {
                assert(after[p].children.take(k)[i] == before[p].children[i]);
            } else {
                assert(ids[i - k] == j);
            }
        } else if p < n {
            assert(after[p] == before[p]);
            assert(before[p].children[i] < before.len());
        }
    }
    assert forall|p: int, i: int, q: int, l: int|
        0 <= p < after.len() && 0 <= i < after[p].children.len() && 0 <= q < after.len() && 0 <= l
            < after[q].children.len() && #[trigger] after[p].children[i] == j
            && #[trigger] after[q].children[l] == j implies p == q && i == l by {
        assert(p == q);
        if p == parent {
            if i < l {
                assert(after[parent].children[i] < after[parent].children[l]);
            } else if l < i {
                assert(after[parent].children[l] < after[parent].children[i]);
            }
        } else {
            if p < n {
                assert(after[p] == before[p]);
                assert(before[p].children[i] < before.len());
            }
            if i < l {
                assert(after[p].children[i] < after[p].children[l]);
            } else if l < i {
                assert(after[p].children[l] < after[p].children[i]);
            }
        }
    }
}

/// Every new node is a new child of the node that grows, or below one.
proof fn lemma_new_is_reached(before: Nodes, after: Nodes, parent: int, ts: Seq<Tree>, j: int)
    requires
        grown(before, after, parent, ts),
        before.len() <= j < after.len(),
    ensures
        reached(
            after,
            after[parent].children.skip(before[parent].children.len() as int),
            j,
        ),
{
    let n = before.len() as int;
    let ids = after[parent].children.skip(before[parent].children.len() as int);
    lemma_new_children(before, after, parent, ts);
    lemma_preorder_reached(after, ids, after.len(), j);
    let all = numbers(n, after.len() as int);
    assert(all[j - n] == j);
    assert(all.contains(j));
}

/// The last step of the way down to a node, among new nodes.
proof fn lemma_last_step(nodes: Nodes, from: int, a: int, x: int, n: nat) -> (r: (int, int))
    requires
        grows_down(nodes, from),
        from <= a < nodes.len(),
        below_within(nodes, a, x, n),
    ensures
        from <= r.0 < x,
        r.0 < nodes.len(),
        0 <= r.1 < nodes[r.0].children.len(),
        nodes[r.0].children[r.1] == x,
        nodes[x].parent == Some(r.0),
    decreases n,
{
    let i = choose|i: int|
        0 <= i < nodes[a].children.len() && ((#[trigger] nodes[a].children[i]) == x || below_within(
            nodes,
            nodes[a].children[i],
            x,
            (n - 1) as nat,
        ));
    let c = nodes[a].children[i];
    assert(a < c < nodes.len() && nodes[c].parent == Some(a));
    if c == x {
        (a, i)
    } else {
        lemma_last_step(nodes, from, c, x, (n - 1) as nat)
    }
}

/// Whether a node is as parsing makes them: an element with a proper name and proper attributes,
/// without children where it is void, or a text that is not empty and has no children.
pub open spec fn proper_node(nodes: Nodes, x: int) -> bool {
    match nodes[x].data {
        Content::Document => false,
        Content::Text(s) => s.len() > 0 && nodes[x].children.len() == 0,
        Content::Element { tag, attrs } => {
            &&& element_name(tag)
            &&& proper_attrs(attrs)
            &&& void_tag(tag) ==> nodes[x].children.len() == 0
        },
    }
}

/// Whatever is parsed, with or without a fault, every new node is an element with a name and
/// attribute names in lower case, without children where it is void, or a text that is not empty
/// and has no children.
pub proof fn law_new_nodes_are_proper(
    before: Nodes,
    after: Nodes,
    parent: int,
    s: Seq<char>,
    j: int,
)
    requires
        grown(before, after, parent, nodes(s).trees),
        before.len() <= j < after.len(),
    ensures
        proper_node(after, j),
{
    let ts = nodes(s).trees;
    let ids = after[parent].children.skip(before[parent].children.len() as int);
    lemma_nodes_proper(s);
    lemma_new_children(before, after, parent, ts);
    lemma_new_is_reached(before, after, parent, ts, j);
    let r = choose|r: int|
        0 <= r < ids.len() && (#[trigger] ids[r] == j || is_below(after, ids[r], j));
    assert(proper(ts[r]));
    if ids[r] != j {
        let m = choose|m: nat| below_within(after, ids[r], j, m);
        lemma_proper_below(after, ids[r], j, m);
    }
    lemma_tree_unfold(after, j);
}

/// Below a proper tree hang proper trees.
proof fn lemma_proper_below(nodes: Nodes, a: int, x: int, n: nat)
    requires
        finite_below(nodes, a),
        proper(tree(nodes, a)),
        below_within(nodes, a, x, n),
    ensures
        finite_below(nodes, x),
        proper(tree(nodes, x)),
    decreases n,
{
    lemma_tree_unfold(nodes, a);
    let i = choose|i: int|
        0 <= i < nodes[a].children.len() && ((#[trigger] nodes[a].children[i]) == x || below_within(
            nodes,
            nodes[a].children[i],
            x,
            (n - 1) as nat,
        ));
    let c = nodes[a].children[i];
    assert(tree(nodes, a).children[i] == tree(nodes, c));
    assert(proper(tree(nodes, a).children[i]));
    if c != x {
        lemma_proper_below(nodes, c, x, (n - 1) as nat);
    }
}

} // verus!
