//! How everything below a node is taken apart, one link after the other, and why that comes to an
//! end.
use vstd::prelude::*;

use crate::forest::{
    below_within, children_in_range_from, is_below, lemma_below_child, lemma_child_is_below, pruned,
    Nodes,
};

verus! {

/// `b` is `a` without some of the links.
pub open spec fn thinned(a: Nodes, b: Nodes) -> bool {
    &&& b.len() == a.len()
    &&& forall|k: int|
        #![trigger a[k]]
        #![trigger b[k]]
        0 <= k < a.len() ==> {
            &&& b[k].data == a[k].data
            &&& b[k].children == a[k].children || b[k].children.len() == 0
            &&& b[k].parent == a[k].parent || b[k].parent is None
        }
}

/// The node has no links.
pub open spec fn apart(nodes: Nodes, k: int) -> bool {
    nodes[k].children.len() == 0 && nodes[k].parent is None
}

/// What were children of a node in `a` have no links in `b`.
pub open spec fn children_apart(a: Nodes, b: Nodes, k: int) -> bool {
    forall|j: int| 0 <= j < a[k].children.len() ==> apart(b, #[trigger] a[k].children[j])
}

/// How many links lead down.
pub open spec fn edge_count(nodes: Nodes) -> nat
    decreases nodes.len(),
{
    if nodes.len() == 0 {
        0
    } else {
        edge_count(nodes.drop_last()) + nodes.last().children.len()
    }
}

/// Without some of the links there are no more links.
proof fn lemma_edge_count_at_most(a: Nodes, b: Nodes)
    requires
        thinned(a, b),
    ensures
        edge_count(b) <= edge_count(a),
    decreases a.len(),
{
    if a.len() > 0 {
        assert(thinned(a.drop_last(), b.drop_last())) by {
            assert forall|k: int|
                #![trigger a.drop_last()[k]]
                #![trigger b.drop_last()[k]]
                0 <= k < a.drop_last().len() implies {
                &&& b.drop_last()[k].data == a.drop_last()[k].data
                &&& b.drop_last()[k].children == a.drop_last()[k].children
                    || b.drop_last()[k].children.len() == 0
                &&& b.drop_last()[k].parent == a.drop_last()[k].parent
                    || b.drop_last()[k].parent is None
            } by {
                assert(b[k].data == a[k].data);
            }
        }
        lemma_edge_count_at_most(a.drop_last(), b.drop_last());
        assert(b[a.len() - 1].data == a[a.len() - 1].data);
    }
}

/// Where a node has lost its children there are fewer links.
pub proof fn lemma_edge_count_less(a: Nodes, b: Nodes, p: int)
    requires
        thinned(a, b),
        0 <= p < a.len(),
        a[p].children.len() > 0,
        b[p].children.len() == 0,
    ensures
        edge_count(b) < edge_count(a),
    decreases a.len(),
{
    assert(thinned(a.drop_last(), b.drop_last())) by {
        assert forall|k: int|
            #![trigger a.drop_last()[k]]
            #![trigger b.drop_last()[k]]
            0 <= k < a.drop_last().len() implies {
            &&& b.drop_last()[k].data == a.drop_last()[k].data
            &&& b.drop_last()[k].children == a.drop_last()[k].children
                || b.drop_last()[k].children.len() == 0
            &&& b.drop_last()[k].parent == a.drop_last()[k].parent
                || b.drop_last()[k].parent is None
        } by {
            assert(b[k].data == a[k].data);
        }
    }
    assert(b[a.len() - 1].data == a[a.len() - 1].data);
    if p == a.len() - 1 {
        lemma_edge_count_at_most(a.drop_last(), b.drop_last());
    } else {
        assert(a.drop_last()[p] == a[p] && b.drop_last()[p] == b[p]);
        lemma_edge_count_less(a.drop_last(), b.drop_last(), p);
    }
}

/// Without some of the links, the children of a child and of what is below it are still among the
/// nodes.
pub proof fn lemma_thinned_range(a: Nodes, b: Nodes, id: int, j: int)
    requires
        thinned(a, b),
        0 <= id < a.len(),
        0 <= j < a[id].children.len(),
        children_in_range_from(a, id),
    ensures
        children_in_range_from(b, a[id].children[j]),
{
    let c = a[id].children[j];
    lemma_child_is_below(a, id, j);
    assert forall|p: int, i: int|
        0 <= p < b.len() && (p == c || is_below(b, c, p)) && 0 <= i
            < b[p].children.len() implies 0 <= #[trigger] b[p].children[i] < b.len() by {
        if p != c {
            lemma_thinned_below(a, b, c, p);
            lemma_below_child(a, id, j, p);
        }
        assert(b[p].children[i] == a[p].children[i]);
    }
}

/// Without some of the links, what is below a node was below it before.
pub proof fn lemma_thinned_below(a: Nodes, b: Nodes, c: int, x: int)
    requires
        thinned(a, b),
        is_below(b, c, x),
    ensures
        is_below(a, c, x),
{
    let n = choose|n: nat| below_within(b, c, x, n);
    lemma_thinned_below_within(a, b, c, x, n);
}

proof fn lemma_thinned_below_within(a: Nodes, b: Nodes, c: int, x: int, n: nat)
    requires
        thinned(a, b),
        below_within(b, c, x, n),
    ensures
        is_below(a, c, x),
    decreases n,
{
    let j = choose|j: int|
        0 <= j < b[c].children.len() && ((#[trigger] b[c].children[j]) == x
            || below_within(b, b[c].children[j], x, (n - 1) as nat));
    assert(b[c].children == a[c].children);
    if b[c].children[j] == x {
        lemma_child_is_below(a, c, j);
    } else {
        lemma_thinned_below_within(a, b, b[c].children[j], x, (n - 1) as nat);
        lemma_below_child(a, c, j, x);
    }
}

/// Below a node without links all is without links, where what were children of a node that lost
/// its children have no links.
proof fn lemma_below_apart(a: Nodes, b: Nodes, y: int, x: int, n: nat)
    requires
        thinned(a, b),
        forall|k: int|
            #![trigger b[k]]
            0 <= k < a.len() && a[k].children.len() > 0 && b[k].children.len() == 0
                ==> children_apart(a, b, k),
        0 <= y < a.len(),
        b[y].children.len() == 0,
        below_within(a, y, x, n),
    ensures
        apart(b, x),
    decreases n,
{
    let j = choose|j: int|
        0 <= j < a[y].children.len() && ((#[trigger] a[y].children[j]) == x
            || below_within(a, a[y].children[j], x, (n - 1) as nat));
    let z = a[y].children[j];
    assert(children_apart(a, b, y));
    assert(apart(b, z));
    if z != x {
        lemma_below_apart(a, b, z, x, (n - 1) as nat);
    }
}

/// What is left when all below a node has no links and all else is as before.
pub proof fn lemma_is_pruned(a: Nodes, b: Nodes, p: int)
    requires
        0 <= p < a.len(),
        thinned(a, b),
        b[p].children.len() == 0,
        forall|k: int|
            #![trigger b[k]]
            0 <= k < a.len() && a[k].children.len() > 0 && b[k].children.len() == 0
                ==> children_apart(a, b, k),
        forall|k: int|
            #![trigger b[k]]
            0 <= k < a.len() && k != p && !is_below(a, p, k) ==> b[k] == a[k],
        !is_below(a, p, p) ==> b[p].parent == a[p].parent,
    ensures
        b == pruned(a, p),
{
    let q = pruned(a, p);
    assert forall|k: int| 0 <= k < a.len() implies #[trigger] b[k] == q[k] by {
        assert(b[k].data == a[k].data);
        if is_below(a, p, k) {
            let n = choose|n: nat| below_within(a, p, k, n);
            lemma_below_apart(a, b, p, k, n);
            assert(b[k].children =~= Seq::<int>::empty());
        } else if k == p {
            assert(b[k].children =~= Seq::<int>::empty());
        }
    }
    assert(b =~= q);
}

} // verus!
