//! Nodes that are joined by parent and child links, as mathematical values: what lies below and
//! above a node, the tree that hangs from it, and when the links form a forest.
use vstd::prelude::*;

use crate::tree::{leaf, Content, Tree};

verus! {

/// A node among nodes that are numbered from zero.
pub struct NodeModel {
    pub data: Content,
    pub parent: Option<int>,
    pub children: Seq<int>,
}

pub type Nodes = Seq<NodeModel>;

// ---------------------------------------------------------------------------
// Below a node
// ---------------------------------------------------------------------------
/// Every way down from a node stays among the nodes and visits at most `depth` of them.
pub open spec fn depth_within(nodes: Nodes, id: int, depth: nat) -> bool
    decreases depth,
{
    &&& depth > 0
    &&& 0 <= id < nodes.len()
    &&& forall|i: int|
        0 <= i < nodes[id].children.len() ==> depth_within(
            nodes,
            #[trigger] nodes[id].children[i],
            (depth - 1) as nat,
        )
}

/// The node is there, and every way down from it comes to an end.
pub open spec fn finite_below(nodes: Nodes, id: int) -> bool {
    exists|depth: nat| depth_within(nodes, id, depth)
}

/// A bound on the length of the ways down from a node.
pub open spec fn depth(nodes: Nodes, id: int) -> nat {
    choose|depth: nat| depth_within(nodes, id, depth)
}

/// The tree that hangs from a node, cut off below a depth.
pub open spec fn tree_within(nodes: Nodes, id: int, depth: nat) -> Tree
    decreases depth,
{
    if depth == 0 {
        leaf(nodes[id].data)
    } else {
        Tree {
            data: nodes[id].data,
            children: Seq::new(
                nodes[id].children.len(),
                |i: int| tree_within(nodes, nodes[id].children[i], (depth - 1) as nat),
            ),
        }
    }
}

/// The tree that hangs from a node.
pub open spec fn tree(nodes: Nodes, id: int) -> Tree {
    tree_within(nodes, id, depth(nodes, id))
}

/// The trees that hang from some nodes.
pub open spec fn trees(nodes: Nodes, ids: Seq<int>) -> Seq<Tree> {
    Seq::new(ids.len(), |i: int| tree(nodes, ids[i]))
}

/// Some nodes and what is below them, down to a depth: each node before what is below it.
pub open spec fn preorder(nodes: Nodes, ids: Seq<int>, depth: nat) -> Seq<int>
    decreases depth, ids.len(),
{
    if depth == 0 || ids.len() == 0 {
        Seq::empty()
    } else {
        preorder(nodes, ids.drop_last(), depth).push(ids.last()) + preorder(
            nodes,
            nodes[ids.last()].children,
            (depth - 1) as nat,
        )
    }
}

/// The nodes below a node in document order: each before what is below it, siblings in order.
pub open spec fn descendants(nodes: Nodes, id: int) -> Seq<int> {
    preorder(nodes, nodes[id].children, depth(nodes, id))
}

/// `x` can be reached by going down from `a` at least once and at most `steps` times.
pub open spec fn below_within(nodes: Nodes, a: int, x: int, steps: nat) -> bool
    decreases steps,
{
    &&& steps > 0
    &&& 0 <= a < nodes.len()
    &&& exists|i: int|
        0 <= i < nodes[a].children.len() && ((#[trigger] nodes[a].children[i]) == x || below_within(
            nodes,
            nodes[a].children[i],
            x,
            (steps - 1) as nat,
        ))
}

/// `x` can be reached by going down from `a` at least once.
pub open spec fn is_below(nodes: Nodes, a: int, x: int) -> bool {
    exists|steps: nat| below_within(nodes, a, x, steps)
}

// ---------------------------------------------------------------------------
// Above a node
// ---------------------------------------------------------------------------
/// The way up from a node stays among the nodes and visits at most `height` of them.
pub open spec fn height_within(nodes: Nodes, id: int, height: nat) -> bool
    decreases height,
{
    &&& height > 0
    &&& 0 <= id < nodes.len()
    &&& match nodes[id].parent {
        Some(p) => height_within(nodes, p, (height - 1) as nat),
        None => true,
    }
}

/// The node is there, and the way up from it comes to an end.
pub open spec fn finite_above(nodes: Nodes, id: int) -> bool {
    exists|height: nat| height_within(nodes, id, height)
}

/// A bound on the length of the way up from a node.
pub open spec fn height(nodes: Nodes, id: int) -> nat {
    choose|height: nat| height_within(nodes, id, height)
}

/// The way up from everything below a node comes to an end.
pub open spec fn finite_above_from(nodes: Nodes, id: int) -> bool {
    forall|x: int| #[trigger] is_below(nodes, id, x) ==> finite_above(nodes, x)
}

/// The way up from every node comes to an end.
pub open spec fn all_finite_above(nodes: Nodes) -> bool {
    forall|id: int| 0 <= id < nodes.len() ==> #[trigger] finite_above(nodes, id)
}

// ---------------------------------------------------------------------------
// Links
// ---------------------------------------------------------------------------
/// Every child is among the nodes.
pub open spec fn children_in_range(nodes: Nodes) -> bool {
    forall|p: int, i: int|
        0 <= p < nodes.len() && 0 <= i < nodes[p].children.len() ==> 0
            <= #[trigger] nodes[p].children[i] < nodes.len()
}

/// Every child of a node, and of what is below it, is among the nodes.
pub open spec fn children_in_range_from(nodes: Nodes, id: int) -> bool {
    forall|p: int, i: int|
        0 <= p < nodes.len() && (p == id || is_below(nodes, id, p)) && 0 <= i
            < nodes[p].children.len() ==> 0 <= #[trigger] nodes[p].children[i] < nodes.len()
}

/// Every child knows its parent.
pub open spec fn children_know_parent(nodes: Nodes) -> bool {
    forall|p: int, i: int|
        0 <= p < nodes.len() && 0 <= i < nodes[p].children.len()
            ==> nodes[#[trigger] nodes[p].children[i]].parent == Some(p)
}

/// No node is the same child twice.
pub open spec fn children_once(nodes: Nodes) -> bool {
    forall|p: int, i: int, j: int|
        0 <= p < nodes.len() && 0 <= i < j < nodes[p].children.len()
            ==> #[trigger] nodes[p].children[i] != #[trigger] nodes[p].children[j]
}

/// Every parent is among the nodes and counts the node among its children.
pub open spec fn parents_know_child(nodes: Nodes) -> bool {
    forall|c: int|
        0 <= c < nodes.len() ==> match (#[trigger] nodes[c]).parent {
            Some(p) => 0 <= p < nodes.len() && nodes[p].children.contains(c),
            None => true,
        }
}

/// The links make a forest: parents and children agree, and every way up and every way down comes
/// to an end.
pub open spec fn is_forest(nodes: Nodes) -> bool {
    &&& children_in_range(nodes)
    &&& children_know_parent(nodes)
    &&& children_once(nodes)
    &&& parents_know_child(nodes)
    &&& forall|id: int| 0 <= id < nodes.len() ==> #[trigger] finite_below(nodes, id)
    &&& all_finite_above(nodes)
}

// ---------------------------------------------------------------------------
// Changes
// ---------------------------------------------------------------------------
/// The nodes after one is made the last child of another.
pub open spec fn attached(nodes: Nodes, parent: int, child: int) -> Nodes {
    let up = nodes.update(child, NodeModel { parent: Some(parent), ..nodes[child] });
    up.update(parent, NodeModel { children: up[parent].children.push(child), ..up[parent] })
}

/// Whether making one node a child of another keeps a forest a forest: the child has no parent,
/// and the parent is neither the child nor below it.
pub open spec fn can_attach(nodes: Nodes, parent: int, child: int) -> bool {
    &&& 0 <= parent < nodes.len()
    &&& 0 <= child < nodes.len()
    &&& nodes[child].parent is None
    &&& child != parent
    &&& !is_below(nodes, child, parent)
}

/// The nodes after everything below one of them is taken apart: what was below has neither parent
/// nor children, the node itself has no children, and all else is as before.
pub open spec fn pruned(nodes: Nodes, id: int) -> Nodes {
    Seq::new(
        nodes.len(),
        |k: int|
            NodeModel {
                data: nodes[k].data,
                parent: if is_below(nodes, id, k) {
                    None
                } else {
                    nodes[k].parent
                },
                children: if k == id || is_below(nodes, id, k) {
                    Seq::empty()
                } else {
                    nodes[k].children
                },
            },
    )
}

/// The numbers from one up to another.
pub open spec fn numbers(from: int, to: int) -> Seq<int> {
    Seq::new((to - from) as nat, |i: int| from + i)
}

/// Whether `after` is `before` with new nodes that hang from `parent` as its last children and
/// make up the trees `ts`. Every new node is in these trees, and in document order the new nodes
/// are numbered on from the old ones. All other nodes are as before.
pub open spec fn grown(before: Nodes, after: Nodes, parent: int, ts: Seq<Tree>) -> bool {
    let k = before[parent].children.len();
    &&& 0 <= parent < before.len() <= after.len()
    &&& forall|i: int| 0 <= i < before.len() && i != parent ==> #[trigger] after[i] == before[i]
    &&& after[parent].data == before[parent].data
    &&& after[parent].parent == before[parent].parent
    &&& after[parent].children.len() == k + ts.len()
    &&& after[parent].children.take(k as int) == before[parent].children
    &&& forall|j: int|
        0 <= j < ts.len() ==> {
            let c = #[trigger] after[parent].children[k + j];
            &&& before.len() <= c < after.len()
            &&& after[c].parent == Some(parent)
            &&& tree(after, c) == ts[j]
        }
    &&& forall|i: int, j: int|
        k <= i < j < k + ts.len() ==> #[trigger] after[parent].children[i]
            < #[trigger] after[parent].children[j]
    &&& grows_down(after, before.len() as int)
    &&& preorder(after, after[parent].children.skip(k as int), after.len()) == numbers(
        before.len() as int,
        after.len() as int,
    )
}

/// From a number on, every child has a higher number than its parent and knows it, and siblings
/// stand in the order of their numbers.
pub open spec fn grows_down(nodes: Nodes, from: int) -> bool {
    &&& forall|p: int, i: int|
        from <= p < nodes.len() && 0 <= i < nodes[p].children.len() ==> p
            < #[trigger] nodes[p].children[i] < nodes.len() && nodes[nodes[p].children[i]].parent
            == Some(p)
    &&& forall|p: int, i: int, j: int|
        from <= p < nodes.len() && 0 <= i < j < nodes[p].children.len()
            ==> #[trigger] nodes[p].children[i] < #[trigger] nodes[p].children[j]
}

// ---------------------------------------------------------------------------
// Ways down
// ---------------------------------------------------------------------------
/// A bound on the ways down may be raised.
pub proof fn lemma_depth_raise(nodes: Nodes, id: int, d: nat, e: nat)
    requires
        depth_within(nodes, id, d),
        d <= e,
    ensures
        depth_within(nodes, id, e),
    decreases d,
{
    assert forall|i: int| 0 <= i < nodes[id].children.len() implies depth_within(
        nodes,
        #[trigger] nodes[id].children[i],
        (e - 1) as nat,
    ) by {
        lemma_depth_raise(nodes, nodes[id].children[i], (d - 1) as nat, (e - 1) as nat);
    }
}

/// Any bound on the ways down gives the same tree.
pub proof fn lemma_tree_within(nodes: Nodes, id: int, d: nat, e: nat)
    requires
        depth_within(nodes, id, d),
        depth_within(nodes, id, e),
    ensures
        tree_within(nodes, id, d) == tree_within(nodes, id, e),
    decreases d,
{
    let a = tree_within(nodes, id, d);
    let b = tree_within(nodes, id, e);
    assert forall|i: int| 0 <= i < a.children.len() implies a.children[i] == b.children[i] by {
        lemma_tree_within(nodes, nodes[id].children[i], (d - 1) as nat, (e - 1) as nat);
    }
    assert(a.children =~= b.children);
}

/// Any bound on the ways down gives the tree.
pub proof fn lemma_tree(nodes: Nodes, id: int, d: nat)
    requires
        depth_within(nodes, id, d),
    ensures
        finite_below(nodes, id),
        depth_within(nodes, id, depth(nodes, id)),
        tree_within(nodes, id, d) == tree(nodes, id),
{
    lemma_tree_within(nodes, id, d, depth(nodes, id));
}

/// A tree is its node with the trees that hang from the children.
pub proof fn lemma_tree_unfold(nodes: Nodes, id: int)
    requires
        finite_below(nodes, id),
    ensures
        0 <= id < nodes.len(),
        forall|i: int|
            0 <= i < nodes[id].children.len() ==> finite_below(
                nodes,
                #[trigger] nodes[id].children[i],
            ),
        tree(nodes, id) == (Tree {
            data: nodes[id].data,
            children: trees(nodes, nodes[id].children),
        }),
{
    let d = depth(nodes, id);
    let t = tree(nodes, id);
    assert forall|i: int| 0 <= i < nodes[id].children.len() implies finite_below(
        nodes,
        #[trigger] nodes[id].children[i],
    ) && t.children[i] == tree(nodes, nodes[id].children[i]) by {
        lemma_tree(nodes, nodes[id].children[i], (d - 1) as nat);
    }
    assert(t.children =~= trees(nodes, nodes[id].children));
}

/// What is below some nodes does not depend on the bound on the ways down.
pub proof fn lemma_preorder_bound(nodes: Nodes, ids: Seq<int>, d: nat, e: nat)
    requires
        forall|i: int| 0 <= i < ids.len() ==> depth_within(nodes, #[trigger] ids[i], d),
        forall|i: int| 0 <= i < ids.len() ==> depth_within(nodes, #[trigger] ids[i], e),
    ensures
        preorder(nodes, ids, d) == preorder(nodes, ids, e),
    decreases d, ids.len(),
{
    if ids.len() > 0 {
        let last = ids.last();
        assert(last == ids[ids.len() - 1]);
        assert(depth_within(nodes, last, d));
        assert(depth_within(nodes, last, e));
        assert forall|i: int| 0 <= i < ids.drop_last().len() implies depth_within(
            nodes,
            #[trigger] ids.drop_last()[i],
            d,
        ) && depth_within(nodes, ids.drop_last()[i], e) by {
            assert(ids.drop_last()[i] == ids[i]);
        }
        lemma_preorder_bound(nodes, ids.drop_last(), d, e);
        lemma_preorder_bound(nodes, nodes[last].children, (d - 1) as nat, (e - 1) as nat);
    }
}

/// Any bound on the ways down gives the nodes below.
pub proof fn lemma_descendants_bound(nodes: Nodes, id: int, d: nat, e: nat)
    requires
        depth_within(nodes, id, d),
        e + 1 >= d,
    ensures
        preorder(nodes, nodes[id].children, e) == descendants(nodes, id),
{
    let f = depth(nodes, id);
    let ids = nodes[id].children;
    assert(depth_within(nodes, id, f));
    assert forall|i: int| 0 <= i < ids.len() implies depth_within(nodes, #[trigger] ids[i], e)
        && depth_within(nodes, ids[i], f) by {
        lemma_depth_raise(nodes, ids[i], (d - 1) as nat, e);
        lemma_depth_raise(nodes, ids[i], (f - 1) as nat, f);
    }
    lemma_preorder_bound(nodes, ids, e, f);
}

/// Going down by one step reaches the children.
pub proof fn lemma_child_is_below(nodes: Nodes, a: int, i: int)
    requires
        0 <= a < nodes.len(),
        0 <= i < nodes[a].children.len(),
    ensures
        is_below(nodes, a, nodes[a].children[i]),
{
    assert(below_within(nodes, a, nodes[a].children[i], 1));
}

/// What is below a child is below the node.
pub proof fn lemma_below_child(nodes: Nodes, a: int, i: int, x: int)
    requires
        0 <= a < nodes.len(),
        0 <= i < nodes[a].children.len(),
        is_below(nodes, nodes[a].children[i], x),
    ensures
        is_below(nodes, a, x),
{
    let n = choose|n: nat| below_within(nodes, nodes[a].children[i], x, n);
    assert(below_within(nodes, a, x, n + 1));
}

/// A child of what is below a node is below the node.
pub proof fn lemma_child_of_below(nodes: Nodes, a: int, x: int, i: int)
    requires
        is_below(nodes, a, x),
        0 <= x < nodes.len(),
        0 <= i < nodes[x].children.len(),
    ensures
        is_below(nodes, a, nodes[x].children[i]),
{
    let n = choose|n: nat| below_within(nodes, a, x, n);
    lemma_child_of_below_within(nodes, a, x, i, n);
}

proof fn lemma_child_of_below_within(nodes: Nodes, a: int, x: int, i: int, n: nat)
    requires
        below_within(nodes, a, x, n),
        0 <= x < nodes.len(),
        0 <= i < nodes[x].children.len(),
    ensures
        below_within(nodes, a, nodes[x].children[i], n + 1),
    decreases n,
{
    let j = choose|j: int|
        0 <= j < nodes[a].children.len() && ((#[trigger] nodes[a].children[j]) == x || below_within(
            nodes,
            nodes[a].children[j],
            x,
            (n - 1) as nat,
        ));
    if nodes[a].children[j] == x {
        assert(below_within(nodes, x, nodes[x].children[i], n));
    } else {
        lemma_child_of_below_within(nodes, nodes[a].children[j], x, i, (n - 1) as nat);
    }
}

/// A node that is below another is below it directly or below one of its children.
pub proof fn lemma_below_first_step(nodes: Nodes, a: int, x: int) -> (i: int)
    requires
        is_below(nodes, a, x),
    ensures
        0 <= a < nodes.len(),
        0 <= i < nodes[a].children.len(),
        nodes[a].children[i] == x || is_below(nodes, nodes[a].children[i], x),
{
    let n = choose|n: nat| below_within(nodes, a, x, n);
    choose|j: int|
        0 <= j < nodes[a].children.len() && ((#[trigger] nodes[a].children[j]) == x || below_within(
            nodes,
            nodes[a].children[j],
            x,
            (n - 1) as nat,
        ))
}

/// Whether a node is among some nodes or below one of them.
pub open spec fn reached(nodes: Nodes, ids: Seq<int>, x: int) -> bool {
    exists|i: int| 0 <= i < ids.len() && (#[trigger] ids[i] == x || is_below(nodes, ids[i], x))
}

pub proof fn lemma_preorder_reached(nodes: Nodes, ids: Seq<int>, d: nat, x: int)
    requires
        forall|i: int| 0 <= i < ids.len() ==> depth_within(nodes, #[trigger] ids[i], d),
    ensures
        preorder(nodes, ids, d).contains(x) <==> reached(nodes, ids, x),
    decreases d, ids.len(),
{
    if ids.len() > 0 {
        let last = ids.last();
        let front = ids.drop_last();
        let kids = nodes[last].children;
        assert(last == ids[ids.len() - 1]);
        assert(depth_within(nodes, last, d));
        assert forall|i: int| 0 <= i < front.len() implies depth_within(
            nodes,
            #[trigger] front[i],
            d,
        ) by {
            assert(front[i] == ids[i]);
        }
        lemma_preorder_reached(nodes, front, d, x);
        lemma_preorder_reached(nodes, kids, (d - 1) as nat, x);
        let a = preorder(nodes, front, d);
        let b = preorder(nodes, kids, (d - 1) as nat);
        let all = a.push(last) + b;
        assert(reached(nodes, kids, x) <==> is_below(nodes, last, x)) by {
            if is_below(nodes, last, x) {
                let i = lemma_below_first_step(nodes, last, x);
                assert(kids[i] == x || is_below(nodes, kids[i], x));
            }
            if reached(nodes, kids, x) {
                let i = choose|i: int|
                    0 <= i < kids.len() && (#[trigger] kids[i] == x || is_below(nodes, kids[i], x));
                if kids[i] == x {
                    lemma_child_is_below(nodes, last, i);
                } else {
                    lemma_below_child(nodes, last, i, x);
                }
            }
        }
        assert(reached(nodes, ids, x) <==> reached(nodes, front, x) || last == x || is_below(
            nodes,
            last,
            x,
        )) by {
            if reached(nodes, ids, x) {
                let i = choose|i: int|
                    0 <= i < ids.len() && (#[trigger] ids[i] == x || is_below(nodes, ids[i], x));
                if i < front.len() {
                    assert(front[i] == ids[i]);
                }
            }
            if reached(nodes, front, x) {
                let i = choose|i: int|
                    0 <= i < front.len() && (#[trigger] front[i] == x || is_below(
                        nodes,
                        front[i],
                        x,
                    ));
                assert(ids[i] == front[i]);
            }
        }
        assert(all.contains(x) <==> a.contains(x) || last == x || b.contains(x)) by {
            if a.contains(x) {
                let i = a.index_of(x);
                assert(all[i] == x);
            }
            assert(all[a.len() as int] == last);
            if b.contains(x) {
                let i = b.index_of(x);
                assert(all[a.len() + 1 + i] == x);
            }
            if all.contains(x) {
                let i = all.index_of(x);
                if i < a.len() {
                    assert(a[i] == x);
                } else if i > a.len() {
                    assert(b[i - a.len() - 1] == x);
                }
            }
        }
    }
}

/// The nodes of `descendants` are the nodes that are below.
pub proof fn lemma_descendants_are_below(nodes: Nodes, id: int, x: int)
    requires
        finite_below(nodes, id),
    ensures
        descendants(nodes, id).contains(x) <==> is_below(nodes, id, x),
{
    let d = depth(nodes, id);
    let kids = nodes[id].children;
    assert(depth_within(nodes, id, d));
    lemma_descendants_bound(nodes, id, d, (d - 1) as nat);
    lemma_preorder_reached(nodes, kids, (d - 1) as nat, x);
    if is_below(nodes, id, x) {
        let i = lemma_below_first_step(nodes, id, x);
        assert(kids[i] == x || is_below(nodes, kids[i], x));
    }
    if reached(nodes, kids, x) {
        let i = choose|i: int|
            0 <= i < kids.len() && (#[trigger] kids[i] == x || is_below(nodes, kids[i], x));
        if kids[i] == x {
            lemma_child_is_below(nodes, id, i);
        } else {
            lemma_below_child(nodes, id, i, x);
        }
    }
}

proof fn lemma_below_in_range(nodes: Nodes, id: int, x: int, d: nat, n: nat)
    requires
        depth_within(nodes, id, d),
        below_within(nodes, id, x, n),
    ensures
        0 <= x < nodes.len(),
    decreases d,
{
    let i = choose|i: int|
        0 <= i < nodes[id].children.len() && ((#[trigger] nodes[id].children[i]) == x
            || below_within(nodes, nodes[id].children[i], x, (n - 1) as nat));
    let c = nodes[id].children[i];
    assert(depth_within(nodes, c, (d - 1) as nat));
    if c != x {
        lemma_below_in_range(nodes, c, x, (d - 1) as nat, (n - 1) as nat);
    }
}

/// In a forest, everything below a node has an end above it.
pub proof fn lemma_forest_finite_above_from(nodes: Nodes, id: int)
    requires
        is_forest(nodes),
        0 <= id < nodes.len(),
    ensures
        finite_above_from(nodes, id),
{
    assert(finite_below(nodes, id));
    assert forall|x: int| #[trigger] is_below(nodes, id, x) implies finite_above(nodes, x) by {
        let n = choose|n: nat| below_within(nodes, id, x, n);
        lemma_below_in_range(nodes, id, x, depth(nodes, id), n);
    }
}

// ---------------------------------------------------------------------------
// Ways up
// ---------------------------------------------------------------------------
/// A bound on the way up may be raised.
pub proof fn lemma_height_raise(nodes: Nodes, id: int, h: nat, g: nat)
    requires
        height_within(nodes, id, h),
        h <= g,
    ensures
        height_within(nodes, id, g),
    decreases h,
{
    if let Some(p) = nodes[id].parent {
        lemma_height_raise(nodes, p, (h - 1) as nat, (g - 1) as nat);
    }
}

// ---------------------------------------------------------------------------
// What a change leaves alone
// ---------------------------------------------------------------------------
/// `a` and `b` agree on a node and on what is below it in `a`.
pub open spec fn agree_below(a: Nodes, b: Nodes, id: int) -> bool {
    forall|k: int|
        #![trigger a[k]]
        #![trigger b[k]]
        0 <= k < a.len() && (k == id || is_below(a, id, k)) ==> {
            &&& k < b.len()
            &&& b[k].data == a[k].data
            &&& b[k].children == a[k].children
        }
}

/// Where two agree, the same tree hangs.
pub proof fn lemma_agree_below(a: Nodes, b: Nodes, id: int, d: nat)
    requires
        depth_within(a, id, d),
        agree_below(a, b, id),
    ensures
        depth_within(b, id, d),
        tree_within(b, id, d) == tree_within(a, id, d),
    decreases d,
{
    assert(a[id].children == b[id].children);
    assert forall|i: int| 0 <= i < a[id].children.len() implies depth_within(
        b,
        #[trigger] a[id].children[i],
        (d - 1) as nat,
    ) && tree_within(b, a[id].children[i], (d - 1) as nat) == tree_within(
        a,
        a[id].children[i],
        (d - 1) as nat,
    ) by {
        let c = a[id].children[i];
        lemma_child_is_below(a, id, i);
        assert forall|k: int|
            #![trigger a[k]]
            #![trigger b[k]]
            0 <= k < a.len() && (k == c || is_below(a, c, k)) implies {
            &&& k < b.len()
            &&& b[k].data == a[k].data
            &&& b[k].children == a[k].children
        } by {
            if k != c {
                lemma_below_child(a, id, i, k);
            }
        }
        lemma_agree_below(a, b, c, (d - 1) as nat);
    }
    assert(tree_within(b, id, d).children =~= tree_within(a, id, d).children);
}

/// Where two agree, the same tree hangs.
pub proof fn lemma_agree_tree(a: Nodes, b: Nodes, id: int)
    requires
        finite_below(a, id),
        agree_below(a, b, id),
    ensures
        finite_below(b, id),
        tree(b, id) == tree(a, id),
{
    let d = depth(a, id);
    lemma_agree_below(a, b, id, d);
    lemma_tree(b, id, d);
}

/// Taking children away leaves every bound on the ways down.
pub proof fn lemma_depth_thinned(a: Nodes, b: Nodes, id: int, d: nat)
    requires
        depth_within(a, id, d),
        a.len() <= b.len(),
        forall|k: int|
            0 <= k < a.len() ==> (#[trigger] b[k]).children == a[k].children || b[k].children.len()
                == 0,
    ensures
        depth_within(b, id, d),
    decreases d,
{
    assert forall|i: int| 0 <= i < b[id].children.len() implies depth_within(
        b,
        #[trigger] b[id].children[i],
        (d - 1) as nat,
    ) by {
        assert(b[id].children[i] == a[id].children[i]);
        lemma_depth_thinned(a, b, a[id].children[i], (d - 1) as nat);
    }
}

/// Taking parents away leaves every bound on the way up.
pub proof fn lemma_height_thinned(a: Nodes, b: Nodes, id: int, h: nat)
    requires
        height_within(a, id, h),
        a.len() <= b.len(),
        forall|k: int|
            0 <= k < a.len() ==> (#[trigger] b[k]).parent == a[k].parent || b[k].parent is None,
    ensures
        height_within(b, id, h),
    decreases h,
{
    assert(b[id].parent == a[id].parent || b[id].parent is None);
    if let Some(p) = b[id].parent {
        lemma_height_thinned(a, b, p, (h - 1) as nat);
    }
}

// ---------------------------------------------------------------------------
// Changes that keep a forest a forest
// ---------------------------------------------------------------------------
/// A new node that is not linked to any other keeps a forest a forest.
pub proof fn lemma_new_node_forest(nodes: Nodes, node: NodeModel)
    requires
        is_forest(nodes),
        node.parent is None,
        node.children.len() == 0,
    ensures
        is_forest(nodes.push(node)),
{
    let b = nodes.push(node);
    let n = nodes.len() as int;
    assert forall|id: int| 0 <= id < b.len() implies #[trigger] finite_below(b, id) by {
        if id < n {
            assert(finite_below(nodes, id));
            lemma_depth_thinned(nodes, b, id, depth(nodes, id));
        } else {
            assert(depth_within(b, id, 1));
        }
    }
    assert forall|id: int| 0 <= id < b.len() implies #[trigger] finite_above(b, id) by {
        if id < n {
            assert(finite_above(nodes, id));
            lemma_height_thinned(nodes, b, id, height(nodes, id));
        } else {
            assert(height_within(b, id, 1));
        }
    }
    assert forall|c: int| 0 <= c < b.len() implies match (#[trigger] b[c]).parent {
        Some(p) => 0 <= p < b.len() && b[p].children.contains(c),
        None => true,
    } by {
        if c < n {
            assert(b[c] == nodes[c]);
        }
    }
}

/// New data in the nodes keeps a forest a forest.
pub proof fn lemma_relabelled_forest(a: Nodes, b: Nodes)
    requires
        is_forest(a),
        b.len() == a.len(),
        forall|k: int|
            0 <= k < a.len() ==> (#[trigger] b[k]).parent == a[k].parent && b[k].children
                == a[k].children,
    ensures
        is_forest(b),
{
    assert forall|id: int| 0 <= id < b.len() implies #[trigger] finite_below(b, id) by {
        assert(finite_below(a, id));
        lemma_depth_thinned(a, b, id, depth(a, id));
    }
    assert forall|id: int| 0 <= id < b.len() implies #[trigger] finite_above(b, id) by {
        assert(finite_above(a, id));
        lemma_height_thinned(a, b, id, height(a, id));
    }
    assert forall|p: int, i: int| 0 <= p < b.len() && 0 <= i < b[p].children.len() implies {
        &&& 0 <= #[trigger] b[p].children[i] < b.len()
        &&& b[b[p].children[i]].parent == Some(p)
    } by {
        assert(b[p].children[i] == a[p].children[i]);
        assert(a[a[p].children[i]].parent == Some(p));
    }
    assert forall|p: int, i: int, j: int|
        0 <= p < b.len() && 0 <= i < j < b[p].children.len() implies #[trigger] b[p].children[i]
        != #[trigger] b[p].children[j] by {
        assert(a[p].children[i] != a[p].children[j]);
    }
    assert forall|c: int| 0 <= c < b.len() implies match (#[trigger] b[c]).parent {
        Some(p) => 0 <= p < b.len() && b[p].children.contains(c),
        None => true,
    } by {
        assert(b[c].parent == a[c].parent);
        if let Some(p) = a[c].parent {
            assert(a[p].children.contains(c));
            assert(b[p].children == a[p].children);
        }
    }
}

/// Ways down that do not meet the new parent keep their bound.
proof fn lemma_attached_depth_apart(nodes: Nodes, parent: int, child: int, x: int, d: nat)
    requires
        can_attach(nodes, parent, child),
        depth_within(nodes, x, d),
        x != parent,
        !is_below(nodes, x, parent),
    ensures
        depth_within(attached(nodes, parent, child), x, d),
{
    let b = attached(nodes, parent, child);
    assert forall|k: int|
        #![trigger nodes[k]]
        #![trigger b[k]]
        0 <= k < nodes.len() && (k == x || is_below(nodes, x, k)) implies {
        &&& k < b.len()
        &&& b[k].data == nodes[k].data
        &&& b[k].children == nodes[k].children
    } by {
        assert(k != parent);
    }
    lemma_agree_below(nodes, b, x, d);
}

/// Every way down is still bounded after a node is attached.
proof fn lemma_attached_depth(nodes: Nodes, parent: int, child: int, x: int, d: nat, e: nat)
    requires
        can_attach(nodes, parent, child),
        depth_within(nodes, x, d),
        depth_within(nodes, child, e),
    ensures
        depth_within(attached(nodes, parent, child), x, d + e),
    decreases d,
{
    let b = attached(nodes, parent, child);
    assert forall|i: int| 0 <= i < b[x].children.len() implies depth_within(
        b,
        #[trigger] b[x].children[i],
        (d + e - 1) as nat,
    ) by {
        if i < nodes[x].children.len() {
            assert(b[x].children[i] == nodes[x].children[i]);
            lemma_attached_depth(
                nodes,
                parent,
                child,
                nodes[x].children[i],
                (d - 1) as nat,
                e,
            );
        } else {
            assert(x == parent && b[x].children[i] == child);
            lemma_attached_depth_apart(nodes, parent, child, child, e);
            lemma_depth_raise(b, child, e, (d + e - 1) as nat);
        }
    }
}

/// Ways up that do not meet the attached node keep their bound.
proof fn lemma_attached_height_apart(nodes: Nodes, parent: int, child: int, x: int, h: nat)
    requires
        is_forest(nodes),
        can_attach(nodes, parent, child),
        height_within(nodes, x, h),
        x != child,
        !is_below(nodes, child, x),
    ensures
        height_within(attached(nodes, parent, child), x, h),
    decreases h,
{
    let b = attached(nodes, parent, child);
    assert(b[x].parent == nodes[x].parent);
    if let Some(q) = nodes[x].parent {
        let i = choose|i: int| 0 <= i < nodes[q].children.len() && nodes[q].children[i] == x;
        assert(0 <= i < nodes[q].children.len() && nodes[q].children[i] == x) by {
            assert(nodes[q].children.contains(x));
        }
        if q == child {
            lemma_child_is_below(nodes, child, i);
        }
        if is_below(nodes, child, q) {
            lemma_child_of_below(nodes, child, q, i);
        }
        lemma_attached_height_apart(nodes, parent, child, q, (h - 1) as nat);
    }
}

/// Every way up is still bounded after a node is attached.
proof fn lemma_attached_height(nodes: Nodes, parent: int, child: int, x: int, h: nat, g: nat)
    requires
        is_forest(nodes),
        can_attach(nodes, parent, child),
        height_within(nodes, x, h),
        height_within(nodes, parent, g),
    ensures
        height_within(attached(nodes, parent, child), x, h + g),
    decreases h,
{
    let b = attached(nodes, parent, child);
    if x == child {
        lemma_attached_height_apart(nodes, parent, child, parent, g);
        lemma_height_raise(b, parent, g, (h + g - 1) as nat);
        assert(b[x].parent == Some(parent));
    } else {
        assert(b[x].parent == nodes[x].parent);
        if let Some(q) = nodes[x].parent {
            lemma_attached_height(nodes, parent, child, q, (h - 1) as nat, g);
        }
    }
}

/// Attaching a node that has no parent, outside of what is below it, keeps a forest a forest.
pub proof fn lemma_attached_forest(nodes: Nodes, parent: int, child: int)
    requires
        is_forest(nodes),
        can_attach(nodes, parent, child),
    ensures
        is_forest(attached(nodes, parent, child)),
{
    let b = attached(nodes, parent, child);
    assert(finite_below(nodes, child));
    assert(finite_above(nodes, parent));
    assert forall|id: int| 0 <= id < b.len() implies #[trigger] finite_below(b, id) by {
        assert(finite_below(nodes, id));
        lemma_attached_depth(
            nodes,
            parent,
            child,
            id,
            depth(nodes, id),
            depth(nodes, child),
        );
    }
    assert forall|id: int| 0 <= id < b.len() implies #[trigger] finite_above(b, id) by {
        assert(finite_above(nodes, id));
        lemma_attached_height(
            nodes,
            parent,
            child,
            id,
            height(nodes, id),
            height(nodes, parent),
        );
    }
    assert forall|p: int, i: int| 0 <= p < b.len() && 0 <= i < b[p].children.len() implies {
        &&& 0 <= #[trigger] b[p].children[i] < b.len()
        &&& b[b[p].children[i]].parent == Some(p)
        &&& i < nodes[p].children.len() ==> b[p].children[i] == nodes[p].children[i]
            && b[p].children[i] != child
    } by {
        if i < nodes[p].children.len() {
            assert(b[p].children[i] == nodes[p].children[i]);
            assert(nodes[nodes[p].children[i]].parent == Some(p));
        }
    }
    assert forall|p: int, i: int, j: int|
        0 <= p < b.len() && 0 <= i < j < b[p].children.len() implies #[trigger] b[p].children[i]
        != #[trigger] b[p].children[j] by {
        if j < nodes[p].children.len() {
            assert(nodes[p].children[i] != nodes[p].children[j]);
        }
    }
    assert forall|c: int| 0 <= c < b.len() implies match (#[trigger] b[c]).parent {
        Some(p) => 0 <= p < b.len() && b[p].children.contains(c),
        None => true,
    } by {
        if c == child {
            assert(b[parent].children[nodes[parent].children.len() as int] == child);
        } else {
            assert(b[c].parent == nodes[c].parent);
            if let Some(p) = nodes[c].parent {
                assert(nodes[p].children.contains(c));
                let i = choose|i: int|
                    0 <= i < nodes[p].children.len() && nodes[p].children[i] == c;
                assert(b[p].children[i] == c);
            }
        }
    }
}

/// Taking apart what is below a node keeps a forest a forest.
pub proof fn lemma_pruned_forest(nodes: Nodes, id: int)
    requires
        is_forest(nodes),
        0 <= id < nodes.len(),
    ensures
        is_forest(pruned(nodes, id)),
{
    let b = pruned(nodes, id);
    assert forall|k: int| 0 <= k < b.len() implies #[trigger] finite_below(b, k) by {
        assert(finite_below(nodes, k));
        lemma_depth_thinned(nodes, b, k, depth(nodes, k));
    }
    assert forall|k: int| 0 <= k < b.len() implies #[trigger] finite_above(b, k) by {
        assert(finite_above(nodes, k));
        lemma_height_thinned(nodes, b, k, height(nodes, k));
    }
    assert forall|p: int, i: int| 0 <= p < b.len() && 0 <= i < b[p].children.len() implies {
        &&& 0 <= #[trigger] b[p].children[i] < b.len()
        &&& b[b[p].children[i]].parent == Some(p)
    } by {
        assert(b[p].children == nodes[p].children);
        let c = nodes[p].children[i];
        assert(nodes[c].parent == Some(p));
        if is_below(nodes, id, c) {
            lemma_parent_of_below(nodes, id, c, p);
        }
    }
    assert forall|p: int, i: int, j: int|
        0 <= p < b.len() && 0 <= i < j < b[p].children.len() implies #[trigger] b[p].children[i]
        != #[trigger] b[p].children[j] by {
        assert(b[p].children == nodes[p].children);
        assert(nodes[p].children[i] != nodes[p].children[j]);
    }
    assert forall|c: int| 0 <= c < b.len() implies match (#[trigger] b[c]).parent {
        Some(p) => 0 <= p < b.len() && b[p].children.contains(c),
        None => true,
    } by {
        if let Some(p) = b[c].parent {
            assert(nodes[c].parent == Some(p));
            assert(nodes[p].children.contains(c));
            let i = choose|i: int| 0 <= i < nodes[p].children.len() && nodes[p].children[i] == c;
            if p == id {
                lemma_child_is_below(nodes, id, i);
            } else if is_below(nodes, id, p) {
                lemma_child_of_below(nodes, id, p, i);
            }
        }
    }
}

/// In a forest, the parent of what is below a node is that node or below it too.
pub proof fn lemma_parent_of_below(nodes: Nodes, a: int, x: int, p: int)
    requires
        is_forest(nodes),
        is_below(nodes, a, x),
        0 <= x < nodes.len(),
        nodes[x].parent == Some(p),
    ensures
        p == a || is_below(nodes, a, p),
{
    let n = choose|n: nat| below_within(nodes, a, x, n);
    lemma_parent_of_below_within(nodes, a, x, p, n);
}

proof fn lemma_parent_of_below_within(nodes: Nodes, a: int, x: int, p: int, n: nat)
    requires
        is_forest(nodes),
        below_within(nodes, a, x, n),
        0 <= x < nodes.len(),
        nodes[x].parent == Some(p),
    ensures
        p == a || is_below(nodes, a, p),
    decreases n,
{
    let j = choose|j: int|
        0 <= j < nodes[a].children.len() && ((#[trigger] nodes[a].children[j]) == x || below_within(
            nodes,
            nodes[a].children[j],
            x,
            (n - 1) as nat,
        ));
    let c = nodes[a].children[j];
    assert(nodes[c].parent == Some(a));
    if c != x {
        lemma_parent_of_below_within(nodes, c, x, p, (n - 1) as nat);
        if p == c {
            lemma_child_is_below(nodes, a, j);
        } else {
            lemma_below_child(nodes, a, j, p);
        }
    }
}

// ---------------------------------------------------------------------------
// Growth
// ---------------------------------------------------------------------------
/// Where children have higher numbers than their parents, every way down comes to an end.
pub proof fn lemma_grows_down_finite(nodes: Nodes, from: int, id: int)
    requires
        grows_down(nodes, from),
        from <= id < nodes.len(),
        0 <= from,
    ensures
        depth_within(nodes, id, (nodes.len() - id) as nat),
        finite_below(nodes, id),
    decreases nodes.len() - id,
{
    let d = (nodes.len() - id) as nat;
    assert forall|i: int| 0 <= i < nodes[id].children.len() implies depth_within(
        nodes,
        #[trigger] nodes[id].children[i],
        (d - 1) as nat,
    ) by {
        let c = nodes[id].children[i];
        lemma_grows_down_finite(nodes, from, c);
        lemma_depth_raise(nodes, c, (nodes.len() - c) as nat, (d - 1) as nat);
    }
    assert(depth_within(nodes, id, d));
}

proof fn lemma_grows_down_below(nodes: Nodes, from: int, id: int, x: int, n: nat)
    requires
        grows_down(nodes, from),
        from <= id,
        below_within(nodes, id, x, n),
    ensures
        id < x < nodes.len(),
    decreases n,
{
    let j = choose|j: int|
        0 <= j < nodes[id].children.len() && ((#[trigger] nodes[id].children[j]) == x
            || below_within(nodes, nodes[id].children[j], x, (n - 1) as nat));
    assert(id < nodes[id].children[j] < nodes.len());
    if nodes[id].children[j] != x {
        lemma_grows_down_below(nodes, from, nodes[id].children[j], x, (n - 1) as nat);
    }
}

/// A tree of new nodes stays as it is while other nodes change.
pub proof fn lemma_grown_tree_stays(a: Nodes, b: Nodes, from: int, id: int)
    requires
        0 <= from <= id < a.len() <= b.len(),
        grows_down(a, from),
        forall|k: int| from <= k < a.len() ==> #[trigger] b[k] == a[k],
    ensures
        tree(b, id) == tree(a, id),
{
    lemma_grows_down_finite(a, from, id);
    assert forall|k: int|
        #![trigger a[k]]
        #![trigger b[k]]
        0 <= k < a.len() && (k == id || is_below(a, id, k)) implies {
        &&& k < b.len()
        &&& b[k].data == a[k].data
        &&& b[k].children == a[k].children
    } by {
        if k != id {
            let n = choose|n: nat| below_within(a, id, k, n);
            lemma_grows_down_below(a, from, id, k, n);
        }
        assert(b[k] == a[k]);
    }
    lemma_agree_tree(a, b, id);
}

/// Some nodes after others, with what is below them.
pub proof fn lemma_preorder_concat(nodes: Nodes, x: Seq<int>, y: Seq<int>, d: nat)
    ensures
        preorder(nodes, x + y, d) == preorder(nodes, x, d) + preorder(nodes, y, d),
    decreases y.len(),
{
    if d == 0 {
        assert(preorder(nodes, x, d) + preorder(nodes, y, d) =~= Seq::<int>::empty());
    } else if y.len() == 0 {
        assert(x + y =~= x);
        assert(preorder(nodes, x, d) + preorder(nodes, y, d) =~= preorder(nodes, x, d));
    } else {
        assert((x + y).drop_last() =~= x + y.drop_last());
        assert((x + y).last() == y.last());
        lemma_preorder_concat(nodes, x, y.drop_last(), d);
        assert(preorder(nodes, x + y, d) =~= preorder(nodes, x, d) + preorder(nodes, y, d));
    }
}

/// A node comes first, and then what is below it.
proof fn lemma_preorder_one(nodes: Nodes, x: int, d: nat)
    requires
        d > 0,
    ensures
        preorder(nodes, seq![x], d) == seq![x] + preorder(
            nodes,
            nodes[x].children,
            (d - 1) as nat,
        ),
{
    let front = seq![x].drop_last();
    assert(front =~= Seq::<int>::empty());
    assert(preorder(nodes, front, d) =~= Seq::<int>::empty());
    assert(preorder(nodes, seq![x], d) =~= seq![x] + preorder(
        nodes,
        nodes[x].children,
        (d - 1) as nat,
    ));
}

/// New nodes with what is below them stay as they are while other nodes change.
proof fn lemma_grown_preorder_stays(a: Nodes, b: Nodes, from: int, ids: Seq<int>, d: nat)
    requires
        0 <= from <= a.len() <= b.len(),
        grows_down(a, from),
        forall|k: int| from <= k < a.len() ==> #[trigger] b[k] == a[k],
        forall|i: int| 0 <= i < ids.len() ==> from <= #[trigger] ids[i] < a.len(),
    ensures
        preorder(b, ids, d) == preorder(a, ids, d),
    decreases d, ids.len(),
{
    if d > 0 && ids.len() > 0 {
        let last = ids.last();
        let front = ids.drop_last();
        assert(from <= ids[ids.len() - 1] < a.len());
        assert forall|i: int| 0 <= i < front.len() implies from <= #[trigger] front[i]
            < a.len() by {
            assert(front[i] == ids[i]);
        }
        lemma_grown_preorder_stays(a, b, from, front, d);
        assert(b[last] == a[last]);
        let kids = a[last].children;
        assert forall|i: int| 0 <= i < kids.len() implies from <= #[trigger] kids[i] < a.len() by {
            assert(last < a[last].children[i] < a.len());
        }
        lemma_grown_preorder_stays(a, b, from, kids, (d - 1) as nat);
    }
}

/// New nodes with what is below them, whatever the bound.
proof fn lemma_grown_preorder_bound(
    nodes: Nodes,
    from: int,
    ids: Seq<int>,
    low: int,
    d: nat,
    e: nat,
)
    requires
        0 <= from <= low,
        grows_down(nodes, from),
        forall|i: int| 0 <= i < ids.len() ==> low <= #[trigger] ids[i] < nodes.len(),
        d >= nodes.len() - low,
        e >= nodes.len() - low,
    ensures
        preorder(nodes, ids, d) == preorder(nodes, ids, e),
{
    assert forall|i: int| 0 <= i < ids.len() implies depth_within(nodes, #[trigger] ids[i], d)
        && depth_within(nodes, ids[i], e) by {
        let c = ids[i];
        lemma_grows_down_finite(nodes, from, c);
        lemma_depth_raise(nodes, c, (nodes.len() - c) as nat, d);
        lemma_depth_raise(nodes, c, (nodes.len() - c) as nat, e);
    }
    lemma_preorder_bound(nodes, ids, d, e);
}

/// Nothing new.
pub proof fn lemma_grown_nothing(nodes: Nodes, parent: int)
    requires
        0 <= parent < nodes.len(),
    ensures
        grown(nodes, nodes, parent, Seq::empty()),
{
    let kids = nodes[parent].children;
    assert(kids.take(kids.len() as int) =~= kids);
    assert(kids.skip(kids.len() as int) =~= Seq::<int>::empty());
    assert(numbers(nodes.len() as int, nodes.len() as int) =~= Seq::<int>::empty());
}

/// One growth after another.
pub proof fn lemma_grown_twice(
    a: Nodes,
    b: Nodes,
    c: Nodes,
    parent: int,
    first: Seq<Tree>,
    second: Seq<Tree>,
)
    requires
        grown(a, b, parent, first),
        grown(b, c, parent, second),
    ensures
        grown(a, c, parent, first + second),
{
    let k = a[parent].children.len() as int;
    let m = b[parent].children.len() as int;
    let ts = first + second;
    assert forall|i: int| 0 <= i < m implies #[trigger] c[parent].children[i]
        == b[parent].children[i] by {
        assert(c[parent].children.take(m)[i] == b[parent].children[i]);
    }
    assert(c[parent].children.take(k) =~= a[parent].children) by {
        assert(b[parent].children.take(k) == a[parent].children);
        assert forall|i: int| 0 <= i < k implies #[trigger] c[parent].children.take(k)[i]
            == a[parent].children[i] by {
            assert(b[parent].children.take(k)[i] == a[parent].children[i]);
        }
    }
    assert forall|i: int| 0 <= i < a.len() && i != parent implies #[trigger] c[i] == a[i] by {
        assert(c[i] == b[i]);
        assert(b[i] == a[i]);
    }
    assert forall|j: int| 0 <= j < ts.len() implies {
        let x = #[trigger] c[parent].children[k + j];
        &&& a.len() <= x < c.len()
        &&& c[x].parent == Some(parent)
        &&& tree(c, x) == ts[j]
    } by {
        let x = c[parent].children[k + j];
        if j < first.len() {
            assert(x == b[parent].children[k + j]);
            assert(tree(b, x) == first[j]);
            assert(c[x] == b[x]);
            lemma_grown_tree_stays(b, c, a.len() as int, x);
        } else {
            let l = j - first.len();
            assert(x == c[parent].children[m + l]);
            assert(tree(c, x) == second[l]);
        }
    }
    assert forall|i: int, j: int| k <= i < j < k + ts.len() implies #[trigger] c[parent].children[i]
        < #[trigger] c[parent].children[j] by {
        if j < m {
            assert(b[parent].children[i] < b[parent].children[j]);
        } else if i < m {
            assert(b[parent].children[k + (i - k)] < b.len());
            assert(c[parent].children[m + (j - m)] >= b.len());
        }
    }
    assert forall|p: int, i: int|
        a.len() <= p < c.len() && 0 <= i < c[p].children.len() implies p
        < #[trigger] c[p].children[i] < c.len() && c[c[p].children[i]].parent == Some(p) by {
        if p < b.len() {
            assert(c[p] == b[p]);
            let x = b[p].children[i];
            assert(p < x < b.len() && b[x].parent == Some(p));
            assert(c[x] == b[x]);
        }
    }
    assert forall|p: int, i: int, j: int|
        a.len() <= p < c.len() && 0 <= i < j < c[p].children.len() implies
        #[trigger] c[p].children[i] < #[trigger] c[p].children[j] by {
        if p < b.len() {
            assert(c[p] == b[p]);
            assert(b[p].children[i] < b[p].children[j]);
        }
    }
    lemma_numbered_twice(a, b, c, parent, first, second);
}

proof fn lemma_numbered_twice(
    a: Nodes,
    b: Nodes,
    c: Nodes,
    parent: int,
    first: Seq<Tree>,
    second: Seq<Tree>,
)
    requires
        grown(a, b, parent, first),
        grown(b, c, parent, second),
    ensures
        preorder(
            c,
            c[parent].children.skip(a[parent].children.len() as int),
            c.len(),
        ) == numbers(a.len() as int, c.len() as int),
{
    let k = a[parent].children.len() as int;
    let m = b[parent].children.len() as int;
    let x = b[parent].children.skip(k);
    let y = c[parent].children.skip(m);
    assert(c[parent].children.skip(k) =~= x + y) by {
        assert forall|i: int| 0 <= i < m implies c[parent].children[i] == b[parent].children[i] by {
            assert(c[parent].children.take(m)[i] == b[parent].children[i]);
        }
    }
    lemma_preorder_concat(c, x, y, c.len());
    assert forall|i: int| 0 <= i < x.len() implies a.len() <= #[trigger] x[i] < b.len() by {
        assert(x[i] == b[parent].children[k + i]);
    }
    lemma_grown_preorder_stays(b, c, a.len() as int, x, c.len());
    lemma_grown_preorder_bound(b, a.len() as int, x, a.len() as int, b.len(), c.len());
    assert(numbers(a.len() as int, b.len() as int) + numbers(b.len() as int, c.len() as int)
        =~= numbers(a.len() as int, c.len() as int));
}

/// A new node without children is attached.
pub proof fn lemma_grown_leaf(nodes: Nodes, parent: int, data: Content)
    requires
        0 <= parent < nodes.len(),
    ensures
        grown(
            nodes,
            attached(
                nodes.push(NodeModel { data, parent: None, children: Seq::empty() }),
                parent,
                nodes.len() as int,
            ),
            parent,
            seq![leaf(data)],
        ),
{
    let x = nodes.len() as int;
    let k = nodes[parent].children.len() as int;
    let b = attached(
        nodes.push(NodeModel { data, parent: None, children: Seq::empty() }),
        parent,
        x,
    );
    assert(b[parent].children.take(k) =~= nodes[parent].children);
    assert(b[parent].children[k] == x);
    assert(grows_down(b, x));
    lemma_grows_down_finite(b, x, x);
    lemma_tree_unfold(b, x);
    assert(trees(b, b[x].children) =~= Seq::<Tree>::empty());
    assert forall|j: int| 0 <= j < 1 implies {
        let c = #[trigger] b[parent].children[k + j];
        &&& nodes.len() <= c < b.len()
        &&& b[c].parent == Some(parent)
        &&& tree(b, c) == seq![leaf(data)][j]
    } by {
        assert(j == 0);
    }
    assert(b[parent].children.skip(k) =~= seq![x]);
    lemma_preorder_one(b, x, b.len());
    assert(preorder(b, b[x].children, (b.len() - 1) as nat) =~= Seq::<int>::empty());
    assert(numbers(x, x + 1) =~= seq![x]);
    assert(seq![x] + Seq::<int>::empty() =~= seq![x]);
}

/// A new node is attached, and then grows.
pub proof fn lemma_grown_below(
    a: Nodes,
    b: Nodes,
    c: Nodes,
    parent: int,
    data: Content,
    ts: Seq<Tree>,
)
    requires
        grown(a, b, parent, seq![leaf(data)]),
        b.len() == a.len() + 1,
        b[a.len() as int].data == data,
        b[a.len() as int].children.len() == 0,
        grown(b, c, a.len() as int, ts),
    ensures
        grown(a, c, parent, seq![Tree { data, children: ts }]),
{
    let x = a.len() as int;
    let k = a[parent].children.len() as int;
    assert(b[parent].children[k + 0] == x);
    assert(c[parent] == b[parent]);
    assert(c[x].children.take(0) =~= Seq::<int>::empty());
    assert forall|p: int, i: int|
        a.len() <= p < c.len() && 0 <= i < c[p].children.len() implies p
        < #[trigger] c[p].children[i] < c.len() && c[c[p].children[i]].parent == Some(p) by {
        if p == x {
            assert(c[x].children[0 + i] >= b.len());
        }
    }
    assert forall|p: int, i: int, j: int|
        a.len() <= p < c.len() && 0 <= i < j < c[p].children.len() implies
        #[trigger] c[p].children[i] < #[trigger] c[p].children[j] by {}
    lemma_grows_down_finite(c, x, x);
    lemma_tree_unfold(c, x);
    assert(trees(c, c[x].children) =~= ts) by {
        assert forall|j: int| 0 <= j < ts.len() implies trees(c, c[x].children)[j] == ts[j] by {
            assert(tree(c, c[x].children[0 + j]) == ts[j]);
        }
    }
    assert forall|i: int| 0 <= i < a.len() && i != parent implies #[trigger] c[i] == a[i] by {
        assert(c[i] == b[i]);
        assert(b[i] == a[i]);
    }
    assert forall|j: int| 0 <= j < 1 implies {
        let y = #[trigger] c[parent].children[k + j];
        &&& a.len() <= y < c.len()
        &&& c[y].parent == Some(parent)
        &&& tree(c, y) == seq![Tree { data, children: ts }][j]
    } by {
        assert(c[parent].children[k + j] == b[parent].children[k + j]);
    }
    assert(c[parent].children.skip(k) =~= seq![x]);
    lemma_preorder_one(c, x, c.len());
    let kids = c[x].children;
    assert(kids.skip(0) =~= kids);
    assert forall|i: int| 0 <= i < kids.len() implies x < #[trigger] kids[i] < c.len() by {
        assert(x < c[x].children[i] < c.len());
    }
    lemma_grown_preorder_bound(c, x, kids, x + 1, c.len(), (c.len() - 1) as nat);
    assert(seq![x] + numbers(x + 1, c.len() as int) =~= numbers(x, c.len() as int));
}

} // verus!
