//! Levels of a forest: how many steps a node is from the top, and that a node has one ancestor on
//! each level above its own.
use vstd::prelude::*;

use crate::forest::{
    below_within, depth, depth_within, descendants, finite_above, finite_below, height,
    height_within, is_below, is_forest, lemma_below_child, lemma_child_is_below,
    lemma_descendants_bound, lemma_preorder_reached, preorder, reached, Nodes,
};

verus! {

/// How many steps lead from a node to the top, counted up to a height.
pub open spec fn level_within(nodes: Nodes, x: int, height: nat) -> nat
    decreases height,
{
    match nodes[x].parent {
        Some(p) => if height == 0 {
            0
        } else {
            1 + level_within(nodes, p, (height - 1) as nat)
        },
        None => 0,
    }
}

/// How many steps lead from a node to the top.
pub open spec fn level(nodes: Nodes, x: int) -> nat {
    level_within(nodes, x, height(nodes, x))
}

/// The node that some steps up lead to.
pub open spec fn up(nodes: Nodes, x: int, steps: nat) -> Option<int>
    decreases steps,
{
    if steps == 0 {
        Some(x)
    } else {
        match up(nodes, x, (steps - 1) as nat) {
            Some(y) => nodes[y].parent,
            None => None,
        }
    }
}

proof fn lemma_level_within(nodes: Nodes, x: int, h: nat, g: nat)
    requires
        height_within(nodes, x, h),
        height_within(nodes, x, g),
    ensures
        level_within(nodes, x, h) == level_within(nodes, x, g),
    decreases h,
{
    if let Some(p) = nodes[x].parent {
        lemma_level_within(nodes, p, (h - 1) as nat, (g - 1) as nat);
    }
}

/// A child is one level below its parent.
pub proof fn lemma_level_child(nodes: Nodes, c: int, p: int)
    requires
        finite_above(nodes, c),
        nodes[c].parent == Some(p),
    ensures
        level(nodes, c) == level(nodes, p) + 1,
        0 <= p < nodes.len(),
        finite_above(nodes, p),
{
    let h = height(nodes, c);
    assert(height_within(nodes, c, h));
    assert(height_within(nodes, p, (h - 1) as nat));
    assert(finite_above(nodes, p));
    lemma_level_within(nodes, p, (h - 1) as nat, height(nodes, p));
}

proof fn lemma_below_level_within(nodes: Nodes, a: int, x: int, n: nat)
    requires
        is_forest(nodes),
        below_within(nodes, a, x, n),
    ensures
        0 <= x < nodes.len(),
        level(nodes, a) < level(nodes, x),
        up(nodes, x, (level(nodes, x) - level(nodes, a)) as nat) == Some(a),
    decreases n,
{
    let i = choose|i: int|
        0 <= i < nodes[a].children.len() && ((#[trigger] nodes[a].children[i]) == x || below_within(
            nodes,
            nodes[a].children[i],
            x,
            (n - 1) as nat,
        ));
    let c = nodes[a].children[i];
    assert(0 <= c < nodes.len() && nodes[c].parent == Some(a));
    assert(finite_above(nodes, c));
    lemma_level_child(nodes, c, a);
    if c == x {
        assert(up(nodes, x, 0) == Some(x));
        assert(up(nodes, x, 1) == Some(a));
    } else {
        lemma_below_level_within(nodes, c, x, (n - 1) as nat);
    }
}

/// What is below a node has a higher level, and the node is its ancestor on the node's own level.
pub proof fn lemma_below_level(nodes: Nodes, a: int, x: int)
    requires
        is_forest(nodes),
        is_below(nodes, a, x),
    ensures
        0 <= x < nodes.len(),
        level(nodes, a) < level(nodes, x),
        up(nodes, x, (level(nodes, x) - level(nodes, a)) as nat) == Some(a),
{
    let n = choose|n: nat| below_within(nodes, a, x, n);
    lemma_below_level_within(nodes, a, x, n);
}

/// Nodes on one level, with what is below them, make up a sequence without repetitions.
proof fn lemma_preorder_once(nodes: Nodes, ids: Seq<int>, d: nat, l: nat)
    requires
        is_forest(nodes),
        forall|i: int| 0 <= i < ids.len() ==> depth_within(nodes, #[trigger] ids[i], d),
        forall|i: int| 0 <= i < ids.len() ==> level(nodes, #[trigger] ids[i]) == l,
        ids.no_duplicates(),
    ensures
        preorder(nodes, ids, d).no_duplicates(),
    decreases d, ids.len(),
{
    if ids.len() > 0 {
        let last = ids.last();
        let front = ids.drop_last();
        let kids = nodes[last].children;
        assert(last == ids[ids.len() - 1]);
        assert(depth_within(nodes, last, d));
        assert(level(nodes, last) == l);
        assert forall|i: int| 0 <= i < front.len() implies depth_within(
            nodes,
            #[trigger] front[i],
            d,
        ) && level(nodes, front[i]) == l && front[i] != last by {
            assert(front[i] == ids[i]);
        }
        assert(front.no_duplicates());
        lemma_preorder_once(nodes, front, d, l);
        assert forall|i: int| 0 <= i < kids.len() implies depth_within(
            nodes,
            #[trigger] kids[i],
            (d - 1) as nat,
        ) && level(nodes, kids[i]) == l + 1 by {
            assert(nodes[nodes[last].children[i]].parent == Some(last));
            assert(finite_above(nodes, kids[i]));
            lemma_level_child(nodes, kids[i], last);
        }
        assert(kids.no_duplicates()) by {
            assert forall|i: int, j: int|
                0 <= i < kids.len() && 0 <= j < kids.len() && i != j implies kids[i] != kids[j] by {
                if i < j {
                    assert(nodes[last].children[i] != nodes[last].children[j]);
                } else {
                    assert(nodes[last].children[j] != nodes[last].children[i]);
                }
            }
        }
        lemma_preorder_once(nodes, kids, (d - 1) as nat, l + 1);
        let a = preorder(nodes, front, d);
        let b = preorder(nodes, kids, (d - 1) as nat);
        assert forall|x: int| a.contains(x) implies x != last && !b.contains(x) by {
            lemma_preorder_reached(nodes, front, d, x);
            lemma_preorder_reached(nodes, kids, (d - 1) as nat, x);
            let i = choose|i: int|
                0 <= i < front.len() && (#[trigger] front[i] == x || is_below(nodes, front[i], x));
            if front[i] != x {
                lemma_below_level(nodes, front[i], x);
            }
            if b.contains(x) {
                lemma_reached_is_below(nodes, last, x);
                lemma_below_level(nodes, last, x);
            }
        }
        assert(!b.contains(last)) by {
            lemma_preorder_reached(nodes, kids, (d - 1) as nat, last);
            if b.contains(last) {
                lemma_reached_is_below(nodes, last, last);
                lemma_below_level(nodes, last, last);
            }
        }
        lemma_join_once(a, last, b);
    }
}

proof fn lemma_join_once(a: Seq<int>, x: int, b: Seq<int>)
    requires
        a.no_duplicates(),
        b.no_duplicates(),
        forall|y: int| a.contains(y) ==> y != x && !b.contains(y),
        !b.contains(x),
    ensures
        (a.push(x) + b).no_duplicates(),
{
    let c = a.push(x) + b;
    let n = a.len() as int;
    assert forall|i: int, j: int| 0 <= i < c.len() && 0 <= j < c.len() && i != j implies c[i]
        != c[j] by {
        if i < n {
            assert(c[i] == a[i] && a.contains(a[i]));
        } else if i > n {
            assert(c[i] == b[i - n - 1] && b.contains(b[i - n - 1]));
        }
        if j < n {
            assert(c[j] == a[j] && a.contains(a[j]));
        } else if j > n {
            assert(c[j] == b[j - n - 1] && b.contains(b[j - n - 1]));
        }
    }
}

/// What is reached from the children of a node is below the node.
pub proof fn lemma_reached_is_below(nodes: Nodes, a: int, x: int)
    requires
        0 <= a < nodes.len(),
        reached(nodes, nodes[a].children, x),
    ensures
        is_below(nodes, a, x),
{
    let kids = nodes[a].children;
    let i = choose|i: int|
        0 <= i < kids.len() && (#[trigger] kids[i] == x || is_below(nodes, kids[i], x));
    if kids[i] == x {
        lemma_child_is_below(nodes, a, i);
    } else {
        lemma_below_child(nodes, a, i, x);
    }
}

/// No node is visited twice on the way through what is below a node.
pub proof fn lemma_descendants_once(nodes: Nodes, id: int)
    requires
        is_forest(nodes),
        0 <= id < nodes.len(),
    ensures
        descendants(nodes, id).no_duplicates(),
{
    assert(finite_below(nodes, id));
    let d = depth(nodes, id);
    let kids = nodes[id].children;
    assert(depth_within(nodes, id, d));
    lemma_descendants_bound(nodes, id, d, (d - 1) as nat);
    assert forall|i: int| 0 <= i < kids.len() implies level(nodes, #[trigger] kids[i]) == level(
        nodes,
        id,
    ) + 1 by {
        assert(nodes[nodes[id].children[i]].parent == Some(id));
        assert(finite_above(nodes, kids[i]));
        lemma_level_child(nodes, kids[i], id);
    }
    assert(kids.no_duplicates()) by {
        assert forall|i: int, j: int| 0 <= i < kids.len() && 0 <= j < kids.len() && i != j implies
            kids[i] != kids[j] by {
            if i < j {
                assert(nodes[id].children[i] != nodes[id].children[j]);
            } else {
                assert(nodes[id].children[j] != nodes[id].children[i]);
            }
        }
    }
    lemma_preorder_once(nodes, kids, (d - 1) as nat, level(nodes, id) + 1);
}

} // verus!
