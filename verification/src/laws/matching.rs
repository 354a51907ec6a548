//! Laws of matching: how a sequence of parts matches, told by its last part and the parts before.
use vstd::prelude::*;

use crate::forest::{is_below, is_forest, Nodes};
use crate::laws::queries::law_nearest_ancestor;
use crate::levels::{lemma_below_level, up};
use crate::query::{
    compound_holds, nearest_ancestor, parts_above, sequence_holds, simple_holds, Part, Simple,
};
use crate::selector::Combinator;
use crate::tree::Content;

verus! {

/// A node passes a compound if and only if it passes every test of it.
pub proof fn law_compound_is_all_tests(data: Content, tests: Seq<Simple>)
    ensures
        compound_holds(data, tests) <==> forall|i: int|
            0 <= i < tests.len() ==> simple_holds(data, #[trigger] tests[i]),
{
}

/// No parts match nothing, and a single part matches the nodes that pass its tests.
pub proof fn law_shortest_sequences(nodes: Nodes, part: Part, id: int)
    ensures
        !sequence_holds(nodes, Seq::empty(), id),
        sequence_holds(nodes, seq![part], id) <==> compound_holds(nodes[id].data, part.compound),
{
    assert(seq![part].last() == part);
}

/// Behind `>`, a node matches if and only if it passes the last part and its parent matches the
/// parts before.
pub proof fn law_child_step(nodes: Nodes, parts: Seq<Part>, id: int)
    requires
        parts.len() > 1,
        parts[parts.len() - 2].combinator == Some(Combinator::Child),
    ensures
        sequence_holds(nodes, parts, id) <==> {
            &&& compound_holds(nodes[id].data, parts.last().compound)
            &&& nodes[id].parent matches Some(p) && sequence_holds(nodes, parts.drop_last(), p)
        },
{
    let front = parts.drop_last();
    let k = (parts.len() - 1) as nat;
    assert(front.last() == parts[k - 1]);
    if let Some(p) = nodes[id].parent {
        lemma_parts_above_agree(nodes, parts, front, (k - 1) as nat, p);
    }
}

/// Whether a node is the nearest one above another that passes some tests.
pub open spec fn is_nearest_above(nodes: Nodes, a: int, id: int, tests: Seq<Simple>) -> bool {
    &&& is_below(nodes, a, id)
    &&& compound_holds(nodes[a].data, tests)
    &&& forall|y: int| #[trigger]
        is_below(nodes, a, y) && is_below(nodes, y, id) ==> !compound_holds(nodes[y].data, tests)
}

/// Behind white space, a node matches if and only if it passes the last part and the nearest node
/// above it that passes the part before matches all the parts before.
pub proof fn law_descendant_step(nodes: Nodes, parts: Seq<Part>, id: int)
    requires
        is_forest(nodes),
        0 <= id < nodes.len(),
        parts.len() > 1,
        parts[parts.len() - 2].combinator != Some(Combinator::Child),
    ensures
        sequence_holds(nodes, parts, id) <==> {
            &&& compound_holds(nodes[id].data, parts.last().compound)
            &&& exists|a: int| #[trigger]
                is_nearest_above(nodes, a, id, parts[parts.len() - 2].compound) && sequence_holds(
                    nodes,
                    parts.drop_last(),
                    a,
                )
        },
{
    let front = parts.drop_last();
    let k = (parts.len() - 1) as nat;
    let tests = parts[k - 1].compound;
    assert(front.last() == parts[k - 1]);
    law_nearest_ancestor(nodes, id, tests);
    match nearest_ancestor(nodes, id, tests) {
        Some(n) => {
            lemma_parts_above_agree(nodes, parts, front, (k - 1) as nat, n);
            assert(is_nearest_above(nodes, n, id, tests)) by {
                assert forall|y: int| #[trigger]
                    is_below(nodes, n, y) && is_below(nodes, y, id) implies !compound_holds(
                    nodes[y].data,
                    tests,
                ) by {
                    if compound_holds(nodes[y].data, tests) {
                        lemma_no_circle(nodes, n, y);
                    }
                }
            }
            assert forall|a: int| #[trigger] is_nearest_above(nodes, a, id, tests) implies a
                == n by {
                if a != n {
                    assert(is_below(nodes, a, n));
                    assert(is_below(nodes, n, id));
                }
            }
        },
        None => {
            assert forall|a: int| !#[trigger] is_nearest_above(nodes, a, id, tests) by {
                if is_nearest_above(nodes, a, id, tests) {
                    assert(is_below(nodes, a, id));
                }
            }
        },
    }
}

/// Two nodes are not below each other, and no node is below itself.
proof fn lemma_no_circle(nodes: Nodes, a: int, b: int)
    requires
        is_forest(nodes),
        is_below(nodes, a, b),
    ensures
        a != b,
        !is_below(nodes, b, a),
{
    lemma_below_level(nodes, a, b);
    if is_below(nodes, b, a) {
        lemma_below_level(nodes, b, a);
    }
}

/// Parts that agree are found in the same way.
pub proof fn lemma_parts_above_agree(nodes: Nodes, a: Seq<Part>, b: Seq<Part>, k: nat, id: int)
    requires
        k <= a.len(),
        k <= b.len(),
        forall|i: int| 0 <= i < k ==> #[trigger] a[i] == b[i],
    ensures
        parts_above(nodes, a, k, id) == parts_above(nodes, b, k, id),
    decreases k,
{
    if k > 0 {
        let part = a[k - 1];
        assert(b[k - 1] == part);
        if let Some(p) = nodes[id].parent {
            lemma_parts_above_agree(nodes, a, b, (k - 1) as nat, p);
        }
        if let Some(n) = nearest_ancestor(nodes, id, part.compound) {
            lemma_parts_above_agree(nodes, a, b, (k - 1) as nat, n);
        }
    }
}

/// A sequence with `>` between all its parts matches a node if and only if the last part holds of
/// the node, the one before of its parent, the one before that of the parent's parent, and so on.
pub proof fn law_chain_of_children(nodes: Nodes, parts: Seq<Part>, id: int)
    requires
        parts.len() > 0,
        forall|i: int|
            0 <= i < parts.len() - 1 ==> (#[trigger] parts[i]).combinator == Some(
                Combinator::Child,
            ),
    ensures
        sequence_holds(nodes, parts, id) <==> forall|k: int|
            0 <= k < parts.len() ==> (#[trigger] up(nodes, id, k as nat) matches Some(a)
                && compound_holds(nodes[a].data, parts[parts.len() - 1 - k].compound)),
    decreases parts.len(),
{
    let n = parts.len() as int;
    let last = parts.last();
    assert(up(nodes, id, 0) == Some(id));
    if n == 1 {
        assert(parts =~= seq![last]);
        law_shortest_sequences(nodes, last, id);
    } else {
        let front = parts.drop_last();
        assert(parts[n - 2].combinator == Some(Combinator::Child));
        law_child_step(nodes, parts, id);
        assert forall|i: int| 0 <= i < front.len() - 1 implies (#[trigger] front[i]).combinator
            == Some(Combinator::Child) by {
            assert(front[i] == parts[i]);
        }
        match nodes[id].parent {
            Some(p) => {
                law_chain_of_children(nodes, front, p);
                assert forall|k: nat| #[trigger] up(nodes, p, k) == up(nodes, id, k + 1) by {
                    lemma_up_from_parent(nodes, id, p, k);
                }
                if sequence_holds(nodes, parts, id) {
                    assert forall|k: int| 0 <= k < n implies (#[trigger] up(
                        nodes,
                        id,
                        k as nat,
                    ) matches Some(a) && compound_holds(
                        nodes[a].data,
                        parts[n - 1 - k].compound,
                    )) by {
                        if k > 0 {
                            assert(up(nodes, p, (k - 1) as nat) == up(nodes, id, k as nat));
                        }
                    }
                }
                if forall|k: int|
                    0 <= k < n ==> (#[trigger] up(nodes, id, k as nat) matches Some(a)
                        && compound_holds(nodes[a].data, parts[n - 1 - k].compound)) {
                    assert(up(nodes, id, 0int as nat) matches Some(a) && compound_holds(
                        nodes[a].data,
                        parts[n - 1].compound,
                    ));
                    assert forall|k: int| 0 <= k < front.len() implies (#[trigger] up(
                        nodes,
                        p,
                        k as nat,
                    ) matches Some(a) && compound_holds(
                        nodes[a].data,
                        front[front.len() - 1 - k].compound,
                    )) by {
                        assert(up(nodes, id, (k + 1) as nat) == up(nodes, p, k as nat));
                    }
                }
            },
            None => {
                assert(up(nodes, id, 1) is None);
                assert(up(nodes, id, 1int as nat) is None);
            },
        }
    }
}

proof fn lemma_up_from_parent(nodes: Nodes, id: int, p: int, k: nat)
    requires
        nodes[id].parent == Some(p),
    ensures
        up(nodes, p, k) == up(nodes, id, k + 1),
    decreases k,
{
    if k == 0 {
        assert(up(nodes, id, 0) == Some(id));
    } else {
        lemma_up_from_parent(nodes, id, p, (k - 1) as nat);
    }
}

} // verus!
