//! Laws of documents: how parents and children agree, and what a change leaves alone.
use vstd::prelude::*;

use crate::attrs::AttrList;
use crate::canonical::{expressible_all, lower_tag, lower_tags, proper_all};
use crate::document::{lemma_grown_tree, relabelled, with_attrs, JsDocument};
use crate::forest::{
    agree_below, depth, depth_within, descendants, finite_below, grown, is_below, is_forest,
    lemma_agree_tree, lemma_below_child, lemma_child_is_below, lemma_descendants_are_below,
    lemma_parent_of_below, lemma_relabelled_forest, lemma_tree_unfold, pruned, tree, tree_within,
    trees, Nodes,
};
use crate::grammar::nodes;
use crate::levels::{lemma_below_level, lemma_descendants_once, level, up};
use crate::round_trip::lemma_read_back;
use crate::tree::{leaf, render, render_all, text_of, text_of_all, Content, Tree};

verus! {

// ---------------------------------------------------------------------------
// Links
// ---------------------------------------------------------------------------
/// A node is a child of another if and only if the other is its parent.
pub proof fn law_parents_and_children_agree(nodes: Nodes, p: int, c: int)
    requires
        is_forest(nodes),
        0 <= p < nodes.len(),
        0 <= c < nodes.len(),
    ensures
        nodes[p].children.contains(c) <==> nodes[c].parent == Some(p),
{
    if nodes[p].children.contains(c) {
        let i = nodes[p].children.index_of(c);
        assert(nodes[p].children[i] == c);
        assert(nodes[nodes[p].children[i]].parent == Some(p));
    }
    assert(match nodes[c].parent {
        Some(q) => 0 <= q < nodes.len() && nodes[q].children.contains(c),
        None => true,
    });
}

/// No node is below itself.
pub proof fn law_no_node_is_below_itself(nodes: Nodes, x: int)
    requires
        is_forest(nodes),
    ensures
        !is_below(nodes, x, x),
{
    if is_below(nodes, x, x) {
        lemma_below_level(nodes, x, x);
    }
}

/// The walk through what is below a node visits every node that is below it, once, and no other.
pub proof fn law_walk_visits_each_once(nodes: Nodes, id: int, x: int)
    requires
        is_forest(nodes),
        0 <= id < nodes.len(),
    ensures
        descendants(nodes, id).contains(x) <==> is_below(nodes, id, x),
        descendants(nodes, id).no_duplicates(),
{
    assert(finite_below(nodes, id));
    lemma_descendants_are_below(nodes, id, x);
    lemma_descendants_once(nodes, id);
}

// ---------------------------------------------------------------------------
// Other content
// ---------------------------------------------------------------------------
/// The tree that hangs from a node, with other content in one of its nodes.
pub open spec fn replaced_within(
    nodes: Nodes,
    x: int,
    id: int,
    content: Seq<Tree>,
    depth: nat,
) -> Tree
    decreases depth,
{
    if x == id {
        Tree { data: nodes[id].data, children: content }
    } else if depth == 0 {
        leaf(nodes[x].data)
    } else {
        Tree {
            data: nodes[x].data,
            children: Seq::new(
                nodes[x].children.len(),
                |i: int|
                    replaced_within(nodes, nodes[x].children[i], id, content, (depth - 1) as nat),
            ),
        }
    }
}

/// The tree that hangs from a node, with other content in one of its nodes.
pub open spec fn replaced(nodes: Nodes, x: int, id: int, content: Seq<Tree>) -> Tree {
    replaced_within(nodes, x, id, content, depth(nodes, x))
}

/// After the content of a node was replaced, the tree that hangs from any node that was not below
/// it is the old tree with the new content in the place of the old. Where the node was not in that
/// tree, it is the old tree.
pub proof fn law_content_is_replaced(
    before: Nodes,
    after: Nodes,
    id: int,
    content: Seq<Tree>,
    x: int,
)
    requires
        is_forest(before),
        is_forest(after),
        0 <= id < before.len(),
        grown(pruned(before, id), after, id, content),
        0 <= x < before.len(),
        !is_below(before, id, x),
    ensures
        tree(after, x) == replaced(before, x, id, content),
        x != id && !is_below(before, x, id) ==> tree(after, x) == tree(before, x),
{
    assert(finite_below(before, x));
    let d = depth(before, x);
    assert(depth_within(before, x, d));
    lemma_replaced(before, after, id, content, x, d);
    if x != id && !is_below(before, x, id) {
        lemma_not_replaced(before, x, id, content, d);
    }
}

proof fn lemma_replaced(
    before: Nodes,
    after: Nodes,
    id: int,
    content: Seq<Tree>,
    x: int,
    d: nat,
)
    requires
        is_forest(before),
        is_forest(after),
        0 <= id < before.len(),
        grown(pruned(before, id), after, id, content),
        depth_within(before, x, d),
        !is_below(before, id, x),
    ensures
        tree(after, x) == replaced_within(before, x, id, content, d),
    decreases d,
{
    let bare = pruned(before, id);
    assert(finite_below(after, x));
    if x == id {
        lemma_grown_tree(bare, after, id, content);
    } else {
        assert(bare[x] == before[x]);
        assert(after[x] == before[x]);
        lemma_tree_unfold(after, x);
        let a = trees(after, after[x].children);
        let b = replaced_within(before, x, id, content, d).children;
        assert forall|i: int| 0 <= i < a.len() implies a[i] == b[i] by {
            let c = before[x].children[i];
            assert(before[c].parent == Some(x));
            if is_below(before, id, c) {
                lemma_parent_of_below(before, id, c, x);
            }
            assert(depth_within(before, c, (d - 1) as nat));
            lemma_replaced(before, after, id, content, c, (d - 1) as nat);
        }
        assert(a =~= b);
    }
}

proof fn lemma_not_replaced(nodes: Nodes, x: int, id: int, content: Seq<Tree>, d: nat)
    requires
        depth_within(nodes, x, d),
        x != id,
        !is_below(nodes, x, id),
    ensures
        replaced_within(nodes, x, id, content, d) == tree_within(nodes, x, d),
    decreases d,
{
    let a = replaced_within(nodes, x, id, content, d).children;
    let b = tree_within(nodes, x, d).children;
    assert forall|i: int| 0 <= i < a.len() implies a[i] == b[i] by {
        let c = nodes[x].children[i];
        assert(depth_within(nodes, c, (d - 1) as nat));
        lemma_child_is_below(nodes, x, i);
        if is_below(nodes, c, id) {
            lemma_below_child(nodes, x, i, id);
        }
        lemma_not_replaced(nodes, c, id, content, (d - 1) as nat);
    }
    assert(a =~= b);
}

/// After the content of a node was replaced, the nodes of the old content are still there, hold
/// what they held, and are linked to nothing; all nodes outside of the content keep their data
/// and their parents.
pub proof fn law_old_content_is_taken_apart(
    before: Nodes,
    after: Nodes,
    id: int,
    content: Seq<Tree>,
    x: int,
)
    requires
        is_forest(before),
        0 <= id < before.len(),
        grown(pruned(before, id), after, id, content),
        0 <= x < before.len(),
    ensures
        after[x].data == before[x].data,
        is_below(before, id, x) ==> after[x].parent is None && after[x].children.len() == 0,
        !is_below(before, id, x) ==> after[x].parent == before[x].parent,
        !is_below(before, id, x) && x != id ==> after[x] == before[x],
{
    law_no_node_is_below_itself(before, id);
    let bare = pruned(before, id);
    if x != id {
        assert(after[x] == bare[x]);
    }
}

/// Other content for one of its nodes leaves a document a document.
pub proof fn law_document_is_kept_by_content(
    before: JsDocument,
    after: JsDocument,
    id: int,
    content: Seq<Tree>,
)
    requires
        before.wf(),
        0 <= id < before.arena@.len(),
        grown(pruned(before.arena@, id), after.arena@, id, content),
        after.arena.wf(),
        after.arena.root == before.arena.root,
        after.root == before.root,
        lower_tags(before.arena@) ==> lower_tags(after.arena@),
    ensures
        after.wf(),
{
    let r = before.root as int;
    if is_below(before.arena@, id, r) {
        lemma_below_has_parent(before.arena@, id, r);
    }
    law_old_content_is_taken_apart(before.arena@, after.arena@, id, content, r);
}

pub proof fn lemma_below_has_parent(nodes: Nodes, a: int, x: int)
    requires
        is_forest(nodes),
        is_below(nodes, a, x),
    ensures
        0 <= x < nodes.len(),
        nodes[x].parent is Some,
{
    lemma_below_level(nodes, a, x);
    let n = (level(nodes, x) - level(nodes, a)) as nat;
    lemma_up_needs_parent(nodes, x, n);
}

proof fn lemma_up_needs_parent(nodes: Nodes, x: int, n: nat)
    requires
        n > 0,
        up(nodes, x, n) is Some,
    ensures
        nodes[x].parent is Some,
    decreases n,
{
    assert(up(nodes, x, 0) == Some(x));
    if n > 1 {
        lemma_up_needs_parent(nodes, x, (n - 1) as nat);
    }
}

// ---------------------------------------------------------------------------
// Other attributes
// ---------------------------------------------------------------------------
/// Other attributes change the node that they are given to and no other: the content of the node
/// stays, and so does every tree that does not hold the node.
pub proof fn law_attributes_change_one_node(nodes: Nodes, id: int, attrs: AttrList, x: int)
    requires
        is_forest(nodes),
        0 <= id < nodes.len(),
        0 <= x < nodes.len(),
        x == id || !is_below(nodes, x, id),
    ensures
        ({
            let data = with_attrs(nodes[id].data, attrs);
            let after = relabelled(nodes, id, data);
            &&& is_forest(after)
            &&& x != id ==> tree(after, x) == tree(nodes, x)
            &&& x == id ==> tree(after, x) == (Tree {
                data,
                children: tree(nodes, x).children,
            })
        }),
{
    let data = with_attrs(nodes[id].data, attrs);
    let after = relabelled(nodes, id, data);
    lemma_relabelled_forest(nodes, after);
    assert(finite_below(nodes, x));
    assert(finite_below(after, x));
    if x != id {
        assert(agree_below(nodes, after, x));
        lemma_agree_tree(nodes, after, x);
    } else {
        lemma_tree_unfold(nodes, id);
        lemma_tree_unfold(after, id);
        let kids = nodes[id].children;
        assert forall|i: int| 0 <= i < kids.len() implies tree(after, #[trigger] kids[i]) == tree(
            nodes,
            kids[i],
        ) by {
            law_no_node_is_below_itself(nodes, id);
            assert(finite_below(nodes, kids[i]));
            lemma_child_is_below(nodes, id, i);
            if is_below(nodes, kids[i], id) {
                lemma_below_child(nodes, id, i, id);
            }
            assert(agree_below(nodes, after, kids[i]));
            lemma_agree_tree(nodes, after, kids[i]);
        }
        assert(trees(after, kids) =~= trees(nodes, kids));
    }
}

/// Other attributes for one of its nodes leave a document a document.
pub proof fn law_document_is_kept_by_attributes(
    before: JsDocument,
    after: JsDocument,
    id: int,
    attrs: AttrList,
)
    requires
        before.wf(),
        0 <= id < before.arena@.len(),
        after.arena@ == relabelled(before.arena@, id, with_attrs(before.arena@[id].data, attrs)),
        after.arena.root == before.arena.root,
        after.root == before.root,
    ensures
        after.wf(),
{
    lemma_relabelled_forest(before.arena@, after.arena@);
    assert forall|k: int| 0 <= k < after.arena@.len() implies lower_tag(
        (#[trigger] after.arena@[k]).data,
    ) by {
        assert(lower_tag(before.arena@[k].data));
    }
}

// ---------------------------------------------------------------------------
// Content and markup
// ---------------------------------------------------------------------------
/// Content that was set from markup in the form in which content is written reads back as that
/// markup, letter for letter.
pub proof fn law_set_content_is_read_back(after: Nodes, id: int, html: Seq<char>, ts: Seq<Tree>)
    requires
        html == render_all(ts),
        proper_all(ts),
        expressible_all(ts),
        tree(after, id).children == nodes(html).trees,
    ensures
        render_all(tree(after, id).children) == html,
        tree(after, id).children == ts,
{
    lemma_read_back(ts);
}

/// Setting the content of a node to what its content is written as leaves its tree as it was.
pub proof fn law_content_survives_rewriting(before: Nodes, after: Nodes, id: int)
    requires
        proper_all(tree(before, id).children),
        expressible_all(tree(before, id).children),
        finite_below(before, id),
        tree(after, id) == (Tree {
            data: before[id].data,
            children: nodes(render_all(tree(before, id).children)).trees,
        }),
    ensures
        tree(after, id) == tree(before, id),
{
    lemma_read_back(tree(before, id).children);
    lemma_tree_unfold(before, id);
}

/// A document that was parsed from what another document was written as has the same tree.
pub proof fn law_written_document_is_parsed_back(before: JsDocument, after: JsDocument)
    requires
        before.wf(),
        proper_all(tree(before.arena@, before.root as int).children),
        expressible_all(tree(before.arena@, before.root as int).children),
        tree(after.arena@, after.root as int) == (Tree {
            data: Content::Document,
            children: nodes(
                render_all(tree(before.arena@, before.root as int).children),
            ).trees,
        }),
    ensures
        tree(after.arena@, after.root as int) == tree(before.arena@, before.root as int),
{
    assert(finite_below(before.arena@, before.root as int));
    lemma_tree_unfold(before.arena@, before.root as int);
    lemma_read_back(tree(before.arena@, before.root as int).children);
}

// ---------------------------------------------------------------------------
// Writing
// ---------------------------------------------------------------------------
/// The document node as it is written is its content as it is written.
pub proof fn law_document_is_written_as_its_content(t: Tree)
    requires
        t.data == Content::Document,
    ensures
        render(t) == render_all(t.children),
{
}

/// Where the content of a node is text alone, its text is its content as it is written.
pub proof fn law_text_of_texts(ts: Seq<Tree>)
    requires
        forall|i: int| 0 <= i < ts.len() ==> (#[trigger] ts[i]).data is Text,
    ensures
        text_of_all(ts) == render_all(ts),
    decreases ts.len(),
{
    if ts.len() > 0 {
        let front = ts.drop_last();
        assert forall|i: int| 0 <= i < front.len() implies (#[trigger] front[i]).data is Text by {
            assert(front[i] == ts[i]);
        }
        law_text_of_texts(front);
        let last = ts.last();
        assert(last == ts[ts.len() - 1]);
        assert(text_of(last) == render(last));
    }
}

} // verus!
