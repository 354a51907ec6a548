//! Laws of structure: trees and their links, the walk through them, and what changes of links,
//! labels and attributes amount to.
use vstd::prelude::*;

use crate::attrs::{
    distinct_names, has_name, inserted, lemma_position, lookup, position, removed, AttrList,
};
use crate::document::{attrs_of, relabelled, type_number, with_attrs};
use crate::forest::{
    attached, depth, depth_within, descendants, finite_below, is_below, is_forest,
    lemma_child_is_below, lemma_child_of_below, lemma_depth_raise, lemma_descendants_bound,
    lemma_parent_of_below, lemma_tree, lemma_tree_unfold, preorder, pruned, tree, trees, Nodes,
};
use crate::laws::documents::lemma_below_has_parent;
use crate::laws::writing::lemma_flatten_last;
use crate::tree::{text_of, text_of_all, Content};

verus! {

// ---------------------------------------------------------------------------
// Trees
// ---------------------------------------------------------------------------
/// The tree that hangs from a node has what the node holds at its top, and below it the trees that
/// hang from its children, all of them in order.
pub proof fn law_tree_follows_the_links(nodes: Nodes, id: int)
    requires
        finite_below(nodes, id),
    ensures
        tree(nodes, id).data == nodes[id].data,
        tree(nodes, id).children == Seq::new(
            nodes[id].children.len(),
            |i: int| tree(nodes, nodes[id].children[i]),
        ),
{
    lemma_tree_unfold(nodes, id);
    assert(tree(nodes, id).children =~= Seq::new(
        nodes[id].children.len(),
        |i: int| tree(nodes, nodes[id].children[i]),
    ));
}

/// A node is below another if and only if its parent is the other or below the other.
pub proof fn law_below_by_parents(nodes: Nodes, a: int, x: int)
    requires
        is_forest(nodes),
        0 <= a < nodes.len(),
        0 <= x < nodes.len(),
    ensures
        is_below(nodes, a, x) <==> (nodes[x].parent matches Some(p) && (p == a || is_below(
            nodes,
            a,
            p,
        ))),
{
    if is_below(nodes, a, x) {
        lemma_below_has_parent(nodes, a, x);
        lemma_parent_of_below(nodes, a, x, nodes[x].parent->0);
    }
    if let Some(p) = nodes[x].parent {
        assert(nodes[p].children.contains(x));
        let i = nodes[p].children.index_of(x);
        assert(nodes[p].children[i] == x);
        if p == a {
            lemma_child_is_below(nodes, a, i);
        } else if is_below(nodes, a, p) {
            lemma_child_of_below(nodes, a, p, i);
        }
    }
}

/// The walk through what is below a node visits its children in order, and each child before all
/// that is below it.
pub proof fn law_walk_is_depth_first(nodes: Nodes, id: int)
    requires
        finite_below(nodes, id),
    ensures
        descendants(nodes, id) == Seq::new(
            nodes[id].children.len(),
            |i: int| seq![nodes[id].children[i]] + descendants(nodes, nodes[id].children[i]),
        ).flatten(),
{
    let d = depth(nodes, id);
    let kids = nodes[id].children;
    assert(depth_within(nodes, id, d));
    lemma_descendants_bound(nodes, id, d, d);
    assert forall|i: int| 0 <= i < kids.len() implies depth_within(
        nodes,
        #[trigger] kids[i],
        d,
    ) by {
        lemma_depth_raise(nodes, kids[i], (d - 1) as nat, d);
    }
    lemma_walk(nodes, kids, d);
}

proof fn lemma_walk(nodes: Nodes, ids: Seq<int>, d: nat)
    requires
        forall|i: int| 0 <= i < ids.len() ==> depth_within(nodes, #[trigger] ids[i], d),
    ensures
        preorder(nodes, ids, d) == Seq::new(
            ids.len(),
            |i: int| seq![ids[i]] + descendants(nodes, ids[i]),
        ).flatten(),
    decreases ids.len(),
{
    let all = Seq::new(ids.len(), |i: int| seq![ids[i]] + descendants(nodes, ids[i]));
    if ids.len() > 0 {
        let front = ids.drop_last();
        let last = ids.last();
        assert(last == ids[ids.len() - 1]);
        assert(depth_within(nodes, last, d));
        assert forall|i: int| 0 <= i < front.len() implies depth_within(
            nodes,
            #[trigger] front[i],
            d,
        ) by {
            assert(front[i] == ids[i]);
        }
        lemma_walk(nodes, front, d);
        assert(all.drop_last() =~= Seq::new(
            front.len(),
            |i: int| seq![front[i]] + descendants(nodes, front[i]),
        ));
        lemma_flatten_last(all);
        lemma_descendants_bound(nodes, last, d, (d - 1) as nat);
        assert(preorder(nodes, ids, d) =~= all.flatten());
    }
}

/// What a node adds to the text of the nodes above it: its text where it is a text, else nothing.
pub open spec fn own_text(data: Content) -> Seq<char> {
    match data {
        Content::Text(s) => s,
        _ => Seq::empty(),
    }
}

/// The text of a node that is not a text is the texts of all text nodes below it, in document
/// order, where texts have no children.
pub proof fn law_text_is_all_texts_below(nodes: Nodes, id: int)
    requires
        finite_below(nodes, id),
        !(nodes[id].data is Text),
        forall|x: int| #[trigger] is_below(nodes, id, x) && nodes[x].data is Text
            ==> nodes[x].children.len() == 0,
    ensures
        text_of(tree(nodes, id)) == Seq::new(
            descendants(nodes, id).len(),
            |i: int| own_text(nodes[descendants(nodes, id)[i]].data),
        ).flatten(),
{
    let d = depth(nodes, id);
    let kids = nodes[id].children;
    assert(depth_within(nodes, id, d));
    lemma_descendants_bound(nodes, id, d, (d - 1) as nat);
    lemma_tree_unfold(nodes, id);
    assert forall|i: int| 0 <= i < kids.len() implies #[trigger] is_below(nodes, id, kids[i]) by {
        lemma_child_is_below(nodes, id, i);
    }
    lemma_texts_below(nodes, id, kids, (d - 1) as nat);
}

proof fn lemma_texts_below(nodes: Nodes, id: int, ids: Seq<int>, d: nat)
    requires
        forall|i: int| 0 <= i < ids.len() ==> depth_within(nodes, #[trigger] ids[i], d),
        forall|i: int| 0 <= i < ids.len() ==> is_below(nodes, id, #[trigger] ids[i]),
        forall|x: int| #[trigger] is_below(nodes, id, x) && nodes[x].data is Text
            ==> nodes[x].children.len() == 0,
    ensures
        text_of_all(trees(nodes, ids)) == texts(nodes, preorder(nodes, ids, d)),
    decreases d, ids.len(),
{
    if ids.len() > 0 {
        let front = ids.drop_last();
        let last = ids.last();
        let kids = nodes[last].children;
        assert(last == ids[ids.len() - 1]);
        assert(depth_within(nodes, last, d));
        assert(is_below(nodes, id, last));
        assert forall|i: int| 0 <= i < front.len() implies depth_within(
            nodes,
            #[trigger] front[i],
            d,
        ) && is_below(nodes, id, front[i]) by {
            assert(front[i] == ids[i]);
        }
        assert forall|i: int| 0 <= i < kids.len() implies is_below(
            nodes,
            id,
            #[trigger] kids[i],
        ) by {
            lemma_child_of_below(nodes, id, last, i);
        }
        lemma_texts_below(nodes, id, front, d);
        lemma_texts_below(nodes, id, kids, (d - 1) as nat);
        lemma_tree(nodes, last, d);
        lemma_tree_unfold(nodes, last);
        let ts = trees(nodes, ids);
        assert(ts.drop_last() =~= trees(nodes, front));
        let a = preorder(nodes, front, d);
        let b = preorder(nodes, kids, (d - 1) as nat);
        lemma_texts_join(nodes, a.push(last), b);
        lemma_texts_join(nodes, a, seq![last]);
        assert(a + seq![last] =~= a.push(last));
        lemma_texts_one(nodes, last);
        if nodes[last].data is Text {
            assert(kids.len() == 0);
            assert(b =~= Seq::<int>::empty());
            assert(texts(nodes, b) =~= Seq::<char>::empty());
        }
        let own = own_text(nodes[last].data);
        assert(text_of(tree(nodes, last)) =~= own + texts(nodes, b));
        assert(texts(nodes, a.push(last) + b) =~= texts(nodes, a) + (own + texts(nodes, b)));
    } else {
        assert(trees(nodes, ids).len() == 0);
        assert(texts(nodes, preorder(nodes, ids, d)) =~= Seq::<char>::empty());
    }
}

/// The texts of some nodes, one after the other.
spec fn texts(nodes: Nodes, ids: Seq<int>) -> Seq<char> {
    Seq::new(ids.len(), |i: int| own_text(nodes[ids[i]].data)).flatten()
}

proof fn lemma_texts_one(nodes: Nodes, x: int)
    ensures
        texts(nodes, seq![x]) == own_text(nodes[x].data),
{
    let all = Seq::new(seq![x].len(), |i: int| own_text(nodes[seq![x][i]].data));
    lemma_flatten_last(all);
    assert(all.drop_last() =~= Seq::<Seq<char>>::empty());
    assert(all.drop_last().flatten() =~= Seq::<char>::empty());
    assert(all.flatten() =~= own_text(nodes[x].data));
}

proof fn lemma_texts_join(nodes: Nodes, a: Seq<int>, b: Seq<int>)
    ensures
        texts(nodes, a + b) == texts(nodes, a) + texts(nodes, b),
    decreases b.len(),
{
    let all = Seq::new((a + b).len(), |i: int| own_text(nodes[(a + b)[i]].data));
    if b.len() == 0 {
        assert(a + b =~= a);
        assert(texts(nodes, b) =~= Seq::<char>::empty());
        assert(texts(nodes, a) + texts(nodes, b) =~= texts(nodes, a));
    } else {
        let c = b.drop_last();
        let back = Seq::new(b.len(), |i: int| own_text(nodes[b[i]].data));
        lemma_texts_join(nodes, a, c);
        lemma_flatten_last(all);
        lemma_flatten_last(back);
        assert(all.drop_last() =~= Seq::new(
            (a + c).len(),
            |i: int| own_text(nodes[(a + c)[i]].data),
        ));
        assert(back.drop_last() =~= Seq::new(c.len(), |i: int| own_text(nodes[c[i]].data)));
        assert(texts(nodes, a + b) =~= texts(nodes, a) + texts(nodes, b));
    }
}

// ---------------------------------------------------------------------------
// Changes
// ---------------------------------------------------------------------------
/// A node that is attached to another becomes its last child and has it as its parent; nothing
/// else changes.
pub proof fn law_attaching(nodes: Nodes, parent: int, child: int, x: int)
    requires
        0 <= parent < nodes.len(),
        0 <= child < nodes.len(),
        0 <= x < nodes.len(),
    ensures
        ({
            let after = attached(nodes, parent, child);
            &&& after.len() == nodes.len()
            &&& after[x].data == nodes[x].data
            &&& after[x].children == (if x == parent {
                nodes[x].children.push(child)
            } else {
                nodes[x].children
            })
            &&& after[x].parent == (if x == child {
                Some(parent)
            } else {
                nodes[x].parent
            })
        }),
{
}

/// Taking apart what is below a node leaves every node of it without parent and children, leaves
/// the node without children, and changes nothing else.
pub proof fn law_taking_apart(nodes: Nodes, id: int, x: int)
    requires
        0 <= id < nodes.len(),
        0 <= x < nodes.len(),
    ensures
        pruned(nodes, id).len() == nodes.len(),
        pruned(nodes, id)[x].data == nodes[x].data,
        is_below(nodes, id, x) ==> pruned(nodes, id)[x].parent is None,
        !is_below(nodes, id, x) ==> pruned(nodes, id)[x].parent == nodes[x].parent,
        x == id || is_below(nodes, id, x) ==> pruned(nodes, id)[x].children.len() == 0,
        x != id && !is_below(nodes, id, x) ==> pruned(nodes, id)[x].children == nodes[x].children,
{
}

/// Another label changes what one node holds, and nothing else.
pub proof fn law_relabelling(nodes: Nodes, id: int, data: Content, x: int)
    requires
        0 <= id < nodes.len(),
        0 <= x < nodes.len(),
    ensures
        relabelled(nodes, id, data).len() == nodes.len(),
        relabelled(nodes, id, data)[x].parent == nodes[x].parent,
        relabelled(nodes, id, data)[x].children == nodes[x].children,
        relabelled(nodes, id, data)[x].data == (if x == id {
            data
        } else {
            nodes[x].data
        }),
{
}

/// The kinds of nodes: elements have the attributes they hold, keep their name when they are given
/// others, and have the number 1; texts and the document node have none, cannot be given any, and
/// have the numbers 3 and 9.
pub proof fn law_kinds_of_nodes(tag: Seq<char>, attrs: AttrList, other: AttrList, text: Seq<char>)
    ensures
        attrs_of(Content::Element { tag, attrs }) == attrs,
        with_attrs(Content::Element { tag, attrs }, other) == (Content::Element {
            tag,
            attrs: other,
        }),
        type_number(Content::Element { tag, attrs }) == 1,
        attrs_of(Content::Text(text)).len() == 0,
        with_attrs(Content::Text(text), other) == Content::Text(text),
        type_number(Content::Text(text)) == 3,
        attrs_of(Content::Document).len() == 0,
        with_attrs(Content::Document, other) == Content::Document,
        type_number(Content::Document) == 9,
{
}

// ---------------------------------------------------------------------------
// Attributes
// ---------------------------------------------------------------------------
/// What is recorded under a name is what stands beside it, and a name is there if and only if
/// something is recorded under it.
pub proof fn law_lookup(a: AttrList, name: Seq<char>, value: Option<Seq<char>>)
    requires
        distinct_names(a),
    ensures
        lookup(a, name) == Some(value) <==> a.contains((name, value)),
        has_name(a, name) <==> exists|i: int| 0 <= i < a.len() && (#[trigger] a[i]).0 == name,
        has_name(a, name) <==> lookup(a, name) is Some,
{
    if a.contains((name, value)) {
        let i = a.index_of((name, value));
        assert(a[i] == (name, value));
        lemma_position(a, i);
    }
    if has_name(a, name) {
        let p = position(a, name);
        assert(a[p].0 == name);
        assert(a[p] == (name, lookup(a, name)->0));
    }
}

/// A name that is given a value keeps its place, or comes last where it was not there; all other
/// attributes keep their places and values.
pub proof fn law_setting_keeps_places(
    a: AttrList,
    name: Seq<char>,
    value: Option<Seq<char>>,
    i: int,
)
    requires
        distinct_names(a),
        0 <= i < a.len(),
    ensures
        inserted(a, name, value).len() == (if has_name(a, name) {
            a.len()
        } else {
            a.len() + 1
        }),
        inserted(a, name, value)[i] == (if a[i].0 == name {
            (name, value)
        } else {
            a[i]
        }),
        !has_name(a, name) ==> inserted(a, name, value).last() == (name, value),
{
    if a[i].0 == name {
        lemma_position(a, i);
    }
}

/// Removing a name leaves all other attributes, in their order.
pub proof fn law_removing_keeps_order(a: AttrList, name: Seq<char>)
    requires
        distinct_names(a),
    ensures
        removed(a, name) == a.filter(|e: (Seq<char>, Option<Seq<char>>)| e.0 != name),
{
    let other = |e: (Seq<char>, Option<Seq<char>>)| e.0 != name;
    if has_name(a, name) {
        let p = position(a, name);
        assert(a[p].0 == name);
        let front = a.take(p);
        let back = a.skip(p + 1);
        assert(a =~= front + (seq![a[p]] + back));
        Seq::filter_distributes_over_add(front, seq![a[p]] + back, other);
        Seq::filter_distributes_over_add(seq![a[p]], back, other);
        assert forall|i: int| 0 <= i < front.len() implies other(#[trigger] front[i]) by {
            assert(a[i].0 != a[p].0);
        }
        assert forall|i: int| 0 <= i < back.len() implies other(#[trigger] back[i]) by {
            assert(a[p].0 != a[p + 1 + i].0);
        }
        lemma_filter_none(front, other);
        lemma_filter_none(back, other);
        assert(seq![a[p]].filter(other) =~= Seq::empty()) by {
            reveal(Seq::filter);
            let none = seq![a[p]].drop_last();
            assert(none =~= Seq::empty());
            lemma_filter_none(none, other);
        }
        assert(removed(a, name) =~= front + (Seq::empty() + back));
    } else {
        assert forall|i: int| 0 <= i < a.len() implies other(#[trigger] a[i]) by {}
        lemma_filter_none(a, other);
    }
}

proof fn lemma_filter_none<A>(s: Seq<A>, keep: spec_fn(A) -> bool)
    requires
        forall|i: int| 0 <= i < s.len() ==> keep(#[trigger] s[i]),
    ensures
        s.filter(keep) == s,
    decreases s.len(),
{
    reveal(Seq::filter);
    if s.len() > 0 {
        let front = s.drop_last();
        assert forall|i: int| 0 <= i < front.len() implies keep(#[trigger] front[i]) by {
            assert(front[i] == s[i]);
        }
        lemma_filter_none(front, keep);
        assert(keep(s[s.len() - 1]));
        assert(front.push(s.last()) =~= s);
    }
}

} // verus!
