//! The arena: all nodes of a document in one place, joined by their numbers.
use vstd::prelude::*;
use vstd::string::StringExecFns;

use crate::attrs::Attrs;
use crate::forest::{
    attached, can_attach, children_in_range_from, depth, depth_within, descendants, finite_above,
    finite_above_from, finite_below, is_below, is_forest, lemma_attached_forest, lemma_below_child,
    lemma_child_is_below, lemma_child_of_below, lemma_descendants_are_below,
    lemma_descendants_bound, lemma_new_node_forest, lemma_pruned_forest, preorder, pruned, tree,
    tree_within, NodeModel, Nodes,
};
use crate::parser::is_void;
use crate::pruning::{
    apart, children_apart, edge_count, lemma_edge_count_less, lemma_is_pruned, lemma_thinned_below,
    lemma_thinned_range, thinned,
};
use crate::query::{
    all_matches, first_match, lemma_filter_keeps_first, lemma_filter_take, selector_meaning,
    selects,
};
use crate::selector::Selector;
use crate::tree::{
    render, render_all, render_attr, render_attrs, render_head, text_of, text_of_all, Content,
};

verus! {

/// The number of a node in its arena.
#[derive(Debug, Clone, Copy, PartialEq, Eq, Hash, Structural)]
pub struct NodeId(pub usize);

/// What a node holds beside its links.
#[derive(Debug, Clone)]
pub enum NodeData {
    Document,
    Element { tag: String, attrs: Attrs },
    Text(String),
}

impl View for NodeData {
    type V = Content;

    open spec fn view(&self) -> Content {
        match self {
            NodeData::Document => Content::Document,
            NodeData::Element { tag, attrs } => Content::Element { tag: tag@, attrs: attrs@ },
            NodeData::Text(s) => Content::Text(s@),
        }
    }
}

/// A node: what it holds and its links.
#[derive(Debug, Clone)]
pub struct InternalNode {
    pub data: NodeData,
    pub parent: Option<NodeId>,
    pub children: Vec<NodeId>,
}

/// The number that an optional link leads to.
pub open spec fn link_view(link: Option<NodeId>) -> Option<int> {
    match link {
        Some(p) => Some(p.0 as int),
        None => None,
    }
}

/// The numbers that links lead to.
pub open spec fn links_view(links: Seq<NodeId>) -> Seq<int> {
    links.map_values(|c: NodeId| c.0 as int)
}

impl View for InternalNode {
    type V = NodeModel;

    open spec fn view(&self) -> NodeModel {
        NodeModel {
            data: self.data@,
            parent: link_view(self.parent),
            children: links_view(self.children@),
        }
    }
}

/// All nodes of a document. Nodes are added and taken apart, never dropped, so a number stays
/// valid for the life of the arena.
#[derive(Debug, Clone)]
pub struct Arena {
    pub nodes: Vec<InternalNode>,
    pub root: NodeId,
}

impl View for Arena {
    type V = Nodes;

    open spec fn view(&self) -> Nodes {
        self.nodes@.map_values(|n: InternalNode| n@)
    }
}

impl Arena {
    /// The links make a forest, and the root is one of the nodes.
    pub open spec fn wf(self) -> bool {
        &&& is_forest(self@)
        &&& self.root.0 < self@.len()
    }

    /// An arena that holds a document node and nothing else.
    pub fn new() -> (r: Arena)
        ensures
            r.wf(),
            r.root.0 == 0,
            r@ == seq![
                NodeModel { data: Content::Document, parent: None, children: Seq::empty() },
            ],
    {
        let node: InternalNode = InternalNode {
            data: NodeData::Document,
            parent: None,
            children: Vec::new(),
        };
        let mut nodes: Vec<InternalNode> = Vec::new();
        nodes.push(node);
        let r: Arena = Arena { nodes, root: NodeId(0) };
        proof {
            let model = NodeModel {
                data: Content::Document,
                parent: None,
                children: Seq::<int>::empty(),
            };
            assert(r@[0].children =~= Seq::<int>::empty());
            assert(is_forest(Seq::<NodeModel>::empty()));
            assert(r@ =~= seq![model]);
            assert(r@ =~= Seq::<NodeModel>::empty().push(model));
            lemma_new_node_forest(Seq::empty(), model);
        }
        r
    }

    /// Adds a node that is not linked to any other.
    pub fn alloc_node(&mut self, data: NodeData) -> (id: NodeId)
        ensures
            id.0 == old(self)@.len(),
            final(self)@ == old(self)@.push(
                NodeModel { data: data@, parent: None, children: Seq::empty() },
            ),
            final(self).root == old(self).root,
            old(self).wf() ==> final(self).wf(),
    {
        let id: NodeId = NodeId(self.nodes.len());
        let ghost model = NodeModel { data: data@, parent: None, children: Seq::<int>::empty() };
        self.nodes.push(InternalNode { data, parent: None, children: Vec::new() });
        proof {
            assert(self@.last().children =~= Seq::<int>::empty());
            assert(self@ =~= old(self)@.push(model));
            if old(self).wf() {
                lemma_new_node_forest(old(self)@, model);
            }
        }
        id
    }

    /// Makes a node the last child of another. A forest stays a forest where the child has no
    /// parent yet and the new parent is neither the child nor below it.
    pub fn append_child(&mut self, parent: NodeId, child: NodeId)
        requires
            parent.0 < old(self)@.len(),
            child.0 < old(self)@.len(),
        ensures
            final(self)@ == attached(old(self)@, parent.0 as int, child.0 as int),
            final(self).root == old(self).root,
            old(self).wf() && can_attach(old(self)@, parent.0 as int, child.0 as int)
                ==> final(self).wf(),
    {
        let ghost before = self@;
        self.nodes[child.0].parent = Some(parent);
        assert(self@ =~= before.update(
            child.0 as int,
            NodeModel { parent: Some(parent.0 as int), ..before[child.0 as int] },
        ));
        let ghost linked = self@;
        let ghost kids = self.nodes@[parent.0 as int].children@;
        self.nodes[parent.0].children.push(child);
        proof {
            assert(links_view(kids.push(child)) =~= links_view(kids).push(child.0 as int));
            assert(self@ =~= attached(before, parent.0 as int, child.0 as int));
            if old(self).wf() && can_attach(before, parent.0 as int, child.0 as int) {
                lemma_attached_forest(before, parent.0 as int, child.0 as int);
            }
        }
    }

    /// A node.
    pub fn get(&self, id: NodeId) -> (node: &InternalNode)
        requires
            id.0 < self@.len(),
        ensures
            *node == self.nodes@[id.0 as int],
            node@ == self@[id.0 as int],
    {
        &self.nodes[id.0]
    }

    /// A node, to be changed in place.
    pub fn get_mut(&mut self, id: NodeId) -> (node: &mut InternalNode)
        requires
            id.0 < old(self)@.len(),
        ensures
            *node == old(self).nodes@[id.0 as int],
            final(self).nodes@ == old(self).nodes@.update(id.0 as int, *final(node)),
            final(self)@ == old(self)@.update(id.0 as int, final(node)@),
            final(self).root == old(self).root,
    {
        &mut self.nodes[id.0]
    }

    /// Takes apart all that is below a node. The nodes stay in the arena, without links.
    pub fn clear_children(&mut self, parent: NodeId)
        requires
            parent.0 < old(self)@.len(),
            children_in_range_from(old(self)@, parent.0 as int),
        ensures
            final(self)@ == pruned(old(self)@, parent.0 as int),
            final(self).root == old(self).root,
            old(self).wf() ==> final(self).wf(),
        decreases edge_count(old(self)@),
    {
        let ghost a = self@;
        let ghost p = parent.0 as int;
        let mut children: Vec<NodeId> = Vec::new();
        std::mem::swap(&mut children, &mut self.nodes[parent.0].children);
        proof {
            assert(links_view(children@) =~= a[p].children);
            assert(self@[p].children =~= Seq::<int>::empty());
            assert(self@ =~= a.update(p, NodeModel { children: Seq::empty(), ..a[p] }));
        }
        let mut i: usize = 0;
        while i < children.len()
            invariant
                i <= children@.len(),
                a == old(self)@,
                p == parent.0,
                0 <= p < a.len(),
                children_in_range_from(a, p),
                links_view(children@) == a[p].children,
                self.root == old(self).root,
                thinned(a, self@),
                self@[p].children.len() == 0,
                forall|k: int|
                    #![trigger self@[k]]
                    0 <= k < a.len() && k != p && a[k].children.len() > 0
                        && self@[k].children.len() == 0 ==> children_apart(a, self@, k),
                forall|j: int| 0 <= j < i ==> apart(self@, #[trigger] a[p].children[j]),
                forall|k: int|
                    #![trigger self@[k]]
                    0 <= k < a.len() && k != p && !is_below(a, p, k) ==> self@[k] == a[k],
                !is_below(a, p, p) ==> self@[p].parent == a[p].parent,
            decreases children@.len() - i,
        {
            let child: NodeId = children[i];
            let ghost c = child.0 as int;
            let ghost before = self@;
            proof {
                assert(a[p].children[i as int] == c);
                lemma_child_is_below(a, p, i as int);
            }
            self.nodes[child.0].parent = None;
            let ghost mid = self@;
            proof {
                assert(mid =~= before.update(c, NodeModel { parent: None, ..before[c] }));
                assert(thinned(a, mid));
                lemma_thinned_range(a, mid, p, i as int);
                lemma_edge_count_less(a, mid, p);
            }
            self.clear_children(child);
            i += 1;
            proof {
                let after = self@;
                assert(after == pruned(mid, c));
                assert(thinned(a, after));
                assert forall|k: int|
                    #![trigger after[k]]
                    0 <= k < a.len() && k != p && a[k].children.len() > 0
                        && after[k].children.len() == 0 implies children_apart(a, after, k) by {
                    assert forall|j: int| 0 <= j < a[k].children.len() implies apart(
                        after,
                        #[trigger] a[k].children[j],
                    ) by {
                        let y = a[k].children[j];
                        if before[k].children.len() == 0 {
                            assert(children_apart(a, before, k));
                            assert(apart(before, y));
                        } else {
                            assert(mid[k].children == a[k].children);
                            assert(k == c || is_below(mid, c, k));
                            assert(mid[k].children[j] == y);
                            if k == c {
                                lemma_child_is_below(mid, c, j);
                            } else {
                                lemma_child_of_below(mid, c, k, j);
                            }
                        }
                    }
                }
                assert forall|j: int| 0 <= j < i implies apart(
                    after,
                    #[trigger] a[p].children[j],
                ) by {
                    if j < i - 1 {
                        assert(apart(before, a[p].children[j]));
                    }
                }
                assert forall|k: int|
                    #![trigger after[k]]
                    0 <= k < a.len() && !is_below(a, p, k) implies {
                    &&& k != p ==> after[k] == a[k]
                    &&& after[k].parent == a[k].parent
                } by {
                    assert(k != c);
                    if is_below(mid, c, k) {
                        lemma_thinned_below(a, mid, c, k);
                        lemma_below_child(a, p, i - 1, k);
                    }
                    assert(after[k].parent == mid[k].parent);
                    assert(mid[k] == before[k]);
                    if k != p {
                        assert(before[k] == a[k]);
                        assert(after[k].children == a[k].children);
                        assert(after[k].data == a[k].data);
                    }
                }
            }
        }
        proof {
            assert(children_apart(a, self@, p));
            lemma_is_pruned(a, self@, p);
            if old(self).wf() {
                lemma_pruned_forest(a, p);
            }
        }
    }
}

impl Arena {
    // -----------------------------------------------------------------------
    // Writing
    // -----------------------------------------------------------------------
    /// What is below a node, as it is written.
    pub fn inner_html(&self, id: NodeId) -> (r: String)
        requires
            finite_below(self@, id.0 as int),
        ensures
            r@ == render_all(tree(self@, id.0 as int).children),
    {
        let mut out: String = String::new();
        let ghost d = depth(self@, id.0 as int);
        self.serialise_children(id, &mut out, Ghost(d));
        out
    }

    /// A node with what is below it, as it is written.
    pub fn outer_html(&self, id: NodeId) -> (r: String)
        requires
            finite_below(self@, id.0 as int),
        ensures
            r@ == render(tree(self@, id.0 as int)),
    {
        let mut out: String = String::new();
        let ghost d = depth(self@, id.0 as int);
        self.serialise_node(id, &mut out, Ghost(d));
        out
    }

    /// Appends what is below a node, as it is written.
    fn serialise_children(&self, id: NodeId, out: &mut String, Ghost(d): Ghost<nat>)
        requires
            depth_within(self@, id.0 as int, d),
        ensures
            final(out)@ == old(out)@ + render_all(tree_within(self@, id.0 as int, d).children),
        decreases d, 0nat,
    {
        let ghost before = out@;
        let ghost ts = tree_within(self@, id.0 as int, d).children;
        let node: &InternalNode = &self.nodes[id.0];
        let mut i: usize = 0;
        while i < node.children.len()
            invariant
                depth_within(self@, id.0 as int, d),
                node@ == self@[id.0 as int],
                ts == tree_within(self@, id.0 as int, d).children,
                i <= node.children@.len(),
                out@ == before + render_all(ts.take(i as int)),
            decreases node.children@.len() - i,
        {
            let child: NodeId = node.children[i];
            assert(self@[id.0 as int].children[i as int] == child.0);
            let ghost mid = out@;
            self.serialise_node(child, out, Ghost((d - 1) as nat));
            i += 1;
            proof {
                assert(ts.take(i as int).drop_last() =~= ts.take(i - 1));
                assert(ts.take(i as int).last() == ts[i - 1]);
                assert(out@ =~= before + render_all(ts.take(i as int)));
            }
        }
        assert(ts.take(i as int) =~= ts);
    }

    /// Appends a node with what is below it, as it is written.
    fn serialise_node(&self, id: NodeId, out: &mut String, Ghost(d): Ghost<nat>)
        requires
            depth_within(self@, id.0 as int, d),
        ensures
            final(out)@ == old(out)@ + render(tree_within(self@, id.0 as int, d)),
        decreases d, 1nat,
    {
        let ghost before = out@;
        let ghost t = tree_within(self@, id.0 as int, d);
        let node: &InternalNode = &self.nodes[id.0];
        assert(node@ == self@[id.0 as int]);
        match &node.data {
            NodeData::Document => {
                self.serialise_children(id, out, Ghost(d));
            },
            NodeData::Text(s) => out.append(s.as_str()),
            NodeData::Element { tag, attrs } => {
                out.push('<');
                out.append(tag.as_str());
                serialise_attrs(attrs, out);
                assert(out@ =~= before + render_head(tag@, attrs@));
                if node.children.is_empty() && is_void(tag.as_str()) {
                    out.push('/');
                    out.push('>');
                    assert(out@ =~= before + render(t));
                } else {
                    out.push('>');
                    self.serialise_children(id, out, Ghost(d));
                    out.push('<');
                    out.push('/');
                    out.append(tag.as_str());
                    out.push('>');
                    assert(out@ =~= before + render(t));
                }
            },
        }
    }

    // -----------------------------------------------------------------------
    // Text
    // -----------------------------------------------------------------------
    /// The text that a node holds, without tags.
    pub fn text_content(&self, id: NodeId) -> (r: String)
        requires
            finite_below(self@, id.0 as int),
        ensures
            r@ == text_of(tree(self@, id.0 as int)),
    {
        let mut out: String = String::new();
        let ghost d = depth(self@, id.0 as int);
        self.collect_text(id, &mut out, Ghost(d));
        out
    }

    /// Appends the text that a node holds.
    fn collect_text(&self, id: NodeId, out: &mut String, Ghost(d): Ghost<nat>)
        requires
            depth_within(self@, id.0 as int, d),
        ensures
            final(out)@ == old(out)@ + text_of(tree_within(self@, id.0 as int, d)),
        decreases d,
    {
        let ghost before = out@;
        let ghost ts = tree_within(self@, id.0 as int, d).children;
        let node: &InternalNode = &self.nodes[id.0];
        assert(node@ == self@[id.0 as int]);
        match &node.data {
            NodeData::Text(s) => out.append(s.as_str()),
            _ => {
                let mut i: usize = 0;
                while i < node.children.len()
                    invariant
                        depth_within(self@, id.0 as int, d),
                        node@ == self@[id.0 as int],
                        ts == tree_within(self@, id.0 as int, d).children,
                        i <= node.children@.len(),
                        out@ == before + text_of_all(ts.take(i as int)),
                    decreases node.children@.len() - i,
                {
                    let child: NodeId = node.children[i];
                    assert(self@[id.0 as int].children[i as int] == child.0);
                    self.collect_text(child, out, Ghost((d - 1) as nat));
                    i += 1;
                    proof {
                        assert(ts.take(i as int).drop_last() =~= ts.take(i - 1));
                        assert(ts.take(i as int).last() == ts[i - 1]);
                        assert(out@ =~= before + text_of_all(ts.take(i as int)));
                    }
                }
                assert(ts.take(i as int) =~= ts);
            },
        }
    }

    // -----------------------------------------------------------------------
    // Walking
    // -----------------------------------------------------------------------
    /// The nodes below a node in document order.
    pub fn walk_descendants(&self, id: NodeId) -> (r: Vec<NodeId>)
        requires
            finite_below(self@, id.0 as int),
        ensures
            links_view(r@) == descendants(self@, id.0 as int),
    {
        let mut found: Vec<NodeId> = Vec::new();
        let ghost d = depth(self@, id.0 as int);
        self.collect_descendants(id, &mut found, Ghost(d));
        proof {
            lemma_descendants_bound(self@, id.0 as int, d, (d - 1) as nat);
            assert(links_view(Seq::<NodeId>::empty()) =~= Seq::<int>::empty());
            assert(links_view(found@) =~= descendants(self@, id.0 as int));
        }
        found
    }

    /// Appends the nodes below a node in document order.
    fn collect_descendants(&self, id: NodeId, found: &mut Vec<NodeId>, Ghost(d): Ghost<nat>)
        requires
            depth_within(self@, id.0 as int, d),
        ensures
            links_view(final(found)@) == links_view(old(found)@) + preorder(
                self@,
                self@[id.0 as int].children,
                (d - 1) as nat,
            ),
        decreases d,
    {
        let ghost before = links_view(found@);
        let ghost ids = self@[id.0 as int].children;
        let node: &InternalNode = &self.nodes[id.0];
        let mut i: usize = 0;
        proof {
            assert(before =~= before + preorder(self@, ids.take(0), (d - 1) as nat));
        }
        while i < node.children.len()
            invariant
                depth_within(self@, id.0 as int, d),
                node@ == self@[id.0 as int],
                ids == self@[id.0 as int].children,
                i <= node.children@.len(),
                links_view(found@) == before + preorder(
                    self@,
                    ids.take(i as int),
                    (d - 1) as nat,
                ),
            decreases node.children@.len() - i,
        {
            let child: NodeId = node.children[i];
            assert(ids[i as int] == child.0);
            let ghost mid = found@;
            assert(depth_within(self@, child.0 as int, (d - 1) as nat));
            found.push(child);
            assert(links_view(found@) =~= links_view(mid).push(child.0 as int));
            self.collect_descendants(child, found, Ghost((d - 1) as nat));
            i += 1;
            proof {
                assert(ids.take(i as int).drop_last() =~= ids.take(i - 1));
                assert(ids.take(i as int).last() == child.0);
                assert(links_view(found@) =~= before + preorder(
                    self@,
                    ids.take(i as int),
                    (d - 1) as nat,
                ));
            }
        }
        assert(ids.take(i as int) =~= ids);
    }

    // -----------------------------------------------------------------------
    // Searching
    // -----------------------------------------------------------------------
    /// The first node below a node, in document order, that matches a selector.
    pub fn query_selector(&self, start: NodeId, selector: &str) -> (r: Option<NodeId>)
        requires
            finite_below(self@, start.0 as int),
            finite_above_from(self@, start.0 as int),
        ensures
            link_view(r) == first_match(self@, start.0 as int, selector@),
    {
        let sel: Selector = Selector::parse(selector);
        let below: Vec<NodeId> = self.walk_descendants(start);
        let ghost holds = selects(self@, selector@);
        let mut i: usize = 0;
        assert(links_view(below@).take(0).filter(holds) =~= Seq::<int>::empty()) by {
            reveal(Seq::filter);
        }
        proof {
            assert forall|k: int| 0 <= k < below@.len() implies finite_above(
                self@,
                (#[trigger] below@[k]).0 as int,
            ) by {
                assert(links_view(below@)[k] == below@[k].0);
                assert(descendants(self@, start.0 as int).contains(below@[k].0 as int));
                lemma_descendants_are_below(self@, start.0 as int, below@[k].0 as int);
            }
        }
        while i < below.len()
            invariant
                i <= below@.len(),
                links_view(below@) == descendants(self@, start.0 as int),
                sel@ == selector_meaning(selector@),
                holds == selects(self@, selector@),
                forall|k: int|
                    0 <= k < below@.len() ==> finite_above(self@, (#[trigger] below@[k]).0 as int),
                links_view(below@).take(i as int).filter(holds).len() == 0,
            decreases below@.len() - i,
        {
            proof {
                lemma_filter_take(links_view(below@), i as int, holds);
            }
            if sel.matches(self, below[i]) {
                proof {
                    lemma_filter_keeps_first(links_view(below@), i as int, holds);
                }
                return Some(below[i]);
            }
            i += 1;
        }
        assert(links_view(below@).take(i as int) =~= links_view(below@));
        None
    }

    /// All nodes below a node, in document order, that match a selector.
    pub fn query_selector_all(&self, start: NodeId, selector: &str) -> (r: Vec<NodeId>)
        requires
            finite_below(self@, start.0 as int),
            finite_above_from(self@, start.0 as int),
        ensures
            links_view(r@) == all_matches(self@, start.0 as int, selector@),
    {
        let sel: Selector = Selector::parse(selector);
        let below: Vec<NodeId> = self.walk_descendants(start);
        let ghost holds = selects(self@, selector@);
        let mut found: Vec<NodeId> = Vec::new();
        let mut i: usize = 0;
        assert(links_view(below@).take(0).filter(holds) =~= links_view(found@)) by {
            reveal(Seq::filter);
        }
        proof {
            assert forall|k: int| 0 <= k < below@.len() implies finite_above(
                self@,
                (#[trigger] below@[k]).0 as int,
            ) by {
                assert(links_view(below@)[k] == below@[k].0);
                assert(descendants(self@, start.0 as int).contains(below@[k].0 as int));
                lemma_descendants_are_below(self@, start.0 as int, below@[k].0 as int);
            }
        }
        while i < below.len()
            invariant
                i <= below@.len(),
                links_view(below@) == descendants(self@, start.0 as int),
                sel@ == selector_meaning(selector@),
                holds == selects(self@, selector@),
                forall|k: int|
                    0 <= k < below@.len() ==> finite_above(self@, (#[trigger] below@[k]).0 as int),
                links_view(found@) == links_view(below@).take(i as int).filter(holds),
            decreases below@.len() - i,
        {
            let ghost before = found@;
            proof {
                lemma_filter_take(links_view(below@), i as int, holds);
            }
            if sel.matches(self, below[i]) {
                found.push(below[i]);
                assert(links_view(found@) =~= links_view(before).push(below@[i as int].0 as int));
            }
            i += 1;
        }
        assert(links_view(below@).take(i as int) =~= links_view(below@));
        found
    }
}

/// Appends attributes as they are written.
fn serialise_attrs(attrs: &Attrs, out: &mut String)
    ensures
        final(out)@ == old(out)@ + render_attrs(attrs@),
{
    let ghost before = out@;
    let n: usize = attrs.len();
    let mut i: usize = 0;
    while i < n
        invariant
            n == attrs@.len(),
            i <= n,
            out@ == before + render_attrs(attrs@.take(i as int)),
        decreases n - i,
    {
        let ghost mid = out@;
        out.push(' ');
        out.append(attrs.name_at(i));
        if let Some(v) = attrs.value_at(i) {
            out.push('=');
            out.push('"');
            out.append(v.as_str());
            out.push('"');
        }
        proof {
            assert(out@ =~= mid + render_attr(attrs@[i as int].0, attrs@[i as int].1));
            assert(attrs@.take(i + 1).drop_last() =~= attrs@.take(i as int));
            assert(attrs@.take(i + 1).last() == attrs@[i as int]);
            assert(out@ =~= before + render_attrs(attrs@.take(i + 1)));
        }
        i += 1;
    }
    assert(attrs@.take(i as int) =~= attrs@);
}

} // verus!
