//! Documents and handles to their nodes.
use vstd::prelude::*;

use crate::arena::{links_view, Arena, InternalNode, NodeData, NodeId};
use crate::attrs::{has_name, inserted, lookup, removed, text_view, AttrList};
use crate::canonical::lower_tags;
use crate::forest::{
    depth_within, descendants, grown, is_forest, lemma_depth_raise, lemma_descendants_bound,
    lemma_forest_finite_above_from, lemma_grows_down_finite, lemma_relabelled_forest,
    lemma_tree_unfold, numbers, pruned, tree, trees, NodeModel, Nodes,
};
use crate::grammar::{nodes, Fault};
use crate::parser::{PResult, Parser};
use crate::query::{all_matches, first_match};
use crate::tree::{render, render_all, text_of, Content, Tree};

verus! {

/// A handle to a node of a document: an element, a text or the document node.
#[derive(Debug, Clone, Copy, PartialEq, Eq, Structural)]
pub struct JsElement {
    pub id: usize,
}

/// The number that an optional handle stands for.
pub open spec fn handle_view(handle: Option<JsElement>) -> Option<int> {
    match handle {
        Some(e) => Some(e.id as int),
        None => None,
    }
}

/// The numbers that handles stand for.
pub open spec fn handles_view(handles: Seq<JsElement>) -> Seq<int> {
    handles.map_values(|e: JsElement| e.id as int)
}

/// The attributes of a node; none where it is not an element.
pub open spec fn attrs_of(data: Content) -> AttrList {
    match data {
        Content::Element { attrs, .. } => attrs,
        _ => Seq::empty(),
    }
}

/// A node with other attributes; the node itself where it is not an element.
pub open spec fn with_attrs(data: Content, attrs: AttrList) -> Content {
    match data {
        Content::Element { tag, .. } => Content::Element { tag, attrs },
        _ => data,
    }
}

/// The nodes after one of them holds something else.
pub open spec fn relabelled(nodes: Nodes, id: int, data: Content) -> Nodes {
    nodes.update(id, NodeModel { data, ..nodes[id] })
}

/// The number by which a node's kind is known.
pub open spec fn type_number(data: Content) -> u32 {
    match data {
        Content::Document => 9,
        Content::Element { .. } => 1,
        Content::Text(_) => 3,
    }
}

impl JsElement {
    /// The name of an element, in lower case as it was parsed.
    pub fn tag_name(&self, arena: &Arena) -> (r: Option<String>)
        requires
            self.id < arena@.len(),
        ensures
            text_view(r) == (match arena@[self.id as int].data {
                Content::Element { tag, .. } => Some(tag),
                _ => None,
            }),
    {
        match &arena.get(NodeId(self.id)).data {
            NodeData::Element { tag, .. } => Some(tag.clone()),
            _ => None,
        }
    }

    /// 1 for an element, 3 for a text, 9 for the document node.
    pub fn node_type(&self, arena: &Arena) -> (r: u32)
        requires
            self.id < arena@.len(),
        ensures
            r == type_number(arena@[self.id as int].data),
    {
        match &arena.get(NodeId(self.id)).data {
            NodeData::Document => 9,
            NodeData::Element { .. } => 1,
            NodeData::Text(_) => 3,
        }
    }

    /// The text that the node holds, without tags.
    pub fn text_content(&self, arena: &Arena) -> (r: String)
        requires
            arena.wf(),
            self.id < arena@.len(),
        ensures
            r@ == text_of(tree(arena@, self.id as int)),
    {
        arena.text_content(NodeId(self.id))
    }

    /// What is below the node, as it is written.
    pub fn get_inner_html(&self, arena: &Arena) -> (r: String)
        requires
            arena.wf(),
            self.id < arena@.len(),
        ensures
            r@ == render_all(tree(arena@, self.id as int).children),
    {
        arena.inner_html(NodeId(self.id))
    }

    /// Takes apart what is below the node and hangs the nodes of a text in its place. Where the
    /// text is at fault, what was read before the fault stays. A closing tag that nothing opened
    /// ends the text without a fault.
    pub fn set_inner_html(&self, arena: &mut Arena, html: String) -> (r: PResult<()>)
        requires
            old(arena).wf(),
            self.id < old(arena)@.len(),
        ensures
            match r {
                Ok(_) => nodes(html@).end is Ok,
                Err(e) => nodes(html@).end == Err::<Option<Seq<char>>, Fault>(e@),
            },
            grown(
                pruned(old(arena)@, self.id as int),
                final(arena)@,
                self.id as int,
                nodes(html@).trees,
            ),
            tree(final(arena)@, self.id as int) == (Tree {
                data: old(arena)@[self.id as int].data,
                children: nodes(html@).trees,
            }),
            descendants(final(arena)@, self.id as int) == numbers(
                old(arena)@.len() as int,
                final(arena)@.len() as int,
            ),
            final(arena).root == old(arena).root,
            final(arena).wf(),
            lower_tags(old(arena)@) ==> lower_tags(final(arena)@),
    {
        let id: NodeId = NodeId(self.id);
        arena.clear_children(id);
        let ghost bare = arena@;
        let mut parser: Parser = Parser::new(html);
        let r: PResult<Option<String>> = parser.parse_children(arena, id);
        proof {
            lemma_grown_tree(bare, arena@, self.id as int, nodes(html@).trees);
            lemma_grown_numbers(bare, arena@, self.id as int, nodes(html@).trees);
        }
        match r {
            Ok(_) => Ok(()),
            Err(e) => Err(e),
        }
    }

    /// The node with what is below it, as it is written.
    pub fn outer_html(&self, arena: &Arena) -> (r: String)
        requires
            arena.wf(),
            self.id < arena@.len(),
        ensures
            r@ == render(tree(arena@, self.id as int)),
    {
        arena.outer_html(NodeId(self.id))
    }

    /// The value of an attribute; none where the attribute is missing or has no value.
    pub fn get_attribute(&self, arena: &Arena, name: String) -> (r: Option<String>)
        requires
            self.id < arena@.len(),
        ensures
            text_view(r) == (match lookup(attrs_of(arena@[self.id as int].data), name@) {
                Some(value) => value,
                None => None,
            }),
    {
        match &arena.get(NodeId(self.id)).data {
            NodeData::Element { attrs, .. } => match attrs.get(name.as_str()) {
                Some(Some(value)) => Some(value.clone()),
                _ => None,
            },
            _ => None,
        }
    }

    /// Whether an attribute is there, with a value or without.
    pub fn has_attribute(&self, arena: &Arena, name: String) -> (b: bool)
        requires
            self.id < arena@.len(),
        ensures
            b == has_name(attrs_of(arena@[self.id as int].data), name@),
    {
        match &arena.get(NodeId(self.id)).data {
            NodeData::Element { attrs, .. } => attrs.contains_key(name.as_str()),
            _ => false,
        }
    }

    /// Gives an attribute a value or, without one, makes it a boolean attribute. A node that is
    /// not an element stays as it is.
    pub fn set_attribute(&self, arena: &mut Arena, name: String, value: Option<String>)
        requires
            self.id < old(arena)@.len(),
        ensures
            final(arena)@ == relabelled(
                old(arena)@,
                self.id as int,
                with_attrs(
                    old(arena)@[self.id as int].data,
                    inserted(
                        attrs_of(old(arena)@[self.id as int].data),
                        name@,
                        text_view(value),
                    ),
                ),
            ),
            final(arena).root == old(arena).root,
            old(arena).wf() ==> final(arena).wf(),
    {
        let ghost before = arena@;
        let node: &mut InternalNode = arena.get_mut(NodeId(self.id));
        match &mut node.data {
            NodeData::Element { attrs, .. } => {
                attrs.insert(name, value);
            },
            _ => {},
        }
        proof {
            lemma_relabelled(before, arena@, self.id as int);
        }
    }

    /// Takes an attribute away. A node that is not an element stays as it is.
    pub fn remove_attribute(&self, arena: &mut Arena, name: String)
        requires
            self.id < old(arena)@.len(),
        ensures
            final(arena)@ == relabelled(
                old(arena)@,
                self.id as int,
                with_attrs(
                    old(arena)@[self.id as int].data,
                    removed(attrs_of(old(arena)@[self.id as int].data), name@),
                ),
            ),
            final(arena).root == old(arena).root,
            old(arena).wf() ==> final(arena).wf(),
    {
        let ghost before = arena@;
        let node: &mut InternalNode = arena.get_mut(NodeId(self.id));
        match &mut node.data {
            NodeData::Element { attrs, .. } => {
                attrs.remove(name.as_str());
            },
            _ => {},
        }
        proof {
            lemma_relabelled(before, arena@, self.id as int);
        }
    }

    /// The children of the node.
    pub fn children(&self, arena: &Arena) -> (r: Vec<JsElement>)
        requires
            self.id < arena@.len(),
        ensures
            handles_view(r@) == arena@[self.id as int].children,
    {
        let node: &InternalNode = arena.get(NodeId(self.id));
        handles(&node.children)
    }

    /// The parent of the node.
    pub fn parent(&self, arena: &Arena) -> (r: Option<JsElement>)
        requires
            self.id < arena@.len(),
        ensures
            handle_view(r) == arena@[self.id as int].parent,
    {
        match arena.get(NodeId(self.id)).parent {
            Some(p) => Some(JsElement { id: p.0 }),
            None => None,
        }
    }

    /// The first node below the node, in document order, that matches a selector.
    pub fn query_selector(&self, arena: &Arena, selector: String) -> (r: Option<JsElement>)
        requires
            arena.wf(),
            self.id < arena@.len(),
        ensures
            handle_view(r) == first_match(arena@, self.id as int, selector@),
    {
        proof {
            lemma_forest_finite_above_from(arena@, self.id as int);
        }
        match arena.query_selector(NodeId(self.id), selector.as_str()) {
            Some(found) => Some(JsElement { id: found.0 }),
            None => None,
        }
    }

    /// All nodes below the node, in document order, that match a selector.
    pub fn query_selector_all(&self, arena: &Arena, selector: String) -> (r: Vec<JsElement>)
        requires
            arena.wf(),
            self.id < arena@.len(),
        ensures
            handles_view(r@) == all_matches(arena@, self.id as int, selector@),
    {
        proof {
            lemma_forest_finite_above_from(arena@, self.id as int);
        }
        let found: Vec<NodeId> = arena.query_selector_all(NodeId(self.id), selector.as_str());
        handles(&found)
    }
}

/// Handles to some nodes.
fn handles(ids: &Vec<NodeId>) -> (r: Vec<JsElement>)
    ensures
        handles_view(r@) == links_view(ids@),
{
    let mut r: Vec<JsElement> = Vec::new();
    let mut i: usize = 0;
    while i < ids.len()
        invariant
            i <= ids@.len(),
            handles_view(r@) == links_view(ids@).take(i as int),
        decreases ids@.len() - i,
    {
        let ghost before = r@;
        r.push(JsElement { id: ids[i].0 });
        i += 1;
        assert(handles_view(r@) =~= handles_view(before).push(ids@[i - 1].0 as int));
        assert(links_view(ids@).take(i as int) =~= links_view(ids@).take(i - 1).push(
            ids@[i - 1].0 as int,
        ));
    }
    assert(links_view(ids@).take(i as int) =~= links_view(ids@));
    r
}

/// A document.
#[derive(Debug, Clone)]
pub struct JsDocument {
    pub arena: Arena,
    pub root: usize,
}

impl JsDocument {
    /// The links of the nodes make a forest, the root is a document node that has no parent, and
    /// the names of all elements are in lower case.
    pub open spec fn wf(self) -> bool {
        &&& self.arena.wf()
        &&& self.root == self.arena.root.0
        &&& self.arena@[self.root as int].data == Content::Document
        &&& self.arena@[self.root as int].parent is None
        &&& lower_tags(self.arena@)
    }

    /// Reads a document. A closing tag that nothing opened ends the text without a fault.
    pub fn parse(html: String) -> (r: PResult<JsDocument>)
        ensures
            match r {
                Ok(doc) => {
                    &&& nodes(html@).end is Ok
                    &&& doc.wf()
                    &&& tree(doc.arena@, doc.root as int) == (Tree {
                        data: Content::Document,
                        children: nodes(html@).trees,
                    })
                    &&& doc.root == 0
                    &&& descendants(doc.arena@, 0) == numbers(1, doc.arena@.len() as int)
                },
                Err(e) => nodes(html@).end == Err::<Option<Seq<char>>, Fault>(e@),
            },
    {
        let mut arena: Arena = Arena::new();
        let root: NodeId = arena.root;
        let ghost bare = arena@;
        let mut parser: Parser = Parser::new(html);
        let r: PResult<Option<String>> = parser.parse_children(&mut arena, root);
        proof {
            lemma_grown_tree(bare, arena@, 0, nodes(html@).trees);
            lemma_grown_numbers(bare, arena@, 0, nodes(html@).trees);
        }
        match r {
            Ok(_) => Ok(JsDocument { arena, root: root.0 }),
            Err(e) => Err(e),
        }
    }

    /// The document node.
    pub fn document_element(&self) -> (r: JsElement)
        ensures
            r.id == self.root,
    {
        JsElement { id: self.root }
    }

    /// The first node of the document, in document order, that matches a selector.
    pub fn query_selector(&self, selector: String) -> (r: Option<JsElement>)
        requires
            self.wf(),
        ensures
            handle_view(r) == first_match(self.arena@, self.root as int, selector@),
    {
        self.document_element().query_selector(&self.arena, selector)
    }

    /// All nodes of the document, in document order, that match a selector.
    pub fn query_selector_all(&self, selector: String) -> (r: Vec<JsElement>)
        requires
            self.wf(),
        ensures
            handles_view(r@) == all_matches(self.arena@, self.root as int, selector@),
    {
        self.document_element().query_selector_all(&self.arena, selector)
    }

    /// The document, as it is written.
    pub fn serialize(&self) -> (r: String)
        requires
            self.wf(),
        ensures
            r@ == render_all(tree(self.arena@, self.root as int).children),
    {
        self.arena.inner_html(NodeId(self.root))
    }
}

/// Growth from a node without children makes the new trees its content.
pub proof fn lemma_grown_tree(before: Nodes, after: Nodes, id: int, ts: Seq<Tree>)
    requires
        grown(before, after, id, ts),
        before[id].children.len() == 0,
        is_forest(after),
    ensures
        tree(after, id) == (Tree { data: before[id].data, children: ts }),
{
    lemma_tree_unfold(after, id);
    assert forall|j: int| 0 <= j < ts.len() implies #[trigger] trees(
        after,
        after[id].children,
    )[j] == ts[j] by {
        assert(tree(after, after[id].children[0 + j]) == ts[j]);
    }
    assert(trees(after, after[id].children) =~= ts);
}

/// Growth from a node without children numbers what is then below the node.
pub proof fn lemma_grown_numbers(before: Nodes, after: Nodes, id: int, ts: Seq<Tree>)
    requires
        grown(before, after, id, ts),
        before[id].children.len() == 0,
    ensures
        descendants(after, id) == numbers(before.len() as int, after.len() as int),
{
    let n = before.len() as int;
    let kids = after[id].children;
    assert(kids.skip(0) =~= kids);
    assert forall|i: int| 0 <= i < kids.len() implies depth_within(
        after,
        #[trigger] kids[i],
        after.len(),
    ) by {
        let c = after[id].children[0 + i];
        lemma_grows_down_finite(after, n, c);
        lemma_depth_raise(after, c, (after.len() - c) as nat, after.len());
    }
    lemma_descendants_bound(after, id, after.len() + 1, after.len());
}

/// Another label for a node keeps the links.
proof fn lemma_relabelled(before: Nodes, after: Nodes, id: int)
    requires
        0 <= id < before.len(),
        after == relabelled(before, id, after[id].data),
    ensures
        is_forest(before) ==> is_forest(after),
{
    if is_forest(before) {
        lemma_relabelled_forest(before, after);
    }
}

} // verus!
