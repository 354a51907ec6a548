//! Laws of views: what the values that contracts speak of are, told by what the types hold.
use vstd::prelude::*;

use crate::arena::{link_view, links_view, Arena, InternalNode, NodeData, NodeId};
use crate::attrs::{text_view, Attrs};
use crate::document::{handle_view, handles_view, JsDocument, JsElement};
use crate::forest::is_forest;
use crate::grammar::Fault;
use crate::parser::ParseError;
use crate::query::Simple;
use crate::selector::{CompoundSelector, SelectorPart, SelectorSequence, SimpleSelector};
use crate::text::{lower, lowered};
use crate::tree::Content;

verus! {

/// Links and handles stand for the numbers they hold, each for its own and in order.
pub proof fn law_views_of_links(
    link: NodeId,
    links: Seq<NodeId>,
    handle: JsElement,
    handles: Seq<JsElement>,
    i: int,
)
    ensures
        link_view(Some(link)) == Some(link.0 as int),
        link_view(None) is None,
        links_view(links).len() == links.len(),
        0 <= i < links.len() ==> links_view(links)[i] == links[i].0,
        handle_view(Some(handle)) == Some(handle.id as int),
        handle_view(None) is None,
        handles_view(handles).len() == handles.len(),
        0 <= i < handles.len() ==> handles_view(handles)[i] == handles[i].id,
{
}

/// Nodes stand for what they hold: an arena for all its nodes in order, a node for its data and
/// its links, and the data for their texts.
pub proof fn law_views_of_nodes(
    arena: Arena,
    node: InternalNode,
    tag: String,
    attrs: Attrs,
    text: String,
    i: int,
)
    ensures
        arena@.len() == arena.nodes@.len(),
        0 <= i < arena.nodes@.len() ==> arena@[i] == arena.nodes@[i]@,
        node@.data == node.data@,
        node@.parent == link_view(node.parent),
        node@.children == links_view(node.children@),
        NodeData::Document@ == Content::Document,
        (NodeData::Element { tag, attrs })@ == (Content::Element { tag: tag@, attrs: attrs@ }),
        NodeData::Text(text)@ == Content::Text(text@),
        text_view(Some(text)) == Some(text@),
        text_view(None) is None,
{
}

/// Errors stand for the faults of the same kind, with the same names.
pub proof fn law_views_of_errors(name: String, opened: String, closed: String)
    ensures
        ParseError::UnexpectedEof@ == Fault::UnexpectedEof,
        ParseError::InvalidTagName(name)@ == Fault::InvalidTagName(name@),
        (ParseError::MismatchedTag { opened, closed })@ == (Fault::MismatchedTag {
            opened: opened@,
            closed: closed@,
        }),
{
}

/// The parts of selectors stand for the tests of the same kind, all of them in order.
pub proof fn law_views_of_selectors(
    a: String,
    v: String,
    compound: CompoundSelector,
    part: SelectorPart,
    sequence: SelectorSequence,
    i: int,
)
    ensures
        SimpleSelector::Tag(a)@ == Simple::Tag(a@),
        SimpleSelector::Id(a)@ == Simple::Id(a@),
        SimpleSelector::Class(a)@ == Simple::Class(a@),
        SimpleSelector::AttrExists(a)@ == Simple::AttrExists(a@),
        SimpleSelector::AttrEquals(a, v)@ == Simple::AttrEquals(a@, v@),
        SimpleSelector::AttrContainsWord(a, v)@ == Simple::AttrContainsWord(a@, v@),
        SimpleSelector::AttrStartsWith(a, v)@ == Simple::AttrStartsWith(a@, v@),
        SimpleSelector::AttrEndsWith(a, v)@ == Simple::AttrEndsWith(a@, v@),
        SimpleSelector::AttrContains(a, v)@ == Simple::AttrContains(a@, v@),
        compound@.len() == compound.parts@.len(),
        0 <= i < compound.parts@.len() ==> compound@[i] == compound.parts@[i]@,
        part@.compound == part.compound@,
        part@.combinator == part.combinator,
        sequence@.len() == sequence.parts@.len(),
        0 <= i < sequence.parts@.len() ==> sequence@[i] == sequence.parts@[i]@,
{
}

/// A well-formed document is a forest with a document node that has no parent as its root, and no
/// element in it has a capital letter of the Latin alphabet in its name.
pub proof fn law_well_formed_documents(doc: JsDocument, x: int, i: int)
    requires
        doc.wf(),
        0 <= x < doc.arena@.len(),
    ensures
        is_forest(doc.arena@),
        doc.root == doc.arena.root.0,
        doc.root < doc.arena@.len(),
        doc.arena@[doc.root as int].data == Content::Document,
        doc.arena@[doc.root as int].parent is None,
        doc.arena@[x].data matches Content::Element { tag, .. } ==> (0 <= i < tag.len() ==> !('A'
            <= tag[i] <= 'Z')),
{
    if let Content::Element { tag, .. } = doc.arena@[x].data {
        assert(lowered(tag) == tag);
        if 0 <= i < tag.len() {
            assert(lowered(tag)[i] == lower(tag[i]));
        }
    }
}

} // verus!
