//! Laws of writing: what every tree is written as, and the text it holds.
use vstd::prelude::*;

use crate::attrs::AttrList;
use crate::laws::reading::lemma_void_names;
use crate::laws::vocabulary::is_void_name;
use crate::parser::{debug_text, fault_message};
use crate::grammar::Fault;
use crate::tree::{
    render, render_all, render_attr, render_attrs, text_of, text_of_all, void_tag, Content, Tree,
};

verus! {

/// An attribute as it is written: a space and the name and, where there is a value, `=` and the
/// value between double quotes.
pub open spec fn attr_piece(e: (Seq<char>, Option<Seq<char>>)) -> Seq<char> {
    match e.1 {
        Some(v) => seq![' '] + e.0 + seq!['=', '"'] + v + seq!['"'],
        None => seq![' '] + e.0,
    }
}

/// Attributes as they are written, all of them in order.
pub open spec fn attr_pieces(a: AttrList) -> Seq<char> {
    Seq::new(a.len(), |i: int| attr_piece(a[i])).flatten()
}

/// Trees as they are written, all of them in order.
pub open spec fn tree_pieces(ts: Seq<Tree>) -> Seq<char> {
    Seq::new(ts.len(), |i: int| render(ts[i])).flatten()
}

/// Trees are written one after the other, with nothing between them.
pub proof fn law_trees_are_written_in_order(ts: Seq<Tree>)
    ensures
        render_all(ts) == tree_pieces(ts),
    decreases ts.len(),
{
    let all = Seq::new(ts.len(), |i: int| render(ts[i]));
    if ts.len() > 0 {
        let front = ts.drop_last();
        law_trees_are_written_in_order(front);
        assert(all.drop_last() =~= Seq::new(front.len(), |i: int| render(front[i])));
        lemma_flatten_last(all);
    }
}

/// A text is written as it is; the document node is written as its children; an element is written
/// as its name, all its attributes and all its children between two tags, or as a tag that closes
/// itself where it is void and has no children.
pub proof fn law_every_tree_is_written(t: Tree)
    ensures
        render(t) == (match t.data {
            Content::Text(s) => s,
            Content::Document => tree_pieces(t.children),
            Content::Element { tag, attrs } => if t.children.len() == 0 && is_void_name(tag) {
                seq!['<'] + tag + attr_pieces(attrs) + seq!['/', '>']
            } else {
                seq!['<'] + tag + attr_pieces(attrs) + seq!['>'] + tree_pieces(t.children) + seq![
                    '<',
                    '/',
                ] + tag + seq!['>']
            },
        }),
{
    law_trees_are_written_in_order(t.children);
    if let Content::Element { tag, attrs } = t.data {
        lemma_void_names(tag);
        lemma_attr_pieces(attrs);
        if !(t.children.len() == 0 && void_tag(tag)) {
            assert(render(t) =~= seq!['<'] + tag + attr_pieces(attrs) + seq!['>'] + tree_pieces(
                t.children,
            ) + seq!['<', '/'] + tag + seq!['>']);
        }
    }
}

proof fn lemma_attr_pieces(a: AttrList)
    ensures
        render_attrs(a) == attr_pieces(a),
    decreases a.len(),
{
    let all = Seq::new(a.len(), |i: int| attr_piece(a[i]));
    if a.len() > 0 {
        let front = a.drop_last();
        lemma_attr_pieces(front);
        assert(all.drop_last() =~= Seq::new(front.len(), |i: int| attr_piece(front[i])));
        lemma_flatten_last(all);
        assert(render_attr(a.last().0, a.last().1) =~= attr_piece(a.last()));
    }
}

/// The last piece comes last.
pub proof fn lemma_flatten_last<A>(all: Seq<Seq<A>>)
    requires
        all.len() > 0,
    ensures
        all.flatten() == all.drop_last().flatten() + all.last(),
    decreases all.len(),
{
    if all.len() == 1 {
        assert(all.drop_first() =~= Seq::<Seq<A>>::empty());
        assert(all.drop_last() =~= Seq::<Seq<A>>::empty());
        assert(all.drop_first().flatten() =~= Seq::<A>::empty());
        assert(all.flatten() =~= all.drop_last().flatten() + all.last());
    } else {
        lemma_flatten_last(all.drop_first());
        assert(all.drop_first().drop_last() =~= all.drop_last().drop_first());
        assert(all.flatten() =~= all.drop_last().flatten() + all.last());
    }
}

/// The text of a text is the text; the text of any other node is the texts of all its children, in
/// order and with nothing between them.
pub proof fn law_text_of_every_tree(t: Tree)
    ensures
        text_of(t) == (match t.data {
            Content::Text(s) => s,
            _ => Seq::new(t.children.len(), |i: int| text_of(t.children[i])).flatten(),
        }),
{
    lemma_text_pieces(t.children);
}

proof fn lemma_text_pieces(ts: Seq<Tree>)
    ensures
        text_of_all(ts) == Seq::new(ts.len(), |i: int| text_of(ts[i])).flatten(),
    decreases ts.len(),
{
    let all = Seq::new(ts.len(), |i: int| text_of(ts[i]));
    if ts.len() > 0 {
        let front = ts.drop_last();
        lemma_text_pieces(front);
        assert(all.drop_last() =~= Seq::new(front.len(), |i: int| text_of(front[i])));
        lemma_flatten_last(all);
    }
}

/// The messages of the faults hold the names in question.
pub proof fn law_messages(name: Seq<char>, opened: Seq<char>, closed: Seq<char>)
    ensures
        fault_message(Fault::InvalidTagName(name)) == "Invalid tag name: "@ + debug_text(name),
        fault_message(Fault::UnexpectedEof) == "Unexpected end of input"@,
        fault_message(Fault::MismatchedTag { opened, closed }) == "Mismatched tag: opened <"@
            + opened + ">, closed </"@ + closed + ">"@,
{
}

} // verus!
