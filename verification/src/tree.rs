//! Trees of markup as mathematical values, the markup they are written as, and the text they hold.
use vstd::prelude::*;

use crate::attrs::AttrList;

verus! {

/// What a node holds beside its children.
pub enum Content {
    Document,
    Element { tag: Seq<char>, attrs: AttrList },
    Text(Seq<char>),
}

/// A node with all that is below it.
pub struct Tree {
    pub data: Content,
    pub children: Seq<Tree>,
}

/// A node without children.
pub open spec fn leaf(data: Content) -> Tree {
    Tree { data, children: Seq::empty() }
}

/// The elements that have no content by convention.
pub open spec fn void_tag(tag: Seq<char>) -> bool {
    ||| tag == "area"@
    ||| tag == "base"@
    ||| tag == "br"@
    ||| tag == "col"@
    ||| tag == "embed"@
    ||| tag == "hr"@
    ||| tag == "img"@
    ||| tag == "input"@
    ||| tag == "link"@
    ||| tag == "meta"@
    ||| tag == "param"@
    ||| tag == "source"@
    ||| tag == "track"@
    ||| tag == "wbr"@
}

/// An attribute as it is written: a space, the name and, where there is a value, the value in
/// double quotes. Nothing is escaped.
pub open spec fn render_attr(name: Seq<char>, value: Option<Seq<char>>) -> Seq<char> {
    match value {
        Some(v) => seq![' '] + name + seq!['=', '"'] + v + seq!['"'],
        None => seq![' '] + name,
    }
}

/// Attributes as they are written, in order.
pub open spec fn render_attrs(a: AttrList) -> Seq<char>
    decreases a.len(),
{
    if a.len() == 0 {
        Seq::empty()
    } else {
        render_attrs(a.drop_last()) + render_attr(a.last().0, a.last().1)
    }
}

/// The beginning of an element as it is written, up to what ends the tag.
pub open spec fn render_head(tag: Seq<char>, a: AttrList) -> Seq<char> {
    seq!['<'] + tag + render_attrs(a)
}

/// The end of an element as it is written.
pub open spec fn render_close(tag: Seq<char>) -> Seq<char> {
    seq!['<', '/'] + tag + seq!['>']
}

/// A tree as it is written. Text stands for itself; a void element without children closes
/// itself; any other element stands between two tags.
pub open spec fn render(t: Tree) -> Seq<char>
    decreases t,
{
    match t.data {
        Content::Document => render_all(t.children),
        Content::Text(s) => s,
        Content::Element { tag, attrs } => if t.children.len() == 0 && void_tag(tag) {
            render_head(tag, attrs) + seq!['/', '>']
        } else {
            render_head(tag, attrs) + seq!['>'] + render_all(t.children) + render_close(tag)
        },
    }
}

/// Trees as they are written, one after the other.
pub open spec fn render_all(ts: Seq<Tree>) -> Seq<char>
    decreases ts,
{
    if ts.len() == 0 {
        Seq::empty()
    } else {
        render_all(ts.drop_last()) + render(ts.last())
    }
}

/// The text that a tree holds, without tags.
pub open spec fn text_of(t: Tree) -> Seq<char>
    decreases t,
{
    match t.data {
        Content::Text(s) => s,
        _ => text_of_all(t.children),
    }
}

/// The text that trees hold, one after the other.
pub open spec fn text_of_all(ts: Seq<Tree>) -> Seq<char>
    decreases ts,
{
    if ts.len() == 0 {
        Seq::empty()
    } else {
        text_of_all(ts.drop_last()) + text_of(ts.last())
    }
}

/// How many nodes a tree has.
pub open spec fn size(t: Tree) -> nat
    decreases t,
{
    1 + size_all(t.children)
}

/// How many nodes trees have.
pub open spec fn size_all(ts: Seq<Tree>) -> nat
    decreases ts,
{
    if ts.len() == 0 {
        0
    } else {
        size_all(ts.drop_last()) + size(ts.last())
    }
}

/// Writing trees one after the other joins what they are written as.
pub proof fn lemma_render_all_concat(a: Seq<Tree>, b: Seq<Tree>)
    ensures
        render_all(a + b) == render_all(a) + render_all(b),
    decreases b.len(),
{
    if b.len() == 0 {
        assert(a + b =~= a);
        assert(render_all(a) + render_all(b) =~= render_all(a));
    } else {
        assert((a + b).drop_last() =~= a + b.drop_last());
        lemma_render_all_concat(a, b.drop_last());
        assert(render_all(a + b) =~= render_all(a) + render_all(b));
    }
}

/// A single tree among trees is written as itself.
pub proof fn lemma_render_all_one(t: Tree)
    ensures
        render_all(seq![t]) == render(t),
{
    let ts = seq![t];
    assert(ts.drop_last() =~= Seq::<Tree>::empty());
    assert(render_all(Seq::<Tree>::empty()) =~= Seq::<char>::empty());
    assert(render_all(ts) =~= render(t));
}

} // verus!
