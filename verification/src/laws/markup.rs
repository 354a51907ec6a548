//! Laws of the markup: what is written is read back, and what is read is kept as it was written.
use vstd::prelude::*;

use crate::attrs::{lemma_position, lookup, AttrList};
use crate::canonical::{
    attr_name, closed_comment, element_name, expressible, expressible_all, lemma_nodes_proper,
    plain_text, proper_all, proper_attrs, quotable,
};
use crate::grammar::{
    after_trees, comment_len, element, lemma_comment, lemma_element, name_char, nodes, Fault,
    Reading,
};
use crate::round_trip::{
    lemma_read_all, lemma_read_back, lemma_read_closing, lemma_read_comment, lemma_read_opening,
    lemma_read_text, lemma_tag_start,
};
use crate::text::{all_but, lemma_span, occurs_in, span};
use crate::tree::{
    leaf, lemma_render_all_one, render, render_all, render_attr, render_attrs, render_close,
    render_head, void_tag, Content, Tree,
};
use crate::verbatim::{
    all_taken_from, lemma_nodes_from, lemma_tree_written, lemma_trees_written, taken_from,
};

verus! {

// ---------------------------------------------------------------------------
// Round trips
// ---------------------------------------------------------------------------
/// Parsing what trees are written as gives these trees, where the trees are of the form that
/// parsing gives, no value holds a double quote, and no comment but a last one is left open.
pub proof fn law_written_trees_are_read_back(ts: Seq<Tree>)
    requires
        proper_all(ts),
        expressible_all(ts),
    ensures
        nodes(render_all(ts)) == (Reading { trees: ts, end: Ok(None), rest: Seq::empty() }),
{
    lemma_read_back(ts);
}

/// Whatever is parsed, names are in lower case, void elements have no content, a text is plain or
/// a comment, and two plain texts never stand next to each other.
pub proof fn law_parsed_trees_are_proper(s: Seq<char>)
    ensures
        proper_all(nodes(s).trees),
{
    lemma_nodes_proper(s);
}

/// Parsing, writing and parsing again gives the trees of the first parsing, and writing these
/// gives the same markup. Left out are values with a double quote and comments that an element
/// holds and nothing closes.
pub proof fn law_parse_write_parse(s: Seq<char>)
    requires
        expressible_all(nodes(s).trees),
    ensures
        nodes(render_all(nodes(s).trees)) == (Reading {
            trees: nodes(s).trees,
            end: Ok(None),
            rest: Seq::empty(),
        }),
        render_all(nodes(render_all(nodes(s).trees)).trees) == render_all(nodes(s).trees),
{
    lemma_nodes_proper(s);
    lemma_read_back(nodes(s).trees);
}

/// Markup in the form in which trees are written is kept letter for letter by parsing and
/// writing.
pub proof fn law_written_markup_is_kept(s: Seq<char>, ts: Seq<Tree>)
    requires
        s == render_all(ts),
        proper_all(ts),
        expressible_all(ts),
    ensures
        nodes(s).end == Ok::<Option<Seq<char>>, Fault>(None),
        render_all(nodes(s).trees) == s,
{
    lemma_read_back(ts);
}

/// Whatever is parsed, every text and every value stands in the source letter for letter: none of
/// `<`, `>` and `&` is decoded.
pub proof fn law_parsing_keeps_characters(s: Seq<char>)
    ensures
        all_taken_from(nodes(s).trees, s),
{
    assert(s.subrange(0, s.len() as int) =~= s);
    lemma_nodes_from(s, s);
}

/// Whatever is written, every text and every value stands in the markup letter for letter: none
/// of `<`, `>` and `&` is encoded.
pub proof fn law_writing_keeps_characters(t: Tree)
    ensures
        taken_from(t, render(t)),
        all_taken_from(t.children, render_all(t.children)),
{
    lemma_occurs_itself(render(t));
    lemma_tree_written(t, render(t));
    lemma_occurs_itself(render_all(t.children));
    lemma_trees_written(t.children, render_all(t.children));
}

proof fn lemma_occurs_itself(s: Seq<char>)
    ensures
        occurs_in(s, s),
{
    assert(s.skip(0) =~= s);
    assert(s.subrange(0, s.len() as int) =~= s);
    assert(s.is_prefix_of(s.skip(0)));
}

// ---------------------------------------------------------------------------
// Text
// ---------------------------------------------------------------------------
/// A text without `<` becomes one text node, and is written as it was: nothing in it is encoded
/// or decoded.
pub proof fn law_text_is_kept(s: Seq<char>)
    requires
        plain_text(s),
    ensures
        nodes(s) == (Reading {
            trees: seq![leaf(Content::Text(s))],
            end: Ok(None),
            rest: Seq::empty(),
        }),
        render_all(nodes(s).trees) == s,
{
    let nothing = Seq::<char>::empty();
    lemma_read_text(s, nothing);
    assert(s + nothing =~= s);
    assert(nodes(nothing) == (Reading { trees: Seq::empty(), end: Ok(None), rest: nothing }));
    assert(nodes(s).trees =~= seq![leaf(Content::Text(s))]);
    lemma_render_all_one(leaf(Content::Text(s)));
}

/// A comment becomes a text node that holds it with its `<!--` and `-->`, and what follows is
/// read as if the comment were not there.
pub proof fn law_comment_is_text(s: Seq<char>, x: Seq<char>)
    requires
        closed_comment(s),
    ensures
        nodes(s + x) == after_trees(seq![leaf(Content::Text(s))], nodes(x)),
        render(leaf(Content::Text(s))) == s,
{
    lemma_read_comment(s, x);
}

/// Parsing that ends neither at a closing tag nor at a fault has read the whole text.
pub proof fn law_parsing_reads_everything(s: Seq<char>)
    requires
        nodes(s).end == Ok::<Option<Seq<char>>, Fault>(None),
    ensures
        nodes(s).rest.len() == 0,
    decreases s.len(),
{
    if s.len() == 0 || seq!['<', '/'].is_prefix_of(s) {
    } else if seq!['<', '!', '-', '-'].is_prefix_of(s) {
        lemma_comment(s);
        law_parsing_reads_everything(s.skip(comment_len(s) as int));
    } else if s[0] == '<' {
        lemma_element(s);
        law_parsing_reads_everything(element(s).rest);
    } else {
        lemma_span(s, all_but('<'));
        law_parsing_reads_everything(s.skip(span(s, all_but('<')) as int));
    }
}

// ---------------------------------------------------------------------------
// Elements
// ---------------------------------------------------------------------------
/// A tag that ends in `/>` is a node without children, whatever its name, and what follows is
/// not its content.
pub proof fn law_self_closing(tag: Seq<char>, a: AttrList, x: Seq<char>)
    requires
        element_name(tag),
        proper_attrs(a),
        quotable(a),
    ensures
        nodes(render_head(tag, a) + seq!['/', '>'] + x) == after_trees(
            seq![leaf(Content::Element { tag, attrs: a })],
            nodes(x),
        ),
{
    let end = seq!['/', '>'] + x;
    let s = render_head(tag, a) + seq!['/', '>'] + x;
    assert(s =~= render_head(tag, a) + end);
    assert(end.subrange(0, 2) =~= seq!['/', '>']);
    assert(end.skip(2) =~= x);
    lemma_read_opening(tag, a, end);
    lemma_tag_start(tag, a, end);
    assert(element(s) == (Reading {
        trees: seq![leaf(Content::Element { tag, attrs: a })],
        end: Ok(None),
        rest: x,
    }));
}

/// A void element has no content, with or without a `/` in its tag.
pub proof fn law_void_element(tag: Seq<char>, a: AttrList, x: Seq<char>)
    requires
        element_name(tag),
        void_tag(tag),
        proper_attrs(a),
        quotable(a),
    ensures
        nodes(render_head(tag, a) + seq!['>'] + x) == after_trees(
            seq![leaf(Content::Element { tag, attrs: a })],
            nodes(x),
        ),
{
    let end = seq!['>'] + x;
    let s = render_head(tag, a) + seq!['>'] + x;
    assert(s =~= render_head(tag, a) + end);
    assert(end.skip(1) =~= x);
    if seq!['/', '>'].is_prefix_of(end) {
        assert(end.subrange(0, 2)[0] == end[0]);
    }
    lemma_read_opening(tag, a, end);
    lemma_tag_start(tag, a, end);
    assert(element(s) == (Reading {
        trees: seq![leaf(Content::Element { tag, attrs: a })],
        end: Ok(None),
        rest: x,
    }));
}

/// An element that is closed under another name is a fault that holds both names.
pub proof fn law_mismatched_tag(
    tag: Seq<char>,
    a: AttrList,
    ts: Seq<Tree>,
    closed: Seq<char>,
    x: Seq<char>,
)
    requires
        element_name(tag),
        !void_tag(tag),
        proper_attrs(a),
        quotable(a),
        proper_all(ts),
        forall|i: int| 0 <= i < ts.len() ==> expressible(#[trigger] ts[i]),
        closed.len() > 0,
        forall|i: int| 0 <= i < closed.len() ==> name_char(#[trigger] closed[i]),
        closed != tag,
    ensures
        nodes(render_head(tag, a) + seq!['>'] + render_all(ts) + render_close(closed) + x).end
            == Err::<Option<Seq<char>>, Fault>(Fault::MismatchedTag { opened: tag, closed }),
{
    let close = render_close(closed) + x;
    let inner = render_all(ts) + close;
    let s = render_head(tag, a) + seq!['>'] + render_all(ts) + render_close(closed) + x;
    lemma_content(tag, a, inner);
    assert(s =~= render_head(tag, a) + seq!['>'] + inner);
    lemma_read_all(ts, close);
    lemma_read_closing(closed, x);
}

/// A closing tag that nothing opened is no fault: it ends the nodes, and what follows it is left
/// unread.
pub proof fn law_stray_closing_tag(ts: Seq<Tree>, name: Seq<char>, x: Seq<char>)
    requires
        proper_all(ts),
        forall|i: int| 0 <= i < ts.len() ==> expressible(#[trigger] ts[i]),
        name.len() > 0,
        forall|i: int| 0 <= i < name.len() ==> name_char(#[trigger] name[i]),
    ensures
        nodes(render_all(ts) + render_close(name) + x) == (Reading {
            trees: ts,
            end: Ok(Some(name)),
            rest: x,
        }),
{
    let close = render_close(name) + x;
    assert(render_all(ts) + render_close(name) + x =~= render_all(ts) + close);
    lemma_read_all(ts, close);
    lemma_read_closing(name, x);
    assert(ts + Seq::<Tree>::empty() =~= ts);
}

/// An element that the end of the text closes is complete.
pub proof fn law_unclosed_element(tag: Seq<char>, a: AttrList, ts: Seq<Tree>)
    requires
        element_name(tag),
        !void_tag(tag),
        proper_attrs(a),
        quotable(a),
        proper_all(ts),
        expressible_all(ts),
    ensures
        nodes(render_head(tag, a) + seq!['>'] + render_all(ts)) == (Reading {
            trees: seq![Tree { data: Content::Element { tag, attrs: a }, children: ts }],
            end: Ok(None),
            rest: Seq::empty(),
        }),
{
    let nothing = Seq::<char>::empty();
    lemma_content(tag, a, render_all(ts));
    lemma_read_back(ts);
    assert(nodes(nothing) == (Reading { trees: Seq::empty(), end: Ok(None), rest: nothing }));
    let t = Tree { data: Content::Element { tag, attrs: a }, children: ts };
    assert(seq![t] + Seq::<Tree>::empty() =~= seq![t]);
}

/// An element with content that was opened by a tag that was written.
proof fn lemma_content(tag: Seq<char>, a: AttrList, inner: Seq<char>)
    requires
        element_name(tag),
        !void_tag(tag),
        proper_attrs(a),
        quotable(a),
    ensures
        ({
            let s = render_head(tag, a) + seq!['>'] + inner;
            let data = Content::Element { tag, attrs: a };
            let content = nodes(inner);
            let first = Reading {
                trees: seq![Tree { data, children: content.trees }],
                end: match content.end {
                    Err(fault) => Err(fault),
                    Ok(Some(name)) => if name.len() > 0 && name != tag {
                        Err(Fault::MismatchedTag { opened: tag, closed: name })
                    } else {
                        Ok(None)
                    },
                    Ok(None) => Ok(None),
                },
                rest: content.rest,
            };
            nodes(s) == (if first.end is Err {
                first
            } else {
                after_trees(first.trees, nodes(first.rest))
            })
        }),
{
    let end = seq!['>'] + inner;
    let s = render_head(tag, a) + seq!['>'] + inner;
    assert(s =~= render_head(tag, a) + end);
    assert(end.skip(1) =~= inner);
    if seq!['/', '>'].is_prefix_of(end) {
        assert(end.subrange(0, 2)[0] == end[0]);
    }
    lemma_read_opening(tag, a, end);
    lemma_tag_start(tag, a, end);
    lemma_element(s);
}

// ---------------------------------------------------------------------------
// Attributes
// ---------------------------------------------------------------------------
/// A boolean attribute is not an attribute with an empty value: the two are read as different and
/// written as different.
pub proof fn law_boolean_attribute(tag: Seq<char>, name: Seq<char>, x: Seq<char>)
    requires
        element_name(tag),
        attr_name(name),
    ensures
        nodes(seq!['<'] + tag + seq![' '] + name + seq!['/', '>'] + x) == after_trees(
            seq![leaf(Content::Element { tag, attrs: seq![(name, None)] })],
            nodes(x),
        ),
        nodes(seq!['<'] + tag + seq![' '] + name + seq!['=', '"', '"', '/', '>'] + x)
            == after_trees(
            seq![leaf(Content::Element { tag, attrs: seq![(name, Some(Seq::empty()))] })],
            nodes(x),
        ),
        lookup(seq![(name, None)], name) == Some(None::<Seq<char>>),
        lookup(seq![(name, Some(Seq::<char>::empty()))], name) == Some(Some(Seq::<char>::empty())),
        render_attr(name, None) != render_attr(name, Some(Seq::empty())),
{
    let a: AttrList = seq![(name, None)];
    let b: AttrList = seq![(name, Some(Seq::<char>::empty()))];
    assert(a.drop_last() =~= Seq::empty());
    assert(b.drop_last() =~= Seq::empty());
    assert(render_attrs(a.drop_last()) =~= Seq::<char>::empty());
    assert(render_attrs(a) =~= seq![' '] + name);
    assert(render_attrs(b) =~= seq![' '] + name + seq!['=', '"', '"']);
    law_self_closing(tag, a, x);
    law_self_closing(tag, b, x);
    assert(seq!['<'] + tag + seq![' '] + name + seq!['/', '>'] + x =~= render_head(tag, a) + seq![
        '/',
        '>',
    ] + x);
    assert(seq!['<'] + tag + seq![' '] + name + seq!['=', '"', '"', '/', '>'] + x =~= render_head(
        tag,
        b,
    ) + seq!['/', '>'] + x);
    lemma_position(a, 0);
    lemma_position(b, 0);
    assert(render_attr(name, None).len() != render_attr(name, Some(Seq::empty())).len());
}

} // verus!
