//! Reading back what was written: markup that proper trees are written as means these trees.
use vstd::prelude::*;

use crate::attrs::{has_name, inserted, AttrList};
use crate::canonical::{
    attr_name, closed_comment, comment, element_name, expressible, expressible_all, left_open,
    plain, plain_text, proper, proper_all, proper_attrs, quotable,
};
use crate::grammar::{
    after_trees, attr_name_char, attr_name_class, attr_value, attributes, comment_body_len, element,
    name_char, name_class, nodes, opening, skip_char, skip_space, Fault, Opening, Reading,
};
use crate::text::{
    all_but, drop_while, lemma_span, lemma_span_of_concat, span, take_while, whitespace_class,
};
use crate::tree::{
    leaf, lemma_render_all_concat, lemma_render_all_one, render, render_all, render_attr,
    render_attrs, render_close, render_head, void_tag, Content, Tree,
};

verus! {

// ---------------------------------------------------------------------------
// Attributes
// ---------------------------------------------------------------------------
/// What can follow attributes: `>` or `/`.
pub open spec fn ends_tag(s: Seq<char>) -> bool {
    s.len() > 0 && (s[0] == '>' || s[0] == '/')
}

/// White space before attributes has no meaning.
pub proof fn lemma_attributes_space(s: Seq<char>, before: AttrList)
    ensures
        attributes(skip_space(s), before) == attributes(s, before),
{
    lemma_span(s, whitespace_class());
    let t = skip_space(s);
    assert(skip_space(t) =~= t) by {
        lemma_no_span(t, whitespace_class());
    }
}

/// A text that does not begin with a character of a class has an empty span.
pub proof fn lemma_no_span(s: Seq<char>, class: spec_fn(char) -> bool)
    requires
        s.len() > 0 ==> !class(s[0]),
    ensures
        span(s, class) == 0,
        drop_while(s, class) == s,
        take_while(s, class) == Seq::<char>::empty(),
{
    assert(s.skip(0) =~= s);
    assert(s.take(0) =~= Seq::<char>::empty());
}

/// Attributes as they are written, from the first on.
proof fn lemma_render_attrs_first(a: AttrList)
    requires
        a.len() > 0,
    ensures
        render_attrs(a) == render_attr(a[0].0, a[0].1) + render_attrs(a.skip(1)),
    decreases a.len(),
{
    let rest = a.skip(1);
    if a.len() == 1 {
        assert(a.drop_last() =~= rest);
        assert(render_attrs(rest) =~= Seq::<char>::empty());
        assert(render_attrs(a) =~= render_attr(a[0].0, a[0].1) + render_attrs(rest));
    } else {
        lemma_render_attrs_first(a.drop_last());
        assert(a.drop_last().skip(1) =~= rest.drop_last());
        assert(a.drop_last()[0] == a[0]);
        assert(rest.last() == a.last());
        assert(render_attrs(a) =~= render_attr(a[0].0, a[0].1) + render_attrs(rest));
    }
}

/// Attributes that are written before the end of a tag begin with a space or the end.
proof fn lemma_render_attrs_start(a: AttrList, end: Seq<char>)
    requires
        ends_tag(end),
    ensures
        (render_attrs(a) + end).len() > 0,
        (render_attrs(a) + end)[0] == ' ' || (a.len() == 0 && (render_attrs(a) + end) == end),
{
    if a.len() > 0 {
        lemma_render_attrs_first(a);
    } else {
        assert(render_attrs(a) + end =~= end);
    }
}

/// Reading an attribute that was written.
proof fn lemma_read_attr(
    name: Seq<char>,
    value: Option<Seq<char>>,
    before: AttrList,
    r: Seq<char>,
)
    requires
        attr_name(name),
        value matches Some(v) ==> !v.contains('"'),
        r.len() > 0,
        r[0] == ' ' || r[0] == '>' || r[0] == '/',
        skip_space(r).len() > 0,
        skip_space(r)[0] != '=',
    ensures
        attributes(render_attr(name, value) + r, before) == attributes(
            r,
            inserted(before, name, value),
        ),
{
    let s = render_attr(name, value) + r;
    let tail = match value {
        Some(v) => seq!['=', '"'] + v + seq!['"'] + r,
        None => r,
    };
    let t = name + tail;
    assert(s =~= seq![' '] + t);
    assert(attr_name_char(name[0]));
    assert(t[0] == name[0]);
    lemma_span_of_concat(seq![' '], t, whitespace_class());
    assert(skip_space(s) == t);
    assert forall|i: int| 0 <= i < name.len() implies attr_name_class()(#[trigger] name[i]) by {}
    assert(tail.len() > 0 && !attr_name_char(tail[0]));
    lemma_span_of_concat(name, tail, attr_name_class());
    match value {
        Some(v) => {
            lemma_no_span(tail, whitespace_class());
            let q = seq!['"'] + v + seq!['"'] + r;
            assert(tail.skip(1) =~= q);
            lemma_no_span(q, whitespace_class());
            lemma_read_value(v, r);
        },
        None => {
            lemma_attributes_space(r, inserted(before, name, value));
        },
    }
}

/// Reading a value that was written.
proof fn lemma_read_value(v: Seq<char>, r: Seq<char>)
    requires
        !v.contains('"'),
    ensures
        attr_value(seq!['"'] + v + seq!['"'] + r) == (v, r),
{
    let q = seq!['"'] + v + seq!['"'] + r;
    let close = seq!['"'] + r;
    assert(q.skip(1) =~= v + close);
    assert forall|i: int| 0 <= i < v.len() implies all_but('"')(#[trigger] v[i]) by {
        assert(v.contains(v[i]));
    }
    lemma_span_of_concat(v, close, all_but('"'));
    assert(close.skip(1) =~= r);
}

/// Reading attributes that were written, after those that were read before.
proof fn lemma_read_attrs(a: AttrList, before: AttrList, end: Seq<char>)
    requires
        proper_attrs(before + a),
        quotable(a),
        ends_tag(end),
    ensures
        attributes(render_attrs(a) + end, before) == (Some(before + a), end),
    decreases a.len(),
{
    let s = render_attrs(a) + end;
    if a.len() == 0 {
        assert(s =~= end);
        assert(before + a =~= before);
        lemma_no_span(end, whitespace_class());
    } else {
        let name = a[0].0;
        let value = a[0].1;
        let rest = a.skip(1);
        let r = render_attrs(rest) + end;
        let next = inserted(before, name, value);
        assert((before + a)[before.len() as int] == a[0]);
        assert forall|i: int| 0 <= i < rest.len() implies attr_name((#[trigger] rest[i]).0) by {
            assert(rest[i] == (before + a)[before.len() + 1 + i]);
        }
        assert(quotable(rest)) by {
            assert forall|i: int| 0 <= i < rest.len() implies (
            (#[trigger] rest[i]).1 matches Some(v) ==> !v.contains('"')) by {
                assert(rest[i] == a[i + 1]);
            }
        }
        assert(!has_name(before, name)) by {
            if has_name(before, name) {
                let i = choose|i: int| 0 <= i < before.len() && #[trigger] before[i].0 == name;
                assert((before + a)[i].0 == name);
                assert((before + a)[before.len() as int].0 == name);
            }
        }
        assert(next =~= before.push(a[0]));
        assert(next + rest =~= before + a);
        lemma_render_attrs_first(a);
        lemma_render_attrs_start(rest, end);
        lemma_after_space(rest, end);
        assert(s =~= render_attr(name, value) + r);
        lemma_read_attr(name, value, before, r);
        lemma_read_attrs(rest, next, end);
    }
}

/// Behind the space before attributes there is no `=`.
proof fn lemma_after_space(a: AttrList, end: Seq<char>)
    requires
        forall|i: int| 0 <= i < a.len() ==> attr_name((#[trigger] a[i]).0),
        ends_tag(end),
    ensures
        skip_space(render_attrs(a) + end).len() > 0,
        skip_space(render_attrs(a) + end)[0] != '=',
{
    let s = render_attrs(a) + end;
    if a.len() == 0 {
        assert(s =~= end);
        lemma_no_span(end, whitespace_class());
    } else {
        let name = a[0].0;
        lemma_render_attrs_first(a);
        assert(attr_name_char(name[0]));
        let t = s.skip(1);
        assert(s =~= seq![' '] + t);
        assert(t[0] == name[0]);
        lemma_span_of_concat(seq![' '], t, whitespace_class());
    }
}

// ---------------------------------------------------------------------------
// Tags
// ---------------------------------------------------------------------------
/// Reading an opening tag that was written.
pub proof fn lemma_read_opening(tag: Seq<char>, a: AttrList, end: Seq<char>)
    requires
        element_name(tag),
        proper_attrs(a),
        quotable(a),
        ends_tag(end),
    ensures
        opening(render_head(tag, a) + end) == (if seq!['/', '>'].is_prefix_of(end) {
            (Ok::<Opening, Fault>(Opening { tag, attrs: a, has_content: false }), end.skip(2))
        } else {
            (
                Ok::<Opening, Fault>(Opening { tag, attrs: a, has_content: !void_tag(tag) }),
                skip_char(end, '>'),
            )
        }),
{
    let s = render_head(tag, a) + end;
    let r = render_attrs(a) + end;
    lemma_render_attrs_start(a, end);
    assert(s.skip(1) =~= tag + r);
    assert forall|i: int| 0 <= i < tag.len() implies name_class()(#[trigger] tag[i]) by {}
    lemma_span_of_concat(tag, r, name_class());
    assert(Seq::<(Seq<char>, Option<Seq<char>>)>::empty() + a =~= a);
    lemma_read_attrs(a, Seq::empty(), end);
}

/// Reading a closing tag that was written.
pub proof fn lemma_read_closing(tag: Seq<char>, x: Seq<char>)
    requires
        tag.len() > 0,
        forall|i: int| 0 <= i < tag.len() ==> name_char(#[trigger] tag[i]),
    ensures
        nodes(render_close(tag) + x) == (Reading {
            trees: Seq::empty(),
            end: Ok(Some(tag)),
            rest: x,
        }),
{
    let s = render_close(tag) + x;
    let r = seq!['>'] + x;
    assert(seq!['<', '/'].is_prefix_of(s)) by {
        assert(s.subrange(0, 2) =~= seq!['<', '/']);
    }
    assert(s.skip(2) =~= tag + r);
    assert(name_char(tag[0]));
    lemma_no_span(tag + r, whitespace_class());
    assert forall|i: int| 0 <= i < tag.len() implies name_class()(#[trigger] tag[i]) by {}
    lemma_span_of_concat(tag, r, name_class());
    lemma_no_span(r, whitespace_class());
    assert(r.skip(1) =~= x);
}

// ---------------------------------------------------------------------------
// Text
// ---------------------------------------------------------------------------
/// Reading a plain text before a tag or the end.
pub proof fn lemma_read_text(text: Seq<char>, x: Seq<char>)
    requires
        plain_text(text),
        x.len() > 0 ==> x[0] == '<',
    ensures
        nodes(text + x) == after_trees(seq![leaf(Content::Text(text))], nodes(x)),
{
    let s = text + x;
    assert(text.contains(text[0]));
    assert(s[0] == text[0]);
    assert forall|i: int| 0 <= i < text.len() implies all_but('<')(#[trigger] text[i]) by {
        assert(text.contains(text[i]));
    }
    lemma_span_of_concat(text, x, all_but('<'));
    assert(!seq!['<', '/'].is_prefix_of(s)) by {
        if seq!['<', '/'].is_prefix_of(s) {
            assert(s.subrange(0, 2)[0] == s[0]);
        }
    }
    assert(!seq!['<', '!', '-', '-'].is_prefix_of(s)) by {
        if seq!['<', '!', '-', '-'].is_prefix_of(s) {
            assert(s.subrange(0, 4)[0] == s[0]);
        }
    }
}

/// A closed comment ends in the same place, whatever follows.
proof fn lemma_comment_body_before(b: Seq<char>, x: Seq<char>)
    requires
        comment_body_len(b) == b.len(),
        seq!['-', '-', '>'].is_suffix_of(b),
    ensures
        comment_body_len(b + x) == b.len(),
    decreases b.len(),
{
    let s = b + x;
    if seq!['-', '-', '>'].is_prefix_of(b) {
        assert(s.subrange(0, 3) =~= b.subrange(0, 3));
    } else {
        assert(b.len() > 3) by {
            if b.len() == 3 {
                assert(b.subrange(0, 3) =~= b);
            }
        }
        assert(!seq!['-', '-', '>'].is_prefix_of(s)) by {
            assert(s.subrange(0, 3) =~= b.subrange(0, 3));
        }
        assert(s.skip(1) =~= b.skip(1) + x);
        assert(b.skip(1).subrange(b.len() - 4, b.len() - 1) =~= b.subrange(
            b.len() - 3,
            b.len() as int,
        ));
        lemma_comment_body_before(b.skip(1), x);
    }
}

/// Reading a comment: a closed one before anything, an open one before the end.
pub proof fn lemma_read_comment(text: Seq<char>, x: Seq<char>)
    requires
        comment(text),
        closed_comment(text) || x.len() == 0,
    ensures
        nodes(text + x) == after_trees(seq![leaf(Content::Text(text))], nodes(x)),
{
    let s = text + x;
    assert(text.len() >= 4);
    assert(s.subrange(0, 4) =~= text.subrange(0, 4));
    assert(seq!['<', '!', '-', '-'].is_prefix_of(s));
    assert(!seq!['<', '/'].is_prefix_of(s)) by {
        if seq!['<', '/'].is_prefix_of(s) {
            assert(s.subrange(0, 2)[1] == s[1]);
            assert(s.subrange(0, 4)[1] == s[1]);
        }
    }
    assert(s.skip(4) =~= text.skip(4) + x);
    if closed_comment(text) {
        lemma_comment_body_before(text.skip(4), x);
    } else {
        assert(s =~= text);
    }
    assert(s.take(text.len() as int) =~= text);
    assert(s.skip(text.len() as int) =~= x);
}

// ---------------------------------------------------------------------------
// Trees
// ---------------------------------------------------------------------------
/// What trees that do not begin with a plain text are written as begins with `<`.
proof fn lemma_render_start(ts: Seq<Tree>, x: Seq<char>)
    requires
        proper_all(ts),
        ts.len() > 0 ==> !plain(ts[0]),
        ts.len() == 0 ==> (x.len() > 0 ==> x[0] == '<'),
    ensures
        (render_all(ts) + x).len() > 0 ==> (render_all(ts) + x)[0] == '<',
{
    if ts.len() > 0 {
        lemma_render_first(ts);
        assert(proper(ts[0]));
        match ts[0].data {
            Content::Text(s) => {
                assert(s.subrange(0, 4)[0] == s[0]);
            },
            _ => {},
        }
    } else {
        assert(render_all(ts) + x =~= x);
    }
}

/// Trees as they are written, from the first on.
proof fn lemma_render_first(ts: Seq<Tree>)
    requires
        ts.len() > 0,
    ensures
        render_all(ts) == render(ts[0]) + render_all(ts.skip(1)),
{
    lemma_render_all_concat(seq![ts[0]], ts.skip(1));
    lemma_render_all_one(ts[0]);
    assert(seq![ts[0]] + ts.skip(1) =~= ts);
}

/// Without the first of them, proper trees are proper.
proof fn lemma_proper_rest(ts: Seq<Tree>)
    requires
        proper_all(ts),
        ts.len() > 0,
    ensures
        proper_all(ts.skip(1)),
        plain(ts[0]) && ts.len() > 1 ==> !plain(ts.skip(1)[0]),
{
    let rest = ts.skip(1);
    assert forall|i: int| 0 <= i < rest.len() implies proper(#[trigger] rest[i]) by {
        assert(rest[i] == ts[i + 1]);
    }
    assert forall|i: int, j: int|
        0 <= i < rest.len() && j == i + 1 && j < rest.len() implies !(plain(#[trigger] rest[i])
        && plain(#[trigger] rest[j])) by {
        assert(rest[i] == ts[i + 1]);
        assert(rest[j] == ts[j + 1]);
    }
    assert forall|i: int| 0 <= i < rest.len() - 1 implies !left_open(#[trigger] rest[i]) by {
        assert(rest[i] == ts[i + 1]);
    }
    if ts.len() > 1 {
        assert(rest[0] == ts[1]);
        assert(!(plain(ts[0]) && plain(ts[1])));
    }
}

/// Reading a tree that was written, before something that does not continue it.
pub proof fn lemma_read_tree(t: Tree, x: Seq<char>)
    requires
        proper(t),
        expressible(t),
        plain(t) && x.len() > 0 ==> x[0] == '<',
    ensures
        nodes(render(t) + x) == after_trees(seq![t], nodes(x)),
    decreases t, 1nat,
{
    match t.data {
        Content::Document => {},
        Content::Text(s) => {
            assert(t.children =~= Seq::<Tree>::empty());
            assert(t == leaf(Content::Text(s)));
            if plain_text(s) {
                lemma_read_text(s, x);
            } else {
                lemma_read_comment(s, x);
            }
        },
        Content::Element { tag, attrs } => {
            lemma_read_element(t, tag, attrs, x);
        },
    }
}

proof fn lemma_read_element(t: Tree, tag: Seq<char>, attrs: AttrList, x: Seq<char>)
    requires
        proper(t),
        expressible(t),
        t.data == (Content::Element { tag, attrs }),
    ensures
        nodes(render(t) + x) == after_trees(seq![t], nodes(x)),
    decreases t, 0nat,
{
    if t.children.len() == 0 && void_tag(tag) {
        lemma_read_void(t, tag, attrs, x);
    } else {
        let close = render_close(tag) + x;
        lemma_read_all(t.children, close);
        lemma_read_closing(tag, x);
        lemma_read_content(t, tag, attrs, x);
    }
}

/// A tag is neither a closing tag nor a comment.
pub proof fn lemma_tag_start(tag: Seq<char>, a: AttrList, x: Seq<char>)
    requires
        element_name(tag),
    ensures
        (render_head(tag, a) + x).len() > 0,
        (render_head(tag, a) + x)[0] == '<',
        !seq!['<', '/'].is_prefix_of(render_head(tag, a) + x),
        !seq!['<', '!', '-', '-'].is_prefix_of(render_head(tag, a) + x),
{
    let s = render_head(tag, a) + x;
    assert(name_char(tag[0]));
    assert(s[0] == '<' && s[1] == tag[0]);
    if seq!['<', '/'].is_prefix_of(s) {
        assert(s.subrange(0, 2)[1] == s[1]);
    }
    if seq!['<', '!', '-', '-'].is_prefix_of(s) {
        assert(s.subrange(0, 4)[1] == s[1]);
    }
}

proof fn lemma_read_void(t: Tree, tag: Seq<char>, attrs: AttrList, x: Seq<char>)
    requires
        proper(t),
        expressible(t),
        t.data == (Content::Element { tag, attrs }),
        t.children.len() == 0,
        void_tag(tag),
    ensures
        nodes(render(t) + x) == after_trees(seq![t], nodes(x)),
{
    let s = render(t) + x;
    let end = seq!['/', '>'] + x;
    assert(s =~= render_head(tag, attrs) + end);
    lemma_tag_start(tag, attrs, end);
    assert(end.subrange(0, 2) =~= seq!['/', '>']);
    assert(end.skip(2) =~= x);
    lemma_read_opening(tag, attrs, end);
    assert(t.children =~= Seq::<Tree>::empty());
    assert(element(s) == (Reading { trees: seq![t], end: Ok(None), rest: x }));
}

proof fn lemma_read_content(t: Tree, tag: Seq<char>, attrs: AttrList, x: Seq<char>)
    requires
        proper(t),
        expressible(t),
        t.data == (Content::Element { tag, attrs }),
        !(t.children.len() == 0 && void_tag(tag)),
        nodes(render_all(t.children) + (render_close(tag) + x)) == after_trees(
            t.children,
            nodes(render_close(tag) + x),
        ),
        nodes(render_close(tag) + x) == (Reading {
            trees: Seq::empty(),
            end: Ok(Some(tag)),
            rest: x,
        }),
    ensures
        nodes(render(t) + x) == after_trees(seq![t], nodes(x)),
{
    let s = render(t) + x;
    let inner = render_all(t.children);
    let close = render_close(tag) + x;
    let end = seq!['>'] + inner + close;
    assert(s =~= render_head(tag, attrs) + end);
    lemma_tag_start(tag, attrs, end);
    assert(!seq!['/', '>'].is_prefix_of(end)) by {
        if seq!['/', '>'].is_prefix_of(end) {
            assert(end.subrange(0, 2)[0] == end[0]);
        }
    }
    assert(end.skip(1) =~= inner + close);
    lemma_read_opening(tag, attrs, end);
    assert(nodes(inner + close).trees =~= t.children);
    assert(element(s) == (Reading { trees: seq![t], end: Ok(None), rest: x }));
}

/// Reading trees that were written, before something that does not continue the last of them.
pub proof fn lemma_read_all(ts: Seq<Tree>, x: Seq<char>)
    requires
        proper_all(ts),
        forall|i: int| 0 <= i < ts.len() ==> expressible(#[trigger] ts[i]),
        x.len() > 0 ==> x[0] == '<',
    ensures
        nodes(render_all(ts) + x) == after_trees(ts, nodes(x)),
    decreases ts, 2nat,
{
    if ts.len() == 0 {
        assert(render_all(ts) + x =~= x);
        assert(after_trees(ts, nodes(x)).trees =~= nodes(x).trees);
    } else {
        let rest = ts.skip(1);
        let y = render_all(rest) + x;
        lemma_render_first(ts);
        lemma_proper_rest(ts);
        assert(render_all(ts) + x =~= render(ts[0]) + y);
        assert forall|i: int| 0 <= i < rest.len() implies expressible(#[trigger] rest[i]) by {
            assert(rest[i] == ts[i + 1]);
        }
        lemma_read_all(rest, x);
        if plain(ts[0]) {
            lemma_render_start(rest, x);
        }
        assert(proper(ts[0]));
        lemma_read_tree(ts[0], y);
        assert(seq![ts[0]] + (rest + nodes(x).trees) =~= ts + nodes(x).trees);
    }
}

/// Reading trees that were written, before the end.
pub proof fn lemma_read_back(ts: Seq<Tree>)
    requires
        proper_all(ts),
        expressible_all(ts),
    ensures
        nodes(render_all(ts)) == (Reading { trees: ts, end: Ok(None), rest: Seq::empty() }),
{
    let nothing = Seq::<char>::empty();
    assert(nodes(nothing) == (Reading { trees: Seq::empty(), end: Ok(None), rest: nothing }));
    if ts.len() > 0 && !expressible(ts.last()) {
        let front = ts.drop_last();
        let last = ts.last();
        assert(proper(ts[ts.len() - 1]));
        lemma_proper_front(ts);
        assert forall|i: int| 0 <= i < front.len() implies expressible(#[trigger] front[i]) by {
            assert(front[i] == ts[i]);
        }
        let text = last.data->Text_0;
        assert(last.children =~= Seq::<Tree>::empty());
        assert(last == leaf(Content::Text(text)));
        assert(text.subrange(0, 4)[0] == text[0]);
        lemma_read_all(front, text);
        lemma_read_comment(text, nothing);
        assert(text + nothing =~= text);
        assert(render(last) == text);
        assert(nodes(text).trees =~= seq![last]);
        assert(front + seq![last] =~= ts);
    } else {
        assert forall|i: int| 0 <= i < ts.len() implies expressible(#[trigger] ts[i]) by {}
        lemma_read_all(ts, nothing);
        assert(render_all(ts) + nothing =~= render_all(ts));
        assert(ts + Seq::<Tree>::empty() =~= ts);
    }
}

/// Without the last of them, proper trees are proper.
proof fn lemma_proper_front(ts: Seq<Tree>)
    requires
        proper_all(ts),
        ts.len() > 0,
    ensures
        proper_all(ts.drop_last()),
{
    let front = ts.drop_last();
    assert forall|i: int| 0 <= i < front.len() implies proper(#[trigger] front[i]) by {
        assert(front[i] == ts[i]);
    }
    assert forall|i: int, j: int|
        0 <= i < front.len() && j == i + 1 && j < front.len() implies !(plain(#[trigger] front[i])
        && plain(#[trigger] front[j])) by {
        assert(front[i] == ts[i]);
        assert(front[j] == ts[j]);
    }
    assert forall|i: int| 0 <= i < front.len() - 1 implies !left_open(#[trigger] front[i]) by {
        assert(front[i] == ts[i]);
    }
}

} // verus!
