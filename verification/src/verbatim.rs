//! Parsing takes values and texts letter for letter, and writing gives them so.
use vstd::prelude::*;

use crate::attrs::{has_name, inserted, position, AttrList};
use crate::grammar::{
    attr_name_class, attr_value, attributes, closing, comment_len, element, lemma_attr_value,
    lemma_comment, lemma_element, lemma_opening, name_class, nodes, opening, skip_char, skip_space,
    unquoted_class,
};
use crate::text::{
    all_but, drop_while, lemma_span, lowered, occurs_in, span, take_while, whitespace_class,
};
use crate::tree::{
    leaf, render, render_all, render_attr, render_attrs, render_close, render_head, void_tag,
    Content, Tree,
};

verus! {

/// Whether every value stands in a text.
pub open spec fn values_from(a: AttrList, whole: Seq<char>) -> bool {
    forall|i: int|
        0 <= i < a.len() ==> ((#[trigger] a[i]).1 matches Some(v) ==> occurs_in(v, whole))
}

/// Whether every value and every text of a tree stands in a text, letter for letter.
pub open spec fn taken_from(t: Tree, whole: Seq<char>) -> bool
    decreases t,
{
    match t.data {
        Content::Document => forall|i: int|
            0 <= i < t.children.len() ==> taken_from(#[trigger] t.children[i], whole),
        Content::Text(s) => occurs_in(s, whole),
        Content::Element { tag, attrs } => {
            &&& values_from(attrs, whole)
            &&& forall|i: int|
                0 <= i < t.children.len() ==> taken_from(#[trigger] t.children[i], whole)
        },
    }
}

/// Whether every value and every text of some trees stands in a text, letter for letter.
pub open spec fn all_taken_from(ts: Seq<Tree>, whole: Seq<char>) -> bool {
    forall|i: int| 0 <= i < ts.len() ==> taken_from(#[trigger] ts[i], whole)
}

/// An end of an end is an end.
proof fn lemma_skip(s: Seq<char>, k: int, whole: Seq<char>)
    requires
        s.is_suffix_of(whole),
        0 <= k <= s.len(),
    ensures
        s.skip(k).is_suffix_of(whole),
        forall|n: int| 0 <= n <= s.len() - k ==> occurs_in(#[trigger] s.skip(k).take(n), whole),
{
    let r = s.skip(k);
    let at = whole.len() - r.len();
    assert(r =~= whole.subrange(at, whole.len() as int));
    assert(whole.skip(at) =~= r);
    assert forall|n: int| 0 <= n <= s.len() - k implies occurs_in(#[trigger] r.take(n), whole) by {
        assert(r.subrange(0, n) =~= r.take(n));
        assert(r.take(n).is_prefix_of(whole.skip(at)));
    }
}

proof fn lemma_drop(s: Seq<char>, class: spec_fn(char) -> bool, whole: Seq<char>)
    requires
        s.is_suffix_of(whole),
    ensures
        drop_while(s, class).is_suffix_of(whole),
        occurs_in(take_while(s, class), whole),
{
    lemma_span(s, class);
    lemma_skip(s, span(s, class) as int, whole);
    lemma_skip(s, 0, whole);
    assert(s.skip(0) =~= s);
}

proof fn lemma_skip_char(s: Seq<char>, c: char, whole: Seq<char>)
    requires
        s.is_suffix_of(whole),
    ensures
        skip_char(s, c).is_suffix_of(whole),
{
    if s.len() > 0 {
        lemma_skip(s, 1, whole);
    }
}

proof fn lemma_value_from(s: Seq<char>, whole: Seq<char>)
    requires
        s.is_suffix_of(whole),
    ensures
        attr_value(s).1.is_suffix_of(whole),
        occurs_in(attr_value(s).0, whole),
{
    if s.len() > 0 && (s[0] == '"' || s[0] == '\'') {
        lemma_skip(s, 1, whole);
        lemma_drop(s.skip(1), all_but(s[0]), whole);
        lemma_skip_char(drop_while(s.skip(1), all_but(s[0])), s[0], whole);
    } else {
        lemma_drop(s, unquoted_class(), whole);
    }
}

proof fn lemma_attributes_from(s: Seq<char>, before: AttrList, whole: Seq<char>)
    requires
        s.is_suffix_of(whole),
        values_from(before, whole),
    ensures
        attributes(s, before).1.is_suffix_of(whole),
        attributes(s, before).0 matches Some(a) ==> values_from(a, whole),
    decreases s.len(),
{
    let t = skip_space(s);
    let name = take_while(t, attr_name_class());
    let after = skip_space(drop_while(t, attr_name_class()));
    lemma_span(s, whitespace_class());
    lemma_span(t, attr_name_class());
    lemma_span(drop_while(t, attr_name_class()), whitespace_class());
    lemma_drop(s, whitespace_class(), whole);
    lemma_drop(t, attr_name_class(), whole);
    lemma_drop(drop_while(t, attr_name_class()), whitespace_class(), whole);
    if t.len() == 0 || t[0] == '>' || t[0] == '/' || name.len() == 0 {
    } else if after.len() > 0 && after[0] == '=' {
        lemma_skip(after, 1, whole);
        lemma_span(after.skip(1), whitespace_class());
        lemma_drop(after.skip(1), whitespace_class(), whole);
        lemma_attr_value(skip_space(after.skip(1)));
        lemma_value_from(skip_space(after.skip(1)), whole);
        let (value, rest) = attr_value(skip_space(after.skip(1)));
        lemma_inserted_from(before, lowered(name), Some(value), whole);
        lemma_attributes_from(rest, inserted(before, lowered(name), Some(value)), whole);
    } else {
        lemma_inserted_from(before, lowered(name), None, whole);
        lemma_attributes_from(after, inserted(before, lowered(name), None), whole);
    }
}

proof fn lemma_inserted_from(
    a: AttrList,
    name: Seq<char>,
    value: Option<Seq<char>>,
    whole: Seq<char>,
)
    requires
        values_from(a, whole),
        value matches Some(v) ==> occurs_in(v, whole),
    ensures
        values_from(inserted(a, name, value), whole),
{
    let b = inserted(a, name, value);
    assert forall|i: int| 0 <= i < b.len() implies ((#[trigger] b[i]).1 matches Some(v)
        ==> occurs_in(v, whole)) by {
        let p = if has_name(a, name) {
            position(a, name)
        } else {
            a.len() as int
        };
        if i != p {
            assert(b[i] == a[i]);
        }
    }
}

proof fn lemma_opening_from(s: Seq<char>, whole: Seq<char>)
    requires
        s.len() > 0,
        s.is_suffix_of(whole),
    ensures
        opening(s).1.is_suffix_of(whole),
        opening(s).0 matches Ok(o) ==> values_from(o.attrs, whole),
{
    let t = s.skip(1);
    lemma_skip(s, 1, whole);
    lemma_drop(t, name_class(), whole);
    lemma_attributes_from(drop_while(t, name_class()), Seq::empty(), whole);
    let rest = attributes(drop_while(t, name_class()), Seq::empty()).1;
    if seq!['/', '>'].is_prefix_of(rest) {
        lemma_skip(rest, 2, whole);
    }
    lemma_skip_char(rest, '>', whole);
}

proof fn lemma_closing_from(s: Seq<char>, whole: Seq<char>)
    requires
        s.is_suffix_of(whole),
    ensures
        closing(s).1.is_suffix_of(whole),
{
    let t = skip_space(s);
    lemma_drop(s, whitespace_class(), whole);
    lemma_drop(t, name_class(), whole);
    lemma_drop(drop_while(t, name_class()), whitespace_class(), whole);
    lemma_skip_char(skip_space(drop_while(t, name_class())), '>', whole);
}

proof fn lemma_element_from(s: Seq<char>, whole: Seq<char>)
    requires
        s.len() > 0,
        s.is_suffix_of(whole),
    ensures
        element(s).rest.is_suffix_of(whole),
        all_taken_from(element(s).trees, whole),
    decreases s.len(), 0nat,
{
    lemma_opening(s);
    lemma_opening_from(s, whole);
    if let Ok(o) = opening(s).0 {
        lemma_nodes_from(opening(s).1, whole);
        assert(element(s).trees =~= seq![element(s).trees[0]]);
        assert(taken_from(element(s).trees[0], whole));
    }
}

/// All that reading takes from a text stands in it.
pub proof fn lemma_nodes_from(s: Seq<char>, whole: Seq<char>)
    requires
        s.is_suffix_of(whole),
    ensures
        nodes(s).rest.is_suffix_of(whole),
        all_taken_from(nodes(s).trees, whole),
    decreases s.len(), 1nat,
{
    if s.len() == 0 {
    } else if seq!['<', '/'].is_prefix_of(s) {
        lemma_skip(s, 2, whole);
        lemma_closing_from(s.skip(2), whole);
    } else if seq!['<', '!', '-', '-'].is_prefix_of(s) {
        lemma_comment(s);
        lemma_text_from(s, comment_len(s) as int, whole);
    } else if s[0] == '<' {
        lemma_element(s);
        lemma_element_from(s, whole);
        if element(s).end is Ok {
            lemma_nodes_from(element(s).rest, whole);
            lemma_taken_concat(element(s).trees, nodes(element(s).rest).trees, whole);
        }
    } else {
        lemma_span(s, all_but('<'));
        lemma_text_from(s, span(s, all_but('<')) as int, whole);
    }
}

proof fn lemma_text_from(s: Seq<char>, n: int, whole: Seq<char>)
    requires
        s.is_suffix_of(whole),
        0 < n <= s.len(),
    ensures
        nodes(s.skip(n)).rest.is_suffix_of(whole),
        all_taken_from(
            seq![leaf(Content::Text(s.take(n)))] + nodes(s.skip(n)).trees,
            whole,
        ),
    decreases s.len(), 0nat,
{
    lemma_skip(s, 0, whole);
    assert(s.skip(0) =~= s);
    lemma_skip(s, n, whole);
    lemma_nodes_from(s.skip(n), whole);
    lemma_taken_concat(seq![leaf(Content::Text(s.take(n)))], nodes(s.skip(n)).trees, whole);
}

proof fn lemma_taken_concat(a: Seq<Tree>, b: Seq<Tree>, whole: Seq<char>)
    requires
        all_taken_from(a, whole),
        all_taken_from(b, whole),
    ensures
        all_taken_from(a + b, whole),
{
    assert forall|i: int| 0 <= i < (a + b).len() implies taken_from(
        #[trigger] (a + b)[i],
        whole,
    ) by {
        if i < a.len() {
            assert((a + b)[i] == a[i]);
        } else {
            assert((a + b)[i] == b[i - a.len()]);
        }
    }
}

// ---------------------------------------------------------------------------
// Writing
// ---------------------------------------------------------------------------
/// What stands between two texts stands in the whole.
proof fn lemma_occurs_between(a: Seq<char>, b: Seq<char>, c: Seq<char>, whole: Seq<char>)
    requires
        whole == a + b + c,
    ensures
        occurs_in(b, whole),
{
    let r = whole.skip(a.len() as int);
    assert(r.subrange(0, b.len() as int) =~= b);
    assert(b.is_prefix_of(r));
}

/// What stands in a part stands in the whole.
proof fn lemma_occurs_deeper(a: Seq<char>, b: Seq<char>, c: Seq<char>)
    requires
        occurs_in(a, b),
        occurs_in(b, c),
    ensures
        occurs_in(a, c),
{
    let i = choose|i: int| 0 <= i <= b.len() && a.is_prefix_of(#[trigger] b.skip(i));
    let j = choose|j: int| 0 <= j <= c.len() && b.is_prefix_of(#[trigger] c.skip(j));
    let r = c.skip(i + j);
    assert(b == c.skip(j).subrange(0, b.len() as int));
    assert(a == b.skip(i).subrange(0, a.len() as int));
    assert(r.subrange(0, a.len() as int) =~= a) by {
        assert forall|k: int| 0 <= k < a.len() implies r[k] == a[k] by {
            assert(a[k] == b.skip(i)[k]);
            assert(b[i + k] == c.skip(j)[i + k]);
        }
    }
    assert(a.is_prefix_of(r));
}

/// The values of attributes stand in what the attributes are written as.
proof fn lemma_attrs_written(a: AttrList, whole: Seq<char>)
    requires
        occurs_in(render_attrs(a), whole),
    ensures
        values_from(a, whole),
    decreases a.len(),
{
    if a.len() > 0 {
        let front = a.drop_last();
        let (name, value) = a.last();
        let nothing = Seq::<char>::empty();
        lemma_occurs_between(
            nothing,
            render_attrs(front),
            render_attr(name, value),
            render_attrs(a),
        );
        lemma_occurs_deeper(render_attrs(front), render_attrs(a), whole);
        lemma_attrs_written(front, whole);
        if let Some(v) = value {
            let up_to = render_attrs(front) + seq![' '] + name + seq!['=', '"'];
            assert(render_attrs(a) =~= up_to + v + seq!['"']);
            lemma_occurs_between(up_to, v, seq!['"'], render_attrs(a));
            lemma_occurs_deeper(v, render_attrs(a), whole);
        }
        assert forall|i: int| 0 <= i < a.len() implies ((#[trigger] a[i]).1 matches Some(v)
            ==> occurs_in(v, whole)) by {
            if i < front.len() {
                assert(a[i] == front[i]);
            }
        }
    }
}

/// The values and texts of a tree stand in what the tree is written as.
pub proof fn lemma_tree_written(t: Tree, whole: Seq<char>)
    requires
        occurs_in(render(t), whole),
    ensures
        taken_from(t, whole),
    decreases t, 0nat,
{
    match t.data {
        Content::Text(_) => {},
        Content::Document => {
            lemma_trees_written(t.children, whole);
        },
        Content::Element { tag, attrs } => {
            let inner = render_all(t.children);
            if t.children.len() == 0 && void_tag(tag) {
                lemma_occurs_between(
                    seq!['<'] + tag,
                    render_attrs(attrs),
                    seq!['/', '>'],
                    render(t),
                );
                assert(t.children =~= Seq::<Tree>::empty());
            } else {
                assert(render(t) =~= seq!['<'] + tag + render_attrs(attrs) + (seq!['>'] + inner
                    + render_close(tag)));
                lemma_occurs_between(
                    seq!['<'] + tag,
                    render_attrs(attrs),
                    seq!['>'] + inner + render_close(tag),
                    render(t),
                );
                lemma_occurs_between(
                    render_head(tag, attrs) + seq!['>'],
                    inner,
                    render_close(tag),
                    render(t),
                );
                lemma_occurs_deeper(inner, render(t), whole);
                lemma_trees_written(t.children, whole);
            }
            lemma_occurs_deeper(render_attrs(attrs), render(t), whole);
            lemma_attrs_written(attrs, whole);
        },
    }
}

/// The values and texts of trees stand in what the trees are written as.
pub proof fn lemma_trees_written(ts: Seq<Tree>, whole: Seq<char>)
    requires
        occurs_in(render_all(ts), whole),
    ensures
        all_taken_from(ts, whole),
    decreases ts, 1nat,
{
    if ts.len() > 0 {
        let nothing = Seq::<char>::empty();
        let front = ts.drop_last();
        lemma_occurs_between(nothing, render_all(front), render(ts.last()), render_all(ts));
        lemma_occurs_deeper(render_all(front), render_all(ts), whole);
        lemma_trees_written(front, whole);
        lemma_occurs_between(render_all(front), render(ts.last()), nothing, render_all(ts));
        lemma_occurs_deeper(render(ts.last()), render_all(ts), whole);
        lemma_tree_written(ts.last(), whole);
        assert forall|i: int| 0 <= i < ts.len() implies taken_from(#[trigger] ts[i], whole) by {
            if i < front.len() {
                assert(ts[i] == front[i]);
            }
        }
    }
}

} // verus!
