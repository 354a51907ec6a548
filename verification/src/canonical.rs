//! The form of the trees that parsing gives, and which of them the markup can express.
use vstd::prelude::*;

use crate::attrs::{distinct_names, has_name, inserted, lemma_inserted_distinct, position, AttrList};
use crate::forest::Nodes;
use crate::grammar::{
    attr_name_char, attr_name_class, attr_value, attributes, comment_body_len, comment_len, element,
    lemma_attr_value, lemma_comment, lemma_element, lemma_opening, name_char, name_class, nodes,
    opening, skip_space,
};
use crate::text::{
    all_but, drop_while, lemma_span, lower, lowered, span, take_while, whitespace_class,
};
use crate::tree::{leaf, void_tag, Content, Tree};

verus! {

// ---------------------------------------------------------------------------
// Text
// ---------------------------------------------------------------------------
/// A text that no tag interrupts.
pub open spec fn plain_text(s: Seq<char>) -> bool {
    s.len() > 0 && !s.contains('<')
}

/// Whether a text is one comment, from `<!--` to the first `-->` or, without one, to its end.
pub open spec fn comment(s: Seq<char>) -> bool {
    seq!['<', '!', '-', '-'].is_prefix_of(s) && comment_len(s) == s.len()
}

/// A comment that ends in `-->`.
pub open spec fn closed_comment(s: Seq<char>) -> bool {
    comment(s) && seq!['-', '-', '>'].is_suffix_of(s.skip(4))
}

/// A comment that is not closed.
pub open spec fn open_comment(s: Seq<char>) -> bool {
    comment(s) && !seq!['-', '-', '>'].is_suffix_of(s.skip(4))
}

// ---------------------------------------------------------------------------
// Names
// ---------------------------------------------------------------------------
/// The name of an element, in lower case.
pub open spec fn element_name(s: Seq<char>) -> bool {
    &&& s.len() > 0
    &&& forall|i: int| 0 <= i < s.len() ==> name_char(#[trigger] s[i])
    &&& lowered(s) == s
}

/// The name of an attribute, in lower case.
pub open spec fn attr_name(s: Seq<char>) -> bool {
    &&& s.len() > 0
    &&& forall|i: int| 0 <= i < s.len() ==> attr_name_char(#[trigger] s[i])
    &&& lowered(s) == s
}

/// Attributes with proper names, each once.
pub open spec fn proper_attrs(a: AttrList) -> bool {
    &&& distinct_names(a)
    &&& forall|i: int| 0 <= i < a.len() ==> attr_name((#[trigger] a[i]).0)
}

/// Whether a node that is an element has its name in lower case.
pub open spec fn lower_tag(data: Content) -> bool {
    data matches Content::Element { tag, .. } ==> lowered(tag) == tag
}

/// Whether the names of all elements are in lower case.
pub open spec fn lower_tags(nodes: Nodes) -> bool {
    forall|k: int| 0 <= k < nodes.len() ==> lower_tag((#[trigger] nodes[k]).data)
}

// ---------------------------------------------------------------------------
// Trees
// ---------------------------------------------------------------------------
/// Whether a tree is a text that no tag interrupts.
pub open spec fn plain(t: Tree) -> bool {
    t.data matches Content::Text(s) && plain_text(s)
}

/// Whether a tree is a comment that is not closed.
pub open spec fn left_open(t: Tree) -> bool {
    t.data matches Content::Text(s) && open_comment(s)
}

/// A tree as parsing gives it: names are in lower case, void elements have no content, and a text
/// is plain or a comment.
pub open spec fn proper(t: Tree) -> bool
    decreases t,
{
    match t.data {
        Content::Document => false,
        Content::Text(s) => t.children.len() == 0 && (plain_text(s) || comment(s)),
        Content::Element { tag, attrs } => {
            &&& element_name(tag)
            &&& proper_attrs(attrs)
            &&& void_tag(tag) ==> t.children.len() == 0
            &&& proper_all(t.children)
        },
    }
}

/// Trees as parsing gives them: no two plain texts stand next to each other, and only the last
/// text can be a comment that is not closed.
pub open spec fn proper_all(ts: Seq<Tree>) -> bool
    decreases ts,
{
    &&& forall|i: int| 0 <= i < ts.len() ==> proper(#[trigger] ts[i])
    &&& forall|i: int, j: int|
        0 <= i < ts.len() && j == i + 1 && j < ts.len() ==> !(plain(#[trigger] ts[i]) && plain(
            #[trigger] ts[j],
        ))
    &&& forall|i: int| 0 <= i < ts.len() - 1 ==> !left_open(#[trigger] ts[i])
}

/// Whether no value holds a double quote, so that values can be written between double quotes.
pub open spec fn quotable(a: AttrList) -> bool {
    forall|i: int|
        0 <= i < a.len() ==> ((#[trigger] a[i]).1 matches Some(v) ==> !v.contains('"'))
}

/// Whether a tree can be told from the markup it is written as, whatever follows: no value holds a
/// double quote, and every comment is closed.
pub open spec fn expressible(t: Tree) -> bool
    decreases t,
{
    match t.data {
        Content::Document => true,
        Content::Text(s) => !open_comment(s),
        Content::Element { tag, attrs } => {
            &&& quotable(attrs)
            &&& forall|i: int| 0 <= i < t.children.len() ==> expressible(#[trigger] t.children[i])
        },
    }
}

/// Whether trees can be told from the markup they are written as, where nothing follows: the last
/// of them may be a comment that is not closed.
pub open spec fn expressible_all(ts: Seq<Tree>) -> bool {
    forall|i: int|
        0 <= i < ts.len() ==> expressible(#[trigger] ts[i]) || (i == ts.len() - 1 && ts[i].data
            is Text)
}

// ---------------------------------------------------------------------------
// What parsing gives
// ---------------------------------------------------------------------------
/// Lower case is reached in one step, and keeps characters of names in names.
pub proof fn lemma_lowered(s: Seq<char>)
    ensures
        lowered(lowered(s)) == lowered(s),
        lowered(s).len() == s.len(),
        forall|i: int| 0 <= i < s.len() ==> lowered(s)[i] == lower(#[trigger] s[i]),
        (forall|i: int| 0 <= i < s.len() ==> name_char(#[trigger] s[i])) ==> (forall|i: int|
            0 <= i < s.len() ==> name_char(#[trigger] lowered(s)[i])),
        (forall|i: int| 0 <= i < s.len() ==> attr_name_char(#[trigger] s[i])) ==> (forall|i: int|
            0 <= i < s.len() ==> attr_name_char(#[trigger] lowered(s)[i])),
{
    let t = lowered(s);
    assert forall|i: int| 0 <= i < s.len() implies {
        &&& #[trigger] t[i] == lower(s[i])
        &&& lower(t[i]) == t[i]
        &&& name_char(s[i]) ==> name_char(t[i])
        &&& attr_name_char(s[i]) ==> attr_name_char(t[i])
    } by {}
    assert(lowered(t) =~= t);
}

/// Reading attributes gives proper attributes.
proof fn lemma_attributes_proper(s: Seq<char>, before: AttrList)
    requires
        proper_attrs(before),
    ensures
        attributes(s, before).0 matches Some(a) ==> proper_attrs(a),
    decreases s.len(),
{
    let t = skip_space(s);
    let name = take_while(t, attr_name_class());
    let low = lowered(name);
    let after = skip_space(drop_while(t, attr_name_class()));
    lemma_span(s, whitespace_class());
    lemma_span(t, attr_name_class());
    lemma_span(drop_while(t, attr_name_class()), whitespace_class());
    if t.len() > 0 && t[0] != '>' && t[0] != '/' && name.len() > 0 {
        assert forall|i: int| 0 <= i < name.len() implies attr_name_char(#[trigger] name[i]) by {
            assert(attr_name_class()(t[i]));
        }
        lemma_lowered(name);
        assert(attr_name(low));
        if after.len() > 0 && after[0] == '=' {
            lemma_span(after.skip(1), whitespace_class());
            lemma_attr_value(skip_space(after.skip(1)));
            let (value, rest) = attr_value(skip_space(after.skip(1)));
            lemma_inserted_proper(before, low, Some(value));
            lemma_attributes_proper(rest, inserted(before, low, Some(value)));
        } else {
            lemma_inserted_proper(before, low, None);
            lemma_attributes_proper(after, inserted(before, low, None));
        }
    }
}

proof fn lemma_inserted_proper(a: AttrList, name: Seq<char>, value: Option<Seq<char>>)
    requires
        proper_attrs(a),
        attr_name(name),
    ensures
        proper_attrs(inserted(a, name, value)),
{
    lemma_inserted_distinct(a, name, value);
    let b = inserted(a, name, value);
    assert forall|i: int| 0 <= i < b.len() implies attr_name((#[trigger] b[i]).0) by {
        if has_name(a, name) {
            let p = position(a, name);
            if i != p {
                assert(b[i] == a[i]);
            }
        } else if i < a.len() {
            assert(b[i] == a[i]);
        }
    }
}

/// An opening tag has a proper name and proper attributes.
proof fn lemma_opening_proper(s: Seq<char>)
    ensures
        opening(s).0 matches Ok(o) ==> {
            &&& element_name(o.tag)
            &&& proper_attrs(o.attrs)
            &&& void_tag(o.tag) ==> !o.has_content
        },
{
    let t = s.skip(1);
    let name = take_while(t, name_class());
    lemma_span(t, name_class());
    assert forall|i: int| 0 <= i < name.len() implies name_char(#[trigger] name[i]) by {
        assert(name_class()(t[i]));
    }
    lemma_lowered(name);
    lemma_attributes_proper(drop_while(t, name_class()), Seq::empty());
}

/// A comment is a comment by itself.
proof fn lemma_comment_alone(s: Seq<char>)
    requires
        seq!['<', '!', '-', '-'].is_prefix_of(s),
    ensures
        comment(s.take(comment_len(s) as int)),
        open_comment(s.take(comment_len(s) as int)) ==> comment_len(s) == s.len(),
{
    let n = comment_len(s) as int;
    let c = s.take(n);
    lemma_comment(s);
    lemma_comment_body_alone(s.skip(4));
    assert(c.skip(4) =~= s.skip(4).take(n - 4));
    assert(seq!['<', '!', '-', '-'].is_prefix_of(c)) by {
        assert(c.subrange(0, 4) =~= s.subrange(0, 4));
    }
}

proof fn lemma_comment_body_alone(s: Seq<char>)
    ensures
        comment_body_len(s) <= s.len(),
        comment_body_len(s.take(comment_body_len(s) as int)) == comment_body_len(s),
        comment_body_len(s) == s.len() || seq!['-', '-', '>'].is_suffix_of(
            s.take(comment_body_len(s) as int),
        ),
    decreases s.len(),
{
    let n = comment_body_len(s) as int;
    if seq!['-', '-', '>'].is_prefix_of(s) {
        assert(s.take(3) =~= seq!['-', '-', '>']) by {
            assert(s.subrange(0, 3) =~= s.take(3));
        }
        let c = s.take(3);
        assert(c.subrange(0, 3) =~= c);
    } else if s.len() > 0 {
        lemma_comment_body_alone(s.skip(1));
        let c = s.take(n);
        let d = s.skip(1).take(n - 1);
        assert(c.skip(1) =~= d);
        assert(!seq!['-', '-', '>'].is_prefix_of(c)) by {
            if seq!['-', '-', '>'].is_prefix_of(c) {
                assert(c.subrange(0, 3) =~= s.subrange(0, 3));
            }
        }
        if seq!['-', '-', '>'].is_suffix_of(d) {
            assert(d.subrange(d.len() - 3, d.len() as int) =~= c.subrange(
                c.len() - 3,
                c.len() as int,
            ));
        }
    }
}

/// Reading gives proper trees.
pub proof fn lemma_nodes_proper(s: Seq<char>)
    ensures
        proper_all(nodes(s).trees),
        s.len() == 0 ==> nodes(s).trees.len() == 0,
        s.len() > 0 && s[0] == '<' && nodes(s).trees.len() > 0 ==> !plain(nodes(s).trees[0]),
    decreases s.len(), 1nat,
{
    let all = nodes(s).trees;
    if s.len() == 0 {
    } else if seq!['<', '/'].is_prefix_of(s) {
    } else if seq!['<', '!', '-', '-'].is_prefix_of(s) {
        let n = comment_len(s) as int;
        let text = s.take(n);
        lemma_comment(s);
        lemma_comment_alone(s);
        lemma_nodes_proper(s.skip(n));
        assert(text[0] == '<') by {
            assert(s.subrange(0, 4)[0] == s[0]);
        }
        assert(text.contains('<'));
        let t = leaf(Content::Text(text));
        assert(proper(t));
        lemma_proper_cons(t, nodes(s.skip(n)).trees);
    } else if s[0] == '<' {
        lemma_element(s);
        lemma_element_proper(s);
        let first = element(s);
        if first.end is Ok {
            lemma_nodes_proper(first.rest);
            assert(first.trees.len() == 1);
            assert(first.trees =~= seq![first.trees[0]]);
            lemma_proper_cons(first.trees[0], nodes(first.rest).trees);
        }
    } else {
        let n = span(s, all_but('<')) as int;
        let text = s.take(n);
        lemma_span(s, all_but('<'));
        assert(n > 0);
        lemma_nodes_proper(s.skip(n));
        assert(!text.contains('<')) by {
            if text.contains('<') {
                let i = text.index_of('<');
                assert(all_but('<')(s[i]));
            }
        }
        let t = leaf(Content::Text(text));
        assert(proper(t));
        assert(!open_comment(text)) by {
            if open_comment(text) {
                assert(text.subrange(0, 4)[0] == text[0]);
            }
        }
        lemma_proper_cons(t, nodes(s.skip(n)).trees);
    }
}

/// Proper trees with one more in front.
proof fn lemma_proper_cons(t: Tree, ts: Seq<Tree>)
    requires
        proper(t),
        proper_all(ts),
        plain(t) && ts.len() > 0 ==> !plain(ts[0]),
        ts.len() > 0 ==> !left_open(t),
    ensures
        proper_all(seq![t] + ts),
{
    let all = seq![t] + ts;
    assert forall|i: int| 0 <= i < all.len() implies proper(#[trigger] all[i]) by {
        if i > 0 {
            assert(all[i] == ts[i - 1]);
        }
    }
    assert forall|i: int, j: int| 0 <= i < all.len() && j == i + 1 && j < all.len() implies !(plain(
        #[trigger] all[i],
    ) && plain(#[trigger] all[j])) by {
        assert(all[j] == ts[j - 1]);
        if i > 0 {
            assert(all[i] == ts[i - 1]);
        }
    }
    assert forall|i: int| 0 <= i < all.len() - 1 implies !left_open(#[trigger] all[i]) by {
        if i > 0 {
            assert(all[i] == ts[i - 1]);
        }
    }
}

/// Reading an element gives a proper tree.
proof fn lemma_element_proper(s: Seq<char>)
    requires
        s.len() > 0,
    ensures
        proper_all(element(s).trees),
        element(s).trees.len() <= 1,
        element(s).end is Ok ==> element(s).trees.len() == 1,
        element(s).trees.len() == 1 ==> element(s).trees[0].data is Element,
    decreases s.len(), 0nat,
{
    lemma_opening(s);
    lemma_opening_proper(s);
    if let Ok(o) = opening(s).0 {
        lemma_nodes_proper(opening(s).1);
        assert(proper_all(Seq::<Tree>::empty()));
        let t = element(s).trees[0];
        assert(proper(t));
        assert(element(s).trees =~= seq![t]);
    }
}

} // verus!
