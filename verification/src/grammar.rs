//! The markup language: what each text means. Every rule takes the text that is left to read and
//! gives what it reads together with the text that is left after it.
use vstd::prelude::*;

use crate::attrs::{inserted, AttrList};
use crate::text::{
    all_but, alphanumeric, ascii_whitespace, drop_while, lemma_span, lowered, span, take_while,
    whitespace_class,
};
use crate::tree::{leaf, void_tag, Content, Tree};

verus! {

/// Why a text is not markup.
pub enum Fault {
    /// The text ends inside a tag.
    UnexpectedEof,
    /// What follows `<` is not a name.
    InvalidTagName(Seq<char>),
    /// An element is closed under another name than it was opened.
    MismatchedTag { opened: Seq<char>, closed: Seq<char> },
}

/// A character of the name of an element.
pub open spec fn name_char(c: char) -> bool {
    alphanumeric(c) || c == '-' || c == '_' || c == ':' || c == '.'
}

/// A character of the name of an attribute.
pub open spec fn attr_name_char(c: char) -> bool {
    !ascii_whitespace(c) && c != '=' && c != '>' && c != '/' && c != '"' && c != '\''
}

/// A character of a value that stands without quotes.
pub open spec fn unquoted_char(c: char) -> bool {
    !ascii_whitespace(c) && c != '>' && c != '/'
}

/// `name_char` as a class to scan by.
pub open spec fn name_class() -> spec_fn(char) -> bool {
    |c: char| name_char(c)
}

/// `attr_name_char` as a class to scan by.
pub open spec fn attr_name_class() -> spec_fn(char) -> bool {
    |c: char| attr_name_char(c)
}

/// `unquoted_char` as a class to scan by.
pub open spec fn unquoted_class() -> spec_fn(char) -> bool {
    |c: char| unquoted_char(c)
}

/// A text without the white space it begins with.
pub open spec fn skip_space(s: Seq<char>) -> Seq<char> {
    drop_while(s, whitespace_class())
}

/// A text without the character `c`, where it begins with it.
pub open spec fn skip_char(s: Seq<char>, c: char) -> Seq<char> {
    if s.len() > 0 && s[0] == c {
        s.skip(1)
    } else {
        s
    }
}

// ---------------------------------------------------------------------------
// Text and comments
// ---------------------------------------------------------------------------
/// How far a comment reaches, counted from behind its `<!--`: through the first `-->`, or to the
/// end of the text where there is none.
pub open spec fn comment_body_len(s: Seq<char>) -> nat
    decreases s.len(),
{
    if seq!['-', '-', '>'].is_prefix_of(s) {
        3
    } else if s.len() == 0 {
        0
    } else {
        1 + comment_body_len(s.skip(1))
    }
}

/// How long the comment is that a text begins with.
pub open spec fn comment_len(s: Seq<char>) -> nat {
    4 + comment_body_len(s.skip(4))
}

// ---------------------------------------------------------------------------
// Tags
// ---------------------------------------------------------------------------
/// The value of an attribute: between quotes, or up to white space, `>` or `/`. A quote that is
/// not closed reaches to the end of the text.
pub open spec fn attr_value(s: Seq<char>) -> (Seq<char>, Seq<char>) {
    if s.len() > 0 && (s[0] == '"' || s[0] == '\'') {
        let body = s.skip(1);
        let after = drop_while(body, all_but(s[0]));
        (take_while(body, all_but(s[0])), skip_char(after, s[0]))
    } else {
        (take_while(s, unquoted_class()), drop_while(s, unquoted_class()))
    }
}

/// The attributes of a tag, added to those that were read before, up to `>`, `/` or anything that
/// is not the name of an attribute; none where the text ends first. Names are put in lower case.
pub open spec fn attributes(s: Seq<char>, before: AttrList) -> (Option<AttrList>, Seq<char>)
    decreases s.len(),
{
    let t = skip_space(s);
    let name = take_while(t, attr_name_class());
    let after = skip_space(drop_while(t, attr_name_class()));
    proof {
        lemma_span(s, whitespace_class());
        lemma_span(t, attr_name_class());
        lemma_span(drop_while(t, attr_name_class()), whitespace_class());
        lemma_span(after.skip(1), whitespace_class());
        lemma_attr_value(skip_space(after.skip(1)));
    }
    if t.len() == 0 {
        (None, t)
    } else if t[0] == '>' || t[0] == '/' || name.len() == 0 {
        (Some(before), t)
    } else if after.len() > 0 && after[0] == '=' {
        let (value, rest) = attr_value(skip_space(after.skip(1)));
        attributes(rest, inserted(before, lowered(name), Some(value)))
    } else {
        attributes(after, inserted(before, lowered(name), None))
    }
}

/// An opening tag: its name and attributes, and whether content follows up to a closing tag.
pub struct Opening {
    pub tag: Seq<char>,
    pub attrs: AttrList,
    pub has_content: bool,
}

/// The opening tag that a text begins with. A tag that ends in `/>` and a void element have no
/// content.
pub open spec fn opening(s: Seq<char>) -> (Result<Opening, Fault>, Seq<char>) {
    let t = s.skip(1);
    let name = take_while(t, name_class());
    let tag = lowered(name);
    let (attrs, rest) = attributes(drop_while(t, name_class()), Seq::empty());
    if name.len() == 0 {
        (Err(Fault::InvalidTagName(name)), t)
    } else {
        match attrs {
            None => (Err(Fault::UnexpectedEof), rest),
            Some(attrs) => if seq!['/', '>'].is_prefix_of(rest) {
                (Ok(Opening { tag, attrs, has_content: false }), rest.skip(2))
            } else {
                (
                    Ok(Opening { tag, attrs, has_content: !void_tag(tag) }),
                    skip_char(rest, '>'),
                )
            },
        }
    }
}

/// The name in a closing tag, from behind its `</`. The `>` may be missing.
pub open spec fn closing(s: Seq<char>) -> (Seq<char>, Seq<char>) {
    let t = skip_space(s);
    (
        take_while(t, name_class()),
        skip_char(skip_space(drop_while(t, name_class())), '>'),
    )
}

// ---------------------------------------------------------------------------
// Nodes
// ---------------------------------------------------------------------------
/// What reading gives: the trees that were built, complete or not, whether reading ended with the
/// text, at a closing tag or at a fault, and the text that is left.
pub struct Reading {
    pub trees: Seq<Tree>,
    pub end: Result<Option<Seq<char>>, Fault>,
    pub rest: Seq<char>,
}

/// A reading that begins with trees that were read before.
pub open spec fn after_trees(ts: Seq<Tree>, r: Reading) -> Reading {
    Reading { trees: ts + r.trees, end: r.end, rest: r.rest }
}

/// The element that a text begins with. There is no tree where its opening tag is at fault, and
/// an end with `Ok(None)` where there is no fault. An element that the end of the text closes, or
/// a closing tag without a name, is complete.
pub open spec fn element(s: Seq<char>) -> Reading
    decreases s.len(), 0nat,
{
    let (head, rest) = opening(s);
    match head {
        Err(fault) => Reading { trees: Seq::empty(), end: Err(fault), rest },
        Ok(o) => {
            let data = Content::Element { tag: o.tag, attrs: o.attrs };
            if !o.has_content {
                Reading { trees: seq![leaf(data)], end: Ok(None), rest }
            } else if rest.len() < s.len() {
                let content = nodes(rest);
                Reading {
                    trees: seq![Tree { data, children: content.trees }],
                    end: match content.end {
                        Err(fault) => Err(fault),
                        Ok(Some(name)) => if name.len() > 0 && name != o.tag {
                            Err(Fault::MismatchedTag { opened: o.tag, closed: name })
                        } else {
                            Ok(None)
                        },
                        Ok(None) => Ok(None),
                    },
                    rest: content.rest,
                }
            } else {
                // Not reached: an opening tag is not empty.
                Reading { trees: seq![leaf(data)], end: Ok(None), rest }
            }
        },
    }
}

/// The nodes that a text begins with, up to a closing tag, a fault or the end of the text.
/// Comments are text, `<!--` and `-->` with them.
pub open spec fn nodes(s: Seq<char>) -> Reading
    decreases s.len(), 1nat,
{
    if s.len() == 0 {
        Reading { trees: Seq::empty(), end: Ok(None), rest: s }
    } else if seq!['<', '/'].is_prefix_of(s) {
        let (name, rest) = closing(s.skip(2));
        Reading { trees: Seq::empty(), end: Ok(Some(name)), rest }
    } else if seq!['<', '!', '-', '-'].is_prefix_of(s) {
        let n = comment_len(s) as int;
        proof {
            lemma_comment(s);
        }
        after_trees(seq![leaf(Content::Text(s.take(n)))], nodes(s.skip(n)))
    } else if s[0] == '<' {
        let first = element(s);
        if first.end is Err {
            first
        } else if first.rest.len() < s.len() {
            after_trees(first.trees, nodes(first.rest))
        } else {
            // Not reached: an element is not empty.
            first
        }
    } else {
        let n = span(s, all_but('<')) as int;
        proof {
            lemma_span(s, all_but('<'));
        }
        after_trees(seq![leaf(Content::Text(s.take(n)))], nodes(s.skip(n)))
    }
}

// ---------------------------------------------------------------------------
// How much the rules read
// ---------------------------------------------------------------------------
/// Reading a value leaves no more than there was.
pub proof fn lemma_attr_value(s: Seq<char>)
    ensures
        attr_value(s).1.len() <= s.len(),
{
    if s.len() > 0 && (s[0] == '"' || s[0] == '\'') {
        lemma_span(s.skip(1), all_but(s[0]));
    } else {
        lemma_span(s, unquoted_class());
    }
}

/// A comment lies within its text.
pub proof fn lemma_comment(s: Seq<char>)
    requires
        seq!['<', '!', '-', '-'].is_prefix_of(s),
    ensures
        4 <= comment_len(s) <= s.len(),
{
    lemma_comment_body(s.skip(4));
}

proof fn lemma_comment_body(s: Seq<char>)
    ensures
        comment_body_len(s) <= s.len(),
    decreases s.len(),
{
    if !seq!['-', '-', '>'].is_prefix_of(s) && s.len() > 0 {
        lemma_comment_body(s.skip(1));
    }
}

/// Reading attributes leaves no more than there was.
pub proof fn lemma_attributes(s: Seq<char>, before: AttrList)
    ensures
        attributes(s, before).1.len() <= s.len(),
    decreases s.len(),
{
    let t = skip_space(s);
    let name = take_while(t, attr_name_class());
    let after = skip_space(drop_while(t, attr_name_class()));
    lemma_span(s, whitespace_class());
    lemma_span(t, attr_name_class());
    lemma_span(drop_while(t, attr_name_class()), whitespace_class());
    if t.len() == 0 || t[0] == '>' || t[0] == '/' || name.len() == 0 {
    } else if after.len() > 0 && after[0] == '=' {
        lemma_span(after.skip(1), whitespace_class());
        lemma_attr_value(skip_space(after.skip(1)));
        let (value, rest) = attr_value(skip_space(after.skip(1)));
        lemma_attributes(rest, inserted(before, lowered(name), Some(value)));
    } else {
        lemma_attributes(after, inserted(before, lowered(name), None));
    }
}

/// Reading an opening tag leaves less than there was.
pub proof fn lemma_opening(s: Seq<char>)
    requires
        s.len() > 0,
    ensures
        opening(s).1.len() < s.len(),
{
    let t = s.skip(1);
    lemma_span(t, name_class());
    lemma_attributes(drop_while(t, name_class()), Seq::empty());
}

/// Reading a closing tag leaves no more than there was.
pub proof fn lemma_closing(s: Seq<char>)
    ensures
        closing(s).1.len() <= s.len(),
{
    let t = skip_space(s);
    lemma_span(s, whitespace_class());
    lemma_span(t, name_class());
    lemma_span(drop_while(t, name_class()), whitespace_class());
}

/// Reading an element leaves less than there was.
pub proof fn lemma_element(s: Seq<char>)
    requires
        s.len() > 0,
    ensures
        element(s).rest.len() < s.len(),
    decreases s.len(), 0nat,
{
    lemma_opening(s);
    if opening(s).0 is Ok {
        lemma_nodes(opening(s).1);
    }
}

/// Reading nodes leaves no more than there was.
pub proof fn lemma_nodes(s: Seq<char>)
    ensures
        nodes(s).rest.len() <= s.len(),
    decreases s.len(), 1nat,
{
    if s.len() == 0 {
    } else if seq!['<', '/'].is_prefix_of(s) {
        lemma_closing(s.skip(2));
    } else if seq!['<', '!', '-', '-'].is_prefix_of(s) {
        lemma_comment(s);
        lemma_nodes(s.skip(comment_len(s) as int));
    } else if s[0] == '<' {
        lemma_element(s);
        lemma_nodes(element(s).rest);
    } else {
        lemma_span(s, all_but('<'));
        lemma_nodes(s.skip(span(s, all_but('<')) as int));
    }
}

} // verus!
