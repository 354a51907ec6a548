//! The parser: reads markup by recursive descent and hangs what it reads into an arena.
use vstd::prelude::*;
use vstd::string::StringExecFns;

use crate::arena::{Arena, NodeData, NodeId};
use crate::attrs::{text_view, Attrs};
use crate::canonical::{lemma_lowered, lower_tag, lower_tags};
use crate::forest::{
    can_attach, grown, is_below, lemma_below_first_step, lemma_grown_below, lemma_grown_leaf,
    lemma_grown_nothing, lemma_grown_twice,
};
use crate::grammar::{
    after_trees, attr_name_char, attr_name_class, attr_value, attributes, closing, comment_body_len,
    comment_len, element, lemma_attr_value, lemma_comment, lemma_element, lemma_opening, name_char,
    name_class, nodes, skip_space, unquoted_char, unquoted_class, Fault, Reading,
};
use crate::text::{
    all_but, chars_of, drop_while, is_alphanumeric, is_ascii_whitespace, lemma_span, lemma_span_is,
    same_text, stands_at, string_of, take_while, to_ascii_lowercase, whitespace_class,
};
use crate::tree::{leaf, void_tag, Content, Tree};

verus! {

/// Why a text could not be parsed.
#[derive(Debug, Clone, PartialEq)]
pub enum ParseError {
    UnexpectedEof,
    InvalidTagName(String),
    MismatchedTag { opened: String, closed: String },
}

impl View for ParseError {
    type V = Fault;

    open spec fn view(&self) -> Fault {
        match self {
            ParseError::UnexpectedEof => Fault::UnexpectedEof,
            ParseError::InvalidTagName(s) => Fault::InvalidTagName(s@),
            ParseError::MismatchedTag { opened, closed } => Fault::MismatchedTag {
                opened: opened@,
                closed: closed@,
            },
        }
    }
}

pub type PResult<T> = Result<T, ParseError>;

/// What Rust's `{:?}` writes for a text: the text between double quotes, with some characters
/// escaped.
pub uninterp spec fn debug_text(s: Seq<char>) -> Seq<char>;

/// The formatting of a `str` by `{:?}`. Which characters it escapes is a table that is named, not
/// written out; an empty text is a pair of double quotes.
#[verifier::external_body]
fn format_debug(s: &str) -> (r: String)
    ensures
        r@ == debug_text(s@),
        s@.len() == 0 ==> r@ == seq!['"', '"'],
{
    format!("{:?}", s)
}

/// The message for a fault.
pub open spec fn fault_message(fault: Fault) -> Seq<char> {
    match fault {
        Fault::UnexpectedEof => "Unexpected end of input"@,
        Fault::InvalidTagName(s) => "Invalid tag name: "@ + debug_text(s),
        Fault::MismatchedTag { opened, closed } => "Mismatched tag: opened <"@ + opened
            + ">, closed </"@ + closed + ">"@,
    }
}

impl ParseError {
    /// The message for the error.
    pub fn to_string(&self) -> (r: String)
        ensures
            r@ == fault_message(self@),
            self@ == Fault::InvalidTagName(Seq::empty()) ==> r@ == "Invalid tag name: \"\""@,
    {
        proof {
            reveal_strlit("Invalid tag name: ");
            reveal_strlit("Invalid tag name: \"\"");
        }
        let mut out: String = String::new();
        match self {
            ParseError::UnexpectedEof => out.append("Unexpected end of input"),
            ParseError::InvalidTagName(s) => {
                out.append("Invalid tag name: ");
                let name: String = format_debug(s.as_str());
                out.append(name.as_str());
                assert(s@.len() == 0 ==> out@ =~= "Invalid tag name: \"\""@);
            },
            ParseError::MismatchedTag { opened, closed } => {
                out.append("Mismatched tag: opened <");
                out.append(opened.as_str());
                out.append(">, closed </");
                out.append(closed.as_str());
                out.append(">");
            },
        }
        assert(out@ =~= fault_message(self@));
        out
    }
}

// ---------------------------------------------------------------------------
// Names
// ---------------------------------------------------------------------------
/// Whether a character can stand in the name of an element.
pub fn is_name_char(c: char) -> (b: bool)
    ensures
        b == name_char(c),
{
    is_alphanumeric(c) || c == '-' || c == '_' || c == ':' || c == '.'
}

/// Whether a character can stand in the name of an attribute.
pub fn is_attr_name_char(c: char) -> (b: bool)
    ensures
        b == attr_name_char(c),
{
    !is_ascii_whitespace(c) && c != '=' && c != '>' && c != '/' && c != '"' && c != '\''
}

/// Whether a character can stand in a value without quotes.
fn is_unquoted_char(c: char) -> (b: bool)
    ensures
        b == unquoted_char(c),
{
    !is_ascii_whitespace(c) && c != '>' && c != '/'
}

/// Whether a character can stand in text outside of tags.
fn is_text_char(c: char) -> (b: bool)
    ensures
        b == (c != '<'),
{
    c != '<'
}

/// Whether an element has no content by convention.
pub fn is_void(tag: &str) -> (b: bool)
    ensures
        b == void_tag(tag@),
{
    same_text(tag, "area") || same_text(tag, "base") || same_text(tag, "br") || same_text(
        tag,
        "col",
    ) || same_text(tag, "embed") || same_text(tag, "hr") || same_text(tag, "img") || same_text(
        tag,
        "input",
    ) || same_text(tag, "link") || same_text(tag, "meta") || same_text(tag, "param") || same_text(
        tag,
        "source",
    ) || same_text(tag, "track") || same_text(tag, "wbr")
}

// ---------------------------------------------------------------------------
// Parser
// ---------------------------------------------------------------------------
/// A text and how far it has been read. Its value is the text that is left to read.
pub struct Parser {
    src: Vec<char>,
    pos: usize,
}

impl View for Parser {
    type V = Seq<char>;

    open spec fn view(&self) -> Seq<char> {
        self.whole().skip(self.position() as int)
    }
}

/// Whether a parser has gone on in the same text: the text stays, and what was read is not read
/// again.
pub open spec fn goes_on(before: Parser, after: Parser) -> bool {
    &&& after.whole() == before.whole()
    &&& before.position() <= after.position() <= after.whole().len()
}

impl Parser {
    /// The whole text, what was read with what is left.
    pub closed spec fn whole(self) -> Seq<char> {
        self.src@
    }

    /// How much of the text was read.
    pub closed spec fn position(self) -> nat {
        self.pos as nat
    }

    #[verifier::type_invariant]
    spec fn within(self) -> bool {
        self.pos <= self.src@.len()
    }

    /// A parser at the beginning of a text.
    pub fn new(src: String) -> (r: Parser)
        ensures
            r@ == src@,
            r.whole() == src@,
            r.position() == 0,
    {
        let chars: Vec<char> = chars_of(src.as_str());
        assert(chars@.skip(0) =~= src@);
        Parser { src: chars, pos: 0 }
    }

    /// The text that is left to read.
    fn rest(&self) -> (r: &[char])
        ensures
            r@ == self@,
    {
        proof {
            use_type_invariant(self);
        }
        let all: &[char] = self.src.as_slice();
        &all[self.pos..all.len()]
    }

    /// The next character.
    fn peek(&self) -> (r: Option<char>)
        ensures
            r == (if self@.len() > 0 {
                Some(self@[0])
            } else {
                None
            }),
    {
        proof {
            use_type_invariant(self);
        }
        if self.pos < self.src.len() {
            Some(self.src[self.pos])
        } else {
            None
        }
    }

    /// Reads a number of characters.
    fn skip(&mut self, n: usize)
        requires
            n <= old(self)@.len(),
        ensures
            final(self)@ == old(self)@.skip(n as int),
            goes_on(*old(self), *final(self)),
    {
        proof {
            use_type_invariant(&*self);
        }
        let ghost len = self.src.len();
        assert(self.pos + n <= len);
        self.pos = self.pos + n;
        assert(self@ =~= old(self)@.skip(n as int));
    }

    /// Reads the next character.
    fn advance(&mut self) -> (r: Option<char>)
        ensures
            r == (if old(self)@.len() > 0 {
                Some(old(self)@[0])
            } else {
                None
            }),
            final(self)@ == (if old(self)@.len() > 0 {
                old(self)@.skip(1)
            } else {
                old(self)@
            }),
            goes_on(*old(self), *final(self)),
    {
        proof {
            use_type_invariant(&*self);
        }
        match self.peek() {
            Some(c) => {
                self.skip(1);
                Some(c)
            },
            None => None,
        }
    }

    /// Whether a text comes next.
    fn starts_with(&self, s: &str) -> (b: bool)
        ensures
            b == s@.is_prefix_of(self@),
    {
        proof {
            use_type_invariant(self);
        }
        stands_at(self.src.as_slice(), self.pos, s)
    }

    /// Reads characters of a class.
    fn consume_while<F: Fn(char) -> bool>(
        &mut self,
        pred: F,
        Ghost(class): Ghost<spec_fn(char) -> bool>,
    ) -> (r: String)
        requires
            forall|c: char| call_requires(pred, (c,)),
            forall|c: char, b: bool| call_ensures(pred, (c,), b) ==> b == class(c),
        ensures
            r@ == take_while(old(self)@, class),
            final(self)@ == drop_while(old(self)@, class),
            goes_on(*old(self), *final(self)),
    {
        proof {
            use_type_invariant(&*self);
        }
        let ghost s = self@;
        let mut out: String = String::new();
        proof {
            assert(s.skip(0) =~= s);
        }
        loop
            invariant
                forall|c: char| call_requires(pred, (c,)),
                forall|c: char, b: bool| call_ensures(pred, (c,), b) ==> b == class(c),
                out@.len() <= s.len(),
                out@ == s.take(out@.len() as int),
                self@ == s.skip(out@.len() as int),
                forall|i: int| 0 <= i < out@.len() ==> class(#[trigger] s[i]),
                s == old(self)@,
                goes_on(*old(self), *self),
            decreases self@.len(),
        {
            match self.peek() {
                Some(c) => {
                    let ghost n = out@.len() as int;
                    if pred(c) {
                        out.push(c);
                        self.skip(1);
                        proof {
                            assert(s[n] == c);
                            assert(s.take(n + 1) =~= s.take(n).push(c));
                            assert(s.skip(n).skip(1) =~= s.skip(n + 1));
                        }
                    } else {
                        proof {
                            lemma_span_is(s, class, n);
                        }
                        return out;
                    }
                },
                None => {
                    proof {
                        lemma_span_is(s, class, out@.len() as int);
                    }
                    return out;
                },
            }
        }
    }

    /// Reads white space.
    fn skip_whitespace(&mut self)
        ensures
            final(self)@ == skip_space(old(self)@),
            goes_on(*old(self), *final(self)),
    {
        let _skipped: String = self.consume_while(is_ascii_whitespace, Ghost(whitespace_class()));
    }

    /// Reads text up to the next `<`.
    fn consume_text(&mut self) -> (r: String)
        ensures
            r@ == take_while(old(self)@, all_but('<')),
            final(self)@ == drop_while(old(self)@, all_but('<')),
            goes_on(*old(self), *final(self)),
    {
        self.consume_while(is_text_char, Ghost(all_but('<')))
    }

    /// Reads a comment, `<!--` and `-->` with it.
    fn consume_comment(&mut self) -> (r: String)
        requires
            seq!['<', '!', '-', '-'].is_prefix_of(old(self)@),
        ensures
            r@ == old(self)@.take(comment_len(old(self)@) as int),
            final(self)@ == old(self)@.skip(comment_len(old(self)@) as int),
            goes_on(*old(self), *final(self)),
    {
        let ghost s = self@;
        let rest: &[char] = self.rest();
        let mut n: usize = 4;
        proof {
            reveal_strlit("-->");
            assert("-->"@ =~= seq!['-', '-', '>']);
            lemma_comment(s);
        }
        loop
            invariant_except_break
                comment_len(s) == n + comment_body_len(s.skip(n as int)),
            invariant
                rest@ == s,
                4 <= n <= s.len(),
                "-->"@ == seq!['-', '-', '>'],
            ensures
                n == comment_len(s),
                n <= s.len(),
            decreases s.len() - n,
        {
            if stands_at(rest, n, "-->") {
                assert(s.skip(n as int).len() >= 3);
                assert(n + 3 <= rest.len());
                n += 3;
                break;
            }
            if n >= rest.len() {
                break;
            }
            n += 1;
            assert(s.skip(n - 1).skip(1) =~= s.skip(n as int));
        }
        let text: String = string_of(&rest[0..n]);
        self.skip(n);
        text
    }

    /// Reads a closing tag and gives the name in it.
    fn parse_close_tag(&mut self) -> (r: PResult<String>)
        requires
            old(self)@.len() >= 2,
        ensures
            r matches Ok(name) && name@ == closing(old(self)@.skip(2)).0,
            final(self)@ == closing(old(self)@.skip(2)).1,
            goes_on(*old(self), *final(self)),
    {
        self.skip(2);
        self.skip_whitespace();
        let name: String = self.consume_while(is_name_char, Ghost(name_class()));
        self.skip_whitespace();
        if self.peek() == Some('>') {
            self.advance();
        }
        Ok(name)
    }

    /// Reads the value of an attribute.
    fn parse_attr_value(&mut self) -> (r: PResult<String>)
        ensures
            r matches Ok(value) && value@ == attr_value(old(self)@).0,
            final(self)@ == attr_value(old(self)@).1,
            goes_on(*old(self), *final(self)),
    {
        match self.peek() {
            Some(quote) if quote == '"' || quote == '\'' => {
                self.advance();
                let inside = |c: char| -> (b: bool)
                    ensures
                        b == (c != quote),
                {
                    c != quote
                };
                let value: String = self.consume_while(inside, Ghost(all_but(quote)));
                proof {
                    lemma_span(old(self)@.skip(1), all_but(quote));
                }
                self.advance();
                Ok(value)
            },
            _ => Ok(
                self.consume_while(is_unquoted_char, Ghost(unquoted_class())),
            ),
        }
    }

    /// Reads the attributes of a tag.
    fn parse_attrs(&mut self) -> (r: PResult<Attrs>)
        ensures
            match r {
                Ok(attrs) => attributes(old(self)@, Seq::empty()).0 == Some(attrs@),
                Err(e) => attributes(old(self)@, Seq::empty()).0 is None && e@
                    == Fault::UnexpectedEof,
            },
            final(self)@ == attributes(old(self)@, Seq::empty()).1,
            goes_on(*old(self), *final(self)),
    {
        proof {
            use_type_invariant(&*self);
        }
        let ghost s = self@;
        let mut attrs: Attrs = Attrs::new();
        loop
            invariant
                s == old(self)@,
                attributes(s, Seq::empty()) == attributes(self@, attrs@),
                goes_on(*old(self), *self),
            decreases self@.len(),
        {
            let ghost before = self@;
            proof {
                let t = skip_space(before);
                let after = skip_space(drop_while(t, attr_name_class()));
                lemma_span(before, whitespace_class());
                lemma_span(t, attr_name_class());
                lemma_span(drop_while(t, attr_name_class()), whitespace_class());
                lemma_span(after.skip(1), whitespace_class());
                lemma_attr_value(skip_space(after.skip(1)));
            }
            self.skip_whitespace();
            match self.peek() {
                None => return Err(ParseError::UnexpectedEof),
                Some(c) => if c == '>' || c == '/' {
                    return Ok(attrs);
                },
            }
            let name: String = self.consume_while(is_attr_name_char, Ghost(attr_name_class()));
            if name.as_str().is_empty() {
                assert(self@ =~= skip_space(before));
                return Ok(attrs);
            }
            let name: String = to_ascii_lowercase(name.as_str());
            self.skip_whitespace();
            if self.peek() == Some('=') {
                self.advance();
                self.skip_whitespace();
                let value: String = self.parse_attr_value()?;
                attrs.insert(name, Some(value));
            } else {
                attrs.insert(name, None);
            }
        }
    }
}

/// Adds a node without children as the last child of another.
fn append_new(arena: &mut Arena, parent: NodeId, data: NodeData) -> (id: NodeId)
    requires
        parent.0 < old(arena)@.len(),
    ensures
        id.0 == old(arena)@.len(),
        final(arena)@.len() == old(arena)@.len() + 1,
        final(arena)@[id.0 as int].data == data@,
        final(arena)@[id.0 as int].children.len() == 0,
        grown(old(arena)@, final(arena)@, parent.0 as int, seq![leaf(data@)]),
        final(arena).root == old(arena).root,
        old(arena).wf() ==> final(arena).wf(),
        lower_tags(old(arena)@) && lower_tag(data@) ==> lower_tags(final(arena)@),
{
    let ghost before = arena@;
    let ghost content = data@;
    let id: NodeId = arena.alloc_node(data);
    let ghost mid = arena@;
    proof {
        lemma_grown_leaf(before, parent.0 as int, content);
        if is_below(mid, id.0 as int, parent.0 as int) {
            let _ = lemma_below_first_step(mid, id.0 as int, parent.0 as int);
        }
        assert(can_attach(mid, parent.0 as int, id.0 as int));
    }
    arena.append_child(parent, id);
    proof {
        if lower_tags(before) && lower_tag(content) {
            assert forall|k: int| 0 <= k < arena@.len() implies lower_tag(
                (#[trigger] arena@[k]).data,
            ) by {
                if k < before.len() {
                    assert(arena@[k].data == before[k].data);
                }
            }
        }
    }
    id
}

impl Parser {
    /// Reads the nodes that come next, up to a closing tag, a fault or the end of the text, and
    /// hangs them into the arena as the last children of `parent`. Gives the name in the closing
    /// tag, or nothing where the text ended. After a fault, what was read before it hangs in the
    /// arena.
    pub fn parse_children(&mut self, arena: &mut Arena, parent: NodeId) -> (r: PResult<
        Option<String>,
    >)
        requires
            parent.0 < old(arena)@.len(),
        ensures
            match r {
                Ok(close) => nodes(old(self)@).end == Ok::<Option<Seq<char>>, Fault>(
                    text_view(close),
                ),
                Err(e) => nodes(old(self)@).end == Err::<Option<Seq<char>>, Fault>(e@),
            },
            final(self)@ == nodes(old(self)@).rest,
            goes_on(*old(self), *final(self)),
            r matches Ok(None) ==> final(self)@.len() == 0,
            grown(old(arena)@, final(arena)@, parent.0 as int, nodes(old(self)@).trees),
            final(arena).root == old(arena).root,
            old(arena).wf() ==> final(arena).wf(),
            lower_tags(old(arena)@) ==> lower_tags(final(arena)@),
        decreases old(self)@.len(), 1nat,
    {
        let ghost s = self@;
        let ghost a = arena@;
        let ghost p = parent.0 as int;
        let ghost mut done: Seq<Tree> = Seq::empty();
        proof {
            use_type_invariant(&*self);
            lemma_grown_nothing(a, p);
            assert(after_trees(done, nodes(s)).trees =~= nodes(s).trees);
            reveal_strlit("</");
            reveal_strlit("<!--");
            reveal_strlit("<");
            assert("</"@ =~= seq!['<', '/']);
            assert("<!--"@ =~= seq!['<', '!', '-', '-']);
            assert("<"@ =~= seq!['<']);
        }
        loop
            invariant
                s == old(self)@,
                a == old(arena)@,
                p == parent.0,
                0 <= p < a.len(),
                "</"@ == seq!['<', '/'],
                "<!--"@ == seq!['<', '!', '-', '-'],
                "<"@ == seq!['<'],
                self@.len() <= s.len(),
                nodes(s) == after_trees(done, nodes(self@)),
                goes_on(*old(self), *self),
                grown(a, arena@, p, done),
                arena.root == old(arena).root,
                old(arena).wf() ==> arena.wf(),
                lower_tags(a) ==> lower_tags(arena@),
            decreases self@.len(),
        {
            let ghost t = self@;
            let ghost before = arena@;
            if self.rest().is_empty() {
                assert(done + Seq::<Tree>::empty() =~= done);
                return Ok(None);
            }
            if self.starts_with("</") {
                assert(done + Seq::<Tree>::empty() =~= done);
                let name: String = self.parse_close_tag()?;
                return Ok(Some(name));
            }
            if self.starts_with("<!--") {
                let text: String = self.consume_comment();
                let ghost more = seq![leaf(Content::Text(text@))];
                append_new(arena, parent, NodeData::Text(text));
                proof {
                    lemma_comment(t);
                    lemma_grown_twice(a, before, arena@, p, done, more);
                    lemma_after_twice(done, more, nodes(self@));
                    done = done + more;
                }
                continue;
            }
            if self.starts_with("<") {
                proof {
                    assert(t[0] == seq!['<'][0]);
                    lemma_element(t);
                }
                let ghost more = element(t).trees;
                let read: PResult<()> = self.parse_element(arena, parent);
                proof {
                    lemma_grown_twice(a, before, arena@, p, done, more);
                }
                if let Err(e) = read {
                    return Err(e);
                }
                proof {
                    lemma_after_twice(done, more, nodes(self@));
                    done = done + more;
                }
                continue;
            }
            proof {
                assert(t[0] != '<') by {
                    if t[0] == '<' {
                        assert(seq!['<'] =~= t.subrange(0, 1));
                    }
                }
                lemma_span(t, all_but('<'));
            }
            let text: String = self.consume_text();
            let ghost more = seq![leaf(Content::Text(text@))];
            append_new(arena, parent, NodeData::Text(text));
            proof {
                lemma_grown_twice(a, before, arena@, p, done, more);
                lemma_after_twice(done, more, nodes(self@));
                done = done + more;
            }
        }
    }

    /// Reads the element that comes next and hangs it into the arena as the last child of
    /// `parent`.
    fn parse_element(&mut self, arena: &mut Arena, parent: NodeId) -> (r: PResult<()>)
        requires
            old(self)@.len() > 0,
            parent.0 < old(arena)@.len(),
        ensures
            match r {
                Ok(_) => element(old(self)@).end == Ok::<Option<Seq<char>>, Fault>(None),
                Err(e) => element(old(self)@).end == Err::<Option<Seq<char>>, Fault>(e@),
            },
            final(self)@ == element(old(self)@).rest,
            goes_on(*old(self), *final(self)),
            grown(old(arena)@, final(arena)@, parent.0 as int, element(old(self)@).trees),
            final(arena).root == old(arena).root,
            old(arena).wf() ==> final(arena).wf(),
            lower_tags(old(arena)@) ==> lower_tags(final(arena)@),
        decreases old(self)@.len(), 0nat,
    {
        let ghost s = self@;
        let ghost a = arena@;
        let ghost p = parent.0 as int;
        proof {
            lemma_grown_nothing(a, p);
            lemma_opening(s);
            reveal_strlit("/>");
            assert("/>"@ =~= seq!['/', '>']);
        }
        self.advance();
        let tag: String = self.consume_while(is_name_char, Ghost(name_class()));
        if tag.as_str().is_empty() {
            proof {
                lemma_span(s.skip(1), name_class());
                assert(self@ =~= s.skip(1));
            }
            return Err(ParseError::InvalidTagName(tag));
        }
        proof {
            lemma_lowered(tag@);
        }
        let tag: String = to_ascii_lowercase(tag.as_str());
        let attrs: Attrs = self.parse_attrs()?;
        let ghost data = Content::Element { tag: tag@, attrs: attrs@ };
        if self.starts_with("/>") {
            self.skip(2);
            append_new(arena, parent, NodeData::Element { tag, attrs });
            return Ok(());
        }
        if self.peek() == Some('>') {
            self.advance();
        }
        if is_void(tag.as_str()) {
            append_new(arena, parent, NodeData::Element { tag, attrs });
            return Ok(());
        }
        let id: NodeId = append_new(arena, parent, NodeData::Element { tag: tag.clone(), attrs });
        let ghost b = arena@;
        let ghost rest = self@;
        let read: PResult<Option<String>> = self.parse_children(arena, id);
        proof {
            lemma_grown_below(a, b, arena@, p, data, nodes(rest).trees);
        }
        match read {
            Err(e) => Err(e),
            Ok(Some(close)) => {
                if !close.as_str().is_empty() && !same_text(close.as_str(), tag.as_str()) {
                    return Err(ParseError::MismatchedTag { opened: tag, closed: close });
                }
                Ok(())
            },
            Ok(None) => Ok(()),
        }
    }
}

proof fn lemma_after_twice(a: Seq<Tree>, b: Seq<Tree>, r: Reading)
    ensures
        after_trees(a, after_trees(b, r)) == after_trees(a + b, r),
{
    assert(a + (b + r.trees) =~= (a + b) + r.trees);
}

} // verus!
