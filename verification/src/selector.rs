//! Selectors: reading a selector, and deciding whether a node matches it.
use vstd::prelude::*;

use crate::arena::{link_view, Arena, NodeData, NodeId};
use crate::forest::{finite_above, height, height_within, lemma_height_raise};
use crate::grammar::{name_class, skip_space};
use crate::parser::is_name_char;
use crate::query::{
    attr_test, compound, compound_holds, first_on_way, joined, lemma_compound, nearest_ancestor,
    parts_above, piece_meaning, selector_holds, selector_meaning, sequence, sequence_holds,
    simple_holds, test_value, Part, Simple,
};
use crate::text::{
    all_but, alphabetic, chars_of, is_ascii_whitespace, lemma_span_is, pieces, same_text, span,
    string_of, take_while, text_contains, text_ends_with, text_has_word, text_starts_with,
    to_ascii_lowercase, trim_chars, whitespace_class,
};

verus! {

/// One test on an element.
#[derive(Debug, Clone)]
pub enum SimpleSelector {
    Tag(String),
    Id(String),
    Class(String),
    AttrExists(String),
    AttrEquals(String, String),
    AttrContainsWord(String, String),
    AttrStartsWith(String, String),
    AttrEndsWith(String, String),
    AttrContains(String, String),
}

impl View for SimpleSelector {
    type V = Simple;

    open spec fn view(&self) -> Simple {
        match self {
            SimpleSelector::Tag(t) => Simple::Tag(t@),
            SimpleSelector::Id(v) => Simple::Id(v@),
            SimpleSelector::Class(c) => Simple::Class(c@),
            SimpleSelector::AttrExists(a) => Simple::AttrExists(a@),
            SimpleSelector::AttrEquals(a, v) => Simple::AttrEquals(a@, v@),
            SimpleSelector::AttrContainsWord(a, v) => Simple::AttrContainsWord(a@, v@),
            SimpleSelector::AttrStartsWith(a, v) => Simple::AttrStartsWith(a@, v@),
            SimpleSelector::AttrEndsWith(a, v) => Simple::AttrEndsWith(a@, v@),
            SimpleSelector::AttrContains(a, v) => Simple::AttrContains(a@, v@),
        }
    }
}

/// Tests that one element has to pass together.
#[derive(Debug, Clone)]
pub struct CompoundSelector {
    pub parts: Vec<SimpleSelector>,
}

impl View for CompoundSelector {
    type V = Seq<Simple>;

    open spec fn view(&self) -> Seq<Simple> {
        self.parts@.map_values(|s: SimpleSelector| s@)
    }
}

/// How two compounds are joined.
#[derive(Debug, Clone, Copy, PartialEq, Eq, Structural)]
pub enum Combinator {
    Descendant,
    Child,
}

/// A compound, and how it is joined to the next one.
#[derive(Debug, Clone)]
pub struct SelectorPart {
    pub compound: CompoundSelector,
    pub combinator: Option<Combinator>,
}

impl View for SelectorPart {
    type V = Part;

    open spec fn view(&self) -> Part {
        Part { compound: self.compound@, combinator: self.combinator }
    }
}

/// Compounds, from the outermost element to the one that is looked for.
#[derive(Debug, Clone)]
pub struct SelectorSequence {
    pub parts: Vec<SelectorPart>,
}

impl View for SelectorSequence {
    type V = Seq<Part>;

    open spec fn view(&self) -> Seq<Part> {
        self.parts@.map_values(|p: SelectorPart| p@)
    }
}

/// A selector: what matches one of its alternatives matches it.
#[derive(Debug, Clone)]
pub struct Selector {
    alternatives: Vec<SelectorSequence>,
}

impl View for Selector {
    type V = Seq<Seq<Part>>;

    closed spec fn view(&self) -> Seq<Seq<Part>> {
        self.alternatives@.map_values(|s: SelectorSequence| s@)
    }
}

impl Selector {
    /// Reads a selector. A piece between commas that has no meaning is left out.
    pub fn parse(text: &str) -> (r: Selector)
        ensures
            r@ == selector_meaning(text@),
    {
        let chars: Vec<char> = chars_of(text);
        let mut alternatives: Vec<SelectorSequence> = Vec::new();
        let mut i: usize = 0;
        let mut more: bool = true;
        let ghost mut done: Seq<Seq<char>> = Seq::empty();
        assert(text@.skip(0) =~= text@);
        assert(done + pieces(text@, ',') =~= pieces(text@, ','));
        while more
            invariant
                chars@ == text@,
                i <= chars@.len(),
                more ==> pieces(text@, ',') == done + pieces(text@.skip(i as int), ','),
                !more ==> pieces(text@, ',') == done,
                alternatives@.map_values(|s: SelectorSequence| s@) == done.filter_map(
                    piece_meaning(),
                ),
            decreases
                    chars@.len() - i + (if more {
                        1int
                    } else {
                        0int
                    }),
        {
            let start: usize = i;
            let ghost rest = text@.skip(start as int);
            while i < chars.len() && chars[i] != ','
                invariant
                    chars@ == text@,
                    start <= i <= chars@.len(),
                    forall|k: int| start <= k < i ==> #[trigger] chars@[k] != ',',
                decreases chars@.len() - i,
            {
                i += 1;
            }
            proof {
                assert forall|k: int| 0 <= k < i - start implies all_but(',')(
                    #[trigger] rest[k],
                ) by {
                    assert(rest[k] == chars@[start + k]);
                }
                lemma_span_is(rest, all_but(','), i - start);
            }
            let piece: &[char] = &chars.as_slice()[start..i];
            assert(piece@ =~= rest.take(i - start));
            let ghost before = alternatives@;
            if let Some(found) = parse_selector_sequence(trim_chars(piece)) {
                alternatives.push(found);
            }
            proof {
                let next = done.push(piece@);
                assert(next.drop_last() =~= done);
                lemma_filter_map_push(done, piece@, piece_meaning());
                assert(alternatives@.map_values(|s: SelectorSequence| s@)
                    =~= next.filter_map(piece_meaning()));
                if i < chars@.len() {
                    assert(rest.skip(i - start + 1) =~= text@.skip(i + 1));
                    assert(done + (seq![rest.take(i - start)] + pieces(text@.skip(i + 1), ','))
                        =~= next + pieces(text@.skip(i + 1), ','));
                } else {
                    assert(rest =~= rest.take(i - start));
                    assert(done + seq![rest] =~= next);
                }
                done = next;
            }
            if i < chars.len() {
                i += 1;
            } else {
                more = false;
            }
        }
        Selector { alternatives }
    }

    /// Whether a node matches the selector.
    pub fn matches(&self, arena: &Arena, id: NodeId) -> (b: bool)
        requires
            finite_above(arena@, id.0 as int),
        ensures
            b == selector_holds(arena@, self@, id.0 as int),
    {
        let mut i: usize = 0;
        while i < self.alternatives.len()
            invariant
                finite_above(arena@, id.0 as int),
                i <= self.alternatives@.len(),
                self@.len() == self.alternatives@.len(),
                forall|k: int| 0 <= k < i ==> !sequence_holds(
                    arena@,
                    #[trigger] self@[k],
                    id.0 as int,
                ),
            decreases self.alternatives@.len() - i,
        {
            assert(self@[i as int] == self.alternatives@[i as int]@);
            if self.alternatives[i].matches(arena, id) {
                return true;
            }
            i += 1;
        }
        false
    }
}

// ---------------------------------------------------------------------------
// Matching
// ---------------------------------------------------------------------------
impl SelectorSequence {
    /// Whether a node matches the sequence: it passes the last compound, and the others are found
    /// above it, from the last to the first.
    pub fn matches(&self, arena: &Arena, id: NodeId) -> (b: bool)
        requires
            finite_above(arena@, id.0 as int),
        ensures
            b == sequence_holds(arena@, self@, id.0 as int),
    {
        if self.parts.len() == 0 {
            return false;
        }
        let last: usize = self.parts.len() - 1;
        assert(self@.last() == self.parts@[last as int]@);
        if !compound_matches(arena, id, &self.parts[last].compound) {
            return false;
        }
        let mut current: NodeId = id;
        let mut i: usize = last;
        while i > 0
            invariant
                i <= last == self.parts@.len() - 1,
                self@.len() == self.parts@.len(),
                finite_above(arena@, current.0 as int),
                parts_above(arena@, self@, last as nat, id.0 as int) == parts_above(
                    arena@,
                    self@,
                    i as nat,
                    current.0 as int,
                ),
            ensures
                parts_above(arena@, self@, last as nat, id.0 as int),
            decreases i,
        {
            i -= 1;
            let part: &SelectorPart = &self.parts[i];
            assert(self@[i as int] == part@);
            let ghost h = height(arena@, current.0 as int);
            let ghost from = current.0 as int;
            assert(height_within(arena@, from, h));
            match part.combinator {
                Some(Combinator::Child) => match arena.get(current).parent {
                    Some(p) => {
                        assert(height_within(arena@, p.0 as int, (h - 1) as nat));
                        if !compound_matches(arena, p, &part.compound) {
                            return false;
                        }
                        current = p;
                    },
                    None => {
                        return false;
                    },
                },
                _ => match find_ancestor(arena, current, &part.compound) {
                    Some(a) => {
                        current = a;
                    },
                    None => {
                        return false;
                    },
                },
            }
        }
        true
    }
}

/// The nearest ancestor of a node that passes a compound.
fn find_ancestor(arena: &Arena, id: NodeId, compound: &CompoundSelector) -> (r: Option<NodeId>)
    requires
        finite_above(arena@, id.0 as int),
    ensures
        link_view(r) == nearest_ancestor(arena@, id.0 as int, compound@),
        r matches Some(a) ==> finite_above(arena@, a.0 as int),
{
    let mut ancestor: Option<NodeId> = arena.get(id).parent;
    let ghost mut h = height(arena@, id.0 as int);
    proof {
        assert(height_within(arena@, id.0 as int, h));
        if let Some(p) = ancestor {
            lemma_height_raise(arena@, p.0 as int, (h - 1) as nat, h);
        }
    }
    loop
        invariant
            ancestor matches Some(a) ==> height_within(arena@, a.0 as int, h),
            first_on_way(arena@, link_view(ancestor), compound@, h) == nearest_ancestor(
                arena@,
                id.0 as int,
                compound@,
            ),
        decreases h,
    {
        match ancestor {
            Some(a) => {
                if compound_matches(arena, a, compound) {
                    return Some(a);
                }
                ancestor = arena.get(a).parent;
            },
            None => {
                return None;
            },
        }
        proof {
            h = (h - 1) as nat;
        }
    }
}

/// Whether a node passes all tests of a compound.
fn compound_matches(arena: &Arena, id: NodeId, compound: &CompoundSelector) -> (b: bool)
    requires
        id.0 < arena@.len(),
    ensures
        b == compound_holds(arena@[id.0 as int].data, compound@),
{
    let mut i: usize = 0;
    while i < compound.parts.len()
        invariant
            id.0 < arena@.len(),
            i <= compound.parts@.len(),
            compound@.len() == compound.parts@.len(),
            forall|k: int| 0 <= k < i ==> simple_holds(
                arena@[id.0 as int].data,
                #[trigger] compound@[k],
            ),
        decreases compound.parts@.len() - i,
    {
        assert(compound@[i as int] == compound.parts@[i as int]@);
        if !simple_matches(arena, id, &compound.parts[i]) {
            return false;
        }
        i += 1;
    }
    true
}

/// Whether a node passes a test.
fn simple_matches(arena: &Arena, id: NodeId, sel: &SimpleSelector) -> (b: bool)
    requires
        id.0 < arena@.len(),
    ensures
        b == simple_holds(arena@[id.0 as int].data, sel@),
{
    match &arena.get(id).data {
        NodeData::Element { tag, attrs } => match sel {
            SimpleSelector::Tag(t) => same_text(t.as_str(), "*") || same_text(
                t.as_str(),
                tag.as_str(),
            ),
            SimpleSelector::Id(v) => match attrs.get("id") {
                Some(Some(s)) => same_text(s.as_str(), v.as_str()),
                _ => false,
            },
            SimpleSelector::Class(c) => match attrs.get("class") {
                Some(Some(s)) => text_has_word(s.as_str(), c.as_str()),
                _ => false,
            },
            SimpleSelector::AttrExists(a) => attrs.contains_key(a.as_str()),
            SimpleSelector::AttrEquals(a, v) => match attrs.get(a.as_str()) {
                Some(Some(s)) => same_text(s.as_str(), v.as_str()),
                _ => false,
            },
            SimpleSelector::AttrContainsWord(a, v) => match attrs.get(a.as_str()) {
                Some(Some(s)) => text_has_word(s.as_str(), v.as_str()),
                _ => false,
            },
            SimpleSelector::AttrStartsWith(a, v) => match attrs.get(a.as_str()) {
                Some(Some(s)) => text_starts_with(s.as_str(), v.as_str()),
                _ => false,
            },
            SimpleSelector::AttrEndsWith(a, v) => match attrs.get(a.as_str()) {
                Some(Some(s)) => text_ends_with(s.as_str(), v.as_str()),
                _ => false,
            },
            SimpleSelector::AttrContains(a, v) => match attrs.get(a.as_str()) {
                Some(Some(s)) => text_contains(s.as_str(), v.as_str()),
                _ => false,
            },
        },
        _ => false,
    }
}

// ---------------------------------------------------------------------------
// Reading
// ---------------------------------------------------------------------------
/// Where the white space ends that stands at a position.
fn skip_blank(chars: &[char], at: usize) -> (i: usize)
    requires
        at <= chars@.len(),
    ensures
        at <= i <= chars@.len(),
        chars@.skip(i as int) == skip_space(chars@.skip(at as int)),
{
    let ghost rest = chars@.skip(at as int);
    let mut i: usize = at;
    while i < chars.len() && is_ascii_whitespace(chars[i])
        invariant
            at <= i <= chars@.len(),
            rest == chars@.skip(at as int),
            forall|k: int| 0 <= k < i - at ==> whitespace_class()(#[trigger] rest[k]),
        decreases chars@.len() - i,
    {
        assert(rest[i - at] == chars@[i as int]);
        i += 1;
    }
    proof {
        if i < chars@.len() {
            assert(rest[i - at] == chars@[i as int]);
        }
        lemma_span_is(rest, whitespace_class(), i - at);
        assert(rest.skip(i - at) =~= chars@.skip(i as int));
    }
    i
}

/// The name that some characters begin with, and its length.
fn consume_ident(chars: &[char]) -> (r: (String, usize))
    ensures
        r.0@ == take_while(chars@, name_class()),
        r.1 == span(chars@, name_class()),
        r.1 <= chars@.len(),
{
    let mut i: usize = 0;
    while i < chars.len() && is_name_char(chars[i])
        invariant
            i <= chars@.len(),
            forall|k: int| 0 <= k < i ==> name_class()(#[trigger] chars@[k]),
        decreases chars@.len() - i,
    {
        i += 1;
    }
    proof {
        lemma_span_is(chars@, name_class(), i as int);
    }
    (string_of(&chars[0..i]), i)
}

/// An attribute test from behind its `[`, and how many characters it takes.
fn parse_attr_sel(chars: &[char]) -> (r: Option<(SimpleSelector, usize)>)
    ensures
        match r {
            Some((test, n)) => n <= chars@.len() && attr_test(chars@) == Some(
                (test@, chars@.skip(n as int)),
            ),
            None => attr_test(chars@) is None,
        },
{
    let (attr, n) = consume_ident(chars);
    let mut i: usize = skip_blank(chars, n);
    let ghost t = chars@.skip(i as int);
    if i >= chars.len() {
        return None;
    }
    assert(t[0] == chars@[i as int]);
    let name: String = to_ascii_lowercase(attr.as_str());
    if chars[i] == ']' {
        assert(t.skip(1) =~= chars@.skip(i + 1));
        return Some((SimpleSelector::AttrExists(name), i + 1));
    }
    let sign: Option<char> = if chars[i] == '=' {
        assert(t.skip(1) =~= chars@.skip(i + 1));
        i += 1;
        None
    } else if i + 1 < chars.len() && chars[i + 1] == '=' {
        assert(t[1] == chars@[i + 1]);
        assert(t.skip(2) =~= chars@.skip(i + 2));
        let c: char = chars[i];
        i += 2;
        Some(c)
    } else {
        assert(t.len() > 1 ==> t[1] == chars@[i + 1]);
        return None;
    };
    i = skip_blank(chars, i);
    let (val, m) = parse_test_value(&chars[i..chars.len()]);
    assert(chars@.subrange(i as int, chars@.len() as int) =~= chars@.skip(i as int));
    assert(chars@.skip(i as int).skip(m as int) =~= chars@.skip(i + m));
    i = skip_blank(chars, i + m);
    if i < chars.len() && chars[i] == ']' {
        assert(chars@.skip(i as int).skip(1) =~= chars@.skip(i + 1));
        i += 1;
    }
    let test: SimpleSelector = match sign {
        None => SimpleSelector::AttrEquals(name, val),
        Some('~') => SimpleSelector::AttrContainsWord(name, val),
        Some('^') => SimpleSelector::AttrStartsWith(name, val),
        Some('$') => SimpleSelector::AttrEndsWith(name, val),
        Some('*') => SimpleSelector::AttrContains(name, val),
        _ => {
            return None;
        },
    };
    Some((test, i))
}

/// The value in an attribute test, and how many characters it takes.
fn parse_test_value(chars: &[char]) -> (r: (String, usize))
    ensures
        r.1 <= chars@.len(),
        (r.0@, chars@.skip(r.1 as int)) == test_value(chars@),
{
    if chars.len() > 0 && (chars[0] == '"' || chars[0] == '\'') {
        let quote: char = chars[0];
        let ghost body = chars@.skip(1);
        let mut i: usize = 1;
        while i < chars.len() && chars[i] != quote
            invariant
                1 <= i <= chars@.len(),
                body == chars@.skip(1),
                forall|k: int| 0 <= k < i - 1 ==> all_but(quote)(#[trigger] body[k]),
            decreases chars@.len() - i,
        {
            assert(body[i - 1] == chars@[i as int]);
            i += 1;
        }
        proof {
            if i < chars@.len() {
                assert(body[i - 1] == chars@[i as int]);
            }
            lemma_span_is(body, all_but(quote), i - 1);
            assert(body.skip(i - 1) =~= chars@.skip(i as int));
            assert(body.take(i - 1) =~= chars@.subrange(1, i as int));
        }
        let val: String = string_of(&chars[1..i]);
        if i < chars.len() {
            assert(chars@.skip(i as int).skip(1) =~= chars@.skip(i + 1));
            i += 1;
        }
        (val, i)
    } else {
        consume_ident(chars)
    }
}

/// The tests of a compound that some characters begin with, and how many characters they take.
fn parse_compound(chars: &[char]) -> (r: Option<(CompoundSelector, usize)>)
    ensures
        match r {
            Some((c, n)) => n <= chars@.len() && compound(chars@, Seq::empty()) == Some(
                (c@, chars@.skip(n as int)),
            ),
            None => compound(chars@, Seq::empty()) is None,
        },
{
    let mut simples: Vec<SimpleSelector> = Vec::new();
    let mut i: usize = 0;
    assert(chars@.skip(0) =~= chars@);
    assert(views(simples@) =~= Seq::empty());
    while i < chars.len()
        invariant_except_break
            compound(chars@, Seq::empty()) == compound(chars@.skip(i as int), views(simples@)),
        invariant
            i <= chars@.len(),
        ensures
            compound(chars@, Seq::empty()) == (if simples@.len() == 0 {
                None
            } else {
                Some((views(simples@), chars@.skip(i as int)))
            }),
        decreases chars@.len() - i,
    {
        let c: char = chars[i];
        let ghost s = chars@.skip(i as int);
        let ghost before = simples@;
        assert(s[0] == c);
        assert(s.skip(1) =~= chars@.skip(i + 1));
        if is_ascii_whitespace(c) || c == '>' || c == ',' {
            break;
        } else if c == '#' || c == '.' {
            let (name, n) = consume_ident(&chars[i + 1..chars.len()]);
            assert(chars@.subrange(i + 1, chars@.len() as int) =~= s.skip(1));
            assert(s.skip(1).skip(n as int) =~= chars@.skip(i + 1 + n));
            if c == '#' {
                simples.push(SimpleSelector::Id(name));
            } else {
                simples.push(SimpleSelector::Class(name));
            }
            i += 1 + n;
        } else if c == '[' {
            match parse_attr_sel(&chars[i + 1..chars.len()]) {
                Some((test, n)) => {
                    assert(chars@.subrange(i + 1, chars@.len() as int) =~= s.skip(1));
                    assert(s.skip(1).skip(n as int) =~= chars@.skip(i + 1 + n));
                    simples.push(test);
                    i += 1 + n;
                },
                None => {
                    assert(chars@.subrange(i + 1, chars@.len() as int) =~= s.skip(1));
                    return None;
                },
            }
        } else if c == '*' {
            simples.push(SimpleSelector::Tag(string_of(&chars[i..i + 1])));
            proof {
                reveal_strlit("*");
                assert(chars@.subrange(i as int, i + 1) =~= "*"@);
            }
            i += 1;
        } else if c.is_alphabetic() || c == '_' {
            let (name, n) = consume_ident(&chars[i..chars.len()]);
            assert(chars@.subrange(i as int, chars@.len() as int) =~= s);
            assert(s.skip(n as int) =~= chars@.skip(i + n));
            proof {
                lemma_name_start(s);
            }
            simples.push(SimpleSelector::Tag(to_ascii_lowercase(name.as_str())));
            i += n;
        } else {
            break;
        }
        assert(views(simples@) =~= views(before).push(simples@.last()@));
    }
    if simples.len() == 0 {
        return None;
    }
    Some((CompoundSelector { parts: simples }, i))
}

/// The meanings of some tests.
spec fn views(tests: Seq<SimpleSelector>) -> Seq<Simple> {
    tests.map_values(|s: SimpleSelector| s@)
}

/// A letter or an underscore begins a name.
proof fn lemma_name_start(s: Seq<char>)
    requires
        s.len() > 0,
        alphabetic(s[0]) || s[0] == '_',
    ensures
        span(s, name_class()) > 0,
{
}

/// The parts of a selector without commas.
fn parse_selector_sequence(chars: &[char]) -> (r: Option<SelectorSequence>)
    ensures
        match r {
            Some(found) => sequence(chars@, Seq::empty()) == Some(found@),
            None => sequence(chars@, Seq::empty()) is None,
        },
{
    let mut parts: Vec<SelectorPart> = Vec::new();
    let mut i: usize = 0;
    assert(chars@.skip(0) =~= chars@);
    assert(part_views(parts@) =~= Seq::empty());
    while i < chars.len()
        invariant_except_break
            sequence(chars@, Seq::empty()) == sequence(chars@.skip(i as int), part_views(parts@)),
        invariant
            i <= chars@.len(),
        ensures
            sequence(chars@, Seq::empty()) == (if parts@.len() == 0 {
                None
            } else {
                Some(part_views(parts@))
            }),
        decreases chars@.len() - i,
    {
        let ghost s = chars@.skip(i as int);
        let start: usize = i;
        let ghost before = parts@;
        i = skip_blank(chars, i);
        if i >= chars.len() {
            break;
        }
        let mut join: Option<Combinator> = None;
        if chars[i] == '>' {
            join = Some(Combinator::Child);
            assert(chars@.skip(i as int).skip(1) =~= chars@.skip(i + 1));
            i = skip_blank(chars, i + 1);
            if i >= chars.len() {
                break;
            }
        } else if i > start && parts.len() > 0 {
            join = Some(Combinator::Descendant);
        }
        let ghost u = chars@.skip(i as int);
        match parse_compound(&chars[i..chars.len()]) {
            Some((compound, n)) => {
                proof {
                    assert(chars@.subrange(i as int, chars@.len() as int) =~= u);
                    assert(u.skip(n as int) =~= chars@.skip(i + n));
                    lemma_compound(u, Seq::empty());
                }
                if parts.len() > 0 {
                    let k: usize = parts.len() - 1;
                    parts[k].combinator = join;
                }
                let ghost tests = compound@;
                parts.push(SelectorPart { compound, combinator: None });
                i += n;
                assert(part_views(parts@) =~= joined(part_views(before), join, tests));
            },
            None => {
                assert(chars@.subrange(i as int, chars@.len() as int) =~= u);
                return None;
            },
        }
    }
    if parts.len() == 0 {
        return None;
    }
    Some(SelectorSequence { parts })
}

/// The meanings of some parts.
spec fn part_views(parts: Seq<SelectorPart>) -> Seq<Part> {
    parts.map_values(|p: SelectorPart| p@)
}

/// What `filter_map` makes of one more item.
proof fn lemma_filter_map_push<A, B>(s: Seq<A>, x: A, f: spec_fn(A) -> Option<B>)
    ensures
        s.push(x).filter_map(f) == (match f(x) {
            Some(y) => s.filter_map(f).push(y),
            None => s.filter_map(f),
        }),
{
    let t = s.push(x);
    t.lemma_filter_map_take_succ(f, s.len() as int);
    assert(t.take(s.len() as int) =~= s);
    assert(t.take((s.len() + 1) as int) =~= t);
}

} // verus!
