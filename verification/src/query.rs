//! The selector language: what each selector text means, and which nodes a selector matches.
use vstd::prelude::*;

use crate::attrs::{has_name, lookup};
use crate::forest::{descendants, height, Nodes};
use crate::grammar::{name_class, skip_char, skip_space};
use crate::selector::Combinator;
use crate::text::{
    all_but, alphabetic, ascii_whitespace, drop_while, has_word, lemma_span, lowered, occurs_in,
    pieces, take_while, trimmed, whitespace_class,
};
use crate::tree::Content;

verus! {

/// One test on an element.
pub enum Simple {
    Tag(Seq<char>),
    Id(Seq<char>),
    Class(Seq<char>),
    AttrExists(Seq<char>),
    AttrEquals(Seq<char>, Seq<char>),
    AttrContainsWord(Seq<char>, Seq<char>),
    AttrStartsWith(Seq<char>, Seq<char>),
    AttrEndsWith(Seq<char>, Seq<char>),
    AttrContains(Seq<char>, Seq<char>),
}

/// Tests that one element has to pass together, and how the part is joined to the next.
pub struct Part {
    pub compound: Seq<Simple>,
    pub combinator: Option<Combinator>,
}

// ---------------------------------------------------------------------------
// Matching
// ---------------------------------------------------------------------------
/// Whether a node passes a test. Only elements do; a test on a value fails where the attribute is
/// missing or has no value.
pub open spec fn simple_holds(data: Content, test: Simple) -> bool {
    match data {
        Content::Element { tag, attrs } => match test {
            Simple::Tag(t) => t == "*"@ || t == tag,
            Simple::Id(v) => lookup(attrs, "id"@) == Some(Some(v)),
            Simple::Class(c) => lookup(attrs, "class"@) matches Some(Some(s)) && has_word(s, c),
            Simple::AttrExists(a) => has_name(attrs, a),
            Simple::AttrEquals(a, v) => lookup(attrs, a) == Some(Some(v)),
            Simple::AttrContainsWord(a, v) => lookup(attrs, a) matches Some(Some(s)) && has_word(
                s,
                v,
            ),
            Simple::AttrStartsWith(a, v) => lookup(attrs, a) matches Some(Some(s))
                && v.is_prefix_of(s),
            Simple::AttrEndsWith(a, v) => lookup(attrs, a) matches Some(Some(s))
                && v.is_suffix_of(s),
            Simple::AttrContains(a, v) => lookup(attrs, a) matches Some(Some(s)) && occurs_in(v, s),
        },
        _ => false,
    }
}

/// Whether a node passes all tests of a part.
pub open spec fn compound_holds(data: Content, tests: Seq<Simple>) -> bool {
    forall|i: int| 0 <= i < tests.len() ==> simple_holds(data, #[trigger] tests[i])
}

/// The first node on a way up that passes all tests of a part.
pub open spec fn first_on_way(
    nodes: Nodes,
    start: Option<int>,
    tests: Seq<Simple>,
    height: nat,
) -> Option<int>
    decreases height,
{
    match start {
        Some(a) => if height == 0 {
            None
        } else if compound_holds(nodes[a].data, tests) {
            Some(a)
        } else {
            first_on_way(nodes, nodes[a].parent, tests, (height - 1) as nat)
        },
        None => None,
    }
}

/// The nearest ancestor that passes all tests of a part.
pub open spec fn nearest_ancestor(nodes: Nodes, id: int, tests: Seq<Simple>) -> Option<int> {
    first_on_way(nodes, nodes[id].parent, tests, height(nodes, id))
}

/// Whether the first `k` parts of a selector are found above a node, from the last of them to the
/// first: after `>` in the parent, else in the nearest ancestor that passes its tests. A choice is
/// not taken back.
pub open spec fn parts_above(nodes: Nodes, parts: Seq<Part>, k: nat, id: int) -> bool
    decreases k,
{
    if k == 0 {
        true
    } else {
        let part = parts[k - 1];
        match part.combinator {
            Some(Combinator::Child) => match nodes[id].parent {
                Some(p) => compound_holds(nodes[p].data, part.compound) && parts_above(
                    nodes,
                    parts,
                    (k - 1) as nat,
                    p,
                ),
                None => false,
            },
            _ => match nearest_ancestor(nodes, id, part.compound) {
                Some(a) => parts_above(nodes, parts, (k - 1) as nat, a),
                None => false,
            },
        }
    }
}

/// Whether a node matches a sequence of parts: the last part in the node itself, the others above.
pub open spec fn sequence_holds(nodes: Nodes, parts: Seq<Part>, id: int) -> bool {
    &&& parts.len() > 0
    &&& compound_holds(nodes[id].data, parts.last().compound)
    &&& parts_above(nodes, parts, (parts.len() - 1) as nat, id)
}

/// Whether a node matches one of several sequences of parts.
pub open spec fn selector_holds(nodes: Nodes, alternatives: Seq<Seq<Part>>, id: int) -> bool {
    exists|i: int|
        0 <= i < alternatives.len() && sequence_holds(nodes, #[trigger] alternatives[i], id)
}

/// Matching a selector text, as a property of a node.
pub open spec fn selects(nodes: Nodes, text: Seq<char>) -> spec_fn(int) -> bool {
    |id: int| selector_holds(nodes, selector_meaning(text), id)
}

/// The nodes below a node, in document order, that match a selector text.
pub open spec fn all_matches(nodes: Nodes, start: int, text: Seq<char>) -> Seq<int> {
    descendants(nodes, start).filter(selects(nodes, text))
}

/// The first of the nodes below a node that match a selector text.
pub open spec fn first_match(nodes: Nodes, start: int, text: Seq<char>) -> Option<int> {
    let found = all_matches(nodes, start, text);
    if found.len() > 0 {
        Some(found[0])
    } else {
        None
    }
}

/// What `filter` makes of one more item.
pub proof fn lemma_filter_take(s: Seq<int>, i: int, keep: spec_fn(int) -> bool)
    requires
        0 <= i < s.len(),
    ensures
        s.take(i + 1).filter(keep) == (if keep(s[i]) {
            s.take(i).filter(keep).push(s[i])
        } else {
            s.take(i).filter(keep)
        }),
{
    reveal(Seq::filter);
    assert(s.take(i + 1).drop_last() =~= s.take(i));
}

/// The first item that `filter` keeps stays the first.
pub proof fn lemma_filter_keeps_first(s: Seq<int>, i: int, keep: spec_fn(int) -> bool)
    requires
        0 <= i < s.len(),
        keep(s[i]),
        s.take(i).filter(keep).len() == 0,
    ensures
        s.filter(keep).len() > 0,
        s.filter(keep)[0] == s[i],
    decreases s.len() - i,
{
    lemma_filter_take(s, i, keep);
    lemma_filter_grows(s, i + 1, keep);
}

proof fn lemma_filter_grows(s: Seq<int>, i: int, keep: spec_fn(int) -> bool)
    requires
        0 <= i <= s.len(),
    ensures
        s.take(i).filter(keep).is_prefix_of(s.filter(keep)),
    decreases s.len() - i,
{
    if i == s.len() {
        assert(s.take(i) =~= s);
    } else {
        lemma_filter_take(s, i, keep);
        lemma_filter_grows(s, i + 1, keep);
        let a = s.take(i).filter(keep);
        let b = s.take(i + 1).filter(keep);
        let c = s.filter(keep);
        assert(a =~= c.subrange(0, a.len() as int)) by {
            assert(b == c.subrange(0, b.len() as int));
            assert forall|k: int| 0 <= k < a.len() implies a[k] == c[k] by {
                assert(a[k] == b[k]);
                assert(b[k] == c.subrange(0, b.len() as int)[k]);
            }
        }
    }
}

// ---------------------------------------------------------------------------
// Reading
// ---------------------------------------------------------------------------
/// The value in an attribute test: between quotes, or a name. A quote that is not closed reaches
/// to the end of the text.
pub open spec fn test_value(s: Seq<char>) -> (Seq<char>, Seq<char>) {
    if s.len() > 0 && (s[0] == '"' || s[0] == '\'') {
        let body = s.skip(1);
        (
            take_while(body, all_but(s[0])),
            skip_char(drop_while(body, all_but(s[0])), s[0]),
        )
    } else {
        (take_while(s, name_class()), drop_while(s, name_class()))
    }
}

/// The comparison that a sign before `=` stands for.
pub open spec fn comparison(sign: Option<char>, name: Seq<char>, value: Seq<char>) -> Option<
    Simple,
> {
    match sign {
        None => Some(Simple::AttrEquals(name, value)),
        Some(c) => if c == '~' {
            Some(Simple::AttrContainsWord(name, value))
        } else if c == '^' {
            Some(Simple::AttrStartsWith(name, value))
        } else if c == '$' {
            Some(Simple::AttrEndsWith(name, value))
        } else if c == '*' {
            Some(Simple::AttrContains(name, value))
        } else {
            None
        },
    }
}

/// An attribute test from behind its `[`. The name is put in lower case, and the `]` after a value
/// may be missing.
pub open spec fn attr_test(s: Seq<char>) -> Option<(Simple, Seq<char>)> {
    let name = lowered(take_while(s, name_class()));
    let t = skip_space(drop_while(s, name_class()));
    if t.len() == 0 {
        None
    } else if t[0] == ']' {
        Some((Simple::AttrExists(name), t.skip(1)))
    } else if t[0] != '=' && !(t.len() > 1 && t[1] == '=') {
        None
    } else {
        let plain = t[0] == '=';
        let (value, u) = test_value(
            skip_space(
                if plain {
                    t.skip(1)
                } else {
                    t.skip(2)
                },
            ),
        );
        let sign = if plain {
            None
        } else {
            Some(t[0])
        };
        match comparison(sign, name, value) {
            Some(test) => Some((test, skip_char(skip_space(u), ']'))),
            None => None,
        }
    }
}

/// The tests of a part, added to those that were read before, up to white space, `>`, `,` or
/// anything that does not begin a test. There has to be one at least.
pub open spec fn compound(s: Seq<char>, before: Seq<Simple>) -> Option<(Seq<Simple>, Seq<char>)>
    decreases s.len(),
{
    proof {
        lemma_span(s, name_class());
        lemma_span(s.skip(1), name_class());
        lemma_attr_test(s.skip(1));
    }
    let done = if before.len() == 0 {
        None
    } else {
        Some((before, s))
    };
    if s.len() == 0 {
        done
    } else if ascii_whitespace(s[0]) || s[0] == '>' || s[0] == ',' {
        done
    } else if s[0] == '#' {
        let name = take_while(s.skip(1), name_class());
        compound(drop_while(s.skip(1), name_class()), before.push(Simple::Id(name)))
    } else if s[0] == '.' {
        let name = take_while(s.skip(1), name_class());
        compound(drop_while(s.skip(1), name_class()), before.push(Simple::Class(name)))
    } else if s[0] == '[' {
        match attr_test(s.skip(1)) {
            Some((test, rest)) => compound(rest, before.push(test)),
            None => None,
        }
    } else if s[0] == '*' {
        compound(s.skip(1), before.push(Simple::Tag("*"@)))
    } else if alphabetic(s[0]) || s[0] == '_' {
        let name = take_while(s, name_class());
        compound(drop_while(s, name_class()), before.push(Simple::Tag(lowered(name))))
    } else {
        done
    }
}

/// Parts, with one more that is joined to the last by `join`.
pub open spec fn joined(parts: Seq<Part>, join: Option<Combinator>, tests: Seq<Simple>) -> Seq<
    Part,
> {
    let linked = if parts.len() == 0 {
        parts
    } else {
        parts.update(parts.len() - 1, Part { combinator: join, ..parts.last() })
    };
    linked.push(Part { compound: tests, combinator: None })
}

/// The parts of a selector, added to those that were read before. There has to be one at least. A
/// `>` at the end joins nothing.
pub open spec fn sequence(s: Seq<char>, before: Seq<Part>) -> Option<Seq<Part>>
    decreases s.len(),
{
    let t = skip_space(s);
    let child = t.len() > 0 && t[0] == '>';
    let u = if child {
        skip_space(t.skip(1))
    } else {
        t
    };
    let join = if child {
        Some(Combinator::Child)
    } else if t.len() < s.len() && before.len() > 0 {
        Some(Combinator::Descendant)
    } else {
        None
    };
    proof {
        lemma_span(s, whitespace_class());
        lemma_span(t.skip(1), whitespace_class());
        lemma_compound(u, Seq::empty());
    }
    if u.len() == 0 {
        if before.len() == 0 {
            None
        } else {
            Some(before)
        }
    } else {
        match compound(u, Seq::empty()) {
            Some((tests, rest)) => sequence(rest, joined(before, join, tests)),
            None => None,
        }
    }
}

/// The sequence of parts that a piece between commas stands for.
pub open spec fn piece_meaning() -> spec_fn(Seq<char>) -> Option<Seq<Part>> {
    |piece: Seq<char>| sequence(trimmed(piece), Seq::empty())
}

/// What a selector stands for: the meaning of each piece between commas, without those that have
/// none.
pub open spec fn selector_meaning(s: Seq<char>) -> Seq<Seq<Part>> {
    pieces(s, ',').filter_map(piece_meaning())
}

// ---------------------------------------------------------------------------
// How much the rules read
// ---------------------------------------------------------------------------
/// Reading the value in a test leaves no more than there was.
pub proof fn lemma_test_value(s: Seq<char>)
    ensures
        test_value(s).1.len() <= s.len(),
{
    if s.len() > 0 && (s[0] == '"' || s[0] == '\'') {
        lemma_span(s.skip(1), all_but(s[0]));
    } else {
        lemma_span(s, name_class());
    }
}

/// Reading a test leaves no more than there was.
pub proof fn lemma_attr_test(s: Seq<char>)
    ensures
        attr_test(s) matches Some((_, rest)) ==> rest.len() <= s.len(),
{
    let t = skip_space(drop_while(s, name_class()));
    lemma_span(s, name_class());
    lemma_span(drop_while(s, name_class()), whitespace_class());
    if t.len() > 0 {
        let v = if t[0] == '=' {
            t.skip(1)
        } else {
            t.skip(2)
        };
        lemma_span(v, whitespace_class());
        lemma_test_value(skip_space(v));
        lemma_span(test_value(skip_space(v)).1, whitespace_class());
    }
}

/// Reading the tests of a part leaves no more than there was, and less where there were none
/// before.
pub proof fn lemma_compound(s: Seq<char>, before: Seq<Simple>)
    ensures
        compound(s, before) matches Some((tests, rest)) ==> {
            &&& rest.len() <= s.len()
            &&& before.len() == 0 ==> rest.len() < s.len()
            &&& tests.len() > 0
        },
    decreases s.len(),
{
    lemma_span(s, name_class());
    lemma_span(s.skip(1), name_class());
    lemma_attr_test(s.skip(1));
    if s.len() == 0 {
    } else if ascii_whitespace(s[0]) || s[0] == '>' || s[0] == ',' {
    } else if s[0] == '#' {
        let name = take_while(s.skip(1), name_class());
        lemma_compound(drop_while(s.skip(1), name_class()), before.push(Simple::Id(name)));
    } else if s[0] == '.' {
        let name = take_while(s.skip(1), name_class());
        lemma_compound(drop_while(s.skip(1), name_class()), before.push(Simple::Class(name)));
    } else if s[0] == '[' {
        if let Some((test, rest)) = attr_test(s.skip(1)) {
            lemma_compound(rest, before.push(test));
        }
    } else if s[0] == '*' {
        lemma_compound(s.skip(1), before.push(Simple::Tag("*"@)));
    } else if alphabetic(s[0]) || s[0] == '_' {
        let name = take_while(s, name_class());
        lemma_compound(drop_while(s, name_class()), before.push(Simple::Tag(lowered(name))));
    }
}

} // verus!
