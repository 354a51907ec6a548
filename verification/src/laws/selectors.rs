//! Laws of the selector language: what selectors of each form match.
use vstd::prelude::*;

use crate::attrs::{has_name, lookup};
use crate::forest::{is_below, is_forest, Nodes};
use crate::grammar::{name_char, name_class, skip_space};
use crate::laws::queries::law_nearest_ancestor;
use crate::query::{
    attr_test, comparison, compound, compound_holds, joined, nearest_ancestor, parts_above,
    piece_meaning, selector_holds, selector_meaning, sequence, sequence_holds, simple_holds,
    test_value, Part, Simple,
};
use crate::selector::Combinator;
use crate::text::{
    all_but, alphabetic, ascii_whitespace, drop_while, has_word, lemma_span_is,
    lemma_span_of_concat, lower, lowered, pieces, span, take_while, trimmed, white_space,
    white_space_class, whitespace_class, word_at,
};
use crate::tree::Content;

verus! {

/// Whether a text is made of characters of names.
pub open spec fn name_text(s: Seq<char>) -> bool {
    forall|i: int| 0 <= i < s.len() ==> name_char(#[trigger] s[i]) && !white_space(s[i])
}

/// Whether a text is the name of an element as a selector can give it: it begins with a letter or
/// an underscore.
pub open spec fn tag_text(s: Seq<char>) -> bool {
    name_text(s) && s.len() > 0 && (alphabetic(s[0]) || s[0] == '_')
}

/// Whether a node is an element of a name.
pub open spec fn is_element(data: Content, tag: Seq<char>) -> bool {
    data matches Content::Element { tag: t, .. } && t == tag
}

// ---------------------------------------------------------------------------
// Tests
// ---------------------------------------------------------------------------
/// A boolean attribute passes the test that it is there, and no comparison, not even with an
/// empty value.
pub proof fn law_boolean_attribute_tests(data: Content, name: Seq<char>, value: Seq<char>)
    requires
        data matches Content::Element { attrs, .. } && lookup(attrs, name) == Some(
            None::<Seq<char>>,
        ),
    ensures
        simple_holds(data, Simple::AttrExists(name)),
        !simple_holds(data, Simple::AttrEquals(name, value)),
        !simple_holds(data, Simple::AttrContainsWord(name, value)),
        !simple_holds(data, Simple::AttrStartsWith(name, value)),
        !simple_holds(data, Simple::AttrEndsWith(name, value)),
        !simple_holds(data, Simple::AttrContains(name, value)),
{
}

/// The test of an id is a test of the attribute `id`, and the test of a class is a test of the
/// words of the attribute `class`.
pub proof fn law_id_and_class_are_attributes(data: Content, value: Seq<char>)
    ensures
        simple_holds(data, Simple::Id(value)) <==> simple_holds(
            data,
            Simple::AttrEquals("id"@, value),
        ),
        simple_holds(data, Simple::Class(value)) <==> simple_holds(
            data,
            Simple::AttrContainsWord("class"@, value),
        ),
{
}

/// A value that is equal begins and ends so; a value that begins so, ends so or has such a word
/// holds it; an attribute whose value holds something is there; and what has an attribute is an
/// element.
pub proof fn law_tests_imply_each_other(data: Content, name: Seq<char>, value: Seq<char>)
    ensures
        simple_holds(data, Simple::AttrEquals(name, value)) ==> simple_holds(
            data,
            Simple::AttrStartsWith(name, value),
        ) && simple_holds(data, Simple::AttrEndsWith(name, value)),
        simple_holds(data, Simple::AttrStartsWith(name, value)) || simple_holds(
            data,
            Simple::AttrEndsWith(name, value),
        ) || simple_holds(data, Simple::AttrContainsWord(name, value)) ==> simple_holds(
            data,
            Simple::AttrContains(name, value),
        ),
        simple_holds(data, Simple::AttrContains(name, value)) ==> simple_holds(
            data,
            Simple::AttrExists(name),
        ),
        simple_holds(data, Simple::AttrExists(name)) ==> simple_holds(data, Simple::Tag("*"@)),
{
    if let Content::Element { attrs, .. } = data {
        if let Some(Some(s)) = lookup(attrs, name) {
            assert(s.skip(0) =~= s);
            assert(s.subrange(0, s.len() as int) =~= s);
            if value.is_suffix_of(s) {
                let r = s.skip(s.len() - value.len());
                assert(r =~= value);
                assert(r.subrange(0, r.len() as int) =~= r);
                assert(value.is_prefix_of(s.skip(s.len() - value.len())));
            }
            if has_word(s, value) {
                let (i, j) = choose|i: int, j: int| #[trigger]
                    word_at(s, i, j) && s.subrange(i, j) == value;
                assert(s.skip(i).subrange(0, value.len() as int) =~= s.subrange(i, j));
                assert(value.is_prefix_of(s.skip(i)));
            }
        }
    }
}

// ---------------------------------------------------------------------------
// One part
// ---------------------------------------------------------------------------
/// A selector without commas and outer white space that is read as a single part.
proof fn lemma_one_part(nodes: Nodes, w: Seq<char>, tests: Seq<Simple>, id: int)
    requires
        w.len() > 0,
        !w.contains(','),
        !white_space(w[0]),
        !white_space(w.last()),
        w[0] != '>',
        compound(w, Seq::empty()) == Some((tests, Seq::<char>::empty())),
    ensures
        selector_holds(nodes, selector_meaning(w), id) <==> compound_holds(nodes[id].data, tests),
{
    let part = Part { compound: tests, combinator: None };
    assert(!ascii_whitespace(w[0]));
    lemma_whole(w, whitespace_class());
    assert(joined(Seq::empty(), None, tests) =~= seq![part]);
    lemma_end_of_sequence(seq![part]);
    lemma_meaning(w, seq![part]);
    lemma_one_alternative(nodes, w, seq![part], id);
}

/// A text that does not begin with a character of a class is what follows its span.
proof fn lemma_whole(s: Seq<char>, class: spec_fn(char) -> bool)
    requires
        s.len() > 0 ==> !class(s[0]),
    ensures
        span(s, class) == 0,
        drop_while(s, class) == s,
{
    assert(s.skip(0) =~= s);
}

/// Nothing more to read ends a sequence.
proof fn lemma_end_of_sequence(parts: Seq<Part>)
    requires
        parts.len() > 0,
    ensures
        sequence(Seq::empty(), parts) == Some(parts),
{
    lemma_whole(Seq::empty(), whitespace_class());
}

/// The meaning of a selector without commas and outer white space.
proof fn lemma_meaning(w: Seq<char>, parts: Seq<Part>)
    requires
        w.len() > 0,
        !w.contains(','),
        !white_space(w[0]),
        !white_space(w.last()),
        sequence(w, Seq::empty()) == Some(parts),
    ensures
        selector_meaning(w) == seq![parts],
{
    assert forall|i: int| 0 <= i < w.len() implies all_but(',')(#[trigger] w[i]) by {
        assert(w.contains(w[i]));
    }
    lemma_span_is(w, all_but(','), w.len() as int);
    assert(pieces(w, ',') == seq![w]);
    lemma_whole(w, white_space_class());
    assert(trimmed(w) == w);
    Seq::<Seq<char>>::lemma_filter_map_singleton(w, piece_meaning());
}

/// A selector with one alternative matches what the alternative matches.
proof fn lemma_one_alternative(nodes: Nodes, w: Seq<char>, parts: Seq<Part>, id: int)
    requires
        selector_meaning(w) == seq![parts],
    ensures
        selector_holds(nodes, selector_meaning(w), id) <==> sequence_holds(nodes, parts, id),
{
    assert(seq![parts][0] == parts);
}

proof fn lemma_one_test(data: Content, test: Simple)
    ensures
        compound_holds(data, seq![test]) <==> simple_holds(data, test),
{
    assert(seq![test][0] == test);
}

/// `*` matches every element and nothing else.
pub proof fn law_star_selector(nodes: Nodes, id: int)
    ensures
        selector_holds(nodes, selector_meaning(seq!['*']), id) <==> nodes[id].data is Element,
{
    let w = seq!['*'];
    let test = Simple::Tag("*"@);
    let none = Seq::<Simple>::empty();
    let nothing = Seq::<char>::empty();
    assert(w.skip(1) =~= nothing);
    assert(none.push(test) =~= seq![test]);
    assert(compound(nothing, seq![test]) == Some((seq![test], nothing)));
    assert(compound(w, none) == Some((seq![test], nothing)));
    lemma_one_part(nodes, w, seq![test], id);
    lemma_one_test(nodes[id].data, test);
}

/// Reading a name of an element, up to something that does not continue it.
proof fn lemma_read_tag(name: Seq<char>, x: Seq<char>)
    requires
        tag_text(name),
        x.len() > 0 ==> ascii_whitespace(x[0]) || x[0] == '>',
    ensures
        compound(name + x, Seq::empty()) == Some((seq![Simple::Tag(lowered(name))], x)),
{
    let s = name + x;
    let test = Simple::Tag(lowered(name));
    let none = Seq::<Simple>::empty();
    assert(name_char(name[0]) && !white_space(name[0]));
    assert(s[0] == name[0]);
    assert forall|i: int| 0 <= i < name.len() implies name_class()(#[trigger] name[i]) by {}
    lemma_span_of_concat(name, x, name_class());
    assert(none.push(test) =~= seq![test]);
    assert(compound(x, seq![test]) == Some((seq![test], x)));
}

/// A name is not `*`.
proof fn lemma_not_star(name: Seq<char>)
    requires
        tag_text(name),
    ensures
        lowered(name) != "*"@,
{
    reveal_strlit("*");
    assert(name_char(name[0]));
    assert(lowered(name)[0] == lower(name[0]));
}

/// A name matches the elements of that name, whatever the case it is given in.
pub proof fn law_tag_selector(nodes: Nodes, name: Seq<char>, id: int)
    requires
        tag_text(name),
    ensures
        selector_holds(nodes, selector_meaning(name), id) <==> is_element(
            nodes[id].data,
            lowered(name),
        ),
{
    let test = Simple::Tag(lowered(name));
    let nothing = Seq::<char>::empty();
    lemma_read_tag(name, nothing);
    assert(name + nothing =~= name);
    lemma_name_ends(name);
    lemma_not_star(name);
    lemma_one_part(nodes, name, seq![test], id);
    lemma_one_test(nodes[id].data, test);
}

/// A name holds no comma and no white space.
proof fn lemma_name_ends(name: Seq<char>)
    requires
        name_text(name),
    ensures
        !name.contains(','),
        name.len() > 0 ==> !white_space(name[0]) && !white_space(name.last()) && name[0] != '>',
{
    if name.contains(',') {
        let i = name.index_of(',');
        assert(name_char(name[i]));
    }
    if name.len() > 0 {
        assert(name_char(name[0]) && !white_space(name[0]));
        assert(!white_space(name[name.len() - 1]));
    }
}

/// `#` and a name match the elements whose `id` is that name.
pub proof fn law_id_selector(nodes: Nodes, name: Seq<char>, id: int)
    requires
        name_text(name),
    ensures
        selector_holds(nodes, selector_meaning(seq!['#'] + name), id) <==> (
        nodes[id].data matches Content::Element { attrs, .. } && lookup(attrs, "id"@) == Some(
            Some(name),
        )),
{
    let w = seq!['#'] + name;
    let test = Simple::Id(name);
    let none = Seq::<Simple>::empty();
    let nothing = Seq::<char>::empty();
    lemma_prefixed_name('#', name);
    assert(none.push(test) =~= seq![test]);
    assert(compound(nothing, seq![test]) == Some((seq![test], nothing)));
    assert(compound(w, none) == Some((seq![test], nothing)));
    lemma_one_part(nodes, w, seq![test], id);
    lemma_one_test(nodes[id].data, test);
}

/// `.` and a name match the elements that have that name among the words of their `class`.
pub proof fn law_class_selector(nodes: Nodes, name: Seq<char>, id: int)
    requires
        name_text(name),
    ensures
        selector_holds(nodes, selector_meaning(seq!['.'] + name), id) <==> (
        nodes[id].data matches Content::Element { attrs, .. } && lookup(
            attrs,
            "class"@,
        ) matches Some(Some(words)) && has_word(words, name)),
{
    let w = seq!['.'] + name;
    let test = Simple::Class(name);
    let none = Seq::<Simple>::empty();
    let nothing = Seq::<char>::empty();
    lemma_prefixed_name('.', name);
    assert(none.push(test) =~= seq![test]);
    assert(compound(nothing, seq![test]) == Some((seq![test], nothing)));
    assert(compound(w, none) == Some((seq![test], nothing)));
    lemma_one_part(nodes, w, seq![test], id);
    lemma_one_test(nodes[id].data, test);
}

proof fn lemma_prefixed_name(sign: char, name: Seq<char>)
    requires
        name_text(name),
        sign == '#' || sign == '.',
    ensures
        ({
            let w = seq![sign] + name;
            let nothing = Seq::<char>::empty();
            &&& w.skip(1) == name
            &&& take_while(name, name_class()) == name
            &&& drop_while(name, name_class()) == nothing
            &&& !w.contains(',')
            &&& !white_space(w.last())
        }),
{
    let w = seq![sign] + name;
    let nothing = Seq::<char>::empty();
    assert(w.skip(1) =~= name);
    assert forall|i: int| 0 <= i < name.len() implies name_class()(#[trigger] name[i]) by {}
    lemma_span_of_concat(name, nothing, name_class());
    assert(name + nothing =~= name);
    lemma_name_ends(name);
    if w.contains(',') {
        let i = w.index_of(',');
        if i > 0 {
            assert(name[i - 1] == ',');
        }
    }
    if name.len() > 0 {
        assert(w.last() == name.last());
    }
}

/// A name in brackets matches the elements that have that attribute, with a value or without.
pub proof fn law_attribute_selector(nodes: Nodes, name: Seq<char>, id: int)
    requires
        name_text(name),
    ensures
        selector_holds(nodes, selector_meaning(seq!['['] + name + seq![']']), id) <==> (
        nodes[id].data matches Content::Element { attrs, .. } && has_name(attrs, lowered(name))),
{
    let w = seq!['['] + name + seq![']'];
    let test = Simple::AttrExists(lowered(name));
    let none = Seq::<Simple>::empty();
    let nothing = Seq::<char>::empty();
    let tail = seq![']'];
    assert(w.skip(1) =~= name + tail);
    assert forall|i: int| 0 <= i < name.len() implies name_class()(#[trigger] name[i]) by {}
    lemma_span_of_concat(name, tail, name_class());
    lemma_whole(tail, whitespace_class());
    assert(tail.skip(1) =~= nothing);
    assert(attr_test(w.skip(1)) == Some((test, nothing)));
    assert(none.push(test) =~= seq![test]);
    assert(compound(nothing, seq![test]) == Some((seq![test], nothing)));
    assert(compound(w, none) == Some((seq![test], nothing)));
    lemma_name_ends(name);
    if w.contains(',') {
        let i = w.index_of(',');
        if 0 < i <= name.len() {
            assert(name[i - 1] == ',');
        }
    }
    lemma_one_part(nodes, w, seq![test], id);
    lemma_one_test(nodes[id].data, test);
}

/// The sign that stands before `=`, if any.
pub open spec fn sign_text(sign: Option<char>) -> Seq<char> {
    match sign {
        Some(c) => seq![c],
        None => Seq::empty(),
    }
}

/// A name, a comparison and a value between double quotes, in brackets, match the elements whose
/// attribute compares so with the value: `=` for the value itself, `~=` for one of its words, `^=`
/// and `$=` for its beginning and its end, `*=` for any part of it. A value with a comma is left
/// out: commas separate selectors even there.
pub proof fn law_comparison_selector(
    nodes: Nodes,
    name: Seq<char>,
    sign: Option<char>,
    value: Seq<char>,
    id: int,
)
    requires
        name_text(name),
        sign matches Some(c) ==> c == '~' || c == '^' || c == '$' || c == '*',
        !value.contains('"'),
        !value.contains(','),
    ensures
        comparison(sign, lowered(name), value) is Some,
        selector_holds(
            nodes,
            selector_meaning(
                seq!['['] + name + sign_text(sign) + seq!['=', '"'] + value + seq!['"', ']'],
            ),
            id,
        ) <==> simple_holds(nodes[id].data, comparison(sign, lowered(name), value)->0),
{
    let w = seq!['['] + name + sign_text(sign) + seq!['=', '"'] + value + seq!['"', ']'];
    let test = comparison(sign, lowered(name), value)->0;
    let none = Seq::<Simple>::empty();
    let nothing = Seq::<char>::empty();
    let quoted = seq!['"'] + value + seq!['"', ']'];
    let tail = sign_text(sign) + seq!['='] + quoted;
    assert(w.skip(1) =~= name + tail);
    assert forall|i: int| 0 <= i < name.len() implies name_class()(#[trigger] name[i]) by {}
    lemma_span_of_concat(name, tail, name_class());
    lemma_whole(tail, whitespace_class());
    assert(sign is None ==> tail[0] == '=' && tail.skip(1) =~= quoted);
    assert(sign is Some ==> tail[0] != '=' && tail[1] == '=' && tail.skip(2) =~= quoted);
    lemma_whole(quoted, whitespace_class());
    lemma_test_value(value);
    let close = seq![']'];
    lemma_whole(close, whitespace_class());
    assert(close.skip(1) =~= nothing);
    assert(attr_test(w.skip(1)) == Some((test, nothing)));
    assert(none.push(test) =~= seq![test]);
    assert(compound(nothing, seq![test]) == Some((seq![test], nothing)));
    assert(compound(w, none) == Some((seq![test], nothing)));
    lemma_name_ends(name);
    assert(!w.contains(',')) by {
        if w.contains(',') {
            let i = w.index_of(',');
            let k = 1 + name.len() + sign_text(sign).len() + 2;
            if 0 < i <= name.len() {
                assert(name[i - 1] == ',');
            } else if k <= i < k + value.len() {
                assert(value[i - k] == ',');
            }
        }
    }
    lemma_one_part(nodes, w, seq![test], id);
    lemma_one_test(nodes[id].data, test);
}

proof fn lemma_test_value(value: Seq<char>)
    requires
        !value.contains('"'),
    ensures
        test_value(seq!['"'] + value + seq!['"', ']']) == (value, seq![']']),
{
    let quoted = seq!['"'] + value + seq!['"', ']'];
    let rest = seq!['"', ']'];
    assert(quoted.skip(1) =~= value + rest);
    assert forall|i: int| 0 <= i < value.len() implies all_but('"')(#[trigger] value[i]) by {
        assert(value.contains(value[i]));
    }
    lemma_span_of_concat(value, rest, all_but('"'));
    assert(rest.skip(1) =~= seq![']']);
}

// ---------------------------------------------------------------------------
// Two parts
// ---------------------------------------------------------------------------
/// Two names with white space between them match the elements of the second name that are
/// somewhere below an element of the first.
pub proof fn law_descendant_selector(
    nodes: Nodes,
    a: Seq<char>,
    space: Seq<char>,
    b: Seq<char>,
    id: int,
)
    requires
        is_forest(nodes),
        0 <= id < nodes.len(),
        tag_text(a),
        tag_text(b),
        space.len() > 0,
        forall|i: int| 0 <= i < space.len() ==> ascii_whitespace(#[trigger] space[i]),
    ensures
        selector_holds(nodes, selector_meaning(a + space + b), id) <==> {
            &&& is_element(nodes[id].data, lowered(b))
            &&& exists|x: int| #[trigger]
                is_below(nodes, x, id) && is_element(nodes[x].data, lowered(a))
        },
{
    let w = a + space + b;
    let ta = seq![Simple::Tag(lowered(a))];
    let tb = seq![Simple::Tag(lowered(b))];
    let first = seq![Part { compound: ta, combinator: None }];
    let both = seq![
        Part { compound: ta, combinator: Some(Combinator::Descendant) },
        Part { compound: tb, combinator: None },
    ];
    lemma_first_part(a, space + b);
    assert(a + (space + b) =~= w);
    let s = space + b;
    assert forall|i: int| 0 <= i < space.len() implies whitespace_class()(#[trigger] space[i]) by {}
    lemma_name_ends(b);
    lemma_span_of_concat(space, b, whitespace_class());
    assert(skip_space(s) == b);
    lemma_last_part(b);
    lemma_not_star(a);
    lemma_not_star(b);
    assert(joined(first, Some(Combinator::Descendant), tb) =~= both);
    lemma_end_of_sequence(both);
    assert(sequence(s, first) == Some(both));
    lemma_two_names(a, space, b);
    lemma_meaning(w, both);
    lemma_one_alternative(nodes, w, both, id);
    lemma_one_test(nodes[id].data, Simple::Tag(lowered(b)));
    law_nearest_ancestor(nodes, id, ta);
    assert forall|x: int| compound_holds(nodes[x].data, ta) <==> is_element(
        #[trigger] nodes[x].data,
        lowered(a),
    ) by {
        lemma_one_test(nodes[x].data, Simple::Tag(lowered(a)));
    }
    assert(both.last().compound == tb);
    assert(both[0].compound == ta);
    match nearest_ancestor(nodes, id, ta) {
        Some(n) => {
            assert(parts_above(nodes, both, 0, n));
            assert(parts_above(nodes, both, 1, id));
            assert(is_below(nodes, n, id) && is_element(nodes[n].data, lowered(a)));
        },
        None => {
            assert(!parts_above(nodes, both, 1, id));
        },
    }
}

/// Two names with `>` between them, with or without white space around it, match the elements of
/// the second name whose parent is an element of the first.
pub proof fn law_child_selector(
    nodes: Nodes,
    a: Seq<char>,
    before: Seq<char>,
    after: Seq<char>,
    b: Seq<char>,
    id: int,
)
    requires
        tag_text(a),
        tag_text(b),
        forall|i: int| 0 <= i < before.len() ==> ascii_whitespace(#[trigger] before[i]),
        forall|i: int| 0 <= i < after.len() ==> ascii_whitespace(#[trigger] after[i]),
    ensures
        selector_holds(nodes, selector_meaning(a + before + seq!['>'] + after + b), id) <==> {
            &&& is_element(nodes[id].data, lowered(b))
            &&& nodes[id].parent matches Some(p) && is_element(nodes[p].data, lowered(a))
        },
{
    let w = a + before + seq!['>'] + after + b;
    let ta = seq![Simple::Tag(lowered(a))];
    let tb = seq![Simple::Tag(lowered(b))];
    let first = seq![Part { compound: ta, combinator: None }];
    let both = seq![
        Part { compound: ta, combinator: Some(Combinator::Child) },
        Part { compound: tb, combinator: None },
    ];
    let t = seq!['>'] + after + b;
    let s = before + t;
    lemma_first_part(a, s);
    assert(a + s =~= w);
    assert forall|i: int| 0 <= i < before.len() implies whitespace_class()(
        #[trigger] before[i],
    ) by {}
    lemma_span_of_concat(before, t, whitespace_class());
    assert(skip_space(s) == t);
    assert(t.skip(1) =~= after + b);
    assert forall|i: int| 0 <= i < after.len() implies whitespace_class()(#[trigger] after[i]) by {}
    lemma_name_ends(b);
    lemma_span_of_concat(after, b, whitespace_class());
    assert(skip_space(t.skip(1)) == b);
    lemma_last_part(b);
    lemma_not_star(a);
    lemma_not_star(b);
    assert(joined(first, Some(Combinator::Child), tb) =~= both);
    lemma_end_of_sequence(both);
    assert(sequence(s, first) == Some(both));
    lemma_two_names(a, before + seq!['>'] + after, b);
    assert(a + (before + seq!['>'] + after) + b =~= w);
    lemma_meaning(w, both);
    lemma_one_alternative(nodes, w, both, id);
    lemma_one_test(nodes[id].data, Simple::Tag(lowered(b)));
    assert(both.last().compound == tb);
    assert(both[0].compound == ta);
    if let Some(p) = nodes[id].parent {
        lemma_one_test(nodes[p].data, Simple::Tag(lowered(a)));
        assert(parts_above(nodes, both, 0, p));
    }
    assert(parts_above(nodes, both, 1, id) <==> (nodes[id].parent matches Some(p) && is_element(
        nodes[p].data,
        lowered(a),
    )));
}

/// Reading a name at the beginning of a selector.
proof fn lemma_first_part(a: Seq<char>, s: Seq<char>)
    requires
        tag_text(a),
        s.len() > 0,
        ascii_whitespace(s[0]) || s[0] == '>',
    ensures
        sequence(a + s, Seq::empty()) == sequence(
            s,
            seq![Part { compound: seq![Simple::Tag(lowered(a))], combinator: None }],
        ),
{
    let w = a + s;
    let ta = seq![Simple::Tag(lowered(a))];
    lemma_name_ends(a);
    assert(w[0] == a[0]);
    lemma_whole(w, whitespace_class());
    lemma_read_tag(a, s);
    assert(joined(Seq::empty(), None, ta) =~= seq![Part { compound: ta, combinator: None }]);
}

/// Reading a name at the end of a selector.
proof fn lemma_last_part(b: Seq<char>)
    requires
        tag_text(b),
    ensures
        compound(b, Seq::empty()) == Some(
            (seq![Simple::Tag(lowered(b))], Seq::<char>::empty()),
        ),
{
    let nothing = Seq::<char>::empty();
    lemma_read_tag(b, nothing);
    assert(b + nothing =~= b);
}

/// Two names with something between them hold no comma and no outer white space.
proof fn lemma_two_names(a: Seq<char>, middle: Seq<char>, b: Seq<char>)
    requires
        tag_text(a),
        tag_text(b),
        forall|i: int|
            0 <= i < middle.len() ==> ascii_whitespace(#[trigger] middle[i]) || middle[i] == '>',
    ensures
        (a + middle + b).len() > 0,
        !(a + middle + b).contains(','),
        !white_space((a + middle + b)[0]),
        !white_space((a + middle + b).last()),
{
    let w = a + middle + b;
    lemma_name_ends(a);
    lemma_name_ends(b);
    assert(w[0] == a[0]);
    assert(w.last() == b.last());
    if w.contains(',') {
        let i = w.index_of(',');
        if i < a.len() {
            assert(a[i] == ',');
        } else if i < a.len() + middle.len() {
            assert(middle[i - a.len()] == ',');
        } else {
            assert(b[i - a.len() - middle.len()] == ',');
        }
    }
}

} // verus!
