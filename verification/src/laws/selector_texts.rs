//! Laws of selector texts: what every form of selector matches, told by its characters and by what
//! the elements hold.
use vstd::prelude::*;

use crate::attrs::lookup;
use crate::forest::{is_below, is_forest, Nodes};
use crate::grammar::name_class;
use crate::laws::matching::{
    is_nearest_above, law_child_step, law_descendant_step, law_shortest_sequences,
    lemma_parts_above_agree,
};
use crate::laws::reading::{lemma_skip_blanks, lemma_small};
use crate::laws::vocabulary::{
    blank, blanks, is_beginning_of, is_end_of, is_part_of, is_word_of, letter, small, word,
    word_char,
};
use crate::laws::words::{law_parts, law_trimming, law_words};
use crate::laws::writing::lemma_flatten_last;
use crate::query::{
    attr_test, comparison, compound, compound_holds, joined, piece_meaning, selector_holds,
    selector_meaning, sequence, sequence_holds, simple_holds, test_value, Part, Simple,
};
use crate::round_trip::lemma_no_span;
use crate::selector::Combinator;
use crate::text::{
    all_but, alphabetic, drop_while, lemma_span_is, lemma_span_of_concat, lower, lowered, pieces,
    take_while, white_space, whitespace_class,
};
use crate::tree::Content;

verus! {

// ---------------------------------------------------------------------------
// What is asked
// ---------------------------------------------------------------------------
/// One thing that a selector asks of an element.
pub enum Asked {
    /// `*`
    Any,
    /// A name.
    Named(Seq<char>),
    /// `#` and a name.
    WithId(Seq<char>),
    /// `.` and a name.
    WithClass(Seq<char>),
    /// A name in brackets, and white space before the `]`.
    Has { name: Seq<char>, gap: Seq<char> },
    /// A name, a sign before the `=`, and a value with quotes or without, in brackets, with white
    /// space behind each.
    Compares {
        name: Seq<char>,
        gap: Seq<char>,
        sign: Option<char>,
        before: Seq<char>,
        quote: Option<char>,
        value: Seq<char>,
        after: Seq<char>,
    },
}

/// A character, or nothing.
pub open spec fn perhaps(c: Option<char>) -> Seq<char> {
    match c {
        Some(c) => seq![c],
        None => Seq::empty(),
    }
}

/// The text of what is asked.
pub open spec fn asked_text(a: Asked) -> Seq<char> {
    match a {
        Asked::Any => seq!['*'],
        Asked::Named(n) => n,
        Asked::WithId(n) => seq!['#'] + n,
        Asked::WithClass(n) => seq!['.'] + n,
        Asked::Has { name, gap } => seq!['['] + name + gap + seq![']'],
        Asked::Compares { name, gap, sign, before, quote, value, after } => seq!['['] + name + gap
            + perhaps(sign) + seq!['='] + before + perhaps(quote) + value + perhaps(quote) + after
            + seq![']'],
    }
}

/// Whether a text is a name without Unicode white space in it.
pub open spec fn dense_word(s: Seq<char>) -> bool {
    word(s) && forall|i: int| 0 <= i < s.len() ==> !white_space(#[trigger] s[i])
}

/// Whether something is well asked: names are names, the name of an element begins with a letter
/// or an underscore, and a value holds neither its quote nor a comma, or is a name itself, perhaps
/// an empty one.
pub open spec fn well_asked(a: Asked) -> bool {
    match a {
        Asked::Any => true,
        Asked::Named(n) => dense_word(n) && n.len() > 0 && (letter(n[0]) || n[0] == '_'),
        Asked::WithId(n) => dense_word(n),
        Asked::WithClass(n) => dense_word(n),
        Asked::Has { name, gap } => word(name) && blanks(gap),
        Asked::Compares { name, gap, sign, before, quote, value, after } => {
            &&& word(name)
            &&& blanks(gap) && blanks(before) && blanks(after)
            &&& sign matches Some(c) ==> c == '~' || c == '^' || c == '$' || c == '*'
            &&& match quote {
                Some(q) => (q == '"' || q == '\'') && !value.contains(q) && !value.contains(','),
                None => word(value) && (value.len() == 0 ==> after.len() == 0),
            }
        },
    }
}

/// Whether a node gives what is asked. Only elements give anything.
pub open spec fn gives(data: Content, a: Asked) -> bool {
    match data {
        Content::Element { tag, attrs } => match a {
            Asked::Any => true,
            Asked::Named(n) => tag == small(n),
            Asked::WithId(n) => lookup(attrs, seq!['i', 'd']) == Some(Some(n)),
            Asked::WithClass(n) => lookup(
                attrs,
                seq!['c', 'l', 'a', 's', 's'],
            ) matches Some(Some(s)) && is_word_of(n, s),
            Asked::Has { name, .. } => lookup(attrs, small(name)) is Some,
            Asked::Compares { name, sign, value, .. } => lookup(
                attrs,
                small(name),
            ) matches Some(Some(s)) && match sign {
                None => s == value,
                Some(c) => if c == '~' {
                    is_word_of(value, s)
                } else if c == '^' {
                    is_beginning_of(value, s)
                } else if c == '$' {
                    is_end_of(value, s)
                } else {
                    is_part_of(value, s)
                },
            },
        },
        _ => false,
    }
}

/// Whether a node gives all that is asked.
pub open spec fn gives_all(data: Content, all: Seq<Asked>) -> bool {
    forall|i: int| 0 <= i < all.len() ==> gives(data, #[trigger] all[i])
}

/// Whether what is asked ends in a name, which a character of names would continue.
pub open spec fn ends_in_name(a: Asked) -> bool {
    a is Named || a is WithId || a is WithClass
}

/// The text of all that is asked of one element.
pub open spec fn asked_texts(all: Seq<Asked>) -> Seq<char> {
    Seq::new(all.len(), |i: int| asked_text(all[i])).flatten()
}

/// Whether all that is asked of one element is well asked: something is, and no name runs into the
/// next. A dot belongs to the name before it.
pub open spec fn all_well_asked(all: Seq<Asked>) -> bool {
    &&& all.len() > 0
    &&& forall|i: int| 0 <= i < all.len() ==> well_asked(#[trigger] all[i])
    &&& forall|i: int|
        0 < i < all.len() && ends_in_name(all[i - 1]) ==> !(#[trigger] all[i] is Named)
            && !(all[i] is WithClass)
}

// ---------------------------------------------------------------------------
// What is asked, and the tests
// ---------------------------------------------------------------------------
spec fn test_of(a: Asked) -> Simple {
    match a {
        Asked::Any => Simple::Tag("*"@),
        Asked::Named(n) => Simple::Tag(lowered(n)),
        Asked::WithId(n) => Simple::Id(n),
        Asked::WithClass(n) => Simple::Class(n),
        Asked::Has { name, .. } => Simple::AttrExists(lowered(name)),
        Asked::Compares { name, sign, value, .. } => comparison(sign, lowered(name), value)->0,
    }
}

spec fn tests_of(all: Seq<Asked>) -> Seq<Simple> {
    Seq::new(all.len(), |i: int| test_of(all[i]))
}

proof fn lemma_gives(data: Content, a: Asked)
    requires
        well_asked(a),
    ensures
        simple_holds(data, test_of(a)) <==> gives(data, a),
{
    reveal_strlit("id");
    reveal_strlit("class");
    reveal_strlit("*");
    assert("id"@ =~= seq!['i', 'd']);
    assert("class"@ =~= seq!['c', 'l', 'a', 's', 's']);
    if let Content::Element { tag, attrs } = data {
        match a {
            Asked::Any => {},
            Asked::Named(n) => {
                lemma_small(n);
                assert(word_char(n[0]));
                assert(lowered(n)[0] == lower(n[0]));
                assert(lowered(n) != "*"@);
            },
            Asked::WithId(n) => {},
            Asked::WithClass(n) => {
                if let Some(Some(s)) = lookup(attrs, "class"@) {
                    law_words(s, n);
                }
            },
            Asked::Has { name, .. } => {
                lemma_small(name);
            },
            Asked::Compares { name, sign, value, .. } => {
                lemma_small(name);
                if let Some(Some(s)) = lookup(attrs, lowered(name)) {
                    law_words(s, value);
                    law_parts(s, value);
                }
            },
        }
    }
}

proof fn lemma_gives_all(data: Content, all: Seq<Asked>)
    requires
        all_well_asked(all),
    ensures
        compound_holds(data, tests_of(all)) <==> gives_all(data, all),
{
    let tests = tests_of(all);
    assert forall|i: int| 0 <= i < all.len() implies (simple_holds(data, #[trigger] tests[i])
        <==> gives(data, all[i])) by {
        assert(well_asked(all[i]));
        lemma_gives(data, all[i]);
    }
    if compound_holds(data, tests) {
        assert forall|i: int| 0 <= i < all.len() implies gives(data, #[trigger] all[i]) by {
            assert(simple_holds(data, tests[i]));
        }
    }
    if gives_all(data, all) {
        assert forall|i: int| 0 <= i < tests.len() implies simple_holds(
            data,
            #[trigger] tests[i],
        ) by {
            assert(gives(data, all[i]));
        }
    }
}

// ---------------------------------------------------------------------------
// Reading what is asked
// ---------------------------------------------------------------------------
proof fn lemma_word_span(n: Seq<char>, x: Seq<char>)
    requires
        word(n),
        x.len() > 0 ==> !word_char(x[0]),
    ensures
        take_while(n + x, name_class()) == n,
        drop_while(n + x, name_class()) == x,
{
    assert forall|i: int| 0 <= i < n.len() implies name_class()(#[trigger] n[i]) by {
        assert(word_char(n[i]));
    }
    lemma_span_of_concat(n, x, name_class());
}

/// Reading a value with quotes or without.
proof fn lemma_read_test_value(quote: Option<char>, value: Seq<char>, x: Seq<char>)
    requires
        match quote {
            Some(q) => (q == '"' || q == '\'') && !value.contains(q),
            None => word(value) && (value.len() == 0 ==> x.len() > 0 && !blank(x[0]) && x[0]
                != '"' && x[0] != '\''),
        },
        x.len() > 0 ==> !word_char(x[0]),
    ensures
        test_value(perhaps(quote) + value + perhaps(quote) + x) == (value, x),
        ({
            let s = perhaps(quote) + value + perhaps(quote) + x;
            s.len() > 0 && !blank(s[0])
        }),
{
    let s = perhaps(quote) + value + perhaps(quote) + x;
    match quote {
        Some(q) => {
            let close = seq![q] + x;
            assert(s.skip(1) =~= value + close);
            assert forall|i: int| 0 <= i < value.len() implies all_but(q)(#[trigger] value[i]) by {
                assert(value.contains(value[i]));
            }
            lemma_span_of_concat(value, close, all_but(q));
            assert(close.skip(1) =~= x);
        },
        None => {
            assert(s =~= value + x);
            if value.len() > 0 {
                assert(word_char(value[0]));
                assert(s[0] == value[0]);
            } else {
                assert(s =~= x);
            }
            lemma_word_span(value, x);
        },
    }
}

/// Reading an attribute test from behind its `[`.
proof fn lemma_read_brackets(a: Asked, x: Seq<char>)
    requires
        well_asked(a),
        a is Has || a is Compares,
    ensures
        attr_test((asked_text(a) + x).skip(1)) == Some((test_of(a), x)),
{
    let s = (asked_text(a) + x).skip(1);
    match a {
        Asked::Has { name, gap } => {
            let end = seq![']'] + x;
            let r = gap + end;
            assert(s =~= name + r);
            if gap.len() > 0 {
                assert(blank(gap[0]));
                assert(r[0] == gap[0]);
            }
            lemma_word_span(name, r);
            lemma_skip_blanks(gap, end);
            assert(end.skip(1) =~= x);
        },
        Asked::Compares { name, gap, sign, before, quote, value, after } => {
            let close = seq![']'] + x;
            let rest = after + close;
            let v = perhaps(quote) + value + perhaps(quote) + rest;
            let e = perhaps(sign) + seq!['='] + (before + v);
            let r = gap + e;
            assert(s =~= name + r);
            if gap.len() > 0 {
                assert(blank(gap[0]));
                assert(r[0] == gap[0]);
            } else {
                assert(r =~= e);
            }
            lemma_word_span(name, r);
            lemma_skip_blanks(gap, e);
            assert(sign is None ==> e[0] == '=' && e.skip(1) =~= before + v);
            assert(sign is Some ==> e[0] != '=' && e[0] == sign->0 && e[1] == '=' && e.skip(2)
                =~= before + v);
            if after.len() > 0 {
                assert(blank(after[0]));
                assert(rest[0] == after[0]);
            } else {
                assert(rest =~= close);
            }
            lemma_read_test_value(quote, value, rest);
            lemma_skip_blanks(before, v);
            lemma_skip_blanks(after, close);
            assert(close.skip(1) =~= x);
        },
        _ => {},
    }
}

/// Whether what follows is not read with what was asked last.
pub open spec fn breaks_off(last: Asked, x: Seq<char>) -> bool {
    x.len() > 0 ==> blank(x[0]) || x[0] == '>' || is_unknown(x[0]) && !(ends_in_name(last)
        && word_char(x[0]))
}

/// Whether a character begins nothing in a selector.
pub open spec fn is_unknown(c: char) -> bool {
    !blank(c) && c != '>' && c != ',' && c != '#' && c != '.' && c != '[' && c != '*' && c != '_'
        && !letter(c)
}

/// Reading one thing that is asked.
proof fn lemma_read_one(a: Asked, before: Seq<Simple>, x: Seq<char>)
    requires
        well_asked(a),
        ends_in_name(a) ==> (x.len() > 0 ==> !word_char(x[0])),
    ensures
        compound(asked_text(a) + x, before) == compound(x, before.push(test_of(a))),
        asked_text(a).len() > 0,
{
    let s = asked_text(a) + x;
    match a {
        Asked::Any => {
            assert(s.skip(1) =~= x);
        },
        Asked::Named(n) => {
            assert(word_char(n[0]) && !white_space(n[0]));
            assert(s[0] == n[0]);
            assert(alphabetic(s[0]) || s[0] == '_');
            lemma_word_span(n, x);
        },
        Asked::WithId(n) => {
            assert(s.skip(1) =~= n + x);
            lemma_word_span(n, x);
        },
        Asked::WithClass(n) => {
            assert(s.skip(1) =~= n + x);
            lemma_word_span(n, x);
        },
        Asked::Has { .. } => {
            lemma_read_brackets(a, x);
            assert(s[0] == '[');
        },
        Asked::Compares { .. } => {
            lemma_read_brackets(a, x);
            assert(s[0] == '[');
        },
    }
}

proof fn lemma_asked_first(all: Seq<Asked>)
    requires
        all.len() > 0,
    ensures
        asked_texts(all) == asked_text(all[0]) + asked_texts(all.skip(1)),
{
    let pieces = Seq::new(all.len(), |i: int| asked_text(all[i]));
    assert(pieces.drop_first() =~= Seq::new(
        all.skip(1).len(),
        |i: int| asked_text(all.skip(1)[i]),
    ));
}

/// Reading all that is asked of one element.
proof fn lemma_read_asked(all: Seq<Asked>, k: int, x: Seq<char>)
    requires
        all_well_asked(all),
        0 <= k <= all.len(),
        breaks_off(all.last(), x),
    ensures
        compound(asked_texts(all.skip(k)) + x, tests_of(all.take(k))) == Some((tests_of(all), x)),
    decreases all.len() - k,
{
    let rest = all.skip(k);
    let s = asked_texts(rest) + x;
    if k == all.len() {
        assert(asked_texts(rest) =~= Seq::<char>::empty());
        assert(s =~= x);
        assert(all.take(k) =~= all);
        assert(tests_of(all).len() > 0);
    } else {
        let a = all[k];
        let next = asked_texts(all.skip(k + 1)) + x;
        lemma_asked_first(rest);
        assert(rest.skip(1) =~= all.skip(k + 1));
        assert(s =~= asked_text(a) + next);
        assert(well_asked(a));
        if k + 1 < all.len() {
            let b = all[k + 1];
            let more = all.skip(k + 1);
            lemma_asked_first(more);
            assert(more[0] == b);
            assert(well_asked(b));
            if ends_in_name(a) {
                assert(ends_in_name(all[k + 1 - 1]));
                assert(!(all[k + 1] is Named) && !(all[k + 1] is WithClass));
                assert(next[0] == asked_text(b)[0]);
            }
        } else {
            assert(asked_texts(all.skip(k + 1)) =~= Seq::<char>::empty());
            assert(next =~= x);
            assert(all.last() == a);
        }
        lemma_read_one(a, tests_of(all.take(k)), next);
        assert(tests_of(all.take(k)).push(test_of(a)) =~= tests_of(all.take(k + 1)));
        lemma_read_asked(all, k + 1, x);
    }
}

/// Reading a compound that begins where nothing was read.
proof fn lemma_read_compound(all: Seq<Asked>, x: Seq<char>)
    requires
        all_well_asked(all),
        breaks_off(all.last(), x),
    ensures
        compound(asked_texts(all) + x, Seq::empty()) == Some((tests_of(all), x)),
        asked_texts(all).len() > 0,
        !white_space(asked_texts(all)[0]),
        !white_space(asked_texts(all).last()),
        asked_texts(all)[0] != '>',
        !asked_texts(all).contains(','),
{
    assert(all.skip(0) =~= all);
    assert(tests_of(all.take(0)) =~= Seq::<Simple>::empty());
    lemma_read_asked(all, 0, x);
    lemma_asked_ends(all);
}

proof fn lemma_asked_ends(all: Seq<Asked>)
    requires
        all_well_asked(all),
    ensures
        asked_texts(all).len() > 0,
        !white_space(asked_texts(all)[0]),
        !white_space(asked_texts(all).last()),
        asked_texts(all)[0] != '>',
        !asked_texts(all).contains(','),
{
    let s = asked_texts(all);
    let pieces = Seq::new(all.len(), |i: int| asked_text(all[i]));
    let first = all[0];
    let last = all.last();
    assert(well_asked(first));
    assert(well_asked(all[all.len() - 1]));
    lemma_asked_first(all);
    lemma_asked_one(first);
    lemma_asked_one(last);
    assert(s[0] == asked_text(first)[0]);
    lemma_flatten_last(pieces);
    assert(s.last() == asked_text(last).last());
    assert forall|i: int| 0 <= i < pieces.len() implies !(#[trigger] pieces[i]).contains(',') by {
        assert(well_asked(all[i]));
        lemma_asked_one(all[i]);
    }
    lemma_flatten_without(pieces, ',');
}

proof fn lemma_flatten_without(pieces: Seq<Seq<char>>, c: char)
    requires
        forall|i: int| 0 <= i < pieces.len() ==> !(#[trigger] pieces[i]).contains(c),
    ensures
        !pieces.flatten().contains(c),
    decreases pieces.len(),
{
    if pieces.len() > 0 {
        let front = pieces.drop_last();
        assert forall|i: int| 0 <= i < front.len() implies !(#[trigger] front[i]).contains(c) by {
            assert(front[i] == pieces[i]);
        }
        lemma_flatten_without(front, c);
        lemma_flatten_last(pieces);
        assert(!pieces[pieces.len() - 1].contains(c));
        lemma_join_without(front.flatten(), pieces.last(), c);
    }
}

proof fn lemma_join_without(a: Seq<char>, b: Seq<char>, c: char)
    requires
        !a.contains(c),
        !b.contains(c),
    ensures
        !(a + b).contains(c),
{
    if (a + b).contains(c) {
        let i = (a + b).index_of(c);
        if i < a.len() {
            assert(a[i] == c);
        } else {
            assert(b[i - a.len()] == c);
        }
    }
}

proof fn lemma_word_without_comma(s: Seq<char>)
    requires
        word(s) || blanks(s),
    ensures
        !s.contains(','),
{
    if s.contains(',') {
        let i = s.index_of(',');
        if word(s) {
            assert(word_char(s[i]));
        } else {
            assert(blank(s[i]));
        }
    }
}

proof fn lemma_asked_one(a: Asked)
    requires
        well_asked(a),
    ensures
        asked_text(a).len() > 0,
        !white_space(asked_text(a)[0]),
        !white_space(asked_text(a).last()),
        asked_text(a)[0] != '>',
        !asked_text(a).contains(','),
{
    let s = asked_text(a);
    match a {
        Asked::Any => {
            lemma_one_without('*');
        },
        Asked::Named(n) => {
            assert(word_char(n[0]) && !white_space(n[0]));
            assert(!white_space(n[n.len() - 1]));
            lemma_word_without_comma(n);
        },
        Asked::WithId(n) => {
            lemma_word_without_comma(n);
            lemma_one_without('#');
            lemma_join_without(seq!['#'], n, ',');
            if n.len() > 0 {
                assert(!white_space(n[n.len() - 1]));
                assert(s.last() == n[n.len() - 1]);
            }
        },
        Asked::WithClass(n) => {
            lemma_word_without_comma(n);
            lemma_one_without('.');
            lemma_join_without(seq!['.'], n, ',');
            if n.len() > 0 {
                assert(!white_space(n[n.len() - 1]));
                assert(s.last() == n[n.len() - 1]);
            }
        },
        Asked::Has { name, gap } => {
            lemma_word_without_comma(name);
            lemma_word_without_comma(gap);
            lemma_one_without('[');
            lemma_one_without(']');
            lemma_join_without(seq!['['], name, ',');
            lemma_join_without(seq!['['] + name, gap, ',');
            lemma_join_without(seq!['['] + name + gap, seq![']'], ',');
        },
        Asked::Compares { name, gap, sign, before, quote, value, after } => {
            lemma_word_without_comma(name);
            lemma_word_without_comma(gap);
            lemma_word_without_comma(before);
            lemma_word_without_comma(after);
            if quote is None {
                lemma_word_without_comma(value);
            } else {
                lemma_one_without(quote->0);
            }
            if sign is Some {
                lemma_one_without(sign->0);
            }
            lemma_one_without('[');
            lemma_one_without('=');
            lemma_one_without(']');
            let s1 = seq!['['] + name;
            let s2 = s1 + gap;
            let s3 = s2 + perhaps(sign);
            let s4 = s3 + seq!['='];
            let s5 = s4 + before;
            let s6 = s5 + perhaps(quote);
            let s7 = s6 + value;
            let s8 = s7 + perhaps(quote);
            let s9 = s8 + after;
            lemma_join_without(seq!['['], name, ',');
            lemma_join_without(s1, gap, ',');
            lemma_join_without(s2, perhaps(sign), ',');
            lemma_join_without(s3, seq!['='], ',');
            lemma_join_without(s4, before, ',');
            lemma_join_without(s5, perhaps(quote), ',');
            lemma_join_without(s6, value, ',');
            lemma_join_without(s7, perhaps(quote), ',');
            lemma_join_without(s8, after, ',');
            lemma_join_without(s9, seq![']'], ',');
        },
    }
}

proof fn lemma_one_without(c: char)
    requires
        c != ',',
    ensures
        !seq![c].contains(','),
{
}

// ---------------------------------------------------------------------------
// Chains
// ---------------------------------------------------------------------------
/// A further element in a selector: what joins it to the elements before, and what is asked of it.
/// The join is `>` with white space around it or without, or white space alone.
pub struct Link {
    pub child: bool,
    pub before: Seq<char>,
    pub after: Seq<char>,
    pub all: Seq<Asked>,
}

/// The text of a further element.
pub open spec fn link_text(l: Link) -> Seq<char> {
    if l.child {
        l.before + seq!['>'] + l.after + asked_texts(l.all)
    } else {
        l.before + asked_texts(l.all)
    }
}

/// Whether a further element is well asked.
pub open spec fn well_linked(l: Link) -> bool {
    &&& all_well_asked(l.all)
    &&& blanks(l.before)
    &&& blanks(l.after)
    &&& !l.child ==> l.before.len() > 0
}

/// The text of a selector without commas: what is asked of the outermost element, and the further
/// elements.
pub open spec fn chain_text(first: Seq<Asked>, links: Seq<Link>) -> Seq<char> {
    asked_texts(first) + Seq::new(links.len(), |i: int| link_text(links[i])).flatten()
}

/// Whether a selector without commas is well asked.
pub open spec fn well_chained(first: Seq<Asked>, links: Seq<Link>) -> bool {
    &&& all_well_asked(first)
    &&& forall|i: int| 0 <= i < links.len() ==> well_linked(#[trigger] links[i])
}

/// What is asked of the innermost element.
pub open spec fn innermost(first: Seq<Asked>, links: Seq<Link>) -> Seq<Asked> {
    if links.len() == 0 {
        first
    } else {
        links.last().all
    }
}

spec fn join_of(l: Link) -> Option<Combinator> {
    if l.child {
        Some(Combinator::Child)
    } else {
        Some(Combinator::Descendant)
    }
}

spec fn chain_parts(first: Seq<Asked>, links: Seq<Link>) -> Seq<Part>
    decreases links.len(),
{
    if links.len() == 0 {
        seq![Part { compound: tests_of(first), combinator: None }]
    } else {
        joined(
            chain_parts(first, links.drop_last()),
            join_of(links.last()),
            tests_of(links.last().all),
        )
    }
}

proof fn lemma_chain_parts(first: Seq<Asked>, links: Seq<Link>)
    ensures
        chain_parts(first, links).len() == links.len() + 1,
        chain_parts(first, links).last().compound == tests_of(innermost(first, links)),
        chain_parts(first, links).last().combinator is None,
    decreases links.len(),
{
    if links.len() > 0 {
        lemma_chain_parts(first, links.drop_last());
    }
}

proof fn lemma_read_link(parts: Seq<Part>, l: Link, x: Seq<char>)
    requires
        parts.len() > 0,
        well_linked(l),
        breaks_off(l.all.last(), x),
    ensures
        sequence(link_text(l) + x, parts) == sequence(
            x,
            joined(parts, join_of(l), tests_of(l.all)),
        ),
        link_text(l).len() > 0,
        blank(link_text(l)[0]) || link_text(l)[0] == '>',
{
    let s = link_text(l) + x;
    let u = asked_texts(l.all) + x;
    lemma_read_compound(l.all, x);
    assert(u[0] == asked_texts(l.all)[0]);
    assert(!blank(u[0]));
    if l.before.len() > 0 {
        assert(blank(l.before[0]));
        assert(link_text(l)[0] == l.before[0]);
    }
    if l.child {
        let r = l.after + u;
        let t = seq!['>'] + r;
        assert(s =~= l.before + t);
        lemma_skip_blanks(l.before, t);
        assert(t.skip(1) =~= r);
        lemma_skip_blanks(l.after, u);
    } else {
        assert(s =~= l.before + u);
        lemma_skip_blanks(l.before, u);
    }
}

proof fn lemma_links_first(links: Seq<Link>)
    requires
        links.len() > 0,
    ensures
        Seq::new(links.len(), |i: int| link_text(links[i])).flatten() == link_text(links[0])
            + Seq::new(links.skip(1).len(), |i: int| link_text(links.skip(1)[i])).flatten(),
{
    let pieces = Seq::new(links.len(), |i: int| link_text(links[i]));
    assert(pieces.drop_first() =~= Seq::new(
        links.skip(1).len(),
        |i: int| link_text(links.skip(1)[i]),
    ));
}

spec fn links_text(links: Seq<Link>) -> Seq<char> {
    Seq::new(links.len(), |i: int| link_text(links[i])).flatten()
}

proof fn lemma_read_links(first: Seq<Asked>, links: Seq<Link>, k: int, tail: Seq<char>)
    requires
        well_chained(first, links),
        0 <= k <= links.len(),
        breaks_off(innermost(first, links).last(), tail),
    ensures
        sequence(links_text(links.skip(k)) + tail, chain_parts(first, links.take(k))) == sequence(
            tail,
            chain_parts(first, links),
        ),
    decreases links.len() - k,
{
    let rest = links.skip(k);
    let s = links_text(rest) + tail;
    if k == links.len() {
        assert(links_text(rest) =~= Seq::<char>::empty());
        assert(s =~= tail);
        assert(links.take(k) =~= links);
    } else {
        let l = links[k];
        let next = links_text(links.skip(k + 1)) + tail;
        lemma_links_first(rest);
        assert(rest.skip(1) =~= links.skip(k + 1));
        assert(rest[0] == l);
        assert(s =~= link_text(l) + next);
        assert(well_linked(l));
        lemma_chain_parts(first, links.take(k));
        if k + 1 < links.len() {
            let m = links[k + 1];
            let more = links.skip(k + 1);
            lemma_links_first(more);
            assert(more[0] == m);
            assert(well_linked(m));
            lemma_link_start(m);
            assert(next[0] == link_text(m)[0]);
        } else {
            assert(links_text(links.skip(k + 1)) =~= Seq::<char>::empty());
            assert(next =~= tail);
            assert(links.last() == l);
        }
        lemma_read_link(chain_parts(first, links.take(k)), l, next);
        assert(links.take(k + 1).drop_last() =~= links.take(k));
        assert(links.take(k + 1).last() == l);
        lemma_read_links(first, links, k + 1, tail);
    }
}

proof fn lemma_link_start(l: Link)
    requires
        well_linked(l),
    ensures
        link_text(l).len() > 0,
        blank(link_text(l)[0]) || link_text(l)[0] == '>',
{
    if l.before.len() > 0 {
        assert(blank(l.before[0]));
        assert(link_text(l)[0] == l.before[0]);
    }
}

/// Reading a whole chain, before something that is not read with it.
proof fn lemma_read_chain(first: Seq<Asked>, links: Seq<Link>, tail: Seq<char>)
    requires
        well_chained(first, links),
        breaks_off(innermost(first, links).last(), tail),
    ensures
        sequence(chain_text(first, links) + tail, Seq::empty()) == sequence(
            tail,
            chain_parts(first, links),
        ),
{
    let s = chain_text(first, links) + tail;
    let rest = links_text(links) + tail;
    let u = asked_texts(first) + rest;
    assert(s =~= u);
    if links.len() > 0 {
        lemma_links_first(links);
        assert(well_linked(links[0]));
        lemma_link_start(links[0]);
        assert(rest[0] == link_text(links[0])[0]);
    } else {
        assert(links_text(links) =~= Seq::<char>::empty());
        assert(rest =~= tail);
    }
    lemma_read_compound(first, rest);
    assert(u[0] == asked_texts(first)[0]);
    assert(!blank(u[0]));
    lemma_no_span(u, whitespace_class());
    let one = seq![Part { compound: tests_of(first), combinator: None }];
    assert(joined(Seq::empty(), None, tests_of(first)) =~= one);
    assert(links.skip(0) =~= links);
    assert(links.take(0) =~= Seq::<Link>::empty());
    lemma_read_links(first, links, 0, tail);
}

proof fn lemma_end(parts: Seq<Part>)
    requires
        parts.len() > 0,
    ensures
        sequence(Seq::empty(), parts) == Some(parts),
{
    lemma_no_span(Seq::empty(), whitespace_class());
}

proof fn lemma_link_ends(l: Link)
    requires
        well_linked(l),
    ensures
        link_text(l).len() > 0,
        !white_space(link_text(l).last()),
        !link_text(l).contains(','),
{
    lemma_asked_ends(l.all);
    lemma_word_without_comma(l.before);
    lemma_word_without_comma(l.after);
    lemma_one_without('>');
    let t = asked_texts(l.all);
    assert(link_text(l).last() == t.last());
    if l.child {
        lemma_join_without(l.before, seq!['>'], ',');
        lemma_join_without(l.before + seq!['>'], l.after, ',');
        lemma_join_without(l.before + seq!['>'] + l.after, t, ',');
    } else {
        lemma_join_without(l.before, t, ',');
    }
}

proof fn lemma_chain_ends(first: Seq<Asked>, links: Seq<Link>)
    requires
        well_chained(first, links),
    ensures
        chain_text(first, links).len() > 0,
        !white_space(chain_text(first, links)[0]),
        !white_space(chain_text(first, links).last()),
        chain_text(first, links)[0] != '>',
        !chain_text(first, links).contains(','),
{
    let s = chain_text(first, links);
    let pieces = Seq::new(links.len(), |i: int| link_text(links[i]));
    lemma_asked_ends(first);
    assert(s[0] == asked_texts(first)[0]);
    assert forall|i: int| 0 <= i < pieces.len() implies !(#[trigger] pieces[i]).contains(',') by {
        assert(well_linked(links[i]));
        lemma_link_ends(links[i]);
    }
    lemma_flatten_without(pieces, ',');
    lemma_join_without(asked_texts(first), pieces.flatten(), ',');
    if links.len() > 0 {
        assert(well_linked(links[links.len() - 1]));
        lemma_link_ends(links.last());
        lemma_flatten_last(pieces);
        assert(s.last() == link_text(links.last()).last());
    } else {
        assert(pieces.flatten() =~= Seq::<char>::empty());
        assert(s =~= asked_texts(first));
    }
}

/// The meaning of a selector without commas, with white space around it.
proof fn lemma_meaning_of(p: Seq<char>, w: Seq<char>, q: Seq<char>)
    requires
        !w.contains(','),
        forall|i: int| 0 <= i < p.len() ==> white_space(#[trigger] p[i]),
        forall|i: int| 0 <= i < q.len() ==> white_space(#[trigger] q[i]),
        w.len() > 0 ==> !white_space(w[0]) && !white_space(w.last()),
    ensures
        selector_meaning(p + w + q) == (match sequence(w, Seq::empty()) {
            Some(parts) => seq![parts],
            None => Seq::empty(),
        }),
{
    let s = p + w + q;
    law_trimming(p, w, q);
    assert(!s.contains(',')) by {
        if s.contains(',') {
            let i = s.index_of(',');
            if i < p.len() {
                assert(white_space(p[i]));
            } else if i < p.len() + w.len() {
                assert(w[i - p.len()] == ',');
            } else {
                assert(white_space(q[i - p.len() - w.len()]));
            }
        }
    }
    assert forall|i: int| 0 <= i < s.len() implies all_but(',')(#[trigger] s[i]) by {
        assert(s.contains(s[i]));
    }
    lemma_span_is(s, all_but(','), s.len() as int);
    assert(pieces(s, ',') == seq![s]);
    Seq::<Seq<char>>::lemma_filter_map_singleton(s, piece_meaning());
}

proof fn lemma_chain_meaning(first: Seq<Asked>, links: Seq<Link>)
    requires
        well_chained(first, links),
    ensures
        selector_meaning(chain_text(first, links)) == seq![chain_parts(first, links)],
{
    let w = chain_text(first, links);
    let nothing = Seq::<char>::empty();
    lemma_chain_ends(first, links);
    lemma_read_chain(first, links, nothing);
    assert(w + nothing =~= w);
    assert(nothing + w + nothing =~= w);
    lemma_chain_parts(first, links);
    lemma_end(chain_parts(first, links));
    lemma_meaning_of(nothing, w, nothing);
}

proof fn lemma_one_meaning(nodes: Nodes, parts: Seq<Part>, id: int)
    ensures
        selector_holds(nodes, seq![parts], id) <==> sequence_holds(nodes, parts, id),
{
    assert(seq![parts][0] == parts);
}

// ---------------------------------------------------------------------------
// The laws
// ---------------------------------------------------------------------------
/// What is asked of one element, one thing behind the other, matches the elements that give all of
/// it, and nothing else.
pub proof fn law_asked_together(nodes: Nodes, all: Seq<Asked>, id: int)
    requires
        all_well_asked(all),
    ensures
        selector_holds(nodes, selector_meaning(asked_texts(all)), id) <==> gives_all(
            nodes[id].data,
            all,
        ),
{
    let none = Seq::<Link>::empty();
    let part = Part { compound: tests_of(all), combinator: None };
    assert(links_text(none) =~= Seq::<char>::empty());
    assert(chain_text(all, none) =~= asked_texts(all));
    lemma_chain_meaning(all, none);
    lemma_one_meaning(nodes, seq![part], id);
    law_shortest_sequences(nodes, part, id);
    lemma_gives_all(nodes[id].data, all);
}

/// A selector that goes on with `>` matches the elements that give what is asked last and whose
/// parent matches the selector so far.
pub proof fn law_child_link(
    nodes: Nodes,
    first: Seq<Asked>,
    links: Seq<Link>,
    link: Link,
    id: int,
)
    requires
        well_chained(first, links),
        well_linked(link),
        link.child,
    ensures
        selector_holds(nodes, selector_meaning(chain_text(first, links.push(link))), id) <==> {
            &&& gives_all(nodes[id].data, link.all)
            &&& nodes[id].parent matches Some(p) && selector_holds(
                nodes,
                selector_meaning(chain_text(first, links)),
                p,
            )
        },
{
    let more = links.push(link);
    lemma_longer_chain(first, links, link);
    let parts = chain_parts(first, more);
    let n = parts.len();
    law_child_step(nodes, parts, id);
    lemma_chain_meaning(first, more);
    lemma_one_meaning(nodes, parts, id);
    lemma_gives_all(nodes[id].data, link.all);
    if let Some(p) = nodes[id].parent {
        lemma_chain_meaning(first, links);
        lemma_one_meaning(nodes, chain_parts(first, links), p);
        lemma_last_join(nodes, parts.drop_last(), chain_parts(first, links), p);
    }
}

/// Whether a node is the nearest one above another that gives all that is asked.
pub open spec fn is_nearest_giving(nodes: Nodes, a: int, id: int, all: Seq<Asked>) -> bool {
    &&& is_below(nodes, a, id)
    &&& gives_all(nodes[a].data, all)
    &&& forall|y: int| #[trigger]
        is_below(nodes, a, y) && is_below(nodes, y, id) ==> !gives_all(nodes[y].data, all)
}

/// A selector that goes on behind white space matches the elements that give what is asked last
/// and for which the nearest element above them that gives what is asked before that matches the
/// selector so far.
pub proof fn law_descendant_link(
    nodes: Nodes,
    first: Seq<Asked>,
    links: Seq<Link>,
    link: Link,
    id: int,
)
    requires
        is_forest(nodes),
        0 <= id < nodes.len(),
        well_chained(first, links),
        well_linked(link),
        !link.child,
    ensures
        selector_holds(nodes, selector_meaning(chain_text(first, links.push(link))), id) <==> {
            &&& gives_all(nodes[id].data, link.all)
            &&& exists|a: int| #[trigger]
                is_nearest_giving(nodes, a, id, innermost(first, links)) && selector_holds(
                    nodes,
                    selector_meaning(chain_text(first, links)),
                    a,
                )
        },
{
    let more = links.push(link);
    let all = innermost(first, links);
    lemma_longer_chain(first, links, link);
    let parts = chain_parts(first, more);
    let tests = parts[parts.len() - 2].compound;
    law_descendant_step(nodes, parts, id);
    lemma_chain_meaning(first, more);
    lemma_one_meaning(nodes, parts, id);
    lemma_gives_all(nodes[id].data, link.all);
    lemma_chain_meaning(first, links);
    assert(all_well_asked(all)) by {
        if links.len() > 0 {
            assert(well_linked(links[links.len() - 1]));
        }
    }
    assert forall|x: int| compound_holds(#[trigger] nodes[x].data, tests) <==> gives_all(
        nodes[x].data,
        all,
    ) by {
        lemma_gives_all(nodes[x].data, all);
    }
    assert forall|a: int|
        is_nearest_above(nodes, a, id, tests) <==> #[trigger] is_nearest_giving(
            nodes,
            a,
            id,
            all,
        ) by {
        assert(compound_holds(nodes[a].data, tests) <==> gives_all(nodes[a].data, all));
        assert forall|y: int| compound_holds(#[trigger] nodes[y].data, tests) <==> gives_all(
            nodes[y].data,
            all,
        ) by {
            lemma_gives_all(nodes[y].data, all);
        }
        if is_nearest_above(nodes, a, id, tests) {
            assert forall|y: int| #[trigger]
                is_below(nodes, a, y) && is_below(nodes, y, id) implies !gives_all(
                nodes[y].data,
                all,
            ) by {
                assert(!compound_holds(nodes[y].data, tests));
                lemma_gives_all(nodes[y].data, all);
            }
        }
        if is_nearest_giving(nodes, a, id, all) {
            assert forall|y: int| #[trigger]
                is_below(nodes, a, y) && is_below(nodes, y, id) implies !compound_holds(
                nodes[y].data,
                tests,
            ) by {
                assert(!gives_all(nodes[y].data, all));
                lemma_gives_all(nodes[y].data, all);
            }
        }
    }
    assert forall|a: int|
        sequence_holds(nodes, parts.drop_last(), a) <==> #[trigger] selector_holds(
            nodes,
            selector_meaning(chain_text(first, links)),
            a,
        ) by {
        lemma_one_meaning(nodes, chain_parts(first, links), a);
        lemma_last_join(nodes, parts.drop_last(), chain_parts(first, links), a);
    }
    if exists|a: int| #[trigger]
        is_nearest_above(nodes, a, id, tests) && sequence_holds(nodes, parts.drop_last(), a) {
        let a = choose|a: int| #[trigger]
            is_nearest_above(nodes, a, id, tests) && sequence_holds(nodes, parts.drop_last(), a);
        assert(is_nearest_giving(nodes, a, id, all));
        assert(selector_holds(nodes, selector_meaning(chain_text(first, links)), a));
    }
    if exists|a: int| #[trigger]
        is_nearest_giving(nodes, a, id, all) && selector_holds(
            nodes,
            selector_meaning(chain_text(first, links)),
            a,
        ) {
        let a = choose|a: int| #[trigger]
            is_nearest_giving(nodes, a, id, all) && selector_holds(
                nodes,
                selector_meaning(chain_text(first, links)),
                a,
            );
        assert(is_nearest_above(nodes, a, id, tests));
    }
}

/// A chain with one more link.
proof fn lemma_longer_chain(first: Seq<Asked>, links: Seq<Link>, link: Link)
    requires
        well_chained(first, links),
        well_linked(link),
    ensures
        well_chained(first, links.push(link)),
        ({
            let parts = chain_parts(first, links.push(link));
            let front = chain_parts(first, links);
            &&& parts.len() == front.len() + 1
            &&& front.len() > 0
            &&& parts.last().compound == tests_of(link.all)
            &&& parts[parts.len() - 2].combinator == join_of(link)
            &&& parts[parts.len() - 2].compound == tests_of(innermost(first, links))
            &&& parts[parts.len() - 2].compound == front.last().compound
            &&& forall|i: int| 0 <= i < front.len() - 1 ==> #[trigger] parts[i] == front[i]
        }),
{
    let more = links.push(link);
    assert forall|i: int| 0 <= i < more.len() implies well_linked(#[trigger] more[i]) by {
        if i < links.len() {
            assert(more[i] == links[i]);
        }
    }
    assert(more.drop_last() =~= links);
    assert(more.last() == link);
    lemma_chain_parts(first, links);
}

/// How the last part is joined to what follows does not matter where nothing follows.
proof fn lemma_last_join(nodes: Nodes, a: Seq<Part>, b: Seq<Part>, id: int)
    requires
        a.len() == b.len(),
        a.len() > 0,
        a.last().compound == b.last().compound,
        forall|i: int| 0 <= i < a.len() - 1 ==> #[trigger] a[i] == b[i],
    ensures
        sequence_holds(nodes, a, id) == sequence_holds(nodes, b, id),
{
    lemma_parts_above_agree(nodes, a, b, (a.len() - 1) as nat, id);
}

/// White space around a selector without commas has no meaning.
pub proof fn law_outer_space(p: Seq<char>, first: Seq<Asked>, links: Seq<Link>, q: Seq<char>)
    requires
        well_chained(first, links),
        forall|i: int| 0 <= i < p.len() ==> white_space(#[trigger] p[i]),
        forall|i: int| 0 <= i < q.len() ==> white_space(#[trigger] q[i]),
    ensures
        selector_meaning(p + chain_text(first, links) + q) == selector_meaning(
            chain_text(first, links),
        ),
{
    let w = chain_text(first, links);
    let nothing = Seq::<char>::empty();
    lemma_chain_ends(first, links);
    lemma_meaning_of(p, w, q);
    lemma_meaning_of(nothing, w, nothing);
    assert(nothing + w + nothing =~= w);
}

/// White space alone, and nothing, match nothing.
pub proof fn law_blank_selector(nodes: Nodes, p: Seq<char>, id: int)
    requires
        forall|i: int| 0 <= i < p.len() ==> white_space(#[trigger] p[i]),
    ensures
        !selector_holds(nodes, selector_meaning(p), id),
{
    let nothing = Seq::<char>::empty();
    lemma_no_span(nothing, whitespace_class());
    lemma_meaning_of(p, nothing, nothing);
    assert(p + nothing + nothing =~= p);
}

/// A `>` at the beginning of a selector, with white space behind it or without, has no meaning.
pub proof fn law_leading_child(gap: Seq<char>, first: Seq<Asked>, links: Seq<Link>)
    requires
        well_chained(first, links),
        blanks(gap),
    ensures
        selector_meaning(seq!['>'] + gap + chain_text(first, links)) == selector_meaning(
            chain_text(first, links),
        ),
{
    let w = chain_text(first, links);
    let nothing = Seq::<char>::empty();
    let s = seq!['>'] + gap + w;
    let rest = links_text(links);
    lemma_chain_ends(first, links);
    lemma_word_without_comma(gap);
    lemma_one_without('>');
    lemma_join_without(seq!['>'], gap, ',');
    lemma_join_without(seq!['>'] + gap, w, ',');
    assert(s.last() == w.last());
    if links.len() > 0 {
        lemma_links_first(links);
        assert(well_linked(links[0]));
        lemma_link_start(links[0]);
        assert(rest[0] == link_text(links[0])[0]);
    } else {
        assert(rest =~= nothing);
    }
    lemma_read_compound(first, rest);
    assert(w[0] == asked_texts(first)[0]);
    assert(!blank(w[0]));
    lemma_no_span(s, whitespace_class());
    assert(s.skip(1) =~= gap + w);
    lemma_skip_blanks(gap, w);
    lemma_no_span(w, whitespace_class());
    let one = seq![Part { compound: tests_of(first), combinator: None }];
    assert(joined(Seq::empty(), Some(Combinator::Child), tests_of(first)) =~= one);
    assert(joined(Seq::empty(), None, tests_of(first)) =~= one);
    assert(w == asked_texts(first) + rest);
    assert(sequence(s, Seq::empty()) == sequence(rest, one));
    assert(sequence(w, Seq::empty()) == sequence(rest, one));
    lemma_meaning_of(nothing, s, nothing);
    lemma_meaning_of(nothing, w, nothing);
    assert(nothing + s + nothing =~= s);
    assert(nothing + w + nothing =~= w);
}

/// A `>` at the end of a selector, with white space before it or without, has no meaning.
pub proof fn law_trailing_child(first: Seq<Asked>, links: Seq<Link>, gap: Seq<char>)
    requires
        well_chained(first, links),
        blanks(gap),
    ensures
        selector_meaning(chain_text(first, links) + gap + seq!['>']) == selector_meaning(
            chain_text(first, links),
        ),
{
    let w = chain_text(first, links);
    let nothing = Seq::<char>::empty();
    let end = seq!['>'];
    let tail = gap + end;
    let s = w + gap + end;
    let parts = chain_parts(first, links);
    assert(s =~= w + tail);
    if gap.len() > 0 {
        assert(blank(gap[0]));
        assert(tail[0] == gap[0]);
    }
    lemma_read_chain(first, links, tail);
    lemma_chain_parts(first, links);
    lemma_skip_blanks(gap, end);
    assert(end.skip(1) =~= nothing);
    lemma_no_span(nothing, whitespace_class());
    assert(sequence(tail, parts) == Some(parts));
    lemma_chain_meaning(first, links);
    lemma_chain_ends(first, links);
    lemma_word_without_comma(gap);
    lemma_one_without('>');
    lemma_join_without(w, gap, ',');
    lemma_join_without(w + gap, end, ',');
    assert(s[0] == w[0]);
    assert(s.last() == '>');
    lemma_meaning_of(nothing, s, nothing);
    assert(nothing + s + nothing =~= s);
}

/// Reading what is asked, before more that is asked of the same element.
proof fn lemma_read_asked_then(all: Seq<Asked>, k: int, x: Seq<char>)
    requires
        all.len() > 0 ==> all_well_asked(all),
        0 <= k <= all.len(),
        x.len() > 0 ==> !word_char(x[0]),
    ensures
        compound(asked_texts(all.skip(k)) + x, tests_of(all.take(k))) == compound(
            x,
            tests_of(all),
        ),
    decreases all.len() - k,
{
    let rest = all.skip(k);
    let s = asked_texts(rest) + x;
    if k == all.len() {
        assert(asked_texts(rest) =~= Seq::<char>::empty());
        assert(s =~= x);
        assert(all.take(k) =~= all);
    } else {
        let a = all[k];
        let next = asked_texts(all.skip(k + 1)) + x;
        lemma_asked_first(rest);
        assert(rest.skip(1) =~= all.skip(k + 1));
        assert(s =~= asked_text(a) + next);
        assert(well_asked(a));
        if k + 1 < all.len() {
            let b = all[k + 1];
            let more = all.skip(k + 1);
            lemma_asked_first(more);
            assert(more[0] == b);
            assert(well_asked(b));
            if ends_in_name(a) {
                assert(ends_in_name(all[k + 1 - 1]));
                assert(!(all[k + 1] is Named) && !(all[k + 1] is WithClass));
                assert(next[0] == asked_text(b)[0]);
            }
        } else {
            assert(asked_texts(all.skip(k + 1)) =~= Seq::<char>::empty());
            assert(next =~= x);
        }
        lemma_read_one(a, tests_of(all.take(k)), next);
        assert(tests_of(all.take(k)).push(test_of(a)) =~= tests_of(all.take(k + 1)));
        lemma_read_asked_then(all, k + 1, x);
    }
}

/// What brackets at the end of a text mean decides what the text means.
proof fn lemma_brackets_at_end(all: Seq<Asked>, b: Seq<char>)
    requires
        all.len() > 0 ==> all_well_asked(all),
        b.len() > 0,
        b[0] == '[',
        !b.contains(','),
        !white_space(b.last()),
    ensures
        match attr_test(b.skip(1)) {
            Some((test, rest)) => rest.len() == 0 ==> selector_meaning(asked_texts(all) + b)
                == seq![seq![Part { compound: tests_of(all).push(test), combinator: None }]],
            None => selector_meaning(asked_texts(all) + b).len() == 0,
        },
{
    let w = asked_texts(all) + b;
    let nothing = Seq::<char>::empty();
    assert(all.skip(0) =~= all);
    assert(tests_of(all.take(0)) =~= Seq::<Simple>::empty());
    lemma_read_asked_then(all, 0, b);
    if all.len() > 0 {
        lemma_asked_ends(all);
        assert(w[0] == asked_texts(all)[0]);
    } else {
        assert(asked_texts(all) =~= nothing);
        assert(w =~= b);
    }
    lemma_join_without(asked_texts(all), b, ',');
    assert(w.last() == b.last());
    assert(!blank(w[0]));
    lemma_no_span(w, whitespace_class());
    lemma_meaning_of(nothing, w, nothing);
    assert(nothing + w + nothing =~= w);
    if let Some((test, rest)) = attr_test(b.skip(1)) {
        if rest.len() == 0 {
            let tests = tests_of(all).push(test);
            let part = Part { compound: tests, combinator: None };
            assert(rest =~= nothing);
            assert(compound(rest, tests) == Some((tests, rest)));
            assert(compound(w, Seq::empty()) == Some((tests, rest)));
            assert(joined(Seq::empty(), None, tests) =~= seq![part]);
            lemma_end(seq![part]);
            assert(sequence(w, Seq::empty()) == Some(seq![part]));
        }
    } else {
        assert(compound(w, Seq::empty()) is None);
        assert(sequence(w, Seq::empty()) is None);
    }
}

/// At the end of a selector, the `]` behind a comparison may be missing, and so may the quote that
/// closes its value.
pub proof fn law_unclosed_brackets(
    nodes: Nodes,
    all: Seq<Asked>,
    name: Seq<char>,
    gap: Seq<char>,
    sign: Option<char>,
    before: Seq<char>,
    quote: char,
    value: Seq<char>,
    closed: bool,
    id: int,
)
    requires
        all.len() > 0 ==> all_well_asked(all),
        well_asked(
            Asked::Compares {
                name,
                gap,
                sign,
                before,
                quote: Some(quote),
                value,
                after: Seq::empty(),
            },
        ),
        !closed && value.len() > 0 ==> !white_space(value.last()),
    ensures
        selector_holds(
            nodes,
            selector_meaning(
                asked_texts(all) + (seq!['['] + name + gap + perhaps(sign) + seq!['='] + before
                    + seq![quote] + value + (if closed {
                    seq![quote]
                } else {
                    Seq::empty()
                })),
            ),
            id,
        ) <==> gives_all(nodes[id].data, all) && gives(
            nodes[id].data,
            Asked::Compares {
                name,
                gap,
                sign,
                before,
                quote: Some(quote),
                value,
                after: Seq::empty(),
            },
        ),
{
    let nothing = Seq::<char>::empty();
    let tail = if closed {
        seq![quote]
    } else {
        nothing
    };
    let b = seq!['['] + name + gap + perhaps(sign) + seq!['='] + before + seq![quote] + value
        + tail;
    let a = Asked::Compares {
        name,
        gap,
        sign,
        before,
        quote: Some(quote),
        value,
        after: nothing,
    };
    let v = seq![quote] + value + tail;
    let e = perhaps(sign) + seq!['='] + (before + v);
    let r = gap + e;
    let s = b.skip(1);
    assert(s =~= name + r);
    if gap.len() > 0 {
        assert(blank(gap[0]));
        assert(r[0] == gap[0]);
    } else {
        assert(r =~= e);
    }
    lemma_word_span(name, r);
    lemma_skip_blanks(gap, e);
    assert(sign is None ==> e[0] == '=' && e.skip(1) =~= before + v);
    assert(sign is Some ==> e[0] != '=' && e[0] == sign->0 && e[1] == '=' && e.skip(2) =~= before
        + v);
    lemma_skip_blanks(before, v);
    assert(v.skip(1) =~= value + tail);
    assert forall|i: int| 0 <= i < value.len() implies all_but(quote)(#[trigger] value[i]) by {
        assert(value.contains(value[i]));
    }
    lemma_span_of_concat(value, tail, all_but(quote));
    assert(tail.len() > 0 ==> tail.skip(1) =~= nothing);
    assert(test_value(v) == (value, nothing));
    lemma_no_span(nothing, whitespace_class());
    assert(attr_test(s) == Some((test_of(a), nothing)));
    // No comma, and no white space at the end.
    lemma_asked_one(a);
    let whole = asked_text(a);
    assert forall|i: int| 0 <= i < b.len() implies b[i] == whole[i] by {}
    if b.contains(',') {
        let i = b.index_of(',');
        assert(whole[i] == ',');
    }
    assert(b.last() == (if closed || value.len() == 0 {
        quote
    } else {
        value.last()
    }));
    lemma_brackets_at_end(all, b);
    let part = Part { compound: tests_of(all).push(test_of(a)), combinator: None };
    lemma_one_meaning(nodes, seq![part], id);
    law_shortest_sequences(nodes, part, id);
    lemma_gives(nodes[id].data, a);
    lemma_gives_pushed(nodes[id].data, all, test_of(a));
}

proof fn lemma_gives_pushed(data: Content, all: Seq<Asked>, test: Simple)
    requires
        all.len() > 0 ==> all_well_asked(all),
    ensures
        compound_holds(data, tests_of(all).push(test)) <==> gives_all(data, all) && simple_holds(
            data,
            test,
        ),
{
    let front = tests_of(all);
    let tests = front.push(test);
    if all.len() > 0 {
        lemma_gives_all(data, all);
    }
    if compound_holds(data, tests) {
        assert(tests[front.len() as int] == test);
        assert forall|i: int| 0 <= i < front.len() implies simple_holds(
            data,
            #[trigger] front[i],
        ) by {
            assert(tests[i] == front[i]);
        }
    }
    if gives_all(data, all) && simple_holds(data, test) {
        assert(compound_holds(data, front));
        assert forall|i: int| 0 <= i < tests.len() implies simple_holds(
            data,
            #[trigger] tests[i],
        ) by {
            if i < front.len() {
                assert(tests[i] == front[i]);
            }
        }
    }
}

/// Brackets in which the name is followed by something else than a `]` or one of the comparisons,
/// or by nothing, leave a selector without meaning: it matches nothing.
pub proof fn law_unknown_comparison(
    nodes: Nodes,
    all: Seq<Asked>,
    name: Seq<char>,
    gap: Seq<char>,
    x: Seq<char>,
    id: int,
)
    requires
        all.len() > 0 ==> all_well_asked(all),
        dense_word(name),
        blanks(gap),
        x.len() == 0 ==> gap.len() == 0,
        x.len() > 0 ==> {
            &&& !blank(x[0])
            &&& gap.len() == 0 ==> !word_char(x[0])
            &&& x[0] != ']' && x[0] != '='
            &&& x.len() > 1 && x[1] == '=' ==> x[0] != '~' && x[0] != '^' && x[0] != '$' && x[0]
                != '*'
            &&& !white_space(x.last())
            &&& !x.contains(',')
        },
    ensures
        !selector_holds(
            nodes,
            selector_meaning(asked_texts(all) + (seq!['['] + name + gap + x)),
            id,
        ),
{
    let b = seq!['['] + name + gap + x;
    let r = gap + x;
    let s = b.skip(1);
    assert(s =~= name + r);
    if gap.len() > 0 {
        assert(blank(gap[0]));
        assert(r[0] == gap[0]);
    } else {
        assert(r =~= x);
    }
    lemma_word_span(name, r);
    lemma_skip_blanks(gap, x);
    assert(attr_test(s) is None);
    lemma_word_without_comma(name);
    lemma_word_without_comma(gap);
    lemma_one_without('[');
    lemma_join_without(seq!['['], name, ',');
    lemma_join_without(seq!['['] + name, gap, ',');
    lemma_join_without(seq!['['] + name + gap, x, ',');
    if x.len() > 0 {
        assert(b.last() == x.last());
    } else if name.len() > 0 {
        assert(!white_space(name[name.len() - 1]));
        assert(b.last() == name[name.len() - 1]);
    }
    lemma_brackets_at_end(all, b);
}

/// A character that begins nothing leaves a selector without meaning: it matches nothing.
pub proof fn law_unknown_character(
    nodes: Nodes,
    first: Seq<Asked>,
    links: Seq<Link>,
    c: char,
    x: Seq<char>,
    id: int,
)
    requires
        well_chained(first, links),
        is_unknown(c),
        ends_in_name(innermost(first, links).last()) ==> !word_char(c),
        !x.contains(','),
        !white_space((seq![c] + x).last()),
    ensures
        !selector_holds(nodes, selector_meaning(chain_text(first, links) + seq![c] + x), id),
{
    let w = chain_text(first, links);
    let nothing = Seq::<char>::empty();
    let tail = seq![c] + x;
    let s = w + seq![c] + x;
    let parts = chain_parts(first, links);
    assert(s =~= w + tail);
    lemma_read_chain(first, links, tail);
    lemma_no_span(tail, whitespace_class());
    assert(compound(tail, Seq::empty()) is None);
    assert(sequence(tail, parts) is None);
    lemma_chain_ends(first, links);
    lemma_one_without(c);
    lemma_join_without(w, seq![c], ',');
    lemma_join_without(w + seq![c], x, ',');
    assert(s[0] == w[0]);
    assert(s.last() == tail.last());
    lemma_meaning_of(nothing, s, nothing);
    assert(nothing + s + nothing =~= s);
}

} // verus!
