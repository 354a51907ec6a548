//! What the laws of reading are told in: characters, texts and attributes by themselves.
use vstd::prelude::*;

use crate::attrs::AttrList;
use crate::grammar::Reading;
use crate::text::{unicode_alphabetic, unicode_numeric};
use crate::tree::Tree;

verus! {

// ---------------------------------------------------------------------------
// Characters
// ---------------------------------------------------------------------------
/// Space, tab, line feed, form feed or carriage return.
pub open spec fn blank(c: char) -> bool {
    c == ' ' || c == '\t' || c == '\n' || c == '\u{C}' || c == '\r'
}

/// A letter or a number of any script.
pub open spec fn letter_or_number(c: char) -> bool {
    if c <= '\u{7F}' {
        'a' <= c <= 'z' || 'A' <= c <= 'Z' || '0' <= c <= '9'
    } else {
        unicode_alphabetic(c) || unicode_numeric(c)
    }
}

/// A letter of any script.
pub open spec fn letter(c: char) -> bool {
    if c <= '\u{7F}' {
        'a' <= c <= 'z' || 'A' <= c <= 'Z'
    } else {
        unicode_alphabetic(c)
    }
}

/// What names of elements, ids and classes are made of.
pub open spec fn word_char(c: char) -> bool {
    letter_or_number(c) || c == '-' || c == '_' || c == ':' || c == '.'
}

/// What names of attributes are made of.
pub open spec fn key_char(c: char) -> bool {
    !blank(c) && c != '=' && c != '>' && c != '/' && c != '"' && c != '\''
}

/// What values without quotes are made of.
pub open spec fn bare_char(c: char) -> bool {
    !blank(c) && c != '>' && c != '/'
}

// ---------------------------------------------------------------------------
// Texts
// ---------------------------------------------------------------------------
/// White space, or nothing.
pub open spec fn blanks(s: Seq<char>) -> bool {
    forall|i: int| 0 <= i < s.len() ==> blank(#[trigger] s[i])
}

/// A text of characters of names, or nothing.
pub open spec fn word(s: Seq<char>) -> bool {
    forall|i: int| 0 <= i < s.len() ==> word_char(#[trigger] s[i])
}

/// A text with `A` to `Z` made small.
pub open spec fn small(s: Seq<char>) -> Seq<char> {
    Seq::new(
        s.len(),
        |i: int|
            if 'A' <= s[i] <= 'Z' {
                ((s[i] as u32) + 32) as char
            } else {
                s[i]
            },
    )
}

/// Whether `-->` stands at a place.
pub open spec fn arrow_at(s: Seq<char>, i: int) -> bool {
    0 <= i && i + 2 < s.len() && s[i] == '-' && s[i + 1] == '-' && s[i + 2] == '>'
}

/// Whether `-->` stands at none of the first places.
pub open spec fn no_arrow_before(s: Seq<char>, n: int) -> bool {
    forall|i: int| 0 <= i < n ==> !#[trigger] arrow_at(s, i)
}

/// The names of the elements that never have content.
pub open spec fn is_void_name(s: Seq<char>) -> bool {
    ||| s == seq!['a', 'r', 'e', 'a']
    ||| s == seq!['b', 'a', 's', 'e']
    ||| s == seq!['b', 'r']
    ||| s == seq!['c', 'o', 'l']
    ||| s == seq!['e', 'm', 'b', 'e', 'd']
    ||| s == seq!['h', 'r']
    ||| s == seq!['i', 'm', 'g']
    ||| s == seq!['i', 'n', 'p', 'u', 't']
    ||| s == seq!['l', 'i', 'n', 'k']
    ||| s == seq!['m', 'e', 't', 'a']
    ||| s == seq!['p', 'a', 'r', 'a', 'm']
    ||| s == seq!['s', 'o', 'u', 'r', 'c', 'e']
    ||| s == seq!['t', 'r', 'a', 'c', 'k']
    ||| s == seq!['w', 'b', 'r']
}

/// Whether `w` is one of the words that white space separates in `s`.
pub open spec fn is_word_of(w: Seq<char>, s: Seq<char>) -> bool {
    exists|p: Seq<char>, q: Seq<char>| #[trigger] splits_at_word(s, p, w, q)
}

/// Whether a text is a word with white space, or nothing, next to it on either side.
pub open spec fn splits_at_word(s: Seq<char>, p: Seq<char>, w: Seq<char>, q: Seq<char>) -> bool {
    &&& s == p + w + q
    &&& w.len() > 0
    &&& forall|i: int| 0 <= i < w.len() ==> !blank(#[trigger] w[i])
    &&& p.len() > 0 ==> blank(p.last())
    &&& q.len() > 0 ==> blank(q[0])
}

/// Whether `w` stands somewhere in `s`.
pub open spec fn is_part_of(w: Seq<char>, s: Seq<char>) -> bool {
    exists|p: Seq<char>, q: Seq<char>| s == #[trigger] (p + w + q)
}

/// Whether `s` begins with `w`.
pub open spec fn is_beginning_of(w: Seq<char>, s: Seq<char>) -> bool {
    exists|q: Seq<char>| s == #[trigger] (w + q)
}

/// Whether `s` ends with `w`.
pub open spec fn is_end_of(w: Seq<char>, s: Seq<char>) -> bool {
    exists|p: Seq<char>| s == #[trigger] (p + w)
}

// ---------------------------------------------------------------------------
// Attributes in a tag
// ---------------------------------------------------------------------------
/// How a value is given.
pub enum GivenValue {
    /// Not at all: the attribute is boolean.
    Flag,
    /// Between two quotes, with white space around the `=`.
    Quoted { before: Seq<char>, after: Seq<char>, quote: char, text: Seq<char> },
    /// Without quotes, with white space around the `=`.
    Bare { before: Seq<char>, after: Seq<char>, text: Seq<char> },
}

/// An attribute as it is given in a tag, with the white space before it.
pub struct Given {
    pub lead: Seq<char>,
    pub name: Seq<char>,
    pub value: GivenValue,
}

/// The text of an attribute.
pub open spec fn given_text(g: Given) -> Seq<char> {
    g.lead + g.name + match g.value {
        GivenValue::Flag => Seq::empty(),
        GivenValue::Quoted { before, after, quote, text } => before + seq!['='] + after + seq![
            quote,
        ] + text + seq![quote],
        GivenValue::Bare { before, after, text } => before + seq!['='] + after + text,
    }
}

/// The value of an attribute.
pub open spec fn given_value(g: Given) -> Option<Seq<char>> {
    match g.value {
        GivenValue::Flag => None,
        GivenValue::Quoted { text, .. } => Some(text),
        GivenValue::Bare { text, .. } => Some(text),
    }
}

/// Whether an attribute is well given: a name that is not empty, either quote around a value that
/// does not hold it, or a value without quotes that does not begin with one.
pub open spec fn well_given(g: Given) -> bool {
    &&& blanks(g.lead)
    &&& g.name.len() > 0
    &&& forall|i: int| 0 <= i < g.name.len() ==> key_char(#[trigger] g.name[i])
    &&& match g.value {
        GivenValue::Flag => true,
        GivenValue::Quoted { before, after, quote, text } => {
            &&& blanks(before)
            &&& blanks(after)
            &&& quote == '"' || quote == '\''
            &&& !text.contains(quote)
        },
        GivenValue::Bare { before, after, text } => {
            &&& blanks(before)
            &&& blanks(after)
            &&& text.len() > 0 ==> text[0] != '"' && text[0] != '\''
            &&& forall|i: int| 0 <= i < text.len() ==> bare_char(#[trigger] text[i])
        },
    }
}

/// Whether an attribute ends in a `=` that nothing follows.
pub open spec fn value_is_missing(g: Given) -> bool {
    g.value matches GivenValue::Bare { text, .. } && text.len() == 0
}

/// Whether attributes are well given: white space before each, which may be missing behind a
/// closing quote, and behind the name of the tag where that cannot go on; and a value behind the
/// `=` in each, which may be missing in the last.
pub open spec fn all_well_given(gs: Seq<Given>) -> bool {
    &&& forall|i: int| 0 <= i < gs.len() ==> well_given(#[trigger] gs[i])
    &&& gs.len() > 0 ==> gs[0].lead.len() > 0 || !word_char(gs[0].name[0])
    &&& forall|i: int|
        0 < i < gs.len() ==> (#[trigger] gs[i]).lead.len() > 0 || gs[i - 1].value is Quoted
    &&& forall|i: int| 0 <= i < gs.len() - 1 ==> !value_is_missing(#[trigger] gs[i])
}

/// The text of attributes.
pub open spec fn given_texts(gs: Seq<Given>) -> Seq<char> {
    Seq::new(gs.len(), |i: int| given_text(gs[i])).flatten()
}

/// The name of an attribute, in small letters.
pub open spec fn given_name(g: Given) -> Seq<char> {
    small(g.name)
}

/// Whether no two given attributes have the same name.
pub open spec fn given_once(gs: Seq<Given>) -> bool {
    forall|i: int, j: int|
        0 <= i < j < gs.len() ==> given_name(#[trigger] gs[i]) != given_name(#[trigger] gs[j])
}

/// Whether a given attribute is the last one of its name.
pub open spec fn given_last(gs: Seq<Given>, i: int) -> bool {
    &&& 0 <= i < gs.len()
    &&& forall|j: int| i < j < gs.len() ==> given_name(#[trigger] gs[j]) != given_name(gs[i])
}

/// Whether attributes are those that are given: every name once, in small letters, with the value
/// it is given last, and in the order of the tag where no name is given twice.
pub open spec fn are_given(a: AttrList, gs: Seq<Given>) -> bool {
    &&& forall|i: int, j: int|
        0 <= i < j < a.len() ==> (#[trigger] a[i]).0 != (#[trigger] a[j]).0
    &&& forall|i: int| #[trigger]
        given_last(gs, i) ==> a.contains((given_name(gs[i]), given_value(gs[i])))
    &&& forall|e: (Seq<char>, Option<Seq<char>>)| #[trigger]
        a.contains(e) ==> exists|i: int| #[trigger]
            given_last(gs, i) && e == (given_name(gs[i]), given_value(gs[i]))
    &&& given_once(gs) ==> a == Seq::new(
        gs.len(),
        |i: int| (given_name(gs[i]), given_value(gs[i])),
    )
}

/// The text of a tag up to its end: the name, the attributes, and white space.
pub open spec fn tag_up_to_end(name: Seq<char>, gs: Seq<Given>, space: Seq<char>) -> Seq<char> {
    seq!['<'] + name + given_texts(gs) + space
}

/// Whether the text of a tag up to its end is well given.
pub open spec fn well_given_tag(name: Seq<char>, gs: Seq<Given>, space: Seq<char>) -> bool {
    name.len() > 0 && word(name) && all_well_given(gs) && blanks(space)
}

// ---------------------------------------------------------------------------
// Readings
// ---------------------------------------------------------------------------
/// Whether a reading is some trees and then another reading.
pub open spec fn reads_on(r: Reading, first: Seq<Tree>, then: Reading) -> bool {
    r.trees == first + then.trees && r.end == then.end && r.rest == then.rest
}

} // verus!
