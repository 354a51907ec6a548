//! Characters and text: the character classes of the markup and selector languages, and the
//! scanning, comparing and splitting of text that both languages are built on.
use vstd::prelude::*;

verus! {

// ---------------------------------------------------------------------------
// Character classes
// ---------------------------------------------------------------------------
/// One of the first 128 characters.
pub open spec fn ascii(c: char) -> bool {
    c <= '\u{7F}'
}

/// A letter of the Latin alphabet without accents, of either case.
pub open spec fn ascii_letter(c: char) -> bool {
    'a' <= c <= 'z' || 'A' <= c <= 'Z'
}

/// One of the ten digits.
pub open spec fn ascii_digit(c: char) -> bool {
    '0' <= c <= '9'
}

/// What `char::is_alphabetic` answers for a character beyond the ASCII range.
pub uninterp spec fn unicode_alphabetic(c: char) -> bool;

/// What `char::is_numeric` answers for a character beyond the ASCII range.
pub uninterp spec fn unicode_numeric(c: char) -> bool;

/// `char::is_alphabetic`: whether a character has the Unicode property Alphabetic. Within ASCII
/// these are the letters; beyond it the answer is a table that is named, not written out.
pub assume_specification[ char::is_alphabetic ](c: char) -> (b: bool)
    ensures
        b == (if ascii(c) {
            ascii_letter(c)
        } else {
            unicode_alphabetic(c)
        }),
;

/// `char::is_numeric`: whether a character belongs to one of the Unicode categories for numbers.
/// Within ASCII these are the digits; beyond it the answer is a table that is named, not written
/// out.
pub assume_specification[ char::is_numeric ](c: char) -> (b: bool)
    ensures
        b == (if ascii(c) {
            ascii_digit(c)
        } else {
            unicode_numeric(c)
        }),
;

/// `char::is_whitespace`: whether a character has the Unicode property White_Space. The property
/// holds of twenty-five characters, which `white_space` lists.
pub assume_specification[ char::is_whitespace ](c: char) -> (b: bool)
    ensures
        b == white_space(c),
;

/// `String::push`: appends one character at the end.
pub assume_specification[ String::push ](s: &mut String, c: char)
    ensures
        final(s)@ == old(s)@.push(c),
;

/// A letter of any script.
pub open spec fn alphabetic(c: char) -> bool {
    if ascii(c) {
        ascii_letter(c)
    } else {
        unicode_alphabetic(c)
    }
}

/// A number of any script.
pub open spec fn numeric(c: char) -> bool {
    if ascii(c) {
        ascii_digit(c)
    } else {
        unicode_numeric(c)
    }
}

/// A letter or a number of any script.
pub open spec fn alphanumeric(c: char) -> bool {
    alphabetic(c) || numeric(c)
}

/// Space, tab, line feed, form feed or carriage return.
pub open spec fn ascii_whitespace(c: char) -> bool {
    c == ' ' || c == '\t' || c == '\n' || c == '\u{C}' || c == '\r'
}

/// The characters with the Unicode property White_Space.
pub open spec fn white_space(c: char) -> bool {
    ||| '\t' <= c <= '\r'
    ||| c == ' '
    ||| c == '\u{85}'
    ||| c == '\u{A0}'
    ||| c == '\u{1680}'
    ||| '\u{2000}' <= c <= '\u{200A}'
    ||| c == '\u{2028}'
    ||| c == '\u{2029}'
    ||| c == '\u{202F}'
    ||| c == '\u{205F}'
    ||| c == '\u{3000}'
}

/// `ascii_whitespace` as a class to scan by.
pub open spec fn whitespace_class() -> spec_fn(char) -> bool {
    |c: char| ascii_whitespace(c)
}

/// `white_space` as a class to scan by.
pub open spec fn white_space_class() -> spec_fn(char) -> bool {
    |c: char| white_space(c)
}

/// Every character but one.
pub open spec fn all_but(q: char) -> spec_fn(char) -> bool {
    |c: char| c != q
}

/// The lower case form of an ASCII letter; any other character as it is.
pub open spec fn lower(c: char) -> char {
    if 'A' <= c <= 'Z' {
        ((c as u32) + 32) as char
    } else {
        c
    }
}

/// A text with every ASCII letter in lower case.
pub open spec fn lowered(s: Seq<char>) -> Seq<char> {
    s.map_values(|c: char| lower(c))
}

/// Decides `alphanumeric`, as `char::is_alphanumeric` is documented: a letter or a number.
pub fn is_alphanumeric(c: char) -> (b: bool)
    ensures
        b == alphanumeric(c),
{
    c.is_alphabetic() || c.is_numeric()
}

/// Decides `ascii_whitespace`.
pub fn is_ascii_whitespace(c: char) -> (b: bool)
    ensures
        b == ascii_whitespace(c),
{
    c == ' ' || c == '\t' || c == '\n' || c == '\u{C}' || c == '\r'
}

/// The text with every ASCII letter in lower case.
pub fn to_ascii_lowercase(s: &str) -> (r: String)
    ensures
        r@ == lowered(s@),
{
    let mut r: String = String::new();
    for c in it: s.chars()
        invariant
            r@ == lowered(it.seq().take(it.index() as int)),
    {
        let l: char = if 'A' <= c && c <= 'Z' {
            (c as u8 + 32) as char
        } else {
            c
        };
        r.push(l);
        assert(l == lower(c));
    }
    r
}

// ---------------------------------------------------------------------------
// Text as a sequence of characters
// ---------------------------------------------------------------------------
/// The characters of a text.
pub fn chars_of(s: &str) -> (v: Vec<char>)
    ensures
        v@ == s@,
{
    let mut v: Vec<char> = Vec::new();
    for c in it: s.chars()
        invariant
            v@ == it.seq().take(it.index() as int),
    {
        v.push(c);
    }
    v
}

/// The text made of some characters.
pub fn string_of(chars: &[char]) -> (r: String)
    ensures
        r@ == chars@,
{
    let mut r: String = String::new();
    let mut i: usize = 0;
    while i < chars.len()
        invariant
            i <= chars@.len(),
            r@ == chars@.take(i as int),
        decreases chars@.len() - i,
    {
        r.push(chars[i]);
        i += 1;
    }
    assert(chars@.take(i as int) == chars@);
    r
}

/// Whether a text stands in some characters from a position on.
pub fn stands_at(chars: &[char], at: usize, w: &str) -> (b: bool)
    requires
        at <= chars@.len(),
    ensures
        b == w@.is_prefix_of(chars@.skip(at as int)),
{
    let mut i: usize = at;
    for c in it: w.chars()
        invariant
            at <= chars@.len(),
            it.seq() == w@,
            i == at + it.index(),
            i <= chars@.len(),
            chars@.subrange(at as int, i as int) == w@.take(it.index() as int),
    {
        if i >= chars.len() || chars[i] != c {
            assert(w@[it.index() as int] == c);
            assert(!w@.is_prefix_of(chars@.skip(at as int))) by {
                if w@.is_prefix_of(chars@.skip(at as int)) {
                    assert(w@[it.index() as int] == chars@.skip(at as int)[it.index() as int]);
                }
            }
            return false;
        }
        i += 1;
    }
    assert(w@.take(w@.len() as int) == w@);
    assert(chars@.skip(at as int).subrange(0, w@.len() as int) == chars@.subrange(
        at as int,
        i as int,
    ));
    true
}

/// Whether two texts are the same.
pub fn same_text(a: &str, b: &str) -> (r: bool)
    ensures
        r == (a@ == b@),
{
    let x: Vec<char> = chars_of(a);
    let y: Vec<char> = chars_of(b);
    if x.len() != y.len() {
        return false;
    }
    let mut i: usize = 0;
    while i < x.len()
        invariant
            i <= x@.len(),
            x@.len() == y@.len(),
            x@.take(i as int) == y@.take(i as int),
            x@ == a@,
            y@ == b@,
        decreases x@.len() - i,
    {
        if x[i] != y[i] {
            return false;
        }
        i += 1;
        assert(x@.take(i as int) == x@.take(i - 1).push(x@[i - 1]));
        assert(y@.take(i as int) == y@.take(i - 1).push(y@[i - 1]));
    }
    assert(x@.take(i as int) == x@);
    assert(y@.take(i as int) == y@);
    true
}

// ---------------------------------------------------------------------------
// Scanning
// ---------------------------------------------------------------------------
/// How many characters of a class a text begins with.
pub open spec fn span(s: Seq<char>, class: spec_fn(char) -> bool) -> nat
    decreases s.len(),
{
    if s.len() == 0 || !class(s[0]) {
        0
    } else {
        1 + span(s.skip(1), class)
    }
}

/// The longest beginning of a text that is made of characters of a class.
pub open spec fn take_while(s: Seq<char>, class: spec_fn(char) -> bool) -> Seq<char> {
    s.take(span(s, class) as int)
}

/// What follows `take_while` in a text.
pub open spec fn drop_while(s: Seq<char>, class: spec_fn(char) -> bool) -> Seq<char> {
    s.skip(span(s, class) as int)
}

/// A span lies within its text, holds characters of its class alone, and cannot be extended.
pub proof fn lemma_span(s: Seq<char>, class: spec_fn(char) -> bool)
    ensures
        span(s, class) <= s.len(),
        forall|i: int| 0 <= i < span(s, class) ==> class(#[trigger] s[i]),
        span(s, class) < s.len() ==> !class(s[span(s, class) as int]),
        take_while(s, class) + drop_while(s, class) == s,
        drop_while(s, class).len() == s.len() - span(s, class),
        drop_while(s, class).len() > 0 ==> !class(drop_while(s, class)[0]),
    decreases s.len(),
{
    if s.len() > 0 && class(s[0]) {
        lemma_span(s.skip(1), class);
        assert forall|i: int| 0 <= i < span(s, class) implies class(#[trigger] s[i]) by {
            if i > 0 {
                assert(s[i] == s.skip(1)[i - 1]);
            }
        }
        if span(s, class) < s.len() {
            assert(s[span(s, class) as int] == s.skip(1)[span(s, class) - 1]);
        }
    }
    assert(take_while(s, class) + drop_while(s, class) =~= s);
}

/// A beginning of characters of a class that cannot be extended is the span.
pub proof fn lemma_span_is(s: Seq<char>, class: spec_fn(char) -> bool, n: int)
    requires
        0 <= n <= s.len(),
        forall|i: int| 0 <= i < n ==> class(#[trigger] s[i]),
        n < s.len() ==> !class(s[n]),
    ensures
        span(s, class) == n,
{
    lemma_span(s, class);
    let m = span(s, class) as int;
    if m < n {
        assert(class(s[m]));
    } else if n < m {
        assert(class(s[n]));
    }
}

/// A text of characters of a class, before something that does not begin with one, is the span.
pub proof fn lemma_span_of_concat(a: Seq<char>, b: Seq<char>, class: spec_fn(char) -> bool)
    requires
        forall|i: int| 0 <= i < a.len() ==> class(#[trigger] a[i]),
        b.len() > 0 ==> !class(b[0]),
    ensures
        span(a + b, class) == a.len(),
        take_while(a + b, class) == a,
        drop_while(a + b, class) == b,
{
    let s = a + b;
    assert forall|i: int| 0 <= i < a.len() implies class(#[trigger] s[i]) by {
        assert(s[i] == a[i]);
    }
    lemma_span_is(s, class, a.len() as int);
    assert(s.take(a.len() as int) =~= a);
    assert(s.skip(a.len() as int) =~= b);
}

// ---------------------------------------------------------------------------
// Searching
// ---------------------------------------------------------------------------
/// Whether `w` stands somewhere in `s`.
pub open spec fn occurs_in(w: Seq<char>, s: Seq<char>) -> bool {
    exists|i: int| 0 <= i <= s.len() && w.is_prefix_of(#[trigger] s.skip(i))
}

/// Whether the characters from `i` to `j` are one whole word of `s`, words being what ASCII white
/// space separates.
pub open spec fn word_at(s: Seq<char>, i: int, j: int) -> bool {
    &&& 0 <= i < j <= s.len()
    &&& forall|k: int| i <= k < j ==> !ascii_whitespace(#[trigger] s[k])
    &&& i > 0 ==> ascii_whitespace(s[i - 1])
    &&& j < s.len() ==> ascii_whitespace(s[j])
}

/// Whether `w` is one of the words of `s`.
pub open spec fn has_word(s: Seq<char>, w: Seq<char>) -> bool {
    exists|i: int, j: int| #[trigger] word_at(s, i, j) && s.subrange(i, j) == w
}

/// Whether `s` begins with `w`.
pub fn text_starts_with(s: &str, w: &str) -> (b: bool)
    ensures
        b == w@.is_prefix_of(s@),
{
    let chars: Vec<char> = chars_of(s);
    assert(chars@.skip(0) == s@);
    stands_at(chars.as_slice(), 0, w)
}

/// Whether `s` ends with `w`.
pub fn text_ends_with(s: &str, w: &str) -> (b: bool)
    ensures
        b == w@.is_suffix_of(s@),
{
    let chars: Vec<char> = chars_of(s);
    let end: Vec<char> = chars_of(w);
    if end.len() > chars.len() {
        return false;
    }
    let at: usize = chars.len() - end.len();
    let b: bool = stands_at(chars.as_slice(), at, w);
    assert(chars@.skip(at as int) == s@.subrange((s@.len() - w@.len()) as int, s@.len() as int));
    assert(chars@.skip(at as int).subrange(0, w@.len() as int) == chars@.skip(at as int));
    b
}

/// Whether `w` stands somewhere in `s`.
pub fn text_contains(s: &str, w: &str) -> (b: bool)
    ensures
        b == occurs_in(w@, s@),
{
    let chars: Vec<char> = chars_of(s);
    let mut i: usize = 0;
    loop
        invariant
            chars@ == s@,
            i <= chars@.len(),
            forall|k: int| 0 <= k < i ==> !w@.is_prefix_of(#[trigger] s@.skip(k)),
        decreases chars@.len() - i,
    {
        if stands_at(chars.as_slice(), i, w) {
            return true;
        }
        if i >= chars.len() {
            return false;
        }
        i += 1;
    }
}

/// Whether `w` is one of the words of `s`.
pub fn text_has_word(s: &str, w: &str) -> (b: bool)
    ensures
        b == has_word(s@, w@),
{
    let chars: Vec<char> = chars_of(s);
    let mut i: usize = 0;
    while i < chars.len()
        invariant
            chars@ == s@,
            i <= chars@.len(),
            0 < i < chars@.len() ==> ascii_whitespace(chars@[i as int]),
            forall|a: int, b: int| #[trigger]
                word_at(s@, a, b) && b <= i ==> s@.subrange(a, b) != w@,
        decreases chars@.len() - i,
    {
        let ghost from = i as int;
        while i < chars.len() && is_ascii_whitespace(chars[i])
            invariant
                chars@ == s@,
                from <= i <= chars@.len(),
                forall|k: int| from <= k < i ==> ascii_whitespace(#[trigger] chars@[k]),
            decreases chars@.len() - i,
        {
            i += 1;
        }
        let start: usize = i;
        while i < chars.len() && !is_ascii_whitespace(chars[i])
            invariant
                chars@ == s@,
                start <= i <= chars@.len(),
                forall|k: int| start <= k < i ==> !ascii_whitespace(#[trigger] chars@[k]),
            decreases chars@.len() - i,
        {
            i += 1;
        }
        proof {
            // A word that ends in this stretch is the run from `start` to `i`.
            assert forall|a: int, b: int| #[trigger] word_at(s@, a, b) && from < b <= i implies a
                == start && b == i by {
                assert(!ascii_whitespace(s@[a]));
                if a < from {
                    assert(!ascii_whitespace(s@[from]));
                }
                assert(!(from <= a < start));
                if start < a {
                    assert(ascii_whitespace(s@[a - 1]));
                    assert(start <= a - 1 < i);
                }
                if b < i {
                    assert(ascii_whitespace(s@[b]));
                    assert(start <= b < i);
                }
            }
        }
        if start < i {
            let run: String = string_of(&chars.as_slice()[start..i]);
            assert(start > 0 ==> ascii_whitespace(s@[start - 1])) by {
                if start > from {
                    assert(ascii_whitespace(chars@[start - 1]));
                }
            }
            assert(word_at(s@, start as int, i as int));
            if same_text(run.as_str(), w) {
                return true;
            }
        }
    }
    false
}

// ---------------------------------------------------------------------------
// Trimming and splitting
// ---------------------------------------------------------------------------
/// A text without the Unicode white space at its end.
pub open spec fn trimmed_end(s: Seq<char>) -> Seq<char>
    decreases s.len(),
{
    if s.len() > 0 && white_space(s.last()) {
        trimmed_end(s.drop_last())
    } else {
        s
    }
}

/// A text without the Unicode white space at its two ends.
pub open spec fn trimmed(s: Seq<char>) -> Seq<char> {
    trimmed_end(drop_while(s, white_space_class()))
}

/// The pieces of a text between the occurrences of a separator: one more than it occurs.
pub open spec fn pieces(s: Seq<char>, sep: char) -> Seq<Seq<char>>
    decreases s.len(),
{
    let n = span(s, all_but(sep)) as int;
    if n >= s.len() {
        seq![s]
    } else {
        seq![s.take(n)] + pieces(s.skip(n + 1), sep)
    }
}

/// A text without the Unicode white space at its two ends.
pub fn trim_chars(chars: &[char]) -> (r: &[char])
    ensures
        r@ == trimmed(chars@),
{
    let mut start: usize = 0;
    while start < chars.len() && chars[start].is_whitespace()
        invariant
            start <= chars@.len(),
            forall|k: int| 0 <= k < start ==> white_space(#[trigger] chars@[k]),
        decreases chars@.len() - start,
    {
        start += 1;
    }
    proof {
        lemma_span_is(chars@, white_space_class(), start as int);
    }
    let mut end: usize = chars.len();
    while end > start && chars[end - 1].is_whitespace()
        invariant
            start <= end <= chars@.len(),
            trimmed_end(chars@.subrange(start as int, chars@.len() as int)) == trimmed_end(
                chars@.subrange(start as int, end as int),
            ),
        decreases end,
    {
        end -= 1;
        assert(chars@.subrange(start as int, end + 1).drop_last() == chars@.subrange(
            start as int,
            end as int,
        ));
    }
    &chars[start..end]
}

} // verus!
