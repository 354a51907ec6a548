//! Laws of texts: words, parts, beginnings and ends, and what trimming and splitting give.
use vstd::prelude::*;

use crate::laws::vocabulary::{
    blank, is_beginning_of, is_end_of, is_part_of, is_word_of, splits_at_word,
};
use crate::text::{
    all_but, ascii_whitespace, has_word, lemma_span, lemma_span_of_concat, occurs_in, pieces, span,
    trimmed, trimmed_end, white_space, white_space_class, word_at,
};

verus! {

/// A text has a word if and only if it is the word with white space, or nothing, on either side.
pub proof fn law_words(s: Seq<char>, w: Seq<char>)
    ensures
        has_word(s, w) <==> is_word_of(w, s),
{
    if has_word(s, w) {
        let (i, j) = choose|i: int, j: int| #[trigger] word_at(s, i, j) && s.subrange(i, j) == w;
        let p = s.take(i);
        let q = s.skip(j);
        assert(s =~= p + w + q);
        assert forall|k: int| 0 <= k < w.len() implies !blank(#[trigger] w[k]) by {
            assert(w[k] == s[i + k]);
        }
        assert(splits_at_word(s, p, w, q));
    }
    if is_word_of(w, s) {
        let (p, q) = choose|p: Seq<char>, q: Seq<char>| #[trigger] splits_at_word(s, p, w, q);
        let i = p.len() as int;
        let j = i + w.len();
        assert(s.subrange(i, j) =~= w);
        assert forall|k: int| i <= k < j implies !ascii_whitespace(#[trigger] s[k]) by {
            assert(s[k] == w[k - i]);
        }
        if i > 0 {
            assert(s[i - 1] == p.last());
        }
        if j < s.len() {
            assert(s[j] == q[0]);
        }
        assert(word_at(s, i, j));
    }
}

/// A text holds, begins with or ends with another if and only if it is the other with something,
/// or nothing, on both sides, behind it or before it.
pub proof fn law_parts(s: Seq<char>, w: Seq<char>)
    ensures
        occurs_in(w, s) <==> is_part_of(w, s),
        w.is_prefix_of(s) <==> is_beginning_of(w, s),
        w.is_suffix_of(s) <==> is_end_of(w, s),
{
    if occurs_in(w, s) {
        let i = choose|i: int| 0 <= i <= s.len() && w.is_prefix_of(#[trigger] s.skip(i));
        let p = s.take(i);
        let q = s.skip(i).skip(w.len() as int);
        assert(s =~= p + w + q) by {
            assert(w == s.skip(i).subrange(0, w.len() as int));
            assert forall|k: int| 0 <= k < w.len() implies w[k] == s[i + k] by {
                assert(s.skip(i).subrange(0, w.len() as int)[k] == s[i + k]);
            }
        }
    }
    if is_part_of(w, s) {
        let (p, q) = choose|p: Seq<char>, q: Seq<char>| s == #[trigger] (p + w + q);
        let r = s.skip(p.len() as int);
        assert(r.subrange(0, w.len() as int) =~= w);
        assert(w.is_prefix_of(r));
    }
    if w.is_prefix_of(s) {
        let q = s.skip(w.len() as int);
        assert(s =~= w + q);
    }
    if is_beginning_of(w, s) {
        let q = choose|q: Seq<char>| s == #[trigger] (w + q);
        assert(s.subrange(0, w.len() as int) =~= w);
    }
    if w.is_suffix_of(s) {
        let p = s.take(s.len() - w.len());
        assert(s =~= p + w);
    }
    if is_end_of(w, s) {
        let p = choose|p: Seq<char>| s == #[trigger] (p + w);
        assert(s.subrange(s.len() - w.len(), s.len() as int) =~= w);
    }
}

/// Trimming takes white space from both ends, all of it, and nothing else.
pub proof fn law_trimming(p: Seq<char>, w: Seq<char>, q: Seq<char>)
    requires
        forall|i: int| 0 <= i < p.len() ==> white_space(#[trigger] p[i]),
        forall|i: int| 0 <= i < q.len() ==> white_space(#[trigger] q[i]),
        w.len() > 0 ==> !white_space(w[0]) && !white_space(w.last()),
    ensures
        trimmed(p + w + q) == w,
{
    let s = p + w + q;
    if w.len() > 0 {
        let r = w + q;
        assert(s =~= p + r);
        assert(r[0] == w[0]);
        lemma_span_of_concat(p, r, white_space_class());
        lemma_trimmed_end(w, q);
    } else {
        let nothing = Seq::<char>::empty();
        assert forall|i: int| 0 <= i < s.len() implies white_space_class()(#[trigger] s[i]) by {
            if i < p.len() {
                assert(s[i] == p[i]);
            } else {
                assert(s[i] == q[i - p.len()]);
            }
        }
        lemma_span_of_concat(s, nothing, white_space_class());
        assert(s + nothing =~= s);
        assert(w =~= nothing);
    }
}

proof fn lemma_trimmed_end(w: Seq<char>, q: Seq<char>)
    requires
        forall|i: int| 0 <= i < q.len() ==> white_space(#[trigger] q[i]),
        w.len() > 0 ==> !white_space(w.last()),
    ensures
        trimmed_end(w + q) == w,
    decreases q.len(),
{
    let s = w + q;
    if q.len() == 0 {
        assert(s =~= w);
    } else {
        assert(s.last() == q[q.len() - 1]);
        assert(s.drop_last() =~= w + q.drop_last());
        lemma_trimmed_end(w, q.drop_last());
    }
}

/// The pieces between separators hold no separator, and with the separators between them they
/// are the text again.
pub proof fn law_pieces(s: Seq<char>, sep: char)
    ensures
        pieces(s, sep).len() > 0,
        forall|i: int|
            0 <= i < pieces(s, sep).len() ==> !(#[trigger] pieces(s, sep)[i]).contains(sep),
        s == with_between(pieces(s, sep), sep),
    decreases s.len(),
{
    let n = span(s, all_but(sep)) as int;
    let all = pieces(s, sep);
    lemma_span(s, all_but(sep));
    assert(!s.take(n).contains(sep)) by {
        if s.take(n).contains(sep) {
            let i = s.take(n).index_of(sep);
            assert(all_but(sep)(s[i]));
        }
    }
    if n < s.len() {
        let rest = s.skip(n + 1);
        law_pieces(rest, sep);
        assert(all.skip(1) =~= pieces(rest, sep));
        assert forall|i: int| 0 <= i < all.len() implies !(#[trigger] all[i]).contains(sep) by {
            if i > 0 {
                assert(all[i] == pieces(rest, sep)[i - 1]);
            }
        }
        assert(s =~= s.take(n) + seq![sep] + rest);
    } else {
        assert(s.take(n) =~= s);
    }
}

/// Texts with a separator between each two.
pub open spec fn with_between(ts: Seq<Seq<char>>, sep: char) -> Seq<char>
    decreases ts.len(),
{
    if ts.len() == 0 {
        Seq::empty()
    } else if ts.len() == 1 {
        ts[0]
    } else {
        ts[0] + seq![sep] + with_between(ts.skip(1), sep)
    }
}

} // verus!
