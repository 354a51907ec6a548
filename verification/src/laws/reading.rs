//! Laws of reading: what every form of markup is read as, told by its characters.
use vstd::prelude::*;

use crate::attrs::{
    distinct_names, has_name, inserted, lemma_inserted_distinct, lemma_position, position, AttrList,
};
use crate::grammar::{
    attr_name_char, attr_name_class, attr_value, attributes, closing, comment_body_len, element,
    lemma_element, name_char, name_class, nodes, opening, skip_char, skip_space, unquoted_class,
    Fault, Opening, Reading,
};
use crate::laws::vocabulary::{
    all_well_given, are_given, arrow_at, bare_char, blank, blanks, given_last, given_name,
    given_once, given_text, given_texts, given_value, is_void_name, key_char, no_arrow_before,
    reads_on, small, tag_up_to_end, value_is_missing, well_given, well_given_tag, word, word_char,
    Given, GivenValue,
};
use crate::round_trip::{lemma_attributes_space, lemma_no_span, lemma_read_comment, lemma_read_text};
use crate::text::{all_but, lemma_span, lemma_span_of_concat, lowered, span, whitespace_class};
use crate::tree::{leaf, void_tag, Content, Tree};

verus! {

// ---------------------------------------------------------------------------
// The vocabulary and the grammar
// ---------------------------------------------------------------------------
pub proof fn lemma_small(s: Seq<char>)
    ensures
        lowered(s) == small(s),
{
    assert(lowered(s) =~= small(s));
}

pub proof fn lemma_void_names(s: Seq<char>)
    ensures
        void_tag(s) == is_void_name(s),
{
    reveal_strlit("area");
    reveal_strlit("base");
    reveal_strlit("br");
    reveal_strlit("col");
    reveal_strlit("embed");
    reveal_strlit("hr");
    reveal_strlit("img");
    reveal_strlit("input");
    reveal_strlit("link");
    reveal_strlit("meta");
    reveal_strlit("param");
    reveal_strlit("source");
    reveal_strlit("track");
    reveal_strlit("wbr");
    assert("area"@ =~= seq!['a', 'r', 'e', 'a']);
    assert("base"@ =~= seq!['b', 'a', 's', 'e']);
    assert("br"@ =~= seq!['b', 'r']);
    assert("col"@ =~= seq!['c', 'o', 'l']);
    assert("embed"@ =~= seq!['e', 'm', 'b', 'e', 'd']);
    assert("hr"@ =~= seq!['h', 'r']);
    assert("img"@ =~= seq!['i', 'm', 'g']);
    assert("input"@ =~= seq!['i', 'n', 'p', 'u', 't']);
    assert("link"@ =~= seq!['l', 'i', 'n', 'k']);
    assert("meta"@ =~= seq!['m', 'e', 't', 'a']);
    assert("param"@ =~= seq!['p', 'a', 'r', 'a', 'm']);
    assert("source"@ =~= seq!['s', 'o', 'u', 'r', 'c', 'e']);
    assert("track"@ =~= seq!['t', 'r', 'a', 'c', 'k']);
    assert("wbr"@ =~= seq!['w', 'b', 'r']);
}

/// White space before something else is skipped.
pub proof fn lemma_skip_blanks(w: Seq<char>, x: Seq<char>)
    requires
        blanks(w),
        x.len() > 0 ==> !blank(x[0]),
    ensures
        skip_space(w + x) == x,
{
    assert forall|i: int| 0 <= i < w.len() implies whitespace_class()(#[trigger] w[i]) by {
        assert(blank(w[i]));
    }
    lemma_span_of_concat(w, x, whitespace_class());
}

/// White space before other white space is skipped with it.
proof fn lemma_skip_twice(w: Seq<char>, x: Seq<char>)
    requires
        blanks(w),
    ensures
        skip_space(w + x) == skip_space(x),
{
    lemma_span(x, whitespace_class());
    let n = span(x, whitespace_class()) as int;
    let v = w + x.take(n);
    let end = skip_space(x);
    assert(x =~= x.take(n) + end);
    assert(w + x =~= v + end);
    assert forall|i: int| 0 <= i < v.len() implies whitespace_class()(#[trigger] v[i]) by {
        if i < w.len() {
            assert(v[i] == w[i]);
            assert(blank(w[i]));
        } else {
            assert(v[i] == x[i - w.len()]);
        }
    }
    lemma_span_of_concat(v, end, whitespace_class());
}

// ---------------------------------------------------------------------------
// Attributes
// ---------------------------------------------------------------------------
/// What attributes amount to, one after the other.
spec fn gathered(gs: Seq<Given>) -> AttrList
    decreases gs.len(),
{
    if gs.len() == 0 {
        Seq::empty()
    } else {
        inserted(gathered(gs.drop_last()), lowered(gs.last().name), given_value(gs.last()))
    }
}

proof fn lemma_gathered(gs: Seq<Given>)
    ensures
        are_given(gathered(gs), gs),
{
    let a = gathered(gs);
    lemma_gathered_distinct(gs);
    assert forall|i: int| #[trigger] given_last(gs, i) implies a.contains(
        (given_name(gs[i]), given_value(gs[i])),
    ) by {
        lemma_gathered_holds(gs, i);
    }
    assert forall|e: (Seq<char>, Option<Seq<char>>)| #[trigger] a.contains(e) implies exists|
        i: int,
    | #[trigger]
        given_last(gs, i) && e == (given_name(gs[i]), given_value(gs[i])) by {
        let i = lemma_gathered_from(gs, a.index_of(e));
        assert(given_last(gs, i));
    }
    if given_once(gs) {
        lemma_gathered_in_order(gs);
    }
}

/// The place at which the last given attribute stands.
spec fn last_place(gs: Seq<Given>) -> int {
    let b = gathered(gs.drop_last());
    if has_name(b, lowered(gs.last().name)) {
        position(b, lowered(gs.last().name))
    } else {
        b.len() as int
    }
}

proof fn lemma_gathered_step(gs: Seq<Given>)
    requires
        gs.len() > 0,
    ensures
        ({
            let a = gathered(gs);
            let b = gathered(gs.drop_last());
            let p = last_place(gs);
            &&& 0 <= p < a.len()
            &&& a[p] == (given_name(gs.last()), given_value(gs.last()))
            &&& forall|k: int| 0 <= k < b.len() && k != p ==> #[trigger] a[k] == b[k]
            &&& a.len() == b.len() || (a.len() == b.len() + 1 && p == b.len())
            &&& forall|k: int|
                0 <= k < b.len() && k != p ==> (#[trigger] b[k]).0 != given_name(gs.last())
        }),
{
    let b = gathered(gs.drop_last());
    lemma_small(gs.last().name);
    lemma_gathered_distinct(gs.drop_last());
    let name = lowered(gs.last().name);
    assert forall|k: int| 0 <= k < b.len() && k != last_place(gs) implies (#[trigger] b[k]).0
        != given_name(gs.last()) by {
        if b[k].0 == name {
            lemma_position(b, k);
        }
    }
}

proof fn lemma_gathered_holds(gs: Seq<Given>, i: int)
    requires
        given_last(gs, i),
    ensures
        gathered(gs).contains((given_name(gs[i]), given_value(gs[i]))),
    decreases gs.len(),
{
    let a = gathered(gs);
    let p = last_place(gs);
    lemma_gathered_step(gs);
    if i == gs.len() - 1 {
        assert(a[p] == (given_name(gs[i]), given_value(gs[i])));
    } else {
        let front = gs.drop_last();
        let b = gathered(front);
        assert(given_name(gs[gs.len() - 1]) != given_name(gs[i]));
        assert(given_last(front, i)) by {
            assert forall|j: int| i < j < front.len() implies given_name(#[trigger] front[j])
                != given_name(front[i]) by {
                assert(front[j] == gs[j]);
            }
        }
        lemma_gathered_holds(front, i);
        let e = (given_name(gs[i]), given_value(gs[i]));
        let q = b.index_of(e);
        assert(b[q] == e);
        lemma_gathered_kept(gs, q);
        assert(a[q] == e);
    }
}

/// What stands in the place of the last given attribute has its name.
proof fn lemma_gathered_kept(gs: Seq<Given>, q: int)
    requires
        gs.len() > 0,
        0 <= q < gathered(gs.drop_last()).len(),
        gathered(gs.drop_last())[q].0 != given_name(gs.last()),
    ensures
        q != last_place(gs),
        gathered(gs)[q] == gathered(gs.drop_last())[q],
{
    lemma_gathered_step(gs);
    lemma_small(gs.last().name);
    let b = gathered(gs.drop_last());
    if q == last_place(gs) {
        assert(has_name(b, lowered(gs.last().name)));
        assert(b[q].0 == lowered(gs.last().name));
    }
}

proof fn lemma_gathered_from(gs: Seq<Given>, k: int) -> (i: int)
    requires
        0 <= k < gathered(gs).len(),
    ensures
        given_last(gs, i),
        gathered(gs)[k] == (given_name(gs[i]), given_value(gs[i])),
    decreases gs.len(),
{
    lemma_gathered_step(gs);
    let p = last_place(gs);
    if k == p {
        gs.len() - 1
    } else {
        let front = gs.drop_last();
        let i = lemma_gathered_from(front, k);
        assert(gathered(front)[k].0 != given_name(gs.last()));
        assert(given_last(gs, i)) by {
            assert forall|j: int| i < j < gs.len() implies given_name(#[trigger] gs[j])
                != given_name(gs[i]) by {
                if j < front.len() {
                    assert(given_name(front[j]) != given_name(front[i]));
                }
            }
        }
        i
    }
}

proof fn lemma_gathered_in_order(gs: Seq<Given>)
    requires
        given_once(gs),
    ensures
        gathered(gs) == Seq::new(gs.len(), |i: int| (given_name(gs[i]), given_value(gs[i]))),
    decreases gs.len(),
{
    let a = gathered(gs);
    let all = Seq::new(gs.len(), |i: int| (given_name(gs[i]), given_value(gs[i])));
    if gs.len() > 0 {
        let front = gs.drop_last();
        assert(given_once(front)) by {
            assert forall|i: int, j: int| 0 <= i < j < front.len() implies given_name(
                #[trigger] front[i],
            ) != given_name(#[trigger] front[j]) by {
                assert(given_name(gs[i]) != given_name(gs[j]));
            }
        }
        lemma_gathered_in_order(front);
        lemma_small(gs.last().name);
        let b = gathered(front);
        let name = lowered(gs.last().name);
        assert(!has_name(b, name)) by {
            if has_name(b, name) {
                let k = position(b, name);
                assert(b[k].0 == given_name(gs[k]));
                assert(given_name(gs[k]) != given_name(gs[gs.len() - 1]));
            }
        }
        assert(a =~= all);
    } else {
        assert(a =~= all);
    }
}

proof fn lemma_gathered_distinct(gs: Seq<Given>)
    ensures
        distinct_names(gathered(gs)),
    decreases gs.len(),
{
    if gs.len() > 0 {
        lemma_gathered_distinct(gs.drop_last());
        lemma_inserted_distinct(
            gathered(gs.drop_last()),
            lowered(gs.last().name),
            given_value(gs.last()),
        );
    }
}

/// Reading one attribute as it is given.
proof fn lemma_read_given(g: Given, before: AttrList, next: Seq<char>)
    requires
        well_given(g),
        g.value is Flag ==> (next.len() > 0 ==> !key_char(next[0])),
        g.value is Flag ==> (skip_space(next).len() > 0 ==> skip_space(next)[0] != '='),
        g.value is Bare ==> (next.len() > 0 ==> !bare_char(next[0])),
        value_is_missing(g) ==> (skip_space(next).len() > 0 ==> skip_space(next)[0] == '>'
            || skip_space(next)[0] == '/'),
    ensures
        attributes(given_text(g) + next, before) == attributes(
            next,
            inserted(before, lowered(g.name), given_value(g)),
        ),
{
    let s = given_text(g) + next;
    let name = g.name;
    let after_name = match g.value {
        GivenValue::Flag => next,
        GivenValue::Quoted { before, after, quote, text } => before + (seq!['='] + (after + (seq![
            quote,
        ] + text + seq![quote] + next))),
        GivenValue::Bare { before, after, text } => before + (seq!['='] + (after + (text + next))),
    };
    let u = name + after_name;
    assert(s =~= g.lead + u);
    assert(key_char(name[0]));
    assert(u[0] == name[0]);
    lemma_skip_blanks(g.lead, u);
    assert forall|i: int| 0 <= i < name.len() implies attr_name_class()(#[trigger] name[i]) by {
        assert(key_char(name[i]));
    }
    match g.value {
        GivenValue::Flag => {
            lemma_span_of_concat(name, after_name, attr_name_class());
            lemma_attributes_space(next, inserted(before, lowered(name), None));
        },
        GivenValue::Quoted { before: b, after, quote, text } => {
            let q = seq![quote] + text + seq![quote] + next;
            let e = seq!['='] + (after + q);
            assert(after_name == b + e);
            assert(b.len() > 0 ==> blank(b[0]));
            assert(!attr_name_char(after_name[0]));
            lemma_span_of_concat(name, after_name, attr_name_class());
            lemma_skip_blanks(b, e);
            assert(e.skip(1) =~= after + q);
            lemma_skip_blanks(after, q);
            let close = seq![quote] + next;
            assert(q.skip(1) =~= text + close);
            assert forall|i: int| 0 <= i < text.len() implies all_but(quote)(
                #[trigger] text[i],
            ) by {
                assert(text.contains(text[i]));
            }
            lemma_span_of_concat(text, close, all_but(quote));
            assert(close.skip(1) =~= next);
            assert(attr_value(q) == (text, next));
        },
        GivenValue::Bare { before: b, after, text } => {
            let q = text + next;
            let e = seq!['='] + (after + q);
            assert(after_name == b + e);
            assert(b.len() > 0 ==> blank(b[0]));
            assert(!attr_name_char(after_name[0]));
            lemma_span_of_concat(name, after_name, attr_name_class());
            lemma_skip_blanks(b, e);
            assert(e.skip(1) =~= after + q);
            if text.len() > 0 {
                assert(bare_char(text[0]));
                assert(q[0] == text[0]);
                lemma_skip_blanks(after, q);
                assert forall|i: int| 0 <= i < text.len() implies unquoted_class()(
                    #[trigger] text[i],
                ) by {
                    assert(bare_char(text[i]));
                }
                lemma_span_of_concat(text, next, unquoted_class());
                assert(attr_value(q) == (text, next));
            } else {
                let end = skip_space(next);
                assert(q =~= next);
                lemma_skip_twice(after, next);
                lemma_no_span(end, unquoted_class());
                assert(text =~= Seq::<char>::empty());
                assert(attr_value(end) == (text, end));
                lemma_attributes_space(next, inserted(before, lowered(name), Some(text)));
            }
        },
    }
}

/// Whether a character behind attributes neither begins one nor belongs to the last: a quote, or a
/// `=` without a name before it.
pub open spec fn begins_no_attribute(gs: Seq<Given>, space: Seq<char>, c: char) -> bool {
    &&& c == '"' || c == '\'' || c == '='
    &&& gs.len() > 0 ==> {
        &&& !value_is_missing(gs.last())
        &&& gs.last().value is Bare ==> space.len() > 0
        &&& gs.last().value is Flag ==> c != '='
    }
}

/// What can stand where the attributes of a tag end: nothing, `>`, `/`, or something that begins
/// no attribute.
spec fn ends_attributes(gs: Seq<Given>, space: Seq<char>, end: Seq<char>) -> bool {
    end.len() > 0 && end[0] != '>' && end[0] != '/' ==> begins_no_attribute(gs, space, end[0])
}

/// Reading attributes as they are given.
proof fn lemma_read_givens(gs: Seq<Given>, k: int, space: Seq<char>, end: Seq<char>)
    requires
        0 <= k <= gs.len(),
        all_well_given(gs),
        blanks(space),
        ends_attributes(gs, space, end),
    ensures
        attributes(given_texts(gs.skip(k)) + space + end, gathered(gs.take(k))) == (if end.len()
            > 0 {
            (Some(gathered(gs)), end)
        } else {
            (None, end)
        }),
    decreases gs.len() - k,
{
    let rest = gs.skip(k);
    let tail = space + end;
    let s = given_texts(rest) + space + end;
    if k == gs.len() {
        assert(given_texts(rest) =~= Seq::<char>::empty());
        assert(s =~= tail);
        assert(gs.take(k) =~= gs);
        lemma_skip_blanks(space, end);
        if end.len() > 0 {
            lemma_no_span(end, attr_name_class());
        }
    } else {
        let g = gs[k];
        let next = given_texts(gs.skip(k + 1)) + space + end;
        lemma_given_texts_first(rest);
        assert(rest.skip(1) =~= gs.skip(k + 1));
        assert(s =~= given_text(g) + next);
        assert(well_given(g));
        assert(k + 1 < gs.len() ==> !value_is_missing(gs[k]));
        if k + 1 < gs.len() {
            let h = gs[k + 1];
            let more = gs.skip(k + 1);
            lemma_given_texts_first(more);
            assert(more[0] == h);
            assert(well_given(h));
            assert(h.lead.len() > 0 || gs[k + 1 - 1].value is Quoted);
            let after_lead = next.skip(h.lead.len() as int);
            assert(next =~= h.lead + after_lead);
            assert(key_char(h.name[0]));
            assert(after_lead[0] == h.name[0]);
            lemma_skip_blanks(h.lead, after_lead);
            if h.lead.len() > 0 {
                assert(blank(h.lead[0]));
                assert(next[0] == h.lead[0]);
            }
        } else {
            assert(given_texts(gs.skip(k + 1)) =~= Seq::<char>::empty());
            assert(next =~= tail);
            lemma_skip_blanks(space, end);
            if space.len() > 0 {
                assert(blank(space[0]));
                assert(next[0] == space[0]);
            } else {
                assert(next =~= end);
            }
        }
        lemma_read_given(g, gathered(gs.take(k)), next);
        assert(gs.take(k + 1).drop_last() =~= gs.take(k));
        assert(gs.take(k + 1).last() == g);
        lemma_read_givens(gs, k + 1, space, end);
    }
}

proof fn lemma_given_texts_first(gs: Seq<Given>)
    requires
        gs.len() > 0,
    ensures
        given_texts(gs) == given_text(gs[0]) + given_texts(gs.skip(1)),
{
    let all = Seq::new(gs.len(), |i: int| given_text(gs[i]));
    assert(all.drop_first() =~= Seq::new(gs.skip(1).len(), |i: int| given_text(gs.skip(1)[i])));
}

/// Reading an opening tag as it is given.
proof fn lemma_read_tag(name: Seq<char>, gs: Seq<Given>, space: Seq<char>, end: Seq<char>)
    requires
        well_given_tag(name, gs, space),
        ends_attributes(gs, space, end),
    ensures
        ({
            let s = tag_up_to_end(name, gs, space) + end;
            let tag = small(name);
            let attrs = gathered(gs);
            &&& opening(s) == (if end.len() == 0 {
                (Err::<Opening, Fault>(Fault::UnexpectedEof), end)
            } else if seq!['/', '>'].is_prefix_of(end) {
                (Ok::<Opening, Fault>(Opening { tag, attrs, has_content: false }), end.skip(2))
            } else {
                (
                    Ok::<Opening, Fault>(Opening { tag, attrs, has_content: !is_void_name(tag) }),
                    skip_char(end, '>'),
                )
            })
            &&& s.len() > 0 && s[0] == '<'
            &&& !seq!['<', '/'].is_prefix_of(s)
            &&& !seq!['<', '!', '-', '-'].is_prefix_of(s)
            &&& are_given(attrs, gs)
        }),
{
    let s = tag_up_to_end(name, gs, space) + end;
    let r = given_texts(gs) + space + end;
    assert(s =~= seq!['<'] + name + r);
    assert(s.skip(1) =~= name + r);
    assert(word_char(name[0]));
    assert(s[1] == name[0]);
    if seq!['<', '/'].is_prefix_of(s) {
        assert(s.subrange(0, 2)[1] == s[1]);
    }
    if seq!['<', '!', '-', '-'].is_prefix_of(s) {
        assert(s.subrange(0, 4)[1] == s[1]);
    }
    assert forall|i: int| 0 <= i < name.len() implies name_class()(#[trigger] name[i]) by {
        assert(word_char(name[i]));
    }
    assert(r.len() > 0 ==> !name_char(r[0])) by {
        if gs.len() > 0 {
            lemma_given_texts_first(gs);
            assert(well_given(gs[0]));
            if gs[0].lead.len() > 0 {
                assert(blank(gs[0].lead[0]));
                assert(r[0] == gs[0].lead[0]);
            } else {
                assert(r[0] == gs[0].name[0]);
            }
        } else {
            assert(given_texts(gs) =~= Seq::<char>::empty());
            assert(r =~= space + end);
            if space.len() > 0 {
                assert(blank(space[0]));
                assert(r[0] == space[0]);
            } else {
                assert(r =~= end);
            }
        }
    }
    lemma_span_of_concat(name, r, name_class());
    assert(gs.skip(0) =~= gs);
    assert(gs.take(0) =~= Seq::<Given>::empty());
    lemma_read_givens(gs, 0, space, end);
    lemma_gathered(gs);
    lemma_small(name);
    lemma_void_names(small(name));
}

// ---------------------------------------------------------------------------
// Tags
// ---------------------------------------------------------------------------
/// A tag that ends in `/>` is an element without children, whatever its name and however its
/// attributes and the white space before the `/` are given. What follows is not its content.
pub proof fn law_self_closing_tag(
    name: Seq<char>,
    gs: Seq<Given>,
    space: Seq<char>,
    x: Seq<char>,
)
    requires
        well_given_tag(name, gs, space),
    ensures
        exists|attrs: AttrList| #[trigger]
            are_given(attrs, gs) && reads_on(
                nodes(tag_up_to_end(name, gs, space) + seq!['/', '>'] + x),
                seq![
                    Tree {
                        data: Content::Element { tag: small(name), attrs },
                        children: Seq::empty(),
                    },
                ],
                nodes(x),
            ),
{
    let end = seq!['/', '>'] + x;
    let s = tag_up_to_end(name, gs, space) + seq!['/', '>'] + x;
    assert(s =~= tag_up_to_end(name, gs, space) + end);
    assert(end.subrange(0, 2) =~= seq!['/', '>']);
    assert(end.skip(2) =~= x);
    lemma_read_tag(name, gs, space, end);
    let attrs = gathered(gs);
    let t = leaf(Content::Element { tag: small(name), attrs });
    assert(element(s) == (Reading { trees: seq![t], end: Ok(None), rest: x }));
    assert(are_given(attrs, gs));
}

/// A void element has no content, however its tag is given. What follows is not its content.
pub proof fn law_void_tag(name: Seq<char>, gs: Seq<Given>, space: Seq<char>, x: Seq<char>)
    requires
        well_given_tag(name, gs, space),
        is_void_name(small(name)),
    ensures
        exists|attrs: AttrList| #[trigger]
            are_given(attrs, gs) && reads_on(
                nodes(tag_up_to_end(name, gs, space) + seq!['>'] + x),
                seq![
                    Tree {
                        data: Content::Element { tag: small(name), attrs },
                        children: Seq::empty(),
                    },
                ],
                nodes(x),
            ),
{
    let end = seq!['>'] + x;
    let s = tag_up_to_end(name, gs, space) + seq!['>'] + x;
    assert(s =~= tag_up_to_end(name, gs, space) + end);
    assert(end.skip(1) =~= x);
    if seq!['/', '>'].is_prefix_of(end) {
        assert(end.subrange(0, 2)[0] == end[0]);
    }
    lemma_read_tag(name, gs, space, end);
    let attrs = gathered(gs);
    let t = leaf(Content::Element { tag: small(name), attrs });
    assert(element(s) == (Reading { trees: seq![t], end: Ok(None), rest: x }));
    assert(are_given(attrs, gs));
}

/// What a reading of an element is, from the reading of what follows its opening tag: that reading
/// is its content. A closing tag of its own name, or without a name, and the end of the text close
/// it; a closing tag of another name is a fault that holds both names; a fault inside is a fault.
pub open spec fn reads_element(
    r: Reading,
    tag: Seq<char>,
    attrs: AttrList,
    content: Reading,
) -> bool {
    let t = Tree { data: Content::Element { tag, attrs }, children: content.trees };
    match content.end {
        Err(fault) => r.trees == seq![t] && r.end == Err::<Option<Seq<char>>, Fault>(fault)
            && r.rest == content.rest,
        Ok(Some(closed)) => if closed.len() > 0 && closed != tag {
            r.trees == seq![t] && r.end == Err::<Option<Seq<char>>, Fault>(
                Fault::MismatchedTag { opened: tag, closed },
            ) && r.rest == content.rest
        } else {
            reads_on(r, seq![t], nodes(content.rest))
        },
        Ok(None) => reads_on(r, seq![t], nodes(content.rest)),
    }
}

/// An opening tag takes what follows as its content, however it is given, unless it is void.
pub proof fn law_opening_tag(name: Seq<char>, gs: Seq<Given>, space: Seq<char>, x: Seq<char>)
    requires
        well_given_tag(name, gs, space),
        !is_void_name(small(name)),
    ensures
        exists|attrs: AttrList| #[trigger]
            are_given(attrs, gs) && reads_element(
                nodes(tag_up_to_end(name, gs, space) + seq!['>'] + x),
                small(name),
                attrs,
                nodes(x),
            ),
{
    let end = seq!['>'] + x;
    assert(tag_up_to_end(name, gs, space) + seq!['>'] + x =~= tag_up_to_end(name, gs, space)
        + end);
    assert(end.skip(1) =~= x);
    if seq!['/', '>'].is_prefix_of(end) {
        assert(end.subrange(0, 2)[0] == end[0]);
    }
    lemma_read_element(name, gs, space, end, x);
    assert(are_given(gathered(gs), gs));
}

/// A `/` that is not followed by `>`, a quote without a `=` before it, and a `=` without a name
/// before it end an opening tag without being read: the content begins there.
pub proof fn law_stray_character_in_tag(
    name: Seq<char>,
    gs: Seq<Given>,
    space: Seq<char>,
    x: Seq<char>,
)
    requires
        well_given_tag(name, gs, space),
        !is_void_name(small(name)),
        x.len() > 0,
        x[0] == '/' && !(x.len() > 1 && x[1] == '>') || begins_no_attribute(gs, space, x[0]),
    ensures
        exists|attrs: AttrList| #[trigger]
            are_given(attrs, gs) && reads_element(
                nodes(tag_up_to_end(name, gs, space) + x),
                small(name),
                attrs,
                nodes(x),
            ),
{
    if seq!['/', '>'].is_prefix_of(x) {
        assert(x.subrange(0, 2)[1] == x[1]);
        assert(x.subrange(0, 2)[0] == x[0]);
    }
    lemma_read_element(name, gs, space, x, x);
    assert(are_given(gathered(gs), gs));
}

/// The same characters end the tag of a void element, and what they begin is not its content.
pub proof fn law_stray_character_in_void_tag(
    name: Seq<char>,
    gs: Seq<Given>,
    space: Seq<char>,
    x: Seq<char>,
)
    requires
        well_given_tag(name, gs, space),
        is_void_name(small(name)),
        x.len() > 0,
        x[0] == '/' && !(x.len() > 1 && x[1] == '>') || begins_no_attribute(gs, space, x[0]),
    ensures
        exists|attrs: AttrList| #[trigger]
            are_given(attrs, gs) && reads_on(
                nodes(tag_up_to_end(name, gs, space) + x),
                seq![
                    Tree {
                        data: Content::Element { tag: small(name), attrs },
                        children: Seq::empty(),
                    },
                ],
                nodes(x),
            ),
{
    let s = tag_up_to_end(name, gs, space) + x;
    if seq!['/', '>'].is_prefix_of(x) {
        assert(x.subrange(0, 2)[1] == x[1]);
        assert(x.subrange(0, 2)[0] == x[0]);
    }
    lemma_read_tag(name, gs, space, x);
    let attrs = gathered(gs);
    let t = leaf(Content::Element { tag: small(name), attrs });
    assert(element(s) == (Reading { trees: seq![t], end: Ok(None), rest: x }));
    assert(are_given(attrs, gs));
}

proof fn lemma_read_element(
    name: Seq<char>,
    gs: Seq<Given>,
    space: Seq<char>,
    end: Seq<char>,
    x: Seq<char>,
)
    requires
        well_given_tag(name, gs, space),
        !is_void_name(small(name)),
        end.len() > 0,
        ends_attributes(gs, space, end),
        !seq!['/', '>'].is_prefix_of(end),
        x == skip_char(end, '>'),
    ensures
        are_given(gathered(gs), gs),
        reads_element(
            nodes(tag_up_to_end(name, gs, space) + end),
            small(name),
            gathered(gs),
            nodes(x),
        ),
{
    let s = tag_up_to_end(name, gs, space) + end;
    lemma_read_tag(name, gs, space, end);
    lemma_element(s);
    let tag = small(name);
    let t = Tree {
        data: Content::Element { tag, attrs: gathered(gs) },
        children: nodes(x).trees,
    };
    assert(element(s).trees == seq![t]);
    assert(element(s).rest == nodes(x).rest);
}

/// A text that ends before its tag does is at fault, and the tag gives no node.
pub proof fn law_unfinished_tag(name: Seq<char>, gs: Seq<Given>, space: Seq<char>)
    requires
        well_given_tag(name, gs, space),
    ensures
        nodes(tag_up_to_end(name, gs, space)).trees.len() == 0,
        nodes(tag_up_to_end(name, gs, space)).end == Err::<Option<Seq<char>>, Fault>(
            Fault::UnexpectedEof,
        ),
{
    let nothing = Seq::<char>::empty();
    let s = tag_up_to_end(name, gs, space);
    assert(s + nothing =~= s);
    lemma_read_tag(name, gs, space, nothing);
    assert(element(s).end == Err::<Option<Seq<char>>, Fault>(Fault::UnexpectedEof));
    assert(element(s).trees.len() == 0);
}

/// A text that ends before a quote is closed is at fault, and the tag gives no node.
pub proof fn law_unfinished_value(
    name: Seq<char>,
    gs: Seq<Given>,
    space: Seq<char>,
    key: Seq<char>,
    quote: char,
    text: Seq<char>,
)
    requires
        well_given_tag(name, gs, space),
        space.len() > 0,
        gs.len() > 0 ==> !value_is_missing(gs.last()),
        key.len() > 0,
        forall|i: int| 0 <= i < key.len() ==> key_char(#[trigger] key[i]),
        quote == '"' || quote == '\'',
        !text.contains(quote),
    ensures
        ({
            let s = tag_up_to_end(name, gs, space) + key + seq!['=', quote] + text;
            &&& nodes(s).trees.len() == 0
            &&& nodes(s).end == Err::<Option<Seq<char>>, Fault>(Fault::UnexpectedEof)
        }),
{
    let nothing = Seq::<char>::empty();
    let s = tag_up_to_end(name, gs, space) + key + seq!['=', quote] + text;
    let q = seq![quote] + text;
    let e = seq!['='] + q;
    let last = key + e;
    // The attributes before it, and then the value that reaches to the end.
    let r = given_texts(gs) + space + last;
    assert(s =~= seq!['<'] + name + r);
    assert(s.skip(1) =~= name + r);
    assert(word_char(name[0]));
    assert(s[1] == name[0]);
    if seq!['<', '/'].is_prefix_of(s) {
        assert(s.subrange(0, 2)[1] == s[1]);
    }
    if seq!['<', '!', '-', '-'].is_prefix_of(s) {
        assert(s.subrange(0, 4)[1] == s[1]);
    }
    assert forall|i: int| 0 <= i < name.len() implies name_class()(#[trigger] name[i]) by {
        assert(word_char(name[i]));
    }
    assert(!name_char(r[0])) by {
        if gs.len() > 0 {
            lemma_given_texts_first(gs);
            assert(well_given(gs[0]));
            if gs[0].lead.len() > 0 {
                assert(blank(gs[0].lead[0]));
                assert(r[0] == gs[0].lead[0]);
            } else {
                assert(r[0] == gs[0].name[0]);
            }
        } else {
            assert(given_texts(gs) =~= nothing);
            assert(blank(space[0]));
            assert(r[0] == space[0]);
        }
    }
    lemma_span_of_concat(name, r, name_class());
    lemma_read_up_to_unfinished(gs, 0, space, key, quote, text);
    assert(gs.skip(0) =~= gs);
    assert(gs.take(0) =~= Seq::<Given>::empty());
    assert(element(s).end == Err::<Option<Seq<char>>, Fault>(Fault::UnexpectedEof));
    assert(element(s).trees.len() == 0);
}

proof fn lemma_read_up_to_unfinished(
    gs: Seq<Given>,
    k: int,
    space: Seq<char>,
    key: Seq<char>,
    quote: char,
    text: Seq<char>,
)
    requires
        0 <= k <= gs.len(),
        all_well_given(gs),
        blanks(space),
        space.len() > 0,
        gs.len() > 0 ==> !value_is_missing(gs.last()),
        key.len() > 0,
        forall|i: int| 0 <= i < key.len() ==> key_char(#[trigger] key[i]),
        quote == '"' || quote == '\'',
        !text.contains(quote),
    ensures
        attributes(
            given_texts(gs.skip(k)) + space + (key + (seq!['='] + (seq![quote] + text))),
            gathered(gs.take(k)),
        ).0 is None,
    decreases gs.len() - k,
{
    let nothing = Seq::<char>::empty();
    let q = seq![quote] + text;
    let e = seq!['='] + q;
    let last = key + e;
    let rest = gs.skip(k);
    let s = given_texts(rest) + space + last;
    assert(key_char(key[0]));
    assert(last[0] == key[0]);
    lemma_skip_blanks(space, last);
    assert(blank(space[0]));
    if k == gs.len() {
        assert(given_texts(rest) =~= nothing);
        assert(s =~= space + last);
        assert forall|i: int| 0 <= i < key.len() implies attr_name_class()(#[trigger] key[i]) by {
            assert(key_char(key[i]));
        }
        lemma_span_of_concat(key, e, attr_name_class());
        lemma_no_span(e, whitespace_class());
        assert(e.skip(1) =~= q);
        lemma_no_span(q, whitespace_class());
        assert(q.skip(1) =~= text);
        assert forall|i: int| 0 <= i < text.len() implies all_but(quote)(#[trigger] text[i]) by {
            assert(text.contains(text[i]));
        }
        lemma_span_of_concat(text, nothing, all_but(quote));
        assert(text + nothing =~= text);
        assert(attr_value(q) == (text, nothing));
        lemma_no_span(nothing, whitespace_class());
        let with = inserted(gathered(gs.take(k)), lowered(key), Some(text));
        assert(attributes(nothing, with).0 is None);
    } else {
        let g = gs[k];
        let next = given_texts(gs.skip(k + 1)) + space + last;
        lemma_given_texts_first(rest);
        assert(rest.skip(1) =~= gs.skip(k + 1));
        assert(s =~= given_text(g) + next);
        assert(well_given(g));
        assert(k + 1 < gs.len() ==> !value_is_missing(gs[k]));
        if k + 1 < gs.len() {
            let h = gs[k + 1];
            let more = gs.skip(k + 1);
            lemma_given_texts_first(more);
            assert(more[0] == h);
            assert(well_given(h));
            assert(h.lead.len() > 0 || gs[k + 1 - 1].value is Quoted);
            let after_lead = next.skip(h.lead.len() as int);
            assert(next =~= h.lead + after_lead);
            assert(key_char(h.name[0]));
            assert(after_lead[0] == h.name[0]);
            lemma_skip_blanks(h.lead, after_lead);
            if h.lead.len() > 0 {
                assert(blank(h.lead[0]));
                assert(next[0] == h.lead[0]);
            }
        } else {
            assert(given_texts(gs.skip(k + 1)) =~= nothing);
            assert(next =~= space + last);
            assert(next[0] == space[0]);
        }
        lemma_read_given(g, gathered(gs.take(k)), next);
        assert(gs.take(k + 1).drop_last() =~= gs.take(k));
        assert(gs.take(k + 1).last() == g);
        lemma_read_up_to_unfinished(gs, k + 1, space, key, quote, text);
    }
}

/// A `<` that begins neither a name nor a closing tag nor a comment is a fault that holds an empty
/// name.
pub proof fn law_tag_without_name(x: Seq<char>)
    requires
        x.len() > 0 ==> !word_char(x[0]) && x[0] != '/',
        !(x.len() > 2 && x[0] == '!' && x[1] == '-' && x[2] == '-'),
    ensures
        nodes(seq!['<'] + x).trees.len() == 0,
        nodes(seq!['<'] + x).end == Err::<Option<Seq<char>>, Fault>(
            Fault::InvalidTagName(Seq::empty()),
        ),
        nodes(seq!['<'] + x).rest == x,
{
    let s = seq!['<'] + x;
    assert(s.skip(1) =~= x);
    if seq!['<', '/'].is_prefix_of(s) {
        assert(s.subrange(0, 2)[1] == s[1]);
    }
    if seq!['<', '!', '-', '-'].is_prefix_of(s) {
        assert(s.subrange(0, 4)[1] == s[1]);
        assert(s.subrange(0, 4)[2] == s[2]);
        assert(s.subrange(0, 4)[3] == s[3]);
    }
    lemma_no_span(x, name_class());
    assert(element(s) == (Reading {
        trees: Seq::empty(),
        end: Err(Fault::InvalidTagName(Seq::empty())),
        rest: x,
    }));
}

/// A closing tag ends the nodes and gives its name as it stands, with white space around it or
/// without. It may have no name.
pub proof fn law_closing_tag(
    before: Seq<char>,
    name: Seq<char>,
    after: Seq<char>,
    x: Seq<char>,
)
    requires
        blanks(before),
        word(name),
        blanks(after),
    ensures
        nodes(seq!['<', '/'] + before + name + after + seq!['>'] + x) == (Reading {
            trees: Seq::empty(),
            end: Ok(Some(name)),
            rest: x,
        }),
{
    let end = seq!['>'] + x;
    assert(seq!['<', '/'] + before + name + after + seq!['>'] + x =~= seq!['<', '/'] + before
        + name + after + end);
    assert(end.skip(1) =~= x);
    lemma_read_closing_tag(before, name, after, end);
}

/// The `>` of a closing tag may be missing.
pub proof fn law_closing_tag_without_end(
    before: Seq<char>,
    name: Seq<char>,
    after: Seq<char>,
    x: Seq<char>,
)
    requires
        blanks(before),
        word(name),
        blanks(after),
        x.len() > 0 ==> x[0] != '>' && !blank(x[0]),
        x.len() > 0 && word_char(x[0]) ==> name.len() > 0 && after.len() > 0,
    ensures
        nodes(seq!['<', '/'] + before + name + after + x) == (Reading {
            trees: Seq::empty(),
            end: Ok(Some(name)),
            rest: x,
        }),
{
    lemma_read_closing_tag(before, name, after, x);
}

proof fn lemma_read_closing_tag(
    before: Seq<char>,
    name: Seq<char>,
    after: Seq<char>,
    end: Seq<char>,
)
    requires
        blanks(before),
        word(name),
        blanks(after),
        end.len() > 0 ==> !blank(end[0]),
        end.len() > 0 && word_char(end[0]) ==> name.len() > 0 && after.len() > 0,
    ensures
        nodes(seq!['<', '/'] + before + name + after + end) == (Reading {
            trees: Seq::empty(),
            end: Ok(Some(name)),
            rest: skip_char(end, '>'),
        }),
{
    let s = seq!['<', '/'] + before + name + after + end;
    let r = after + end;
    let t = name + r;
    assert(s.subrange(0, 2) =~= seq!['<', '/']);
    assert(s.skip(2) =~= before + t);
    assert forall|i: int| 0 <= i < name.len() implies name_class()(#[trigger] name[i]) by {
        assert(word_char(name[i]));
    }
    if name.len() > 0 {
        assert(word_char(name[0]));
        assert(t[0] == name[0]);
        lemma_skip_blanks(before, t);
        if after.len() > 0 {
            assert(blank(after[0]));
            assert(r[0] == after[0]);
        }
        lemma_span_of_concat(name, r, name_class());
        lemma_skip_blanks(after, end);
    } else {
        let w = before + after;
        assert(before + t =~= w + end);
        assert(blanks(w)) by {
            assert forall|i: int| 0 <= i < w.len() implies blank(#[trigger] w[i]) by {
                if i < before.len() {
                    assert(w[i] == before[i]);
                } else {
                    assert(w[i] == after[i - before.len()]);
                }
            }
        }
        lemma_skip_blanks(w, end);
        lemma_no_span(end, name_class());
        lemma_no_span(end, whitespace_class());
        assert(name =~= Seq::<char>::empty());
    }
    assert(closing(s.skip(2)) == (name, skip_char(end, '>')));
}

// ---------------------------------------------------------------------------
// Text
// ---------------------------------------------------------------------------
/// Nothing is read as nothing.
pub proof fn law_nothing_to_read()
    ensures
        nodes(Seq::empty()) == (Reading {
            trees: Seq::empty(),
            end: Ok(None),
            rest: Seq::empty(),
        }),
{
}

/// What stands before the next `<`, or before the end, is one text node, letter for letter.
pub proof fn law_text_node(text: Seq<char>, x: Seq<char>)
    requires
        text.len() > 0,
        !text.contains('<'),
        x.len() > 0 ==> x[0] == '<',
    ensures
        reads_on(
            nodes(text + x),
            seq![Tree { data: Content::Text(text), children: Seq::empty() }],
            nodes(x),
        ),
{
    lemma_read_text(text, x);
}

/// A comment is one text node, from `<!--` through the first `-->`, letter for letter.
pub proof fn law_comment_node(body: Seq<char>, x: Seq<char>)
    requires
        no_arrow_before(body + seq!['-', '-', '>'], body.len() as int),
    ensures
        reads_on(
            nodes(seq!['<', '!', '-', '-'] + body + seq!['-', '-', '>'] + x),
            seq![
                Tree {
                    data: Content::Text(
                        seq!['<', '!', '-', '-'] + body + seq!['-', '-', '>'],
                    ),
                    children: Seq::empty(),
                },
            ],
            nodes(x),
        ),
{
    let b = body + seq!['-', '-', '>'];
    let text = seq!['<', '!', '-', '-'] + body + seq!['-', '-', '>'];
    assert(text.skip(4) =~= b);
    lemma_arrow_ends(b, body.len() as int);
    assert(text.subrange(0, 4) =~= seq!['<', '!', '-', '-']);
    assert(b.subrange(b.len() - 3, b.len() as int) =~= seq!['-', '-', '>']);
    lemma_read_comment(text, x);
}

/// A comment that is not closed reaches to the end.
pub proof fn law_open_comment_node(body: Seq<char>)
    requires
        no_arrow_before(body, body.len() as int),
    ensures
        nodes(seq!['<', '!', '-', '-'] + body) == (Reading {
            trees: seq![
                Tree {
                    data: Content::Text(seq!['<', '!', '-', '-'] + body),
                    children: Seq::empty(),
                },
            ],
            end: Ok(None),
            rest: Seq::empty(),
        }),
{
    let nothing = Seq::<char>::empty();
    let text = seq!['<', '!', '-', '-'] + body;
    assert(text.skip(4) =~= body);
    lemma_no_arrow(body);
    assert(text.subrange(0, 4) =~= seq!['<', '!', '-', '-']);
    lemma_read_comment(text, nothing);
    assert(text + nothing =~= text);
    assert(nodes(nothing) == (Reading { trees: Seq::empty(), end: Ok(None), rest: nothing }));
    let t = leaf(Content::Text(text));
    assert(seq![t] + Seq::<Tree>::empty() =~= seq![t]);
}

proof fn lemma_arrow(s: Seq<char>)
    ensures
        seq!['-', '-', '>'].is_prefix_of(s) <==> arrow_at(s, 0),
{
    if seq!['-', '-', '>'].is_prefix_of(s) {
        assert(s.subrange(0, 3)[0] == s[0]);
        assert(s.subrange(0, 3)[1] == s[1]);
        assert(s.subrange(0, 3)[2] == s[2]);
    }
    if arrow_at(s, 0) {
        assert(s.subrange(0, 3) =~= seq!['-', '-', '>']);
    }
}

proof fn lemma_arrow_ends(b: Seq<char>, n: int)
    requires
        0 <= n,
        n + 3 == b.len(),
        arrow_at(b, n),
        forall|i: int| 0 <= i < n ==> !#[trigger] arrow_at(b, i),
    ensures
        comment_body_len(b) == b.len(),
    decreases n,
{
    lemma_arrow(b);
    if n > 0 {
        let c = b.skip(1);
        assert(!arrow_at(b, 0));
        assert(arrow_at(c, n - 1));
        assert forall|i: int| 0 <= i < n - 1 implies !#[trigger] arrow_at(c, i) by {
            assert(!arrow_at(b, i + 1));
        }
        lemma_arrow_ends(c, n - 1);
    }
}

proof fn lemma_no_arrow(b: Seq<char>)
    requires
        forall|i: int| 0 <= i < b.len() ==> !#[trigger] arrow_at(b, i),
    ensures
        comment_body_len(b) == b.len(),
        !seq!['-', '-', '>'].is_suffix_of(b),
    decreases b.len(),
{
    lemma_arrow(b);
    if seq!['-', '-', '>'].is_suffix_of(b) {
        let t = b.subrange(b.len() - 3, b.len() as int);
        assert(t[0] == b[b.len() - 3]);
        assert(t[1] == b[b.len() - 2]);
        assert(t[2] == b[b.len() - 1]);
        assert(arrow_at(b, b.len() - 3));
    }
    if b.len() > 0 {
        let c = b.skip(1);
        assert(!arrow_at(b, 0));
        assert forall|i: int| 0 <= i < c.len() implies !#[trigger] arrow_at(c, i) by {
            assert(!arrow_at(b, i + 1));
        }
        lemma_no_arrow(c);
    }
}

} // verus!
