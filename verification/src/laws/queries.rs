//! Laws of selectors and queries.
use vstd::prelude::*;

use crate::forest::{
    below_within, descendants, finite_above, height, height_within, is_below, is_forest,
    lemma_below_child, lemma_child_is_below, lemma_child_of_below, lemma_descendants_are_below,
    lemma_height_raise, lemma_parent_of_below, Nodes,
};
use crate::grammar::skip_space;
use crate::laws::documents::lemma_below_has_parent;
use crate::levels::lemma_descendants_once;
use crate::query::{
    all_matches, compound, compound_holds, first_match, first_on_way, joined, lemma_compound,
    nearest_ancestor, parts_above, piece_meaning, selector_holds, selector_meaning, selects,
    sequence, sequence_holds, simple_holds, Part, Simple,
};
use crate::selector::Combinator;
use crate::text::{all_but, lemma_span, lemma_span_is, pieces, span, trimmed, whitespace_class};

verus! {

// ---------------------------------------------------------------------------
// Queries
// ---------------------------------------------------------------------------
/// A query for all finds a node if and only if the node is below the start and matches, and finds
/// none twice. A query for one finds the first of them, and nothing only where there is none.
pub proof fn law_queries_find_what_matches(nodes: Nodes, start: int, text: Seq<char>, x: int)
    requires
        is_forest(nodes),
        0 <= start < nodes.len(),
    ensures
        all_matches(nodes, start, text).contains(x) <==> is_below(nodes, start, x)
            && selector_holds(nodes, selector_meaning(text), x),
        all_matches(nodes, start, text).no_duplicates(),
        first_match(nodes, start, text) == (if all_matches(nodes, start, text).len() > 0 {
            Some(all_matches(nodes, start, text)[0])
        } else {
            None
        }),
{
    let all = descendants(nodes, start);
    let keep = selects(nodes, text);
    assert(crate::forest::finite_below(nodes, start));
    lemma_descendants_are_below(nodes, start, x);
    lemma_descendants_once(nodes, start);
    lemma_filter_contains(all, keep, x);
    lemma_filter_once(all, keep);
}

/// Queries find nodes in document order: of two nodes that are found, the one that is found first
/// stands first among all nodes below the start.
pub proof fn law_queries_keep_document_order(
    nodes: Nodes,
    start: int,
    text: Seq<char>,
    i: int,
    j: int,
)
    requires
        is_forest(nodes),
        0 <= start < nodes.len(),
        0 <= i < j < all_matches(nodes, start, text).len(),
    ensures
        exists|a: int, b: int|
            0 <= a < b < descendants(nodes, start).len() && #[trigger] descendants(nodes, start)[a]
                == all_matches(nodes, start, text)[i] && #[trigger] descendants(nodes, start)[b]
                == all_matches(nodes, start, text)[j],
{
    let (a, b) = lemma_filter_order(descendants(nodes, start), selects(nodes, text), i, j);
    assert(descendants(nodes, start)[a] == all_matches(nodes, start, text)[i]);
    assert(descendants(nodes, start)[b] == all_matches(nodes, start, text)[j]);
}

proof fn lemma_filter_contains(s: Seq<int>, keep: spec_fn(int) -> bool, x: int)
    ensures
        s.filter(keep).contains(x) <==> s.contains(x) && keep(x),
    decreases s.len(),
{
    reveal(Seq::filter);
    if s.len() > 0 {
        let front = s.drop_last();
        lemma_filter_contains(front, keep, x);
        let f = front.filter(keep);
        assert(s.contains(x) <==> front.contains(x) || s.last() == x) by {
            if front.contains(x) {
                assert(s[front.index_of(x)] == x);
            }
            assert(s[s.len() - 1] == s.last());
            if s.contains(x) && s.index_of(x) < front.len() {
                assert(front[s.index_of(x)] == x);
            }
        }
        if keep(s.last()) {
            let g = f.push(s.last());
            assert(g.contains(x) <==> f.contains(x) || s.last() == x) by {
                if f.contains(x) {
                    assert(g[f.index_of(x)] == x);
                }
                assert(g[f.len() as int] == s.last());
                if g.contains(x) && g.index_of(x) < f.len() {
                    assert(f[g.index_of(x)] == x);
                }
            }
        }
    }
}

proof fn lemma_filter_once(s: Seq<int>, keep: spec_fn(int) -> bool)
    requires
        s.no_duplicates(),
    ensures
        s.filter(keep).no_duplicates(),
    decreases s.len(),
{
    reveal(Seq::filter);
    if s.len() > 0 {
        let front = s.drop_last();
        assert(front.no_duplicates());
        lemma_filter_once(front, keep);
        let f = front.filter(keep);
        lemma_filter_contains(front, keep, s.last());
        assert(!front.contains(s.last())) by {
            if front.contains(s.last()) {
                let i = front.index_of(s.last());
                assert(s[i] == s[s.len() - 1]);
            }
        }
        let g = f.push(s.last());
        assert forall|i: int, j: int| 0 <= i < g.len() && 0 <= j < g.len() && i != j implies g[i]
            != g[j] by {
            if i == f.len() {
                assert(f.contains(f[j]));
            } else if j == f.len() {
                assert(f.contains(f[i]));
            }
        }
    }
}

proof fn lemma_filter_order(s: Seq<int>, keep: spec_fn(int) -> bool, i: int, j: int) -> (r: (
    int,
    int,
))
    requires
        0 <= i < j < s.filter(keep).len(),
    ensures
        0 <= r.0 < r.1 < s.len(),
        s[r.0] == s.filter(keep)[i],
        s[r.1] == s.filter(keep)[j],
    decreases s.len(),
{
    reveal(Seq::filter);
    let front = s.drop_last();
    let f = front.filter(keep);
    if j < f.len() {
        lemma_filter_order(front, keep, i, j)
    } else {
        lemma_filter_contains(front, keep, f[i]);
        assert(f.contains(f[i]));
        let a = front.index_of(f[i]);
        assert(front[a] == f[i]);
        (a, s.len() - 1)
    }
}

// ---------------------------------------------------------------------------
// What can match
// ---------------------------------------------------------------------------
/// Whether every part of a sequence has a test.
spec fn has_tests(parts: Seq<Part>) -> bool {
    forall|i: int| 0 <= i < parts.len() ==> (#[trigger] parts[i]).compound.len() > 0
}

/// Only elements match: texts and the document node never do.
pub proof fn law_only_elements_match(nodes: Nodes, text: Seq<char>, id: int)
    requires
        selector_holds(nodes, selector_meaning(text), id),
    ensures
        nodes[id].data is Element,
{
    let all = selector_meaning(text);
    let i = choose|i: int| 0 <= i < all.len() && sequence_holds(nodes, #[trigger] all[i], id);
    let parts = all[i];
    assert(all.contains(parts));
    pieces(text, ',').lemma_filter_map_contains(piece_meaning(), parts);
    let piece = choose|piece: Seq<char>| #[trigger]
        pieces(text, ',').contains(piece) && piece_meaning()(piece) == Some(parts);
    lemma_sequence_has_tests(trimmed(piece), Seq::empty());
    let tests = parts[parts.len() - 1].compound;
    assert(tests.len() > 0);
    assert(simple_holds(nodes[id].data, tests[0]));
}

proof fn lemma_sequence_has_tests(s: Seq<char>, before: Seq<Part>)
    requires
        has_tests(before),
    ensures
        sequence(s, before) matches Some(parts) ==> has_tests(parts),
    decreases s.len(),
{
    let t = skip_space(s);
    let child = t.len() > 0 && t[0] == '>';
    let u = if child {
        skip_space(t.skip(1))
    } else {
        t
    };
    let join = if child {
        Some(Combinator::Child)
    } else if t.len() < s.len() && before.len() > 0 {
        Some(Combinator::Descendant)
    } else {
        None
    };
    lemma_span(s, whitespace_class());
    lemma_span(t.skip(1), whitespace_class());
    lemma_compound(u, Seq::empty());
    if u.len() > 0 {
        if let Some((tests, rest)) = compound(u, Seq::empty()) {
            let next = joined(before, join, tests);
            assert forall|i: int| 0 <= i < next.len() implies (#[trigger] next[i]).compound.len()
                > 0 by {
                if i < before.len() {
                    assert(before[i].compound.len() > 0);
                }
            }
            lemma_sequence_has_tests(rest, next);
        }
    }
}

// ---------------------------------------------------------------------------
// Alternatives
// ---------------------------------------------------------------------------
/// What matches one of two selectors, and nothing else, matches the two with a comma between them.
pub proof fn law_comma_is_or(nodes: Nodes, a: Seq<char>, b: Seq<char>, id: int)
    ensures
        selector_holds(nodes, selector_meaning(a + seq![','] + b), id) <==> selector_holds(
            nodes,
            selector_meaning(a),
            id,
        ) || selector_holds(nodes, selector_meaning(b), id),
{
    lemma_pieces_join(a, b);
    lemma_filter_map_join(pieces(a, ','), pieces(b, ','), piece_meaning());
    let x = selector_meaning(a);
    let y = selector_meaning(b);
    let z = selector_meaning(a + seq![','] + b);
    assert(z == x + y);
    if selector_holds(nodes, x, id) {
        let i = choose|i: int| 0 <= i < x.len() && sequence_holds(nodes, #[trigger] x[i], id);
        assert(z[i] == x[i]);
    }
    if selector_holds(nodes, y, id) {
        let i = choose|i: int| 0 <= i < y.len() && sequence_holds(nodes, #[trigger] y[i], id);
        assert(z[x.len() + i] == y[i]);
    }
    if selector_holds(nodes, z, id) {
        let i = choose|i: int| 0 <= i < z.len() && sequence_holds(nodes, #[trigger] z[i], id);
        if i < x.len() {
            assert(z[i] == x[i]);
        } else {
            assert(z[i] == y[i - x.len()]);
        }
    }
}

proof fn lemma_pieces_join(a: Seq<char>, b: Seq<char>)
    ensures
        pieces(a + seq![','] + b, ',') == pieces(a, ',') + pieces(b, ','),
    decreases a.len(),
{
    let s = a + seq![','] + b;
    let n = span(a, all_but(',')) as int;
    lemma_span(a, all_but(','));
    assert forall|i: int| 0 <= i < n implies all_but(',')(#[trigger] s[i]) by {
        assert(s[i] == a[i]);
    }
    lemma_span_is(s, all_but(','), n);
    assert(s.take(n) =~= a.take(n));
    if n < a.len() {
        assert(s.skip(n + 1) =~= a.skip(n + 1) + seq![','] + b);
        lemma_pieces_join(a.skip(n + 1), b);
        assert(pieces(s, ',') =~= pieces(a, ',') + pieces(b, ','));
    } else {
        assert(s.skip(n + 1) =~= b);
        assert(a.take(n) =~= a);
        assert(pieces(s, ',') =~= pieces(a, ',') + pieces(b, ','));
    }
}

proof fn lemma_filter_map_join<A, B>(a: Seq<A>, b: Seq<A>, f: spec_fn(A) -> Option<B>)
    ensures
        (a + b).filter_map(f) == a.filter_map(f) + b.filter_map(f),
    decreases b.len(),
{
    if b.len() == 0 {
        assert(a + b =~= a);
        assert(a.filter_map(f) + b.filter_map(f) =~= a.filter_map(f));
    } else {
        assert((a + b).drop_last() =~= a + b.drop_last());
        lemma_filter_map_join(a, b.drop_last(), f);
        assert((a + b).filter_map(f) =~= a.filter_map(f) + b.filter_map(f));
    }
}

// ---------------------------------------------------------------------------
// Ancestors
// ---------------------------------------------------------------------------
/// Whether a node is another one or above it.
spec fn on_way(nodes: Nodes, y: int, x: int) -> bool {
    y == x || is_below(nodes, y, x)
}

proof fn lemma_first_on_way(nodes: Nodes, a: int, tests: Seq<Simple>, h: nat)
    requires
        is_forest(nodes),
        height_within(nodes, a, h),
    ensures
        match first_on_way(nodes, Some(a), tests, h) {
            Some(n) => {
                &&& on_way(nodes, n, a)
                &&& 0 <= n < nodes.len()
                &&& compound_holds(nodes[n].data, tests)
                &&& forall|y: int| #[trigger]
                    on_way(nodes, y, a) && compound_holds(nodes[y].data, tests) ==> on_way(
                        nodes,
                        y,
                        n,
                    )
            },
            None => forall|y: int| #[trigger]
                on_way(nodes, y, a) ==> !compound_holds(nodes[y].data, tests),
        },
    decreases h,
{
    if !compound_holds(nodes[a].data, tests) {
        if let Some(p) = nodes[a].parent {
            lemma_first_on_way(nodes, p, tests, (h - 1) as nat);
            lemma_parent_is_above(nodes, a, p);
            assert forall|y: int| #[trigger] on_way(nodes, y, a) && y != a implies on_way(
                nodes,
                y,
                p,
            ) by {
                lemma_parent_of_below(nodes, y, a, p);
            }
            assert forall|y: int| #[trigger] on_way(nodes, y, p) implies on_way(nodes, y, a) by {
                lemma_above_parent(nodes, y, a, p);
            }
        } else {
            assert(first_on_way(nodes, None, tests, (h - 1) as nat) is None);
            assert forall|y: int| #[trigger] on_way(nodes, y, a) implies y == a by {
                if y != a {
                    lemma_below_has_parent(nodes, y, a);
                }
            }
        }
    }
}

/// A parent is above its child.
proof fn lemma_parent_is_above(nodes: Nodes, c: int, p: int)
    requires
        is_forest(nodes),
        0 <= c < nodes.len(),
        nodes[c].parent == Some(p),
    ensures
        is_below(nodes, p, c),
        0 <= p < nodes.len(),
{
    assert(nodes[p].children.contains(c));
    lemma_child_is_below(nodes, p, nodes[p].children.index_of(c));
}

/// What is above a parent, or is it, is above the child.
proof fn lemma_above_parent(nodes: Nodes, y: int, c: int, p: int)
    requires
        is_forest(nodes),
        0 <= c < nodes.len(),
        nodes[c].parent == Some(p),
        on_way(nodes, y, p),
    ensures
        is_below(nodes, y, c),
{
    lemma_parent_is_above(nodes, c, p);
    if y != p {
        let i = nodes[p].children.index_of(c);
        assert(nodes[p].children[i] == c);
        lemma_child_of_below(nodes, y, p, i);
    }
}

/// The nearest ancestor that passes some tests is an ancestor that passes them, and every other
/// ancestor that passes them is above it; there is none only where no ancestor passes them.
pub proof fn law_nearest_ancestor(nodes: Nodes, id: int, tests: Seq<Simple>)
    requires
        is_forest(nodes),
        0 <= id < nodes.len(),
    ensures
        match nearest_ancestor(nodes, id, tests) {
            Some(n) => {
                &&& is_below(nodes, n, id)
                &&& 0 <= n < nodes.len()
                &&& compound_holds(nodes[n].data, tests)
                &&& forall|y: int| #[trigger]
                    is_below(nodes, y, id) && compound_holds(nodes[y].data, tests) ==> y == n
                        || is_below(nodes, y, n)
            },
            None => forall|y: int| #[trigger]
                is_below(nodes, y, id) ==> !compound_holds(nodes[y].data, tests),
        },
{
    assert(finite_above(nodes, id));
    let h = height(nodes, id);
    assert(height_within(nodes, id, h));
    if let Some(p) = nodes[id].parent {
        lemma_height_raise(nodes, p, (h - 1) as nat, h);
        lemma_first_on_way(nodes, p, tests, h);
        assert forall|y: int| #[trigger] is_below(nodes, y, id) implies on_way(nodes, y, p) by {
            lemma_parent_of_below(nodes, y, id, p);
        }
        if let Some(n) = nearest_ancestor(nodes, id, tests) {
            lemma_above_parent(nodes, n, id, p);
            assert forall|y: int| #[trigger]
                is_below(nodes, y, id) && compound_holds(nodes[y].data, tests) implies y == n
                || is_below(nodes, y, n) by {
                assert(on_way(nodes, y, p));
                assert(on_way(nodes, y, n));
            }
        }
    } else {
        assert forall|y: int| #[trigger] is_below(nodes, y, id) implies false by {
            lemma_below_has_parent(nodes, y, id);
        }
    }
}

/// Whether the first `k` parts of a selector can be found above a node in any way: after `>` in
/// the parent, else in some ancestor.
pub open spec fn can_be_found_above(nodes: Nodes, parts: Seq<Part>, k: nat, id: int) -> bool
    decreases k,
{
    if k == 0 {
        true
    } else {
        let part = parts[k - 1];
        if part.combinator == Some(Combinator::Child) {
            match nodes[id].parent {
                Some(p) => compound_holds(nodes[p].data, part.compound) && can_be_found_above(
                    nodes,
                    parts,
                    (k - 1) as nat,
                    p,
                ),
                None => false,
            }
        } else {
            exists|a: int| #[trigger]
                is_below(nodes, a, id) && compound_holds(nodes[a].data, part.compound)
                    && can_be_found_above(nodes, parts, (k - 1) as nat, a)
        }
    }
}

/// A sequence that matches a node stands for elements that are there: each part is found in the
/// parent or in some ancestor of where the next part is found.
pub proof fn law_matches_are_sound(nodes: Nodes, parts: Seq<Part>, id: int)
    requires
        is_forest(nodes),
        0 <= id < nodes.len(),
        sequence_holds(nodes, parts, id),
    ensures
        compound_holds(nodes[id].data, parts.last().compound),
        can_be_found_above(nodes, parts, (parts.len() - 1) as nat, id),
{
    lemma_found_is_sound(nodes, parts, (parts.len() - 1) as nat, id);
}

proof fn lemma_found_is_sound(nodes: Nodes, parts: Seq<Part>, k: nat, id: int)
    requires
        is_forest(nodes),
        0 <= id < nodes.len(),
        parts_above(nodes, parts, k, id),
    ensures
        can_be_found_above(nodes, parts, k, id),
    decreases k,
{
    if k > 0 {
        let part = parts[k - 1];
        if part.combinator == Some(Combinator::Child) {
            let p = nodes[id].parent->0;
            lemma_parent_is_above(nodes, id, p);
            lemma_found_is_sound(nodes, parts, (k - 1) as nat, p);
        } else {
            law_nearest_ancestor(nodes, id, part.compound);
            let a = nearest_ancestor(nodes, id, part.compound)->0;
            lemma_found_is_sound(nodes, parts, (k - 1) as nat, a);
            assert(is_below(nodes, a, id));
        }
    }
}

/// A sequence without `>` matches every node that it should: where its parts can be found above
/// the node in any way, they are found. With `>` this can fail, since the nearest ancestor that
/// passes a part is taken and not given up for one further up.
pub proof fn law_matches_without_child_are_complete(nodes: Nodes, parts: Seq<Part>, id: int)
    requires
        is_forest(nodes),
        0 <= id < nodes.len(),
        parts.len() > 0,
        forall|i: int|
            0 <= i < parts.len() - 1 ==> (#[trigger] parts[i]).combinator != Some(
                Combinator::Child,
            ),
        compound_holds(nodes[id].data, parts.last().compound),
        can_be_found_above(nodes, parts, (parts.len() - 1) as nat, id),
    ensures
        sequence_holds(nodes, parts, id),
{
    lemma_found_is_complete(nodes, parts, (parts.len() - 1) as nat, id);
}

proof fn lemma_found_is_complete(nodes: Nodes, parts: Seq<Part>, k: nat, id: int)
    requires
        is_forest(nodes),
        0 <= id < nodes.len(),
        k <= parts.len(),
        forall|i: int|
            0 <= i < k ==> (#[trigger] parts[i]).combinator != Some(Combinator::Child),
        can_be_found_above(nodes, parts, k, id),
    ensures
        parts_above(nodes, parts, k, id),
    decreases k,
{
    if k > 0 {
        let part = parts[k - 1];
        assert(part.combinator != Some(Combinator::Child));
        let a = choose|a: int| #[trigger]
            is_below(nodes, a, id) && compound_holds(nodes[a].data, part.compound)
                && can_be_found_above(nodes, parts, (k - 1) as nat, a);
        law_nearest_ancestor(nodes, id, part.compound);
        assert(is_below(nodes, a, id));
        let n = nearest_ancestor(nodes, id, part.compound)->0;
        if a != n {
            assert(is_below(nodes, a, n));
            lemma_found_further_down(nodes, parts, (k - 1) as nat, a, n);
        }
        lemma_found_is_complete(nodes, parts, (k - 1) as nat, n);
    }
}

/// What can be found above a node can be found above what is below the node.
proof fn lemma_found_further_down(nodes: Nodes, parts: Seq<Part>, k: nat, a: int, x: int)
    requires
        is_forest(nodes),
        is_below(nodes, a, x),
        k <= parts.len(),
        forall|i: int|
            0 <= i < k ==> (#[trigger] parts[i]).combinator != Some(Combinator::Child),
        can_be_found_above(nodes, parts, k, a),
    ensures
        can_be_found_above(nodes, parts, k, x),
{
    if k > 0 {
        let part = parts[k - 1];
        assert(part.combinator != Some(Combinator::Child));
        let b = choose|b: int| #[trigger]
            is_below(nodes, b, a) && compound_holds(nodes[b].data, part.compound)
                && can_be_found_above(nodes, parts, (k - 1) as nat, b);
        lemma_below_twice(nodes, b, a, x);
        assert(is_below(nodes, b, x));
    }
}

/// What is below something below a node is below the node.
proof fn lemma_below_twice(nodes: Nodes, a: int, b: int, c: int)
    requires
        is_below(nodes, a, b),
        is_below(nodes, b, c),
    ensures
        is_below(nodes, a, c),
{
    let n = choose|n: nat| below_within(nodes, a, b, n);
    lemma_below_twice_within(nodes, a, b, c, n);
}

proof fn lemma_below_twice_within(nodes: Nodes, a: int, b: int, c: int, n: nat)
    requires
        below_within(nodes, a, b, n),
        is_below(nodes, b, c),
    ensures
        is_below(nodes, a, c),
    decreases n,
{
    let i = choose|i: int|
        0 <= i < nodes[a].children.len() && ((#[trigger] nodes[a].children[i]) == b || below_within(
            nodes,
            nodes[a].children[i],
            b,
            (n - 1) as nat,
        ));
    let d = nodes[a].children[i];
    if d != b {
        lemma_below_twice_within(nodes, d, b, c, (n - 1) as nat);
    }
    lemma_below_child(nodes, a, i, c);
}

} // verus!
