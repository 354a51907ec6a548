//! Laws of attributes.
use vstd::prelude::*;

use crate::attrs::{
    distinct_names, has_name, inserted, lemma_inserted_distinct, lemma_position,
    lemma_removed_distinct, lookup, position, removed, AttrList,
};

verus! {

/// An attribute that was set is there with the value it was given, or as a boolean attribute; all
/// other attributes are as before.
pub proof fn law_set_attribute(
    a: AttrList,
    name: Seq<char>,
    value: Option<Seq<char>>,
    other: Seq<char>,
)
    requires
        distinct_names(a),
    ensures
        distinct_names(inserted(a, name, value)),
        lookup(inserted(a, name, value), name) == Some(value),
        other != name ==> lookup(inserted(a, name, value), other) == lookup(a, other),
{
    let b = inserted(a, name, value);
    lemma_inserted_distinct(a, name, value);
    let p = if has_name(a, name) {
        position(a, name)
    } else {
        a.len() as int
    };
    lemma_position(b, p);
    if other != name {
        if has_name(a, other) {
            let q = position(a, other);
            assert(b[q] == a[q]);
            lemma_position(b, q);
        } else if has_name(b, other) {
            let q = position(b, other);
            assert(q != p);
            assert(b[q] == a[q]);
        }
    }
}

/// An attribute that was removed is not there; all other attributes are as before.
pub proof fn law_remove_attribute(a: AttrList, name: Seq<char>, other: Seq<char>)
    requires
        distinct_names(a),
    ensures
        distinct_names(removed(a, name)),
        lookup(removed(a, name), name) is None,
        other != name ==> lookup(removed(a, name), other) == lookup(a, other),
{
    let b = removed(a, name);
    lemma_removed_distinct(a, name);
    if has_name(a, name) {
        let p = position(a, name);
        if has_name(b, name) {
            let q = position(b, name);
            let r = if q < p {
                q
            } else {
                q + 1
            };
            assert(b[q] == a[r]);
            lemma_position(a, r);
        }
        if other != name {
            if has_name(a, other) {
                let q = position(a, other);
                let r = if q < p {
                    q
                } else {
                    q - 1
                };
                assert(b[r] == a[q]);
                lemma_position(b, r);
            } else if has_name(b, other) {
                let q = position(b, other);
                let r = if q < p {
                    q
                } else {
                    q + 1
                };
                assert(b[q] == a[r]);
            }
        }
    }
}

/// Setting an attribute twice is setting it the second time.
pub proof fn law_set_attribute_twice(
    a: AttrList,
    name: Seq<char>,
    first: Option<Seq<char>>,
    second: Option<Seq<char>>,
)
    requires
        distinct_names(a),
    ensures
        inserted(inserted(a, name, first), name, second) == inserted(a, name, second),
{
    let b = inserted(a, name, first);
    lemma_inserted_distinct(a, name, first);
    let p = if has_name(a, name) {
        position(a, name)
    } else {
        a.len() as int
    };
    lemma_position(b, p);
    assert(inserted(b, name, second) =~= inserted(a, name, second));
}

/// Removing an attribute that was set anew leaves what was there before, in the same order.
pub proof fn law_set_then_remove_attribute(
    a: AttrList,
    name: Seq<char>,
    value: Option<Seq<char>>,
)
    requires
        distinct_names(a),
        !has_name(a, name),
    ensures
        removed(inserted(a, name, value), name) == a,
{
    let b = inserted(a, name, value);
    lemma_inserted_distinct(a, name, value);
    lemma_position(b, a.len() as int);
    assert(removed(b, name) =~= a);
}

} // verus!
