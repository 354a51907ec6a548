//! The attributes of an element: names with an optional value, each name once, in the order in
//! which the names were first given.
use vstd::prelude::*;

use crate::text::same_text;

verus! {

/// Attributes as a mathematical sequence of names and optional values. A name without a value is
/// a boolean attribute.
pub type AttrList = Seq<(Seq<char>, Option<Seq<char>>)>;

/// The mathematical value of an optional text.
pub open spec fn text_view(v: Option<String>) -> Option<Seq<char>> {
    match v {
        Some(s) => Some(s@),
        None => None,
    }
}

/// No name occurs twice.
pub open spec fn distinct_names(a: AttrList) -> bool {
    forall|i: int, j: int| 0 <= i < j < a.len() ==> #[trigger] a[i].0 != #[trigger] a[j].0
}

/// Whether a name occurs.
pub open spec fn has_name(a: AttrList, name: Seq<char>) -> bool {
    exists|i: int| 0 <= i < a.len() && #[trigger] a[i].0 == name
}

/// The place at which a name occurs.
pub open spec fn position(a: AttrList, name: Seq<char>) -> int {
    choose|i: int| 0 <= i < a.len() && #[trigger] a[i].0 == name
}

/// What is recorded under a name: nothing, a name without a value, or a value.
pub open spec fn lookup(a: AttrList, name: Seq<char>) -> Option<Option<Seq<char>>> {
    if has_name(a, name) {
        Some(a[position(a, name)].1)
    } else {
        None
    }
}

/// The attributes after a name is given a value: a name that is there keeps its place, a new one
/// comes last.
pub open spec fn inserted(a: AttrList, name: Seq<char>, value: Option<Seq<char>>) -> AttrList {
    if has_name(a, name) {
        a.update(position(a, name), (name, value))
    } else {
        a.push((name, value))
    }
}

/// The attributes after a name is taken out: the others keep their order.
pub open spec fn removed(a: AttrList, name: Seq<char>) -> AttrList {
    if has_name(a, name) {
        a.remove(position(a, name))
    } else {
        a
    }
}

/// Where names are distinct, a place with the name is the place of the name.
pub proof fn lemma_position(a: AttrList, i: int)
    requires
        distinct_names(a),
        0 <= i < a.len(),
    ensures
        has_name(a, a[i].0),
        position(a, a[i].0) == i,
{
    let p = position(a, a[i].0);
    assert(0 <= p < a.len() && a[p].0 == a[i].0);
    if p < i {
        assert(a[p].0 != a[i].0);
    } else if i < p {
        assert(a[i].0 != a[p].0);
    }
}

/// Giving a name a value keeps the names distinct.
pub proof fn lemma_inserted_distinct(a: AttrList, name: Seq<char>, value: Option<Seq<char>>)
    requires
        distinct_names(a),
    ensures
        distinct_names(inserted(a, name, value)),
{
    let b = inserted(a, name, value);
    assert forall|i: int, j: int| 0 <= i < j < b.len() implies #[trigger] b[i].0
        != #[trigger] b[j].0 by {
        if has_name(a, name) {
            let p = position(a, name);
            assert(a[p].0 == name);
            assert(b[i].0 == a[i].0 && b[j].0 == a[j].0);
        } else if j == a.len() {
            assert(b[i] == a[i]);
        } else {
            assert(b[i] == a[i] && b[j] == a[j]);
        }
    }
}

/// Taking a name out keeps the names distinct.
pub proof fn lemma_removed_distinct(a: AttrList, name: Seq<char>)
    requires
        distinct_names(a),
    ensures
        distinct_names(removed(a, name)),
{
}

/// The attributes of an element.
#[derive(Debug)]
pub struct Attrs {
    entries: Vec<(String, Option<String>)>,
}

impl View for Attrs {
    type V = AttrList;

    closed spec fn view(&self) -> AttrList {
        entries_view(self.entries@)
    }
}

spec fn entries_view(e: Seq<(String, Option<String>)>) -> AttrList {
    e.map_values(|p: (String, Option<String>)| (p.0@, text_view(p.1)))
}

impl Attrs {
    #[verifier::type_invariant]
    spec fn names_once(self) -> bool {
        distinct_names(self@)
    }

    /// No attributes.
    pub fn new() -> (r: Attrs)
        ensures
            r@ == Seq::<(Seq<char>, Option<Seq<char>>)>::empty(),
    {
        let entries: Vec<(String, Option<String>)> = Vec::new();
        assert(entries_view(entries@) =~= Seq::<(Seq<char>, Option<Seq<char>>)>::empty());
        Attrs { entries }
    }

    /// How many attributes there are.
    pub fn len(&self) -> (n: usize)
        ensures
            n == self@.len(),
            distinct_names(self@),
    {
        proof {
            use_type_invariant(self);
        }
        self.entries.len()
    }

    /// The name in a place.
    pub fn name_at(&self, i: usize) -> (name: &str)
        requires
            i < self@.len(),
        ensures
            name@ == self@[i as int].0,
    {
        self.entries[i].0.as_str()
    }

    /// The value in a place.
    pub fn value_at(&self, i: usize) -> (value: &Option<String>)
        requires
            i < self@.len(),
        ensures
            text_view(*value) == self@[i as int].1,
    {
        &self.entries[i].1
    }

    /// The place of a name, or the number of attributes where the name does not occur.
    fn find(&self, name: &str) -> (i: usize)
        ensures
            distinct_names(self@),
            i <= self@.len(),
            i < self@.len() <==> has_name(self@, name@),
            i < self@.len() ==> position(self@, name@) == i,
    {
        proof {
            use_type_invariant(self);
        }
        let mut i: usize = 0;
        while i < self.entries.len()
            invariant
                i <= self@.len(),
                self@.len() == self.entries@.len(),
                distinct_names(self@),
                forall|k: int| 0 <= k < i ==> #[trigger] self@[k].0 != name@,
            decreases self@.len() - i,
        {
            if same_text(self.entries[i].0.as_str(), name) {
                proof {
                    lemma_position(self@, i as int);
                }
                return i;
            }
            i += 1;
        }
        i
    }

    /// What is recorded under a name.
    pub fn get(&self, name: &str) -> (r: Option<&Option<String>>)
        ensures
            (match r {
                Some(v) => Some(text_view(*v)),
                None => None,
            }) == lookup(self@, name@),
    {
        let i: usize = self.find(name);
        if i < self.entries.len() {
            Some(&self.entries[i].1)
        } else {
            None
        }
    }

    /// Whether a name occurs, with a value or without.
    pub fn contains_key(&self, name: &str) -> (b: bool)
        ensures
            b == has_name(self@, name@),
    {
        self.find(name) < self.entries.len()
    }

    /// Gives a name a value, or makes it a boolean attribute.
    pub fn insert(&mut self, name: String, value: Option<String>)
        ensures
            final(self)@ == inserted(old(self)@, name@, text_view(value)),
    {
        let i: usize = self.find(name.as_str());
        let mut entries: Vec<(String, Option<String>)> = Vec::new();
        std::mem::swap(&mut entries, &mut self.entries);
        let ghost before = entries@;
        let ghost n = name@;
        let ghost v = text_view(value);
        if i < entries.len() {
            entries[i] = (name, value);
        } else {
            entries.push((name, value));
        }
        proof {
            assert(entries_view(entries@) =~= inserted(entries_view(before), n, v));
            lemma_inserted_distinct(entries_view(before), n, v);
        }
        self.entries = entries;
    }

    /// Takes a name out.
    pub fn remove(&mut self, name: &str)
        ensures
            final(self)@ == removed(old(self)@, name@),
    {
        let i: usize = self.find(name);
        let mut entries: Vec<(String, Option<String>)> = Vec::new();
        std::mem::swap(&mut entries, &mut self.entries);
        let ghost before = entries@;
        if i < entries.len() {
            entries.remove(i);
        }
        proof {
            assert(entries_view(entries@) =~= removed(entries_view(before), name@));
            lemma_removed_distinct(entries_view(before), name@);
        }
        self.entries = entries;
    }
}

impl Clone for Attrs {
    fn clone(&self) -> (r: Attrs)
        ensures
            r@ == self@,
    {
        proof {
            use_type_invariant(self);
        }
        let mut entries: Vec<(String, Option<String>)> = Vec::new();
        let mut i: usize = 0;
        while i < self.entries.len()
            invariant
                i <= self.entries@.len(),
                entries_view(entries@) == self@.take(i as int),
            decreases self.entries@.len() - i,
        {
            let name: String = self.entries[i].0.clone();
            let value: Option<String> = match &self.entries[i].1 {
                Some(v) => Some(v.clone()),
                None => None,
            };
            let ghost before = entries@;
            entries.push((name, value));
            i += 1;
            assert(entries_view(entries@) =~= entries_view(before).push(
                self@[i - 1],
            ));
            assert(self@.take(i as int) =~= self@.take(i - 1).push(self@[i - 1]));
        }
        assert(self@.take(i as int) =~= self@);
        Attrs { entries }
    }
}

} // verus!
