//! Ordered collections of names: a set in which nothing occurs twice, and a
//! table from method names to method bodies.

use crate::split::{lemma_texts_push, texts};
use crate::text::{
    first_pos, lemma_first_pos, lemma_first_pos_unique, same, slice, to_chars, to_string,
};
use vstd::prelude::*;

verus! {

/// The texts that a vector of strings holds, in order.
pub open spec fn strings(v: Seq<String>) -> Seq<Seq<char>> {
    v.map_values(|t: String| t@)
}

/// `names` with `name` added at the end, unless it is there already.
pub open spec fn with_name(names: Seq<Seq<char>>, name: Seq<char>) -> Seq<Seq<char>> {
    if names.contains(name) {
        names
    } else {
        names.push(name)
    }
}

/// `names` with each of `more` added in turn.
pub open spec fn with_names(names: Seq<Seq<char>>, more: Seq<Seq<char>>) -> Seq<Seq<char>>
    decreases more.len(),
{
    if more.len() == 0 {
        names
    } else {
        with_name(with_names(names, more.drop_last()), more.last())
    }
}

/// Adding a name keeps a list free of repetitions.
pub proof fn lemma_with_name_distinct(names: Seq<Seq<char>>, name: Seq<char>)
    requires
        names.no_duplicates(),
    ensures
        with_name(names, name).no_duplicates(),
        with_name(names, name).contains(name),
        forall|x: Seq<char>| names.contains(x) ==> with_name(names, name).contains(x),
        forall|x: Seq<char>| with_name(names, name).contains(x) ==> names.contains(x) || x == name,
{
    let r = with_name(names, name);
    if !names.contains(name) {
        assert(r[names.len() as int] == name);
        assert forall|x: Seq<char>| names.contains(x) implies r.contains(x) by {
            let i = choose|i: int| 0 <= i < names.len() && names[i] == x;
            assert(r[i] == x);
        }
        assert forall|x: Seq<char>| r.contains(x) implies names.contains(x) || x == name by {
            let i = choose|i: int| 0 <= i < r.len() && r[i] == x;
            if i < names.len() {
                assert(names[i] == x);
            }
        }
    }
}

/// What is held under a name: a name alone, or an entry of a table.
pub trait Named {
    /// The name.
    spec fn name(&self) -> Seq<char>;

    /// The name, as characters.
    fn name_chars(&self) -> (r: &Vec<char>)
        ensures
            r@ == self.name(),
    ;
}

impl Named for Vec<char> {
    open spec fn name(&self) -> Seq<char> {
        self@
    }

    fn name_chars(&self) -> (r: &Vec<char>) {
        self
    }
}

impl<V> Named for (Vec<char>, V) {
    open spec fn name(&self) -> Seq<char> {
        self.0@
    }

    fn name_chars(&self) -> (r: &Vec<char>) {
        &self.0
    }
}

/// The names of `items`, in order.
pub open spec fn names_of<T: Named>(items: Seq<T>) -> Seq<Seq<char>> {
    Seq::new(items.len(), |i: int| items[i].name())
}

/// The position of the first of `items` that is named `name`, or their
/// number where none is.
pub fn position_of<T: Named>(items: &Vec<T>, name: &Vec<char>) -> (r: usize)
    ensures
        r == first_pos(names_of(items@), name@),
        r <= items.len(),
        r < items.len() <==> names_of(items@).contains(name@),
{
    let mut i: usize = 0;
    while i < items.len()
        invariant
            i <= items.len(),
            forall|j: int| 0 <= j < i ==> names_of(items@)[j] != name@,
        decreases items.len() - i,
    {
        if same(items[i].name_chars(), name) {
            proof {
                lemma_first_pos_unique(names_of(items@), name@, i as int);
                assert(names_of(items@)[i as int] == name@);
            }
            return i;
        }
        i += 1;
    }
    proof {
        lemma_first_pos_unique(names_of(items@), name@, i as int);
    }
    i
}

/// Puts `value` under `name`: in place of the first entry of that name, or
/// else as a new last entry.
pub fn store_in<V>(entries: &mut Vec<(Vec<char>, V)>, name: Vec<char>, value: V)
    ensures
        ({
            let i = first_pos(names_of(old(entries)@), name@);
            final(entries)@ == if 0 <= i < old(entries)@.len() {
                old(entries)@.update(i, (name, value))
            } else {
                old(entries)@.push((name, value))
            }
        }),
{
    let i = position_of(entries, &name);
    if i < entries.len() {
        entries.set(i, (name, value));
    } else {
        entries.push((name, value));
    }
}

/// An ordered set of names: each name once, in the order of first insertion.
#[derive(Debug)]
pub struct NameSet {
    items: Vec<Vec<char>>,
}

impl View for NameSet {
    type V = Seq<Seq<char>>;

    closed spec fn view(&self) -> Seq<Seq<char>> {
        texts(self.items@)
    }
}

impl NameSet {
    /// No name occurs twice.
    pub open spec fn wf(&self) -> bool {
        self@.no_duplicates()
    }

    /// The empty set.
    pub fn new() -> (s: Self)
        ensures
            s@ == Seq::<Seq<char>>::empty(),
            s.wf(),
    {
        let s = NameSet { items: Vec::new() };
        assert(s@ =~= Seq::<Seq<char>>::empty());
        s
    }

    /// The set of the given names, which must be free of repetitions.
    pub fn from_distinct(items: Vec<Vec<char>>) -> (s: Self)
        requires
            texts(items@).no_duplicates(),
        ensures
            s@ == texts(items@),
            s.wf(),
    {
        NameSet { items }
    }

    /// The number of names.
    pub fn len(&self) -> (r: usize)
        ensures
            r == self@.len(),
    {
        self.items.len()
    }

    /// Whether the set holds no name.
    pub fn is_empty(&self) -> (r: bool)
        ensures
            r == (self@.len() == 0),
    {
        self.items.len() == 0
    }

    /// The name at position `i`.
    pub fn at(&self, i: usize) -> (r: &Vec<char>)
        requires
            i < self@.len(),
        ensures
            r@ == self@[i as int],
    {
        &self.items[i]
    }

    /// Whether the set holds the name given as characters.
    pub fn has(&self, name: &Vec<char>) -> (r: bool)
        ensures
            r == self@.contains(name@),
    {
        assert(names_of(self.items@) =~= self@);
        position_of(&self.items, name) < self.items.len()
    }

    /// Whether the set holds `name`.
    pub fn contains(&self, name: &str) -> (r: bool)
        ensures
            r == self@.contains(name@),
    {
        let chars = to_chars(name);
        self.has(&chars)
    }

    /// Adds the name given as characters; tells whether it was new.
    pub fn add(&mut self, name: Vec<char>) -> (r: bool)
        requires
            old(self).wf(),
        ensures
            final(self).wf(),
            final(self)@ == with_name(old(self)@, name@),
            final(self)@.contains(name@),
            r == !old(self)@.contains(name@),
    {
        proof {
            lemma_with_name_distinct(self@, name@);
        }
        if self.has(&name) {
            false
        } else {
            proof {
                lemma_texts_push(self.items@, name);
            }
            self.items.push(name);
            true
        }
    }

    /// Adds `name`; tells whether it was new.
    pub fn insert(&mut self, name: String) -> (r: bool)
        requires
            old(self).wf(),
        ensures
            final(self).wf(),
            final(self)@ == with_name(old(self)@, name@),
            final(self)@.contains(name@),
            r == !old(self)@.contains(name@),
    {
        let chars = to_chars(name.as_str());
        self.add(chars)
    }

    /// Adds each of `names` in turn.
    pub fn add_all(&mut self, names: &Vec<Vec<char>>)
        requires
            old(self).wf(),
        ensures
            final(self).wf(),
            final(self)@ == with_names(old(self)@, texts(names@)),
    {
        let ghost all = texts(names@);
        let mut i: usize = 0;
        while i < names.len()
            invariant
                i <= names.len(),
                all == texts(names@),
                self.wf(),
                self@ == with_names(old(self)@, all.take(i as int)),
            decreases names.len() - i,
        {
            assert(all.take(i + 1).drop_last() == all.take(i as int));
            assert(all.take(i + 1).last() == names@[i as int]@);
            let name = slice(&names[i], 0, names[i].len());
            assert(name@ == names@[i as int]@);
            self.add(name);
            i += 1;
        }
        assert(all.take(names.len() as int) == all);
    }

    /// The names as character vectors, in order.
    pub fn into_items(self) -> (r: Vec<Vec<char>>)
        ensures
            texts(r@) == self@,
    {
        self.items
    }

    /// The names as strings, in order.
    pub fn to_vec(&self) -> (r: Vec<String>)
        ensures
            strings(r@) == self@,
    {
        let mut r: Vec<String> = Vec::new();
        let mut i: usize = 0;
        while i < self.items.len()
            invariant
                i <= self.items.len(),
                r.len() == i,
                forall|k: int| 0 <= k < i ==> r@[k]@ == self.items@[k]@,
            decreases self.items.len() - i,
        {
            r.push(to_string(&self.items[i]));
            i += 1;
        }
        assert(strings(r@) =~= self@);
        r
    }
}

/// The names of a table's entries, in order.
pub open spec fn keys<V>(t: Seq<(Seq<char>, V)>) -> Seq<Seq<char>> {
    Seq::new(t.len(), |i: int| t[i].0)
}

/// What is stored under `name`, if anything.
pub open spec fn lookup<V>(t: Seq<(Seq<char>, V)>, name: Seq<char>) -> Option<V> {
    let i = first_pos(keys(t), name);
    if 0 <= i < t.len() {
        Some(t[i].1)
    } else {
        None
    }
}

/// The table with `value` stored under `name`: in place of what was stored
/// there, or else as a new last entry.
pub open spec fn stored<V>(t: Seq<(Seq<char>, V)>, name: Seq<char>, value: V) -> Seq<
    (Seq<char>, V),
> {
    let i = first_pos(keys(t), name);
    if 0 <= i < t.len() {
        t.update(i, (name, value))
    } else {
        t.push((name, value))
    }
}

/// Storing a value keeps the names free of repetitions and is what a lookup
/// of that name then finds; other names keep what they had.
pub proof fn lemma_stored<V>(t: Seq<(Seq<char>, V)>, name: Seq<char>, value: V)
    requires
        keys(t).no_duplicates(),
    ensures
        keys(stored(t, name, value)).no_duplicates(),
        keys(stored(t, name, value)) == with_name(keys(t), name),
        lookup(stored(t, name, value), name) == Some(value),
        forall|other: Seq<char>|
            other != name ==> lookup(stored(t, name, value), other) == lookup(t, other),
{
    let r = stored(t, name, value);
    let i = first_pos(keys(t), name);
    lemma_first_pos(keys(t), name);
    if 0 <= i < t.len() {
        assert(keys(r) =~= keys(t));
        assert(keys(t)[i] == name);
    } else {
        assert(keys(r) =~= keys(t).push(name));
        assert(!keys(t).contains(name));
    }
    lemma_with_name_distinct(keys(t), name);
    lemma_first_pos(keys(r), name);
    assert(lookup(r, name) == Some(value)) by {
        if 0 <= i < t.len() {
            lemma_first_pos_unique(keys(r), name, i);
        } else {
            lemma_first_pos_unique(keys(r), name, t.len() as int);
        }
    }
    assert forall|other: Seq<char>| other != name implies lookup(r, other) == lookup(
        t,
        other,
    ) by {
        lemma_first_pos(keys(t), other);
        let j = first_pos(keys(t), other);
        if j < t.len() {
            assert(keys(r)[j] == other);
            lemma_first_pos_unique(keys(r), other, j);
        } else {
            assert forall|k: int| 0 <= k < r.len() implies keys(r)[k] != other by {
                if k < t.len() {
                    assert(keys(t)[k] != other);
                }
            }
            lemma_first_pos_unique(keys(r), other, r.len() as int);
        }
    }
}

/// The entries that a vector of pairs of character vectors holds.
pub open spec fn entries_of(v: Seq<(Vec<char>, Vec<char>)>) -> Seq<(Seq<char>, Seq<char>)> {
    v.map_values(|e: (Vec<char>, Vec<char>)| (e.0@, e.1@))
}

/// A table from method names to method bodies, in the order in which the
/// names were first stored.
#[derive(Debug)]
pub struct MethodTable {
    entries: Vec<(Vec<char>, Vec<char>)>,
}

impl View for MethodTable {
    type V = Seq<(Seq<char>, Seq<char>)>;

    closed spec fn view(&self) -> Seq<(Seq<char>, Seq<char>)> {
        entries_of(self.entries@)
    }
}

impl MethodTable {
    /// No name occurs twice.
    pub open spec fn wf(&self) -> bool {
        keys(self@).no_duplicates()
    }

    /// The empty table.
    pub fn new() -> (t: Self)
        ensures
            t@ == Seq::<(Seq<char>, Seq<char>)>::empty(),
            t.wf(),
    {
        let t = MethodTable { entries: Vec::new() };
        assert(t@ =~= Seq::<(Seq<char>, Seq<char>)>::empty());
        t
    }

    /// The number of entries.
    pub fn len(&self) -> (r: usize)
        ensures
            r == self@.len(),
    {
        self.entries.len()
    }

    /// Whether the table has no entry.
    pub fn is_empty(&self) -> (r: bool)
        ensures
            r == (self@.len() == 0),
    {
        self.entries.len() == 0
    }

    /// The name of the entry at position `i`.
    pub fn name_at(&self, i: usize) -> (r: &Vec<char>)
        requires
            i < self@.len(),
        ensures
            r@ == self@[i as int].0,
    {
        &self.entries[i].0
    }

    /// The body of the entry at position `i`.
    pub fn body_at(&self, i: usize) -> (r: &Vec<char>)
        requires
            i < self@.len(),
        ensures
            r@ == self@[i as int].1,
    {
        &self.entries[i].1
    }

    /// The position of the entry named `name`, or the number of entries.
    pub fn position(&self, name: &Vec<char>) -> (r: usize)
        ensures
            r == first_pos(keys(self@), name@),
            r <= self@.len(),
            r < self@.len() <==> keys(self@).contains(name@),
    {
        assert(names_of(self.entries@) =~= keys(self@));
        position_of(&self.entries, name)
    }

    /// The body stored under the name given as characters.
    pub fn find(&self, name: &Vec<char>) -> (r: Option<&Vec<char>>)
        ensures
            match r {
                Some(body) => lookup(self@, name@) == Some(body@),
                None => lookup(self@, name@) is None,
            },
    {
        let i = self.position(name);
        if i < self.entries.len() {
            Some(&self.entries[i].1)
        } else {
            None
        }
    }

    /// Stores `body` under the name given as characters.
    pub fn put(&mut self, name: Vec<char>, body: Vec<char>)
        requires
            old(self).wf(),
        ensures
            final(self).wf(),
            final(self)@ == stored(old(self)@, name@, body@),
    {
        proof {
            lemma_stored(self@, name@, body@);
            assert(names_of(self.entries@) =~= keys(self@));
        }
        store_in(&mut self.entries, name, body);
        assert(self@ =~= stored(old(self)@, name@, body@));
    }

    /// Whether a body is stored under `name`.
    pub fn contains_key(&self, name: &str) -> (r: bool)
        ensures
            r == keys(self@).contains(name@),
    {
        let chars = to_chars(name);
        self.position(&chars) < self.entries.len()
    }

    /// The body stored under `name`.
    pub fn get(&self, name: &str) -> (r: Option<String>)
        ensures
            match r {
                Some(body) => lookup(self@, name@) == Some(body@),
                None => lookup(self@, name@) is None,
            },
    {
        let chars = to_chars(name);
        match self.find(&chars) {
            Some(body) => Some(to_string(body)),
            None => None,
        }
    }

    /// Stores `body` under `name`, in place of what was stored under it.
    pub fn insert(&mut self, name: String, body: String)
        requires
            old(self).wf(),
        ensures
            final(self).wf(),
            final(self)@ == stored(old(self)@, name@, body@),
    {
        let n = to_chars(name.as_str());
        let b = to_chars(body.as_str());
        self.put(n, b)
    }
}

} // verus!
