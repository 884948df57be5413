//! A line-by-line tracker of library usage: which library functions a script
//! binds values from, and which methods it calls on those values.

use crate::graph::edges_view;
use crate::names::{
    keys, lemma_stored, lookup, names_of, position_of, store_in, stored, strings, with_name,
    with_names, MethodTable, NameSet,
};
use crate::split::{
    before_char, first_word, lines_of, pieces, split_lines, split_on, take_before,
    take_first_word, texts, trim, trimmed,
};
use crate::text::{
    append, copy_of, first_pos, has_at, is_word, is_word_char, occurs_at, same, slice, to_chars,
    to_string,
};
use vstd::prelude::*;

verus! {

/// The variable that `line` binds and the library function it binds it
/// from: the line begins with `let`, holds exactly one `=`, and its
/// right-hand side begins with `fr.`; the function's name runs up to the first
/// `(`.
pub open spec fn library_binding(line: Seq<char>) -> Option<(Seq<char>, Seq<char>)> {
    let t = trimmed(line);
    let parts = pieces(t, '=');
    if occurs_at(t, "let "@, 0) && parts.len() == 2 {
        let lhs = trimmed(parts[0]);
        let rhs = trimmed(parts[1]);
        if occurs_at(lhs, "let"@, 0) && occurs_at(rhs, "fr."@, 0) {
            match first_word(lhs.subrange("let"@.len() as int, lhs.len() as int)) {
                Some(var) => Some(
                    (var, before_char(rhs.subrange("fr."@.len() as int, rhs.len() as int), '(')),
                ),
                None => None,
            }
        } else {
            None
        }
    } else {
        None
    }
}

/// The variable that `line` binds and the library function it binds it from.
pub fn parse_binding(line: &Vec<char>) -> (r: Option<(Vec<char>, Vec<char>)>)
    ensures
        match r {
            Some(b) => library_binding(line@) == Some((b.0@, b.1@)),
            None => library_binding(line@) is None,
        },
{
    let t = trim(line);
    let let_space = to_chars("let ");
    let let_kw = to_chars("let");
    let prefix = to_chars("fr.");
    if !has_at(&t, &let_space, 0) {
        return None;
    }
    let parts = split_on(&t, '=');
    if parts.len() != 2 {
        return None;
    }
    assert(texts(parts@)[0] == parts@[0]@);
    assert(texts(parts@)[1] == parts@[1]@);
    let lhs = trim(&parts[0]);
    let rhs = trim(&parts[1]);
    if !(has_at(&lhs, &let_kw, 0) && has_at(&rhs, &prefix, 0)) {
        return None;
    }
    match take_first_word(&slice(&lhs, let_kw.len(), lhs.len())) {
        None => None,
        Some(var) => {
            let func = take_before(&slice(&rhs, prefix.len(), rhs.len()), '(');
            Some((var, func))
        },
    }
}

/// The variables that the lines bind from library functions, each with no
/// method yet, in the order in which they are first bound.
pub open spec fn bound_objects(lines: Seq<Seq<char>>) -> Seq<(Seq<char>, Seq<Seq<char>>)>
    decreases lines.len(),
{
    if lines.len() == 0 {
        seq![]
    } else {
        let before = bound_objects(lines.drop_last());
        match library_binding(lines.last()) {
            Some(b) => stored(before, b.0, Seq::<Seq<char>>::empty()),
            None => before,
        }
    }
}

/// The library functions that the lines bind variables from.
pub open spec fn bound_calls(lines: Seq<Seq<char>>) -> Seq<Seq<char>>
    decreases lines.len(),
{
    if lines.len() == 0 {
        seq![]
    } else {
        let before = bound_calls(lines.drop_last());
        match library_binding(lines.last()) {
            Some(b) => with_name(before, b.1),
            None => before,
        }
    }
}

/// Whether the trimmed line `t` addresses `object`: it is the object's name,
/// or begins with the name and a `.`.
pub open spec fn addresses(t: Seq<char>, object: Seq<char>) -> bool {
    t == object || occurs_at(t, object + "."@, 0)
}

/// The position, from `k` on, of the first object that `t` addresses, or the
/// number of objects.
pub open spec fn addressed_from(t: Seq<char>, objects: Seq<Seq<char>>, k: int) -> int
    decreases objects.len() - k,
{
    if k < 0 || k >= objects.len() {
        objects.len() as int
    } else if addresses(t, objects[k]) {
        k
    } else {
        addressed_from(t, objects, k + 1)
    }
}

/// The statements gathered so far: for each object, the lines of the
/// statements that address it, each trimmed and followed by a space; and the
/// object whose statement is still open.
pub struct Gathering {
    pub buffer: Seq<(Seq<char>, Seq<char>)>,
    pub current: Option<Seq<char>>,
}

/// The object that the trimmed line `t` belongs to: the one whose statement
/// is open, or else the first one that `t` addresses.
pub open spec fn owner(current: Option<Seq<char>>, t: Seq<char>, objects: Seq<Seq<char>>) -> Option<
    Seq<char>,
> {
    match current {
        Some(o) => Some(o),
        None => {
            let k = addressed_from(t, objects, 0);
            if 0 <= k < objects.len() {
                Some(objects[k])
            } else {
                None
            }
        },
    }
}

/// What is gathered for an object so far.
pub open spec fn gathered_text(buffer: Seq<(Seq<char>, Seq<char>)>, object: Seq<char>) -> Seq<
    char,
> {
    match lookup(buffer, object) {
        Some(text) => text,
        None => seq![],
    }
}

/// The statements gathered from the lines. A statement opens on a line that
/// addresses an object and runs to the first line that ends with `;`.
pub open spec fn gathered(lines: Seq<Seq<char>>, objects: Seq<Seq<char>>) -> Gathering
    decreases lines.len(),
{
    if lines.len() == 0 {
        Gathering { buffer: seq![], current: None }
    } else {
        let g = gathered(lines.drop_last(), objects);
        let t = trimmed(lines.last());
        match owner(g.current, t, objects) {
            None => g,
            Some(o) => Gathering {
                buffer: stored(g.buffer, o, gathered_text(g.buffer, o) + t + seq![' ']),
                current: if t.len() > 0 && t.last() == ';' {
                    None
                } else {
                    Some(o)
                },
            },
        }
    }
}

/// The characters that end a method name in a statement.
pub open spec fn is_call_end(c: char) -> bool {
    c == '(' || c == ' ' || c == '\n' || c == ')'
}

/// The position of the first character of `s` that ends a method name, or
/// the length of `s`.
pub open spec fn call_end_pos(s: Seq<char>) -> int
    decreases s.len(),
{
    if s.len() == 0 || is_call_end(s[0]) {
        0
    } else {
        1 + call_end_pos(s.drop_first())
    }
}

/// Whether `s` is made of letters, digits and underscores alone.
pub open spec fn all_word(s: Seq<char>) -> bool {
    forall|i: int| 0 <= i < s.len() ==> is_word(#[trigger] s[i])
}

/// The name that follows position `k` of `block`, up to the end of a method name.
pub open spec fn name_after(block: Seq<char>, k: int) -> Seq<char> {
    let rest = block.subrange(k, block.len() as int);
    rest.subrange(0, call_end_pos(rest))
}

/// The names that follow a `.` among the first `k` characters of `block`,
/// where they are made of letters, digits and underscores alone.
pub open spec fn dotted_names_upto(block: Seq<char>, k: int) -> Seq<Seq<char>>
    decreases k,
{
    if k <= 0 || k > block.len() {
        seq![]
    } else {
        let before = dotted_names_upto(block, k - 1);
        if block[k - 1] == '.' && all_word(name_after(block, k)) {
            with_name(before, name_after(block, k))
        } else {
            before
        }
    }
}

/// The names that follow a `.` in `block`.
pub open spec fn dotted_names(block: Seq<char>) -> Seq<Seq<char>> {
    dotted_names_upto(block, block.len() as int)
}

/// The names that follow a `.` in `block`.
pub fn find_dotted(block: &Vec<char>) -> (r: NameSet)
    ensures
        r@ == dotted_names(block@),
        r.wf(),
{
    let n = block.len();
    let mut names = NameSet::new();
    let mut k: usize = 0;
    while k < n
        invariant
            k <= n,
            n == block.len(),
            names.wf(),
            names@ == dotted_names_upto(block@, k as int),
        decreases n - k,
    {
        if block[k] == '.' {
            let start = k + 1;
            let ghost rest = block@.subrange(start as int, n as int);
            let mut e: usize = start;
            let mut word = true;
            while e < n && !(block[e] == '(' || block[e] == ' ' || block[e] == '\n' || block[e]
                == ')')
                invariant
                    start <= e <= n,
                    n == block.len(),
                    rest == block@.subrange(start as int, n as int),
                    call_end_pos(rest) == (e - start) + call_end_pos(
                        block@.subrange(e as int, n as int),
                    ),
                    word == all_word(block@.subrange(start as int, e as int)),
                decreases n - e,
            {
                assert(block@.subrange(e as int, n as int).drop_first() == block@.subrange(
                    e + 1,
                    n as int,
                ));
                let ghost upto = block@.subrange(start as int, e as int);
                let ghost next = block@.subrange(start as int, e + 1);
                let ok = is_word_char(block[e]);
                proof {
                    assert(next == upto.push(block@[e as int]));
                    if all_word(upto) && ok {
                        assert forall|i: int| 0 <= i < next.len() implies is_word(
                            #[trigger] next[i],
                        ) by {
                            if i < upto.len() {
                                assert(next[i] == upto[i]);
                            }
                        }
                    }
                    if !ok {
                        assert(!is_word(next[e - start]));
                    }
                    if !all_word(upto) {
                        let i = choose|i: int| 0 <= i < upto.len() && !is_word(#[trigger] upto[i]);
                        assert(next[i] == upto[i]);
                    }
                }
                word = word && ok;
                e += 1;
            }
            assert(rest.subrange(0, e - start) == block@.subrange(start as int, e as int));
            if word {
                names.add(slice(block, start, e));
            }
        }
        k += 1;
    }
    names
}

/// The objects with the methods called on each: the names that follow a `.`
/// in what was gathered for it.
pub open spec fn with_methods(
    objects: Seq<(Seq<char>, Seq<Seq<char>>)>,
    buffer: Seq<(Seq<char>, Seq<char>)>,
) -> Seq<(Seq<char>, Seq<Seq<char>>)> {
    Seq::new(
        objects.len(),
        |i: int|
            (
                objects[i].0,
                match lookup(buffer, objects[i].0) {
                    Some(block) => dotted_names(block),
                    None => Seq::<Seq<char>>::empty(),
                },
            ),
    )
}

/// `calls` with the methods of each of the first `k` objects.
pub open spec fn calls_with_objects(
    calls: Seq<Seq<char>>,
    objects: Seq<(Seq<char>, Seq<Seq<char>>)>,
    k: int,
) -> Seq<Seq<char>>
    decreases k,
{
    if k <= 0 {
        calls
    } else {
        with_names(calls_with_objects(calls, objects, k - 1), objects[k - 1].1)
    }
}

/// The objects that a script of the given lines tracks, with their methods.
pub open spec fn objects_of(lines: Seq<Seq<char>>) -> Seq<(Seq<char>, Seq<Seq<char>>)> {
    let objects = bound_objects(lines);
    with_methods(objects, gathered(lines, keys(objects)).buffer)
}

/// The library functions and methods that a script of the given lines uses.
pub open spec fn calls_of(lines: Seq<Seq<char>>) -> Seq<Seq<char>> {
    calls_with_objects(bound_calls(lines), objects_of(lines), objects_of(lines).len() as int)
}

/// The tracked variables, each with the methods called on it, in the order
/// in which the variables were first bound.
#[derive(Debug)]
pub struct ObjectTable {
    entries: Vec<(Vec<char>, Vec<Vec<char>>)>,
}

impl View for ObjectTable {
    type V = Seq<(Seq<char>, Seq<Seq<char>>)>;

    closed spec fn view(&self) -> Seq<(Seq<char>, Seq<Seq<char>>)> {
        edges_view(self.entries@)
    }
}

impl ObjectTable {
    /// No variable stands twice.
    pub open spec fn wf(&self) -> bool {
        keys(self@).no_duplicates()
    }

    /// The empty table.
    pub fn new() -> (t: Self)
        ensures
            t@ == Seq::<(Seq<char>, Seq<Seq<char>>)>::empty(),
            t.wf(),
    {
        let t = ObjectTable { entries: Vec::new() };
        assert(t@ =~= Seq::<(Seq<char>, Seq<Seq<char>>)>::empty());
        t
    }

    /// The number of variables.
    pub fn len(&self) -> (r: usize)
        ensures
            r == self@.len(),
    {
        self.entries.len()
    }

    /// The name of the variable at position `i`.
    pub fn name_at(&self, i: usize) -> (r: &Vec<char>)
        requires
            i < self@.len(),
        ensures
            r@ == self@[i as int].0,
    {
        &self.entries[i].0
    }

    /// The methods of the variable at position `i`.
    pub fn methods_at(&self, i: usize) -> (r: &Vec<Vec<char>>)
        requires
            i < self@.len(),
        ensures
            texts(r@) == self@[i as int].1,
    {
        &self.entries[i].1
    }

    /// The position of the variable `name`, or the number of variables.
    pub fn position(&self, name: &Vec<char>) -> (r: usize)
        ensures
            r == first_pos(keys(self@), name@),
            r <= self@.len(),
            r < self@.len() <==> keys(self@).contains(name@),
    {
        assert(names_of(self.entries@) =~= keys(self@));
        position_of(&self.entries, name)
    }

    /// Stores the methods of the variable `name`, in place of those stored for it.
    pub fn store(&mut self, name: Vec<char>, methods: Vec<Vec<char>>)
        requires
            old(self).wf(),
        ensures
            final(self).wf(),
            final(self)@ == stored(old(self)@, name@, texts(methods@)),
    {
        proof {
            lemma_stored(self@, name@, texts(methods@));
            assert(names_of(self.entries@) =~= keys(self@));
        }
        store_in(&mut self.entries, name, methods);
        assert(self@ =~= stored(old(self)@, name@, texts(methods@)));
    }

    /// The position of the first variable that the trimmed line `t`
    /// addresses, or the number of variables.
    pub fn addressed(&self, t: &Vec<char>) -> (r: usize)
        ensures
            r == addressed_from(t@, keys(self@), 0),
            r <= self@.len(),
    {
        let dot = to_chars(".");
        let mut k: usize = 0;
        while k < self.entries.len()
            invariant
                k <= self.entries.len(),
                dot@ == "."@,
                addressed_from(t@, keys(self@), 0) == addressed_from(t@, keys(self@), k as int),
            decreases self.entries.len() - k,
        {
            let name = &self.entries[k].0;
            assert(keys(self@)[k as int] == name@);
            let mut pattern = copy_of(name);
            append(&mut pattern, &dot);
            if same(t, name) || has_at(t, &pattern, 0) {
                return k;
            }
            k += 1;
        }
        k
    }

    /// The tracked variables, in the order in which they were first bound.
    pub fn names(&self) -> (r: Vec<String>)
        ensures
            strings(r@) == keys(self@),
    {
        let mut out: Vec<String> = Vec::new();
        let mut i: usize = 0;
        while i < self.entries.len()
            invariant
                i <= self.entries.len(),
                out.len() == i,
                forall|k: int| 0 <= k < i ==> out@[k]@ == self.entries@[k].0@,
            decreases self.entries.len() - i,
        {
            out.push(to_string(&self.entries[i].0));
            i += 1;
        }
        assert(strings(out@) =~= keys(self@));
        out
    }

    /// Whether `name` is a tracked variable.
    pub fn contains_key(&self, name: &str) -> (r: bool)
        ensures
            r == keys(self@).contains(name@),
    {
        let chars = to_chars(name);
        self.position(&chars) < self.entries.len()
    }

    /// The methods called on the variable `name`, if it is tracked.
    pub fn get(&self, name: &str) -> (r: Option<Vec<String>>)
        ensures
            match r {
                Some(methods) => lookup(self@, name@) == Some(strings(methods@)),
                None => lookup(self@, name@) is None,
            },
    {
        let chars = to_chars(name);
        let i = self.position(&chars);
        if i >= self.entries.len() {
            return None;
        }
        let methods = &self.entries[i].1;
        let mut out: Vec<String> = Vec::new();
        let mut j: usize = 0;
        while j < methods.len()
            invariant
                j <= methods.len(),
                out.len() == j,
                forall|k: int| 0 <= k < j ==> out@[k]@ == methods@[k]@,
            decreases methods.len() - j,
        {
            out.push(to_string(&methods[j]));
            j += 1;
        }
        assert(strings(out@) =~= texts(methods@));
        Some(out)
    }
}

/// The library functions and methods that a script uses, found line by line.
#[derive(Debug)]
pub struct FrUsageTracker {
    /// Every library function and method that the script uses.
    pub fr_calls: NameSet,
    /// The variables bound from library functions, each with the methods
    /// called on it.
    pub tracked_objects: ObjectTable,
}

/// The variables and library functions that the lines bind.
fn read_bindings(lines: &Vec<Vec<char>>) -> (r: (NameSet, ObjectTable))
    ensures
        r.0.wf(),
        r.1.wf(),
        r.0@ == bound_calls(texts(lines@)),
        r.1@ == bound_objects(texts(lines@)),
{
    let ghost all = texts(lines@);
    let mut calls = NameSet::new();
    let mut objects = ObjectTable::new();
    let mut i: usize = 0;
    while i < lines.len()
        invariant
            i <= lines.len(),
            all == texts(lines@),
            calls.wf(),
            objects.wf(),
            calls@ == bound_calls(all.take(i as int)),
            objects@ == bound_objects(all.take(i as int)),
        decreases lines.len() - i,
    {
        assert(all.take(i + 1).drop_last() == all.take(i as int));
        assert(all.take(i + 1).last() == lines@[i as int]@);
        match parse_binding(&lines[i]) {
            Some((var, func)) => {
                calls.add(func);
                let none: Vec<Vec<char>> = Vec::new();
                assert(texts(none@) =~= Seq::<Seq<char>>::empty());
                objects.store(var, none);
            },
            None => {},
        }
        i += 1;
    }
    assert(all.take(lines.len() as int) == all);
    (calls, objects)
}

/// The statements that address the objects, gathered from the lines.
fn gather_statements(lines: &Vec<Vec<char>>, objects: &ObjectTable) -> (r: MethodTable)
    ensures
        r@ == gathered(texts(lines@), keys(objects@)).buffer,
{
    let ghost all = texts(lines@);
    let ghost names = keys(objects@);
    let mut buffer = MethodTable::new();
    let mut open = false;
    let mut current: Vec<char> = Vec::new();
    let mut i: usize = 0;
    while i < lines.len()
        invariant
            i <= lines.len(),
            all == texts(lines@),
            names == keys(objects@),
            buffer.wf(),
            buffer@ == gathered(all.take(i as int), names).buffer,
            open == (gathered(all.take(i as int), names).current is Some),
            open ==> gathered(all.take(i as int), names).current == Some(current@),
        decreases lines.len() - i,
    {
        assert(all.take(i + 1).drop_last() == all.take(i as int));
        assert(all.take(i + 1).last() == lines@[i as int]@);
        let t = trim(&lines[i]);
        if !open {
            let k = objects.addressed(&t);
            if k < objects.len() {
                current = copy_of(objects.name_at(k));
                open = true;
                assert(names[k as int] == current@);
            }
        }
        if open {
            let mut text = match buffer.find(&current) {
                Some(found) => copy_of(found),
                None => Vec::new(),
            };
            assert(text@ == gathered_text(buffer@, current@));
            append(&mut text, &t);
            text.push(' ');
            assert(text@ == gathered_text(buffer@, current@) + t@ + seq![' ']);
            buffer.put(copy_of(&current), text);
            if t.len() > 0 && t[t.len() - 1] == ';' {
                open = false;
            }
        }
        i += 1;
    }
    assert(all.take(lines.len() as int) == all);
    buffer
}

impl FrUsageTracker {
    /// Both collections are well formed.
    pub open spec fn wf(&self) -> bool {
        self.fr_calls.wf() && self.tracked_objects.wf()
    }

    /// The variable that `line` binds and the library function it binds it from.
    pub fn parse_fr_assignment(line: &str) -> (r: Option<(String, String)>)
        ensures
            match r {
                Some(b) => library_binding(line@) == Some((b.0@, b.1@)),
                None => library_binding(line@) is None,
            },
    {
        match parse_binding(&to_chars(line)) {
            Some((var, func)) => Some((to_string(&var), to_string(&func))),
            None => None,
        }
    }

    /// Reads a script line by line: each variable bound from a library
    /// function is tracked with the function's name; each statement that
    /// begins with a tracked variable gives the methods called in it, which
    /// are the names that follow a `.`; and the calls are the functions and
    /// the methods together.
    pub fn from_main(main: &str) -> (r: Self)
        ensures
            r.wf(),
            r.tracked_objects@ == objects_of(lines_of(main@)),
            r.fr_calls@ == calls_of(lines_of(main@)),
    {
        let lines = split_lines(&to_chars(main));
        let ghost all = texts(lines@);
        let (mut calls, objects) = read_bindings(&lines);
        let buffer = gather_statements(&lines, &objects);
        let mut table = ObjectTable { entries: Vec::new() };
        let mut i: usize = 0;
        while i < objects.len()
            invariant
                i <= objects@.len(),
                objects.wf(),
                table.entries.len() == i,
                forall|k: int|
                    0 <= k < i ==> (#[trigger] table@[k]) == with_methods(objects@, buffer@)[k],
            decreases objects@.len() - i,
        {
            let name = objects.name_at(i);
            let methods = match buffer.find(name) {
                Some(block) => find_dotted(block).into_items(),
                None => Vec::new(),
            };
            assert(texts(methods@) =~= with_methods(objects@, buffer@)[i as int].1);
            let ghost before = table@;
            let entry = (copy_of(name), methods);
            table.entries.push(entry);
            proof {
                let goal = with_methods(objects@, buffer@);
                assert(table@ =~= before.push((entry.0@, texts(entry.1@))));
                assert(table@[i as int] == goal[i as int]);
                assert forall|k: int| 0 <= k <= i implies (#[trigger] table@[k]) == goal[k] by {
                    if k < i {
                        assert(table@[k] == before[k]);
                    }
                }
            }
            i += 1;
        }
        assert(table@ =~= with_methods(objects@, buffer@));
        assert(keys(table@) =~= keys(objects@));
        let ghost first = calls@;
        let mut k: usize = 0;
        while k < table.len()
            invariant
                k <= table@.len(),
                calls.wf(),
                calls@ == calls_with_objects(first, table@, k as int),
            decreases table@.len() - k,
        {
            calls.add_all(table.methods_at(k));
            k += 1;
        }
        FrUsageTracker { fr_calls: calls, tracked_objects: table }
    }
}

} // verus!
