//! The call graph among the methods of the record class, and the search for
//! the methods that a set of calls needs.

use crate::code_parser::{calls_in, FunctionParser};
use crate::names::{
    keys, lemma_stored, lemma_with_name_distinct, lookup, names_of, position_of, store_in, stored,
    strings, with_name, NameSet,
};
use crate::order::{increasing, lemma_increasing_distinct, lemma_increasing_unique, sorted};
use crate::source::FrostFunctionSet;
use crate::split::{before_char, lemma_texts_push, take_before, texts};
use crate::text::{
    copy_of, first_pos, same, slice, to_chars, to_string,
};
use vstd::prelude::*;

verus! {

/// A method name without its type parameters: what stands before its first `<`.
pub open spec fn plain_name(name: Seq<char>) -> Seq<char> {
    before_char(name, '<')
}

/// A method name without its type parameters.
pub fn strip_generics(s: &str) -> (r: String)
    ensures
        r@ == plain_name(s@),
{
    let chars = to_chars(s);
    to_string(&take_before(&chars, '<'))
}

/// The graph before pruning: each method, under its plain name, with the
/// calls that its body makes on itself. Of two methods with one plain name the
/// later one counts.
pub open spec fn raw_graph(methods: Seq<(Seq<char>, Seq<char>)>) -> Seq<
    (Seq<char>, Seq<Seq<char>>),
>
    decreases methods.len(),
{
    if methods.len() == 0 {
        seq![]
    } else {
        stored(
            raw_graph(methods.drop_last()),
            plain_name(methods.last().0),
            calls_in(methods.last().1, "this"@),
        )
    }
}

/// Those of `targets` that are among `defined`, in their order.
pub open spec fn kept(targets: Seq<Seq<char>>, defined: Seq<Seq<char>>) -> Seq<Seq<char>>
    decreases targets.len(),
{
    if targets.len() == 0 {
        seq![]
    } else {
        let before = kept(targets.drop_last(), defined);
        if defined.contains(targets.last()) {
            before.push(targets.last())
        } else {
            before
        }
    }
}

/// What is kept is defined, and what is defined among the targets is kept.
pub proof fn lemma_kept(targets: Seq<Seq<char>>, defined: Seq<Seq<char>>)
    ensures
        forall|x: Seq<char>| #[trigger]
            kept(targets, defined).contains(x) <==> targets.contains(x) && defined.contains(x),
    decreases targets.len(),
{
    if targets.len() > 0 {
        let rest = targets.drop_last();
        let before = kept(rest, defined);
        let last = targets.last();
        lemma_kept(rest, defined);
        assert forall|x: Seq<char>| #[trigger]
            kept(targets, defined).contains(x) <==> targets.contains(x) && defined.contains(
                x,
            ) by {
            let now = kept(targets, defined);
            if now.contains(x) {
                let i = choose|i: int| 0 <= i < now.len() && now[i] == x;
                if i < before.len() {
                    assert(before[i] == x);
                    assert(before.contains(x));
                    let j = choose|j: int| 0 <= j < rest.len() && rest[j] == x;
                    assert(targets[j] == x);
                } else {
                    assert(x == last);
                    assert(targets[targets.len() - 1] == x);
                }
            }
            if targets.contains(x) && defined.contains(x) {
                let j = choose|j: int| 0 <= j < targets.len() && targets[j] == x;
                if j < rest.len() {
                    assert(rest[j] == x);
                    assert(before.contains(x));
                    let i = choose|i: int| 0 <= i < before.len() && before[i] == x;
                    assert(now[i] == x);
                } else {
                    assert(now[before.len() as int] == x);
                }
            }
        }
    }
}

/// Those of `roots` that are not among `defined`, in their order.
pub open spec fn skipped(roots: Seq<Seq<char>>, defined: Seq<Seq<char>>) -> Seq<Seq<char>>
    decreases roots.len(),
{
    if roots.len() == 0 {
        seq![]
    } else {
        let before = skipped(roots.drop_last(), defined);
        if defined.contains(roots.last()) {
            before
        } else {
            before.push(roots.last())
        }
    }
}

/// The graph with every call to a name that is no node taken out.
pub open spec fn pruned(g: Seq<(Seq<char>, Seq<Seq<char>>)>) -> Seq<(Seq<char>, Seq<Seq<char>>)> {
    Seq::new(g.len(), |i: int| (g[i].0, kept(g[i].1, keys(g))))
}

/// The call graph of the methods in `methods`.
pub open spec fn call_graph(methods: Seq<(Seq<char>, Seq<char>)>) -> Seq<
    (Seq<char>, Seq<Seq<char>>),
> {
    pruned(raw_graph(methods))
}

/// Every call in the graph goes to a node of the graph.
pub open spec fn closed(g: Seq<(Seq<char>, Seq<Seq<char>>)>) -> bool {
    forall|i: int, j: int|
        0 <= i < g.len() && 0 <= j < g[i].1.len() ==> keys(g).contains(#[trigger] g[i].1[j])
}

/// Pruning keeps the nodes and leaves a graph whose calls all go to nodes.
pub proof fn lemma_pruned(g: Seq<(Seq<char>, Seq<Seq<char>>)>)
    ensures
        keys(pruned(g)) == keys(g),
        closed(pruned(g)),
{
    let p = pruned(g);
    assert(keys(p) =~= keys(g));
    assert forall|i: int, j: int| 0 <= i < p.len() && 0 <= j < p[i].1.len() implies keys(
        p,
    ).contains(#[trigger] p[i].1[j]) by {
        lemma_kept(g[i].1, keys(g));
        assert(kept(g[i].1, keys(g)).contains(p[i].1[j]));
    }
}

/// The method `u` calls the method `v`.
pub open spec fn has_edge(g: Seq<(Seq<char>, Seq<Seq<char>>)>, u: Seq<char>, v: Seq<char>) -> bool {
    match lookup(g, u) {
        Some(targets) => targets.contains(v),
        None => false,
    }
}

/// The name of the library function that stands for a method of the record class.
pub open spec fn alias_root() -> Seq<char> {
    "combine_dfs"@
}

/// The method that the aliased library function relies on.
pub open spec fn alias_target() -> Seq<char> {
    "concat_all"@
}

/// Whether the roots call the aliased library function, and it is no node.
pub open spec fn aliased(g: Seq<(Seq<char>, Seq<Seq<char>>)>, roots: Seq<Seq<char>>) -> bool {
    roots.contains(alias_root()) && !keys(g).contains(alias_root())
}

/// Where the search starts: the roots that are nodes and, where the roots call
/// the aliased library function, that function and the method it relies on.
pub open spec fn is_seed(
    g: Seq<(Seq<char>, Seq<Seq<char>>)>,
    roots: Seq<Seq<char>>,
    v: Seq<char>,
) -> bool {
    ||| roots.contains(v) && keys(g).contains(v)
    ||| aliased(g, roots) && (v == alias_root() || v == alias_target())
}

/// `v` is reached from a seed by at most `n` calls.
pub open spec fn reached_within(
    g: Seq<(Seq<char>, Seq<Seq<char>>)>,
    roots: Seq<Seq<char>>,
    v: Seq<char>,
    n: nat,
) -> bool
    decreases n,
{
    if n == 0 {
        is_seed(g, roots, v)
    } else {
        ||| reached_within(g, roots, v, (n - 1) as nat)
        ||| exists|u: Seq<char>| #[trigger]
            has_edge(g, u, v) && reached_within(g, roots, u, (n - 1) as nat)
    }
}

/// `v` is reached from a seed by some chain of calls.
pub open spec fn reachable(
    g: Seq<(Seq<char>, Seq<Seq<char>>)>,
    roots: Seq<Seq<char>>,
    v: Seq<char>,
) -> bool {
    exists|n: nat| reached_within(g, roots, v, n)
}

/// A set of names that holds the seeds and, with each name, what it calls,
/// holds all that is reached.
pub proof fn lemma_closed_set_holds_reached(
    g: Seq<(Seq<char>, Seq<Seq<char>>)>,
    roots: Seq<Seq<char>>,
    found: Seq<Seq<char>>,
    v: Seq<char>,
    n: nat,
)
    requires
        forall|s: Seq<char>| is_seed(g, roots, s) ==> found.contains(s),
        forall|u: Seq<char>, w: Seq<char>|
            found.contains(u) && has_edge(g, u, w) ==> found.contains(w),
        reached_within(g, roots, v, n),
    ensures
        found.contains(v),
    decreases n,
{
    if n > 0 {
        if reached_within(g, roots, v, (n - 1) as nat) {
            lemma_closed_set_holds_reached(g, roots, found, v, (n - 1) as nat);
        } else {
            let u = choose|u: Seq<char>| #[trigger]
                has_edge(g, u, v) && reached_within(g, roots, u, (n - 1) as nat);
            lemma_closed_set_holds_reached(g, roots, found, u, (n - 1) as nat);
        }
    }
}

/// What a reached method calls is reached.
pub proof fn lemma_reachable_step(
    g: Seq<(Seq<char>, Seq<Seq<char>>)>,
    roots: Seq<Seq<char>>,
    u: Seq<char>,
    v: Seq<char>,
)
    requires
        reachable(g, roots, u),
        has_edge(g, u, v),
    ensures
        reachable(g, roots, v),
{
    let n = choose|n: nat| reached_within(g, roots, u, n);
    assert(reached_within(g, roots, u, ((n + 1) - 1) as nat));
    assert(reached_within(g, roots, v, n + 1));
}

/// A list without repetitions whose names all stand in another list is no
/// longer than that list.
pub proof fn lemma_distinct_within(a: Seq<Seq<char>>, u: Seq<Seq<char>>)
    requires
        a.no_duplicates(),
        forall|x: Seq<char>| a.contains(x) ==> u.contains(x),
    ensures
        a.len() <= u.len(),
{
    a.unique_seq_to_set();
    u.lemma_cardinality_of_set();
    assert(a.to_set().subset_of(u.to_set())) by {
        assert forall|x: Seq<char>| a.to_set().contains(x) implies u.to_set().contains(x) by {
            assert(a.contains(x));
        }
    }
    vstd::seq_lib::seq_to_set_is_finite(u);
    vstd::set_lib::lemma_len_subset(a.to_set(), u.to_set());
}

/// Every name that a search can find: the nodes and the two names of the alias.
pub open spec fn universe(g: Seq<(Seq<char>, Seq<Seq<char>>)>) -> Seq<Seq<char>> {
    keys(g) + seq![alias_root(), alias_target()]
}

/// The universe holds the nodes and the two names of the alias.
pub proof fn lemma_universe(g: Seq<(Seq<char>, Seq<Seq<char>>)>)
    ensures
        forall|x: Seq<char>| keys(g).contains(x) ==> universe(g).contains(x),
        universe(g).contains(alias_root()),
        universe(g).contains(alias_target()),
        universe(g).len() == g.len() + 2,
{
    let u = universe(g);
    assert(u[g.len() as int] == alias_root());
    assert(u[g.len() as int + 1] == alias_target());
    assert forall|x: Seq<char>| keys(g).contains(x) implies u.contains(x) by {
        let i = choose|i: int| 0 <= i < keys(g).len() && keys(g)[i] == x;
        assert(u[i] == x);
    }
}

/// A name stands among the first `i + 1` of a list where it stands among the
/// first `i` or is the one at position `i`.
pub proof fn lemma_take_contains(s: Seq<Seq<char>>, i: int)
    requires
        0 <= i < s.len(),
    ensures
        forall|x: Seq<char>| s.take(i + 1).contains(x) <==> s.take(i).contains(x) || x == s[i],
{
    let a = s.take(i);
    let b = s.take(i + 1);
    assert forall|x: Seq<char>| b.contains(x) <==> a.contains(x) || x == s[i] by {
        if b.contains(x) {
            let k = choose|k: int| 0 <= k < b.len() && b[k] == x;
            if k < i {
                assert(a[k] == x);
            }
        }
        if a.contains(x) {
            let k = choose|k: int| 0 <= k < a.len() && a[k] == x;
            assert(b[k] == x);
        }
        if x == s[i] {
            assert(b[i] == x);
        }
    }
}

/// The name of the method that every reduced script keeps.
pub open spec fn constructor_name() -> Seq<char> {
    "constructor"@
}

/// `v` must be kept: it is reached from the roots, or it is the constructor.
pub open spec fn is_required(
    g: Seq<(Seq<char>, Seq<Seq<char>>)>,
    roots: Seq<Seq<char>>,
    v: Seq<char>,
) -> bool {
    reachable(g, roots, v) || v == constructor_name()
}

/// `q` lists the reached names other than the constructor, each once, in
/// dictionary order.
pub open spec fn lists_others(
    q: Seq<Seq<char>>,
    g: Seq<(Seq<char>, Seq<Seq<char>>)>,
    roots: Seq<Seq<char>>,
) -> bool {
    increasing(q) && forall|v: Seq<char>|
        q.contains(v) <==> reachable(g, roots, v) && v != constructor_name()
}

/// The required names in the order in which their bodies are put out: the
/// constructor first, then the others in dictionary order.
pub open spec fn required_listing(
    g: Seq<(Seq<char>, Seq<Seq<char>>)>,
    roots: Seq<Seq<char>>,
) -> Seq<Seq<char>> {
    seq![constructor_name()] + choose|q: Seq<Seq<char>>| lists_others(q, g, roots)
}

/// The entries that a vector of nodes with their calls holds.
pub open spec fn edges_view(v: Seq<(Vec<char>, Vec<Vec<char>>)>) -> Seq<
    (Seq<char>, Seq<Seq<char>>),
> {
    v.map_values(|e: (Vec<char>, Vec<Vec<char>>)| (e.0@, texts(e.1@)))
}

/// The call graph among the methods of the record class: each method with
/// the methods that its body calls.
#[derive(Debug)]
pub struct Graph {
    entries: Vec<(Vec<char>, Vec<Vec<char>>)>,
}

impl View for Graph {
    type V = Seq<(Seq<char>, Seq<Seq<char>>)>;

    closed spec fn view(&self) -> Seq<(Seq<char>, Seq<Seq<char>>)> {
        edges_view(self.entries@)
    }
}

impl Graph {
    /// No method stands twice, and every call goes to a method of the graph.
    pub open spec fn wf(&self) -> bool {
        keys(self@).no_duplicates() && closed(self@)
    }

    /// The position of the node `name`, or the number of nodes.
    fn position(&self, name: &Vec<char>) -> (r: usize)
        ensures
            r == first_pos(keys(self@), name@),
            r <= self@.len(),
            r < self@.len() <==> keys(self@).contains(name@),
            self@.len() == self.entries.len(),
    {
        assert(names_of(self.entries@) =~= keys(self@));
        position_of(&self.entries, name)
    }

    /// Stores the calls of the method `name`, in place of those stored for it.
    fn store(&mut self, name: Vec<char>, targets: Vec<Vec<char>>)
        requires
            keys(old(self)@).no_duplicates(),
        ensures
            keys(final(self)@).no_duplicates(),
            final(self)@ == stored(old(self)@, name@, texts(targets@)),
    {
        proof {
            lemma_stored(self@, name@, texts(targets@));
            assert(names_of(self.entries@) =~= keys(self@));
        }
        store_in(&mut self.entries, name, targets);
        assert(self@ =~= stored(old(self)@, name@, texts(targets@)));
    }

    /// Builds the call graph of the methods of `funct_set`: each method is a
    /// node under its plain name, with an edge to every method of the graph
    /// that its body calls on itself or on a value that comes from itself.
    pub fn from_function_set(funct_set: &FrostFunctionSet) -> (g: Self)
        ensures
            g@ == call_graph(funct_set.dataframe_methods@),
            g.wf(),
    {
        let table = &funct_set.dataframe_methods;
        let this = to_chars("this");
        let mut g = Graph { entries: Vec::new() };
        assert(g@ =~= raw_graph(table@.take(0)));
        let mut i: usize = 0;
        while i < table.len()
            invariant
                i <= table@.len(),
                this@ == "this"@,
                keys(g@).no_duplicates(),
                g@ == raw_graph(table@.take(i as int)),
            decreases table@.len() - i,
        {
            assert(table@.take(i + 1).drop_last() == table@.take(i as int));
            assert(table@.take(i + 1).last() == table@[i as int]);
            let calls = FunctionParser::find_calls(table.body_at(i), &this);
            let name = take_before(table.name_at(i), '<');
            g.store(name, calls.into_items());
            i += 1;
        }
        assert(table@.take(table@.len() as int) == table@);
        g.clean_edges();
        g
    }

    /// Takes out every call to a name that is no node of the graph.
    pub fn clean_edges(&mut self)
        requires
            keys(old(self)@).no_duplicates(),
        ensures
            final(self)@ == pruned(old(self)@),
            final(self).wf(),
    {
        let n = self.entries.len();
        let mut out: Vec<(Vec<char>, Vec<Vec<char>>)> = Vec::new();
        let mut i: usize = 0;
        while i < n
            invariant
                i <= n,
                n == self.entries.len(),
                self@ == old(self)@,
                out.len() == i,
                forall|k: int|
                    0 <= k < i ==> (#[trigger] out@[k]).0@ == self@[k].0 && texts(out@[k].1@)
                        == kept(self@[k].1, keys(self@)),
            decreases n - i,
        {
            let targets = &self.entries[i].1;
            let ghost all = texts(targets@);
            assert(all == self@[i as int].1);
            let mut keep: Vec<Vec<char>> = Vec::new();
            let mut j: usize = 0;
            assert(texts(keep@) =~= kept(all.take(0), keys(self@)));
            while j < targets.len()
                invariant
                    j <= targets.len(),
                    all == texts(targets@),
                    n == self.entries.len(),
                    texts(keep@) == kept(all.take(j as int), keys(self@)),
                decreases targets.len() - j,
            {
                assert(all.take(j + 1).drop_last() == all.take(j as int));
                assert(all.take(j + 1).last() == targets@[j as int]@);
                if self.position(&targets[j]) < n {
                    let copy = slice(&targets[j], 0, targets[j].len());
                    assert(copy@ == targets@[j as int]@);
                    proof {
                        lemma_texts_push(keep@, copy);
                    }
                    keep.push(copy);
                }
                j += 1;
            }
            assert(all.take(targets.len() as int) == all);
            let name = slice(&self.entries[i].0, 0, self.entries[i].0.len());
            assert(name@ == self@[i as int].0);
            out.push((name, keep));
            i += 1;
        }
        proof {
            lemma_pruned(self@);
            assert(edges_view(out@) =~= pruned(self@));
        }
        self.entries = out;
    }

    /// The names that the roots reach: each root that is a method of the
    /// graph, every method called from there on, directly or through other
    /// methods, and, where the roots call the aliased library function and it
    /// is no method of the graph, that function and the method it relies on. A
    /// root that is no method of the graph is passed over. The names come in
    /// dictionary order.
    pub fn reached(&self, roots: &Vec<String>) -> (r: NameSet)
        requires
            self.wf(),
        ensures
            r.wf(),
            increasing(r@),
            forall|v: Seq<char>| r@.contains(v) <==> reachable(self@, strings(roots@), v),
    {
        let ghost g = self@;
        let ghost rs = strings(roots@);
        let ghost world = universe(g);
        let root_alias = to_chars("combine_dfs");
        let target_alias = to_chars("concat_all");
        let mut visited = NameSet::new();
        let mut i: usize = 0;
        assert(rs.take(0) =~= Seq::<Seq<char>>::empty());
        while i < roots.len()
            invariant
                i <= roots.len(),
                g == self@,
                rs == strings(roots@),
                root_alias@ == alias_root(),
                target_alias@ == alias_target(),
                visited.wf(),
                forall|v: Seq<char>| visited@.contains(v) <==> is_seed(g, rs.take(i as int), v),
            decreases roots.len() - i,
        {
            let name = to_chars(roots[i].as_str());
            assert(rs[i as int] == name@);
            let ghost before = visited@;
            proof {
                lemma_take_contains(rs, i as int);
            }
            if self.position(&name) < self.entries.len() {
                proof {
                    lemma_with_name_distinct(before, name@);
                }
                visited.add(name);
            } else if same(&name, &root_alias) {
                let a = copy_of(&root_alias);
                let b = copy_of(&target_alias);
                proof {
                    lemma_with_name_distinct(before, a@);
                    lemma_with_name_distinct(with_name(before, a@), b@);
                }
                visited.add(a);
                visited.add(b);
            }
            proof {
                let upto = rs.take(i as int);
                let next = rs.take(i + 1);
                let now = visited@;
                assert forall|v: Seq<char>| now.contains(v) <==> is_seed(g, next, v) by {
                    assert(before.contains(v) <==> is_seed(g, upto, v));
                    assert(next.contains(v) <==> upto.contains(v) || v == name@);
                    assert(next.contains(alias_root()) <==> upto.contains(alias_root())
                        || alias_root() == name@);
                    if keys(g).contains(name@) {
                        assert(now.contains(v) <==> before.contains(v) || v == name@);
                        assert(aliased(g, next) == aliased(g, upto));
                    } else if name@ == alias_root() {
                        assert(now.contains(v) <==> before.contains(v) || v == alias_root() || v
                            == alias_target());
                        assert(aliased(g, next));
                    } else {
                        assert(now == before);
                        assert(aliased(g, next) == aliased(g, upto));
                    }
                }
            }
            i += 1;
        }
        proof {
            assert(rs.take(roots.len() as int) == rs);
            lemma_universe(g);
            assert forall|v: Seq<char>| visited@.contains(v) implies reachable(g, rs, v) by {
                assert(reached_within(g, rs, v, 0));
            }
            lemma_distinct_within(visited@, world);
        }
        let mut head: usize = 0;
        while head < visited.len()
            invariant
                g == self@,
                self.wf(),
                world == universe(g),
                visited.wf(),
                head <= visited@.len(),
                visited@.len() <= world.len(),
                forall|v: Seq<char>| visited@.contains(v) ==> reachable(g, rs, v),
                forall|v: Seq<char>| is_seed(g, rs, v) ==> visited@.contains(v),
                forall|v: Seq<char>| visited@.contains(v) ==> world.contains(v),
                forall|k: int, w: Seq<char>|
                    0 <= k < head && #[trigger] has_edge(g, visited@[k], w) ==> visited@.contains(
                        w,
                    ),
            decreases world.len() - head,
        {
            let cur = copy_of(visited.at(head));
            let idx = self.position(&cur);
            if idx < self.entries.len() {
                let count = self.entries[idx].1.len();
                let ghost targets = texts(self.entries[idx as int].1@);
                assert(lookup(g, cur@) == Some(targets));
                let mut j: usize = 0;
                while j < count
                    invariant
                        j <= count,
                        g == self@,
                        self.wf(),
                        world == universe(g),
                        idx < self.entries.len(),
                        count == self.entries[idx as int].1.len(),
                        targets == texts(self.entries[idx as int].1@),
                        lookup(g, cur@) == Some(targets),
                        visited.wf(),
                        head < visited@.len(),
                        cur@ == visited@[head as int],
                        visited@.len() <= world.len(),
                        forall|v: Seq<char>| visited@.contains(v) ==> reachable(g, rs, v),
                        forall|v: Seq<char>| is_seed(g, rs, v) ==> visited@.contains(v),
                        forall|v: Seq<char>| visited@.contains(v) ==> world.contains(v),
                        forall|k: int, w: Seq<char>|
                            0 <= k < head && #[trigger] has_edge(g, visited@[k], w)
                                ==> visited@.contains(w),
                        forall|t: int| 0 <= t < j ==> visited@.contains(#[trigger] targets[t]),
                    decreases count - j,
                {
                    let target = copy_of(&self.entries[idx].1[j]);
                    let ghost before = visited@;
                    proof {
                        assert(targets[j as int] == target@);
                        assert(g[idx as int].1[j as int] == target@);
                        assert(keys(g).contains(target@));
                        lemma_universe(g);
                        assert(before.contains(cur@));
                        assert(has_edge(g, cur@, target@));
                        lemma_reachable_step(g, rs, cur@, target@);
                        lemma_with_name_distinct(before, target@);
                    }
                    visited.add(target);
                    proof {
                        lemma_distinct_within(visited@, world);
                    }
                    j += 1;
                }
                assert forall|w: Seq<char>| has_edge(g, cur@, w) implies visited@.contains(w) by {
                    let t = choose|t: int| 0 <= t < targets.len() && targets[t] == w;
                    assert(visited@.contains(targets[t]));
                }
            } else {
                assert(lookup(g, cur@) is None);
            }
            head += 1;
        }
        proof {
            assert forall|u: Seq<char>, w: Seq<char>|
                visited@.contains(u) && has_edge(g, u, w) implies visited@.contains(w) by {
                let k = choose|k: int| 0 <= k < visited@.len() && visited@[k] == u;
                assert(has_edge(g, visited@[k], w));
            }
            assert forall|v: Seq<char>| reachable(g, rs, v) implies visited@.contains(v) by {
                let n = choose|n: nat| reached_within(g, rs, v, n);
                lemma_closed_set_holds_reached(g, rs, visited@, v, n);
            }
        }
        let listing = sorted(&visited);
        assert forall|v: Seq<char>| listing@.contains(v) <==> reachable(g, rs, v) by {
            assert(listing@.contains(v) <==> visited@.contains(v));
        }
        listing
    }

    /// The roots that are no methods of the graph, which a search passes over.
    pub fn unknown_roots(&self, roots: &Vec<String>) -> (r: Vec<String>)
        ensures
            strings(r@) == skipped(strings(roots@), keys(self@)),
    {
        let ghost rs = strings(roots@);
        let mut out: Vec<String> = Vec::new();
        let mut i: usize = 0;
        assert(strings(out@) =~= skipped(rs.take(0), keys(self@)));
        while i < roots.len()
            invariant
                i <= roots.len(),
                rs == strings(roots@),
                strings(out@) == skipped(rs.take(i as int), keys(self@)),
            decreases roots.len() - i,
        {
            assert(rs.take(i + 1).drop_last() == rs.take(i as int));
            assert(rs.take(i + 1).last() == roots@[i as int]@);
            let name = to_chars(roots[i].as_str());
            if self.position(&name) >= self.entries.len() {
                let ghost before = strings(out@);
                let text = to_string(&name);
                out.push(text);
                assert(strings(out@) =~= before.push(name@));
            }
            i += 1;
        }
        assert(rs.take(roots.len() as int) == rs);
        out
    }

    /// The methods that the roots reach, with no regard to the alias: each
    /// root that is a method of the graph, and every method called from there
    /// on, directly or through other methods. The names come in dictionary
    /// order.
    pub fn reachable_from(&self, roots: &Vec<String>) -> (r: NameSet)
        requires
            self.wf(),
        ensures
            r.wf(),
            increasing(r@),
            forall|v: Seq<char>|
                r@.contains(v) <==> reachable(self@, kept(strings(roots@), keys(self@)), v),
    {
        let ghost rs = strings(roots@);
        let mut known: Vec<String> = Vec::new();
        let mut i: usize = 0;
        assert(strings(known@) =~= kept(rs.take(0), keys(self@)));
        while i < roots.len()
            invariant
                i <= roots.len(),
                rs == strings(roots@),
                strings(known@) == kept(rs.take(i as int), keys(self@)),
            decreases roots.len() - i,
        {
            assert(rs.take(i + 1).drop_last() == rs.take(i as int));
            assert(rs.take(i + 1).last() == roots@[i as int]@);
            let name = to_chars(roots[i].as_str());
            if self.position(&name) < self.entries.len() {
                let ghost before = strings(known@);
                let text = to_string(&name);
                known.push(text);
                assert(strings(known@) =~= before.push(name@));
            }
            i += 1;
        }
        assert(rs.take(roots.len() as int) == rs);
        self.reached(&known)
    }

    /// The names that a reduced script keeps: the constructor, whatever the
    /// roots are, and what the roots reach. Each root that is a method of the
    /// graph is reached, and so is every method called from there on, directly
    /// or through other methods; a root that is no method of the graph is
    /// passed over, but for the aliased library function, which brings itself
    /// and the method it relies on. The constructor comes first, the other
    /// names in dictionary order.
    pub fn search(&self, roots: &Vec<String>) -> (r: NameSet)
        requires
            self.wf(),
        ensures
            r.wf(),
            r@ == required_listing(self@, strings(roots@)),
            r@.len() > 0 && r@[0] == constructor_name(),
            increasing(r@.subrange(1, r@.len() as int)),
            forall|v: Seq<char>| r@.contains(v) <==> is_required(self@, strings(roots@), v),
    {
        let ghost g = self@;
        let ghost rs = strings(roots@);
        let found = self.reached(roots);
        let word = to_chars("constructor");
        let mut others = NameSet::new();
        let mut i: usize = 0;
        assert(found@.take(0) =~= Seq::<Seq<char>>::empty());
        while i < found.len()
            invariant
                i <= found@.len(),
                word@ == constructor_name(),
                others.wf(),
                forall|v: Seq<char>|
                    others@.contains(v) <==> found@.take(i as int).contains(v) && v != word@,
            decreases found@.len() - i,
        {
            let name = found.at(i);
            let ghost before = others@;
            proof {
                lemma_take_contains(found@, i as int);
                lemma_with_name_distinct(before, name@);
            }
            if !same(name, &word) {
                others.add(copy_of(name));
            }
            proof {
                let upto = found@.take(i as int);
                let next = found@.take(i + 1);
                assert forall|v: Seq<char>|
                    others@.contains(v) <==> next.contains(v) && v != word@ by {
                    assert(before.contains(v) <==> upto.contains(v) && v != word@);
                    assert(next.contains(v) <==> upto.contains(v) || v == name@);
                }
            }
            i += 1;
        }
        assert(found@.take(found@.len() as int) == found@);
        let listing = sorted(&others);
        let mut items: Vec<Vec<char>> = Vec::new();
        items.push(word);
        let mut k: usize = 0;
        assert(texts(items@) =~= seq![constructor_name()] + listing@.take(0));
        while k < listing.len()
            invariant
                k <= listing@.len(),
                texts(items@) == seq![constructor_name()] + listing@.take(k as int),
            decreases listing@.len() - k,
        {
            let copy = copy_of(listing.at(k));
            proof {
                lemma_texts_push(items@, copy);
                assert((seq![constructor_name()] + listing@.take(k as int)).push(copy@) =~= seq![
                    constructor_name(),
                ] + listing@.take(k + 1));
            }
            items.push(copy);
            k += 1;
        }
        proof {
            assert(listing@.take(listing@.len() as int) == listing@);
            let all = texts(items@);
            assert forall|v: Seq<char>| listing@.contains(v) <==> reachable(g, rs, v) && v
                != constructor_name() by {
                assert(listing@.contains(v) <==> others@.contains(v));
                assert(found@.contains(v) <==> reachable(g, rs, v));
            }
            assert(lists_others(listing@, g, rs));
            let q = choose|q: Seq<Seq<char>>| lists_others(q, g, rs);
            assert(lists_others(q, g, rs));
            lemma_increasing_unique(listing@, q);
            lemma_increasing_distinct(listing@);
            assert(all.subrange(1, all.len() as int) =~= listing@);
            assert(all.no_duplicates()) by {
                assert forall|a: int, b: int| 0 <= a < all.len() && 0 <= b < all.len() && a
                    != b implies all[a] != all[b] by {
                    if a > 0 {
                        assert(listing@.contains(listing@[a - 1]));
                    }
                    if b > 0 {
                        assert(listing@.contains(listing@[b - 1]));
                    }
                }
            }
            assert forall|v: Seq<char>| all.contains(v) <==> is_required(g, rs, v) by {
                if all.contains(v) {
                    let a = choose|a: int| 0 <= a < all.len() && all[a] == v;
                    if a > 0 {
                        assert(listing@.contains(listing@[a - 1]));
                    }
                }
                if is_required(g, rs, v) {
                    if v == constructor_name() {
                        assert(all[0] == v);
                    } else {
                        assert(listing@.contains(v));
                        let b = choose|b: int| 0 <= b < listing@.len() && listing@[b] == v;
                        assert(all[b + 1] == v);
                    }
                }
            }
        }
        NameSet::from_distinct(items)
    }

    /// The number of methods in the graph.
    pub fn node_count(&self) -> (r: usize)
        ensures
            r == self@.len(),
    {
        self.entries.len()
    }

    /// The methods of the graph, in the order in which they were stored.
    pub fn nodes(&self) -> (r: Vec<String>)
        ensures
            strings(r@) == keys(self@),
    {
        let mut out: Vec<String> = Vec::new();
        let mut i: usize = 0;
        while i < self.entries.len()
            invariant
                i <= self.entries.len(),
                out.len() == i,
                forall|k: int| 0 <= k < i ==> out@[k]@ == self.entries@[k].0@,
            decreases self.entries.len() - i,
        {
            out.push(to_string(&self.entries[i].0));
            i += 1;
        }
        assert(strings(out@) =~= keys(self@));
        out
    }

    /// Whether `name` is a method of the graph.
    pub fn contains_node(&self, name: &str) -> (r: bool)
        ensures
            r == keys(self@).contains(name@),
    {
        let chars = to_chars(name);
        self.position(&chars) < self.entries.len()
    }

    /// The methods that the method `name` calls, if it is in the graph.
    pub fn edges_of(&self, name: &str) -> (r: Option<Vec<String>>)
        ensures
            match r {
                Some(targets) => lookup(self@, name@) == Some(strings(targets@)),
                None => lookup(self@, name@) is None,
            },
    {
        let chars = to_chars(name);
        let i = self.position(&chars);
        if i >= self.entries.len() {
            return None;
        }
        let targets = &self.entries[i].1;
        let mut out: Vec<String> = Vec::new();
        let mut j: usize = 0;
        while j < targets.len()
            invariant
                j <= targets.len(),
                out.len() == j,
                forall|k: int| 0 <= k < j ==> out@[k]@ == targets@[k]@,
            decreases targets.len() - j,
        {
            out.push(to_string(&targets[j]));
            j += 1;
        }
        assert(strings(out@) =~= texts(targets@));
        Some(out)
    }
}

} // verus!
