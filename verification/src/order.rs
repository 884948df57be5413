//! The dictionary order of names, and listings in that order.

use crate::names::NameSet;
use crate::split::texts;
use crate::text::slice;
use vstd::prelude::*;

verus! {

/// `a` comes before `b` in dictionary order: at the first position where they
/// differ `a` has the lesser character, or `a` ends there and `b` goes on.
pub open spec fn lex_lt(a: Seq<char>, b: Seq<char>) -> bool
    decreases a.len(),
{
    if b.len() == 0 {
        false
    } else if a.len() == 0 {
        true
    } else if a[0] != b[0] {
        (a[0] as u32) < (b[0] as u32)
    } else {
        lex_lt(a.drop_first(), b.drop_first())
    }
}

/// No text comes before itself.
pub proof fn lemma_lex_irreflexive(a: Seq<char>)
    ensures
        !lex_lt(a, a),
    decreases a.len(),
{
    if a.len() > 0 {
        lemma_lex_irreflexive(a.drop_first());
    }
}

/// Of two different texts one comes before the other.
pub proof fn lemma_lex_total(a: Seq<char>, b: Seq<char>)
    requires
        a != b,
    ensures
        lex_lt(a, b) || lex_lt(b, a),
    decreases a.len(),
{
    if a.len() > 0 && b.len() > 0 && a[0] == b[0] {
        assert(a.drop_first() != b.drop_first()) by {
            if a.drop_first() == b.drop_first() {
                assert(a =~= seq![a[0]] + a.drop_first());
                assert(b =~= seq![b[0]] + b.drop_first());
            }
        }
        lemma_lex_total(a.drop_first(), b.drop_first());
    } else if a.len() == 0 && b.len() == 0 {
        assert(a =~= b);
    } else if a.len() > 0 && b.len() > 0 {
        let x = a[0] as u32;
        let y = b[0] as u32;
        vstd::utf8::char_u32_cast(a[0], x);
        vstd::utf8::char_u32_cast(b[0], y);
        assert(x != y);
    }
}

/// What comes before a text comes before all that the text comes before.
pub proof fn lemma_lex_transitive(a: Seq<char>, b: Seq<char>, c: Seq<char>)
    requires
        lex_lt(a, b),
        lex_lt(b, c),
    ensures
        lex_lt(a, c),
    decreases a.len(),
{
    if a.len() > 0 && a[0] == b[0] && b[0] == c[0] {
        lemma_lex_transitive(a.drop_first(), b.drop_first(), c.drop_first());
    }
}

/// Whether `a` comes before `b` in dictionary order.
pub fn comes_before(a: &Vec<char>, b: &Vec<char>) -> (r: bool)
    ensures
        r == lex_lt(a@, b@),
{
    let mut i: usize = 0;
    assert(a@.subrange(0, a.len() as int) == a@);
    assert(b@.subrange(0, b.len() as int) == b@);
    loop
        invariant
            i <= a.len(),
            i <= b.len(),
            lex_lt(a@, b@) == lex_lt(
                a@.subrange(i as int, a.len() as int),
                b@.subrange(i as int, b.len() as int),
            ),
        decreases a.len() - i,
    {
        if i == b.len() {
            return false;
        }
        if i == a.len() {
            return true;
        }
        if a[i] != b[i] {
            return (a[i] as u32) < (b[i] as u32);
        }
        assert(a@.subrange(i as int, a.len() as int).drop_first() == a@.subrange(
            i + 1,
            a.len() as int,
        ));
        assert(b@.subrange(i as int, b.len() as int).drop_first() == b@.subrange(
            i + 1,
            b.len() as int,
        ));
        i += 1;
    }
}

/// Each of `names` comes before all that follow it.
pub open spec fn increasing(names: Seq<Seq<char>>) -> bool {
    forall|i: int, j: int| 0 <= i < j < names.len() ==> lex_lt(names[i], names[j])
}

/// `a` and `b` hold the same names.
pub open spec fn same_names(a: Seq<Seq<char>>, b: Seq<Seq<char>>) -> bool {
    forall|x: Seq<char>| a.contains(x) <==> b.contains(x)
}

/// A listing in dictionary order holds no name twice.
pub proof fn lemma_increasing_distinct(names: Seq<Seq<char>>)
    requires
        increasing(names),
    ensures
        names.no_duplicates(),
{
    assert forall|i: int, j: int| 0 <= i < names.len() && 0 <= j < names.len() && i != j implies names[i]
        != names[j] by {
        lemma_lex_irreflexive(names[i]);
        if i < j {
            assert(lex_lt(names[i], names[j]));
        } else {
            assert(lex_lt(names[j], names[i]));
        }
    }
}

/// Two listings of the same names in dictionary order are one listing.
pub proof fn lemma_increasing_unique(a: Seq<Seq<char>>, b: Seq<Seq<char>>)
    requires
        increasing(a),
        increasing(b),
        same_names(a, b),
    ensures
        a == b,
    decreases a.len(),
{
    if a.len() == 0 {
        if b.len() > 0 {
            assert(b.contains(b[0]));
            assert(a.contains(b[0]));
        }
        assert(a =~= b);
    } else if b.len() == 0 {
        assert(a.contains(a[0]));
        assert(b.contains(a[0]));
    } else {
        lemma_increasing_distinct(a);
        lemma_increasing_distinct(b);
        assert(a[0] == b[0]) by {
            assert(a.contains(a[0]));
            assert(b.contains(b[0]));
            let i = choose|i: int| 0 <= i < b.len() && b[i] == a[0];
            let j = choose|j: int| 0 <= j < a.len() && a[j] == b[0];
            if a[0] != b[0] {
                assert(lex_lt(b[0], b[i]));
                assert(lex_lt(a[0], a[j]));
                lemma_lex_transitive(a[0], b[0], a[0]);
                lemma_lex_irreflexive(a[0]);
            }
        }
        let ta = a.drop_first();
        let tb = b.drop_first();
        assert(increasing(ta)) by {
            assert forall|i: int, j: int| 0 <= i < j < ta.len() implies lex_lt(ta[i], ta[j]) by {
                assert(lex_lt(a[i + 1], a[j + 1]));
            }
        }
        assert(increasing(tb)) by {
            assert forall|i: int, j: int| 0 <= i < j < tb.len() implies lex_lt(tb[i], tb[j]) by {
                assert(lex_lt(b[i + 1], b[j + 1]));
            }
        }
        assert forall|x: Seq<char>| ta.contains(x) <==> tb.contains(x) by {
            if ta.contains(x) {
                let i = choose|i: int| 0 <= i < ta.len() && ta[i] == x;
                assert(a[i + 1] == x);
                assert(a.contains(x));
                let j = choose|j: int| 0 <= j < b.len() && b[j] == x;
                assert(j != 0);
                assert(tb[j - 1] == x);
            }
            if tb.contains(x) {
                let i = choose|i: int| 0 <= i < tb.len() && tb[i] == x;
                assert(b[i + 1] == x);
                assert(b.contains(x));
                let j = choose|j: int| 0 <= j < a.len() && a[j] == x;
                assert(j != 0);
                assert(ta[j - 1] == x);
            }
        }
        lemma_increasing_unique(ta, tb);
        assert(a =~= seq![a[0]] + ta);
        assert(b =~= seq![b[0]] + tb);
    }
}

/// The names of `names` in dictionary order.
pub fn sorted(names: &NameSet) -> (r: NameSet)
    requires
        names.wf(),
    ensures
        r.wf(),
        increasing(r@),
        same_names(r@, names@),
{
    let mut out: Vec<Vec<char>> = Vec::new();
    let mut i: usize = 0;
    while i < names.len()
        invariant
            i <= names@.len(),
            names.wf(),
            increasing(texts(out@)),
            forall|x: Seq<char>| texts(out@).contains(x) <==> names@.take(i as int).contains(x),
        decreases names@.len() - i,
    {
        let name = names.at(i);
        let ghost before = texts(out@);
        let mut p: usize = 0;
        while p < out.len() && comes_before(&out[p], name)
            invariant
                p <= out.len(),
                before == texts(out@),
                forall|j: int| 0 <= j < p ==> lex_lt(before[j], name@),
            decreases out.len() - p,
        {
            p += 1;
        }
        let copy = slice(name, 0, name.len());
        assert(copy@ == name@);
        proof {
            assert(!before.contains(name@)) by {
                if before.contains(name@) {
                    let k = choose|k: int|
                        0 <= k < names@.take(i as int).len() && names@.take(i as int)[k] == name@;
                    assert(names@[k] == names@[i as int]);
                }
            }
            assert forall|j: int| p <= j < before.len() implies lex_lt(name@, before[j]) by {
                assert(before.contains(before[p as int]));
                assert(before.contains(before[j]));
                lemma_lex_total(name@, before[p as int]);
                if j > p {
                    assert(lex_lt(before[p as int], before[j]));
                    lemma_lex_transitive(name@, before[p as int], before[j]);
                }
            }
        }
        out.insert(p, copy);
        proof {
            let after = texts(out@);
            assert(after =~= before.insert(p as int, name@));
            assert forall|a: int, b: int| 0 <= a < b < after.len() implies lex_lt(
                after[a],
                after[b],
            ) by {
                if a < p && b == p {
                } else if a < p && b < p {
                    assert(lex_lt(before[a], before[b]));
                } else if a < p && b > p {
                    assert(lex_lt(before[a], before[b - 1]));
                } else if a == p {
                    assert(after[b] == before[b - 1]);
                } else {
                    assert(lex_lt(before[a - 1], before[b - 1]));
                }
            }
            assert forall|x: Seq<char>| after.contains(x) <==> names@.take(i + 1).contains(x) by {
                let upto = names@.take(i as int);
                let next = names@.take(i + 1);
                if after.contains(x) {
                    let k = choose|k: int| 0 <= k < after.len() && after[k] == x;
                    if k == p {
                        assert(next[i as int] == x);
                    } else {
                        if k < p {
                            assert(before[k] == x);
                        } else {
                            assert(before[k - 1] == x);
                        }
                        assert(before.contains(x));
                        let m = choose|m: int| 0 <= m < upto.len() && upto[m] == x;
                        assert(next[m] == x);
                    }
                }
                if next.contains(x) {
                    let m = choose|m: int| 0 <= m < next.len() && next[m] == x;
                    if m == i {
                        assert(after[p as int] == x);
                    } else {
                        assert(upto[m] == x);
                        assert(before.contains(x));
                        let k = choose|k: int| 0 <= k < before.len() && before[k] == x;
                        if k < p {
                            assert(after[k] == x);
                        } else {
                            assert(after[k + 1] == x);
                        }
                    }
                }
            }
        }
        i += 1;
    }
    proof {
        assert(names@.take(names@.len() as int) == names@);
        lemma_increasing_distinct(texts(out@));
    }
    NameSet::from_distinct(out)
}

} // verus!
