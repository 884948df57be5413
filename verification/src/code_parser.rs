//! The chained-call parser: finds which local names stand for table-like
//! values in a block of code, and which methods are called on them.

use crate::names::{strings, with_name, with_names, NameSet};
use crate::split::{
    before_char, depth_after, advance, first_word, lines_of, pieces, skip_space,
    split_lines, split_on, strip_brackets, strip_trailing, take_before, take_first_word, texts,
    trim, trimmed, without_brackets, without_leading_space, without_trailing, LINE_MAX,
    lemma_texts_push,
};
use crate::text::{
    append, contains, copy_of, encoded_len, find, find_char_from, first_at, first_pos, has_at,
    has_sub,
    is_word, lemma_first_at_from, occurs_at, slice, to_chars, to_string, utf8_len, word_given,
};
use vstd::prelude::*;

verus! {

/// Whether `name` holds the name of one of the table's storage fields. What
/// is reached through such a field is data, not a method of the table.
pub open spec fn is_field(name: Seq<char>) -> bool {
    ||| has_sub(name, "values"@)
    ||| has_sub(name, "columns"@)
    ||| has_sub(name, "dtypes"@)
    ||| has_sub(name, "__headers"@)
}

/// Whether the name given as characters holds a storage field's name.
pub fn names_field(name: &Vec<char>) -> (r: bool)
    ensures
        r == is_field(name@),
{
    let values = to_chars("values");
    let columns = to_chars("columns");
    let dtypes = to_chars("dtypes");
    let headers = to_chars("__headers");
    contains(name, &values) || contains(name, &columns) || contains(name, &dtypes) || contains(
        name,
        &headers,
    )
}

/// Whether `s` holds the name of one of the table's storage fields.
pub fn is_known_dataframe_field(s: &str) -> (r: bool)
    ensures
        r == is_field(s@),
{
    let chars = to_chars(s);
    names_field(&chars)
}

/// Whether `line` calls the per-row transformation method, whose result need
/// not be a table.
pub open spec fn is_escape(line: Seq<char>) -> bool {
    has_sub(line, ".apply("@)
}

/// Whether `line` calls the per-row transformation method.
pub fn is_apply_assignment(line: &Vec<char>) -> (r: bool)
    ensures
        r == is_escape(line@),
{
    let call = to_chars(".apply(");
    contains(line, &call)
}

/// The trimmed, non-empty ones among `parts`, in order.
pub open spec fn listed_names(parts: Seq<Seq<char>>) -> Seq<Seq<char>>
    decreases parts.len(),
{
    if parts.len() == 0 {
        seq![]
    } else {
        let before = listed_names(parts.drop_last());
        let name = trimmed(parts.last());
        if name.len() > 0 {
            before.push(name)
        } else {
            before
        }
    }
}

/// What follows the binding keyword that `lhs` begins with, if it begins with one.
pub open spec fn after_keyword(lhs: Seq<char>) -> Option<Seq<char>> {
    if occurs_at(lhs, "let"@, 0) {
        Some(lhs.subrange("let"@.len() as int, lhs.len() as int))
    } else if occurs_at(lhs, "const"@, 0) {
        Some(lhs.subrange("const"@.len() as int, lhs.len() as int))
    } else {
        None
    }
}

/// The names that the left-hand side of a binding declares: those listed
/// between square brackets, or else the first word after the keyword.
pub open spec fn bound_names(lhs: Seq<char>) -> Option<Seq<Seq<char>>> {
    match after_keyword(lhs) {
        None => None,
        Some(rest) => {
            let vars = trimmed(rest);
            if vars.len() > 0 && vars[0] == '[' && vars.last() == ']' {
                Some(listed_names(pieces(without_brackets(vars), ',')))
            } else {
                match first_word(vars) {
                    Some(word) => Some(seq![word]),
                    None => None,
                }
            }
        },
    }
}

/// The names that the left-hand side of a binding declares.
pub fn extract_lhs_variables(lhs: &Vec<char>) -> (r: Option<Vec<Vec<char>>>)
    ensures
        match r {
            Some(names) => bound_names(lhs@) == Some(texts(names@)),
            None => bound_names(lhs@) is None,
        },
{
    let let_kw = to_chars("let");
    let const_kw = to_chars("const");
    let rest = if has_at(lhs, &let_kw, 0) {
        slice(lhs, let_kw.len(), lhs.len())
    } else if has_at(lhs, &const_kw, 0) {
        slice(lhs, const_kw.len(), lhs.len())
    } else {
        return None;
    };
    assert(after_keyword(lhs@) == Some(rest@));
    let vars = trim(&rest);
    if vars.len() > 0 && vars[0] == '[' && vars[vars.len() - 1] == ']' {
        let inner = strip_brackets(&vars);
        let parts = split_on(&inner, ',');
        let ghost all = texts(parts@);
        let mut names: Vec<Vec<char>> = Vec::new();
        let mut i: usize = 0;
        assert(texts(names@) =~= listed_names(all.take(0)));
        while i < parts.len()
            invariant
                i <= parts.len(),
                all == texts(parts@),
                texts(names@) == listed_names(all.take(i as int)),
            decreases parts.len() - i,
        {
            assert(all.take(i + 1).drop_last() == all.take(i as int));
            assert(all.take(i + 1).last() == parts@[i as int]@);
            let name = trim(&parts[i]);
            if name.len() > 0 {
                proof {
                    lemma_texts_push(names@, name);
                }
                names.push(name);
            }
            i += 1;
        }
        assert(all.take(parts.len() as int) == all);
        Some(names)
    } else {
        match take_first_word(&vars) {
            Some(word) => {
                let mut names: Vec<Vec<char>> = Vec::new();
                names.push(word);
                assert(texts(names@) =~= seq![word@]);
                Some(names)
            },
            None => None,
        }
    }
}

/// Whether the trimmed line `t` begins with a binding keyword.
pub open spec fn is_binding(t: Seq<char>) -> bool {
    occurs_at(t, "let "@, 0) || occurs_at(t, "const "@, 0)
}

/// The two sides of the binding that `line` makes, each trimmed: what stands
/// before the first `=` and what stands after it. Nothing where the line
/// begins with no binding keyword or holds no `=`.
pub open spec fn assignment_sides(line: Seq<char>) -> Option<(Seq<char>, Seq<char>)> {
    let t = trimmed(line);
    let p = first_pos(t, '=');
    if is_binding(t) && 0 <= p < t.len() {
        Some((trimmed(t.subrange(0, p)), trimmed(t.subrange(p + 1, t.len() as int))))
    } else {
        None
    }
}

/// The two sides of the binding that `line` makes.
pub fn split_assignment(line: &Vec<char>) -> (r: Option<(Vec<char>, Vec<char>)>)
    ensures
        match r {
            Some(sides) => assignment_sides(line@) == Some((sides.0@, sides.1@)),
            None => assignment_sides(line@) is None,
        },
{
    let t = trim(line);
    let let_kw = to_chars("let ");
    let const_kw = to_chars("const ");
    if !(has_at(&t, &let_kw, 0) || has_at(&t, &const_kw, 0)) {
        return None;
    }
    assert(t@.subrange(0, t.len() as int) == t@);
    let p = find_char_from(&t, '=', 0);
    if p >= t.len() {
        return None;
    }
    let lhs = trim(&slice(&t, 0, p));
    let rhs = trim(&slice(&t, p + 1, t.len()));
    Some((lhs, rhs))
}

/// The names that `line` binds to a value that mentions `subject`: the line
/// begins with a binding keyword, holds an `=`, and `subject` stands somewhere
/// to the right of it.
pub open spec fn binding(line: Seq<char>, subject: Seq<char>) -> Option<Seq<Seq<char>>> {
    match assignment_sides(line) {
        Some((lhs, rhs)) => if has_sub(rhs, subject) {
            bound_names(lhs)
        } else {
            None
        },
        None => None,
    }
}

/// The names that `line` binds to a value that mentions `substr`.
pub fn parse_assignment(line: &str, substr: &str) -> (r: Option<Vec<String>>)
    ensures
        match r {
            Some(names) => binding(line@, substr@) == Some(strings(names@)),
            None => binding(line@, substr@) is None,
        },
{
    let chars = to_chars(line);
    let subject = to_chars(substr);
    match split_assignment(&chars) {
        None => None,
        Some((lhs, rhs)) => {
            if !contains(&rhs, &subject) {
                return None;
            }
            match extract_lhs_variables(&lhs) {
                None => None,
                Some(names) => {
                    let mut out: Vec<String> = Vec::new();
                    let mut i: usize = 0;
                    while i < names.len()
                        invariant
                            i <= names.len(),
                            out.len() == i,
                            forall|k: int| 0 <= k < i ==> out@[k]@ == names@[k]@,
                        decreases names.len() - i,
                    {
                        out.push(to_string(&names[i]));
                        i += 1;
                    }
                    assert(strings(out@) =~= texts(names@));
                    Some(out)
                },
            }
        },
    }
}

/// Whether the `len` characters at `pos` can be a whole token: the character
/// right before them and the character right after them are no letters,
/// digits or underscores. The ends of the code allow it too.
pub open spec fn token_ok(code: Seq<char>, pos: int, len: int) -> bool {
    &&& pos <= 0 || pos > code.len() || !is_word(code[pos - 1])
    &&& pos + len < 0 || pos + len >= code.len() || !is_word(code[pos + len])
}

/// Whether a text can be a whole token between the character before it and
/// the character after it, where there are such, given of each whether it is
/// a letter or a digit: neither may be a letter, a digit or an underscore.
pub fn token_given(
    left: Option<char>,
    left_alphanumeric: bool,
    right: Option<char>,
    right_alphanumeric: bool,
) -> (r: bool)
    ensures
        r == ((match left {
            Some(c) => !(left_alphanumeric || c == '_'),
            None => true,
        }) && (match right {
            Some(c) => !(right_alphanumeric || c == '_'),
            None => true,
        })),
{
    let left_free = match left {
        Some(c) => !word_given(c, left_alphanumeric),
        None => true,
    };
    let right_free = match right {
        Some(c) => !word_given(c, right_alphanumeric),
        None => true,
    };
    left_free && right_free
}

/// Whether `name`, standing at `position` in `code`, is a whole token there.
pub fn is_token_match(code: &Vec<char>, position: usize, name: &Vec<char>) -> (r: bool)
    requires
        position + name.len() <= code.len(),
    ensures
        r == token_ok(code@, position as int, name.len() as int),
{
    let end = position + name.len();
    let left = if position > 0 {
        Some(code[position - 1])
    } else {
        None
    };
    let right = if end < code.len() {
        Some(code[end])
    } else {
        None
    };
    let left_alphanumeric = position > 0 && code[position - 1].is_alphanumeric();
    let right_alphanumeric = end < code.len() && code[end].is_alphanumeric();
    token_given(left, left_alphanumeric, right, right_alphanumeric)
}

/// Whether a member access follows position `end` of `code`: the first
/// character from there on that is not white space is `.` or `[`.
pub open spec fn chain_follows(code: Seq<char>, end: int) -> bool {
    let after = without_leading_space(code.subrange(end, code.len() as int));
    after.len() > 0 && (after[0] == '.' || after[0] == '[')
}

/// Whether a member access follows position `end` of `code`.
pub fn follows_chain(code: &Vec<char>, end: usize) -> (r: bool)
    requires
        end <= code.len(),
    ensures
        r == chain_follows(code@, end as int),
{
    let n = code.len();
    let a = skip_space(code, end);
    let ghost after = code@.subrange(a as int, n as int);
    if a == n {
        false
    } else {
        assert(after[0] == code@[a as int]);
        code[a] == '.' || code[a] == '['
    }
}

/// `name` stands at `pos` in `code` as a whole token with a member access
/// after it.
pub open spec fn anchors_at(code: Seq<char>, name: Seq<char>, pos: int) -> bool {
    &&& occurs_at(code, name, pos)
    &&& token_ok(code, pos, name.len() as int)
    &&& chain_follows(code, pos + name.len())
}

/// `name` stands somewhere in `code` as a whole token with a member access
/// after it.
pub open spec fn heads_chain(code: Seq<char>, name: Seq<char>) -> bool {
    exists|pos: int| anchors_at(code, name, pos)
}

/// The first position at or after `from` where `name` stands in `code` as a
/// whole token with a member access after it.
pub open spec fn anchor_at_from(code: Seq<char>, name: Seq<char>, from: int) -> Option<int>
    decreases code.len() + 1 - from,
{
    if from < 0 || from + name.len() > code.len() {
        None
    } else if anchors_at(code, name, from) {
        Some(from)
    } else {
        anchor_at_from(code, name, from + 1)
    }
}

/// The first position where `name` stands in `code` as a whole token with a
/// member access after it.
pub open spec fn anchor_at(code: Seq<char>, name: Seq<char>) -> Option<int> {
    anchor_at_from(code, name, 0)
}

/// `anchor_at_from` yields a position where the name anchors, with none
/// between `from` and it, and yields nothing only where the name anchors
/// nowhere from `from` on.
pub proof fn lemma_anchor_at_from(code: Seq<char>, name: Seq<char>, from: int)
    requires
        0 <= from,
    ensures
        match anchor_at_from(code, name, from) {
            Some(p) => from <= p && anchors_at(code, name, p) && forall|j: int|
                from <= j < p ==> !anchors_at(code, name, j),
            None => forall|j: int| from <= j ==> !anchors_at(code, name, j),
        },
    decreases code.len() + 1 - from,
{
    if from + name.len() > code.len() {
    } else if anchors_at(code, name, from) {
    } else {
        lemma_anchor_at_from(code, name, from + 1);
    }
}

/// The first position where `name` stands in `code` as a whole token with a
/// member access after it, if there is one.
pub fn can_anchor(code: &Vec<char>, name: &Vec<char>) -> (r: Option<usize>)
    ensures
        match r {
            Some(p) => {
                &&& anchor_at(code@, name@) == Some(p as int)
                &&& anchors_at(code@, name@, p as int)
                &&& forall|j: int| 0 <= j < p ==> !anchors_at(code@, name@, j)
            },
            None => anchor_at(code@, name@) is None && !heads_chain(code@, name@),
        },
{
    proof {
        lemma_anchor_at_from(code@, name@, 0);
    }
    let n = code.len();
    let m = name.len();
    if m > n {
        return None;
    }
    let last = n - m;
    let mut pos: usize = 0;
    loop
        invariant
            pos <= last,
            last + m == n,
            n == code.len(),
            m == name.len(),
            anchor_at(code@, name@) == anchor_at_from(code@, name@, pos as int),
        decreases last - pos,
    {
        if has_at(code, name, pos) && is_token_match(code, pos, name) && follows_chain(
            code,
            pos + m,
        ) {
            assert(anchors_at(code@, name@, pos as int));
            proof {
                lemma_anchor_at_from(code@, name@, 0);
            }
            return Some(pos);
        }
        if pos == last {
            assert(anchor_at_from(code@, name@, pos + 1) is None);
            proof {
                lemma_anchor_at_from(code@, name@, 0);
            }
            return None;
        }
        pos += 1;
    }
}

/// The longest of the first `k` names that heads a chain in `stmt`, by its
/// length in UTF-8; of several of that length, the first. The empty text
/// where none does.
pub open spec fn anchor_upto(stmt: Seq<char>, names: Seq<Seq<char>>, k: int) -> Seq<char>
    decreases k,
{
    if k <= 0 {
        seq![]
    } else {
        let best = anchor_upto(stmt, names, k - 1);
        let name = names[k - 1];
        if heads_chain(stmt, name) && utf8_len(name) > utf8_len(best) {
            name
        } else {
            best
        }
    }
}

/// The name that a segment of a chain calls: what stands before its first
/// `(`, without semicolons at its end and without white space around it.
pub open spec fn base_name(segment: Seq<char>) -> Seq<char> {
    trimmed(without_trailing(before_char(segment, '('), ';'))
}

/// The names called by the segments from position `i` on. An empty segment is
/// passed over. A segment with a name ends the walk where the name is a
/// storage field, and is recorded otherwise. A segment without a name, such
/// as arguments that hold a `.`, moves the parenthesis depth, and ends the
/// walk where the depth is back at zero and the segment ends with `;`.
pub open spec fn chain_names_from(segs: Seq<Seq<char>>, i: int, depth: nat) -> Seq<Seq<char>>
    decreases segs.len() - i,
{
    if i < 0 || i >= segs.len() {
        seq![]
    } else {
        let t = trimmed(segs[i]);
        if t.len() == 0 {
            chain_names_from(segs, i + 1, depth)
        } else {
            let base = base_name(t);
            if base.len() > 0 {
                if is_field(base) {
                    seq![]
                } else {
                    seq![base] + chain_names_from(segs, i + 1, depth)
                }
            } else {
                let d = depth_after(depth, t, '(', ')');
                if d == 0 && t.last() == ';' {
                    seq![]
                } else {
                    chain_names_from(segs, i + 1, d)
                }
            }
        }
    }
}

/// The names called by the chain `after`, which is cut at each `.`.
pub open spec fn chain_names(after: Seq<char>) -> Seq<Seq<char>> {
    chain_names_from(pieces(after, '.'), 0, 0)
}

/// The names called by the chain `after`.
pub fn walk_chain(after: &Vec<char>) -> (r: Vec<Vec<char>>)
    ensures
        texts(r@) == chain_names(after@),
{
    let segs = split_on(after, '.');
    let ghost all = texts(segs@);
    let mut names: Vec<Vec<char>> = Vec::new();
    let mut depth: u128 = 0;
    let mut i: usize = 0;
    assert(texts(names@) =~= Seq::<Seq<char>>::empty());
    assert(texts(names@) + chain_names(after@) == chain_names(after@));
    while i < segs.len()
        invariant
            i <= segs.len(),
            all == texts(segs@),
            all == pieces(after@, '.'),
            depth <= i * LINE_MAX,
            texts(names@) + chain_names_from(all, i as int, depth as nat) == chain_names(after@),
        decreases segs.len() - i,
    {
        assert(all[i as int] == segs@[i as int]@);
        let t = trim(&segs[i]);
        if t.len() > 0 {
            let base = trim(&strip_trailing(&take_before(&t, '('), ';'));
            assert(base@ == base_name(t@));
            if base.len() > 0 {
                if names_field(&base) {
                    assert(texts(names@) + Seq::<Seq<char>>::empty() == texts(names@));
                    return names;
                }
                proof {
                    lemma_texts_push(names@, base);
                    let tail = chain_names_from(all, i + 1, depth as nat);
                    assert(texts(names@) + (seq![base@] + tail) == texts(names@).push(base@)
                        + tail);
                }
                names.push(base);
            } else {
                depth = advance(depth, &t, '(', ')');
                if depth == 0 && t[t.len() - 1] == ';' {
                    assert(texts(names@) + Seq::<Seq<char>>::empty() == texts(names@));
                    return names;
                }
            }
        }
        i += 1;
    }
    assert(texts(names@) + Seq::<Seq<char>>::empty() == texts(names@));
    names
}

/// The chain that `stmt` holds: the anchor among `names`, and the names
/// called on it, read from the end of the first place where the anchor stands
/// in `stmt` as a whole token with a member access after it. Nothing where no
/// name heads a chain.
pub open spec fn chain(stmt: Seq<char>, names: Seq<Seq<char>>) -> Option<
    (Seq<char>, Seq<Seq<char>>),
> {
    let a = anchor_upto(stmt, names, names.len() as int);
    if a.len() == 0 {
        None
    } else {
        match anchor_at(stmt, a) {
            Some(p) => Some((a, chain_names(stmt.subrange(p + a.len(), stmt.len() as int)))),
            None => None,
        }
    }
}

/// The chain that `stmt` holds.
pub fn find_chain(stmt: &Vec<char>, names: &NameSet) -> (r: Option<(Vec<char>, Vec<Vec<char>>)>)
    ensures
        match r {
            Some(c) => chain(stmt@, names@) == Some((c.0@, texts(c.1@))),
            None => chain(stmt@, names@) is None,
        },
{
    let n = stmt.len();
    let mut found = false;
    let mut best: usize = 0;
    let mut best_at: usize = 0;
    let mut best_len: u128 = 0;
    let mut k: usize = 0;
    while k < names.len()
        invariant
            k <= names@.len(),
            n == stmt.len(),
            found ==> best < k && names@[best as int].len() > 0,
            found ==> anchor_at(stmt@, names@[best as int]) == Some(best_at as int)
                && anchors_at(stmt@, names@[best as int], best_at as int),
            anchor_upto(stmt@, names@, k as int) == if found {
                names@[best as int]
            } else {
                Seq::<char>::empty()
            },
            best_len == utf8_len(anchor_upto(stmt@, names@, k as int)),
        decreases names@.len() - k,
    {
        let name = names.at(k);
        match can_anchor(stmt, name) {
            Some(p) => {
                let len = encoded_len(name);
                if len > best_len {
                    found = true;
                    best = k;
                    best_at = p;
                    best_len = len;
                }
            },
            None => {},
        }
        k += 1;
    }
    if !found {
        return None;
    }
    let anchor = names.at(best);
    let after = slice(stmt, best_at + anchor.len(), n);
    let called = walk_chain(&after);
    Some((copy_of(anchor), called))
}

/// The names bound so far with those that `line` binds: a line binds names
/// where its right-hand side mentions a name bound so far and the line does
/// not call the per-row transformation method.
pub open spec fn known_after_line(names: Seq<Seq<char>>, line: Seq<char>) -> Seq<Seq<char>> {
    match assignment_sides(line) {
        Some((lhs, rhs)) => if mentions_any(rhs, names) && !is_escape(line) {
            match bound_names(lhs) {
                Some(vars) => with_names(names, vars),
                None => names,
            }
        } else {
            names
        },
        None => names,
    }
}

/// Whether `rhs` holds one of `names`.
pub open spec fn mentions_any(rhs: Seq<char>, names: Seq<Seq<char>>) -> bool {
    exists|k: int| 0 <= k < names.len() && has_sub(rhs, #[trigger] names[k])
}

/// Whether `rhs` holds one of `names`.
pub fn mentions(rhs: &Vec<char>, names: &NameSet) -> (r: bool)
    ensures
        r == mentions_any(rhs@, names@),
{
    let mut k: usize = 0;
    while k < names.len()
        invariant
            k <= names@.len(),
            forall|j: int| 0 <= j < k ==> !has_sub(rhs@, #[trigger] names@[j]),
        decreases names@.len() - k,
    {
        if contains(rhs, names.at(k)) {
            return true;
        }
        k += 1;
    }
    false
}

/// The names bound once each of `lines` is read in turn.
pub open spec fn known_after(names: Seq<Seq<char>>, lines: Seq<Seq<char>>) -> Seq<Seq<char>>
    decreases lines.len(),
{
    if lines.len() == 0 {
        names
    } else {
        known_after_line(known_after(names, lines.drop_last()), lines.last())
    }
}

/// The names that stand for table-like values in `code`: those given, the
/// root, and every name bound, line by line, to a value that mentions one of
/// them.
pub open spec fn first_pass(names: Seq<Seq<char>>, code: Seq<char>, root: Seq<char>) -> Seq<
    Seq<char>,
> {
    known_after(with_name(names, root), lines_of(code))
}

/// The calls found so far with those of one piece of code between semicolons.
pub open spec fn calls_after_piece(
    calls: Seq<Seq<char>>,
    names: Seq<Seq<char>>,
    piece: Seq<char>,
) -> Seq<Seq<char>> {
    let stmt = trimmed(piece);
    if stmt.len() == 0 {
        calls
    } else {
        match chain(stmt, names) {
            Some(c) => with_names(calls, c.1),
            None => calls,
        }
    }
}

/// The calls found once each of `parts` is read in turn.
pub open spec fn calls_after(
    calls: Seq<Seq<char>>,
    names: Seq<Seq<char>>,
    parts: Seq<Seq<char>>,
) -> Seq<Seq<char>>
    decreases parts.len(),
{
    if parts.len() == 0 {
        calls
    } else {
        calls_after_piece(calls_after(calls, names, parts.drop_last()), names, parts.last())
    }
}

/// The characters that end a method name in a loop header.
pub open spec fn is_name_end(c: char) -> bool {
    c == '(' || c == ' ' || c == ')' || c == ';'
}

/// The position of the first character of `s` that ends a method name, or
/// the length of `s`.
pub open spec fn name_end_pos(s: Seq<char>) -> int
    decreases s.len(),
{
    if s.len() == 0 || is_name_end(s[0]) {
        0
    } else {
        1 + name_end_pos(s.drop_first())
    }
}

/// The text that opens a loop over what a method of `name` returns.
pub open spec fn loop_pattern(name: Seq<char>) -> Seq<char> {
    "of "@ + name + "."@
}

/// The method of `name` whose result `code` walks in a loop, taken at the
/// first such loop: the name that follows `of`, `name` and a `.`. Nothing
/// where there is no such loop, or the name is empty or a storage field.
pub open spec fn iterated_method(code: Seq<char>, name: Seq<char>) -> Option<Seq<char>> {
    let pattern = loop_pattern(name);
    match first_at(code, pattern) {
        Some(p) => {
            let after = code.subrange(p + pattern.len(), code.len() as int);
            let method = trimmed(after.subrange(0, name_end_pos(after)));
            if method.len() > 0 && !is_field(method) {
                Some(method)
            } else {
                None
            }
        },
        None => None,
    }
}

/// The method of `name` whose result `code` walks in a loop.
pub fn find_iterated(code: &Vec<char>, name: &Vec<char>) -> (r: Option<Vec<char>>)
    ensures
        match r {
            Some(m) => iterated_method(code@, name@) == Some(m@),
            None => iterated_method(code@, name@) is None,
        },
{
    let mut pattern = to_chars("of ");
    append(&mut pattern, name);
    let dot = to_chars(".");
    append(&mut pattern, &dot);
    assert(pattern@ == loop_pattern(name@));
    match find(code, &pattern) {
        None => None,
        Some(p) => {
            proof {
                lemma_first_at_from(code@, pattern@, 0);
            }
            let n = code.len();
            let start = p + pattern.len();
            let ghost after = code@.subrange(start as int, n as int);
            let mut i: usize = start;
            while i < n && !(code[i] == '(' || code[i] == ' ' || code[i] == ')' || code[i] == ';')
                invariant
                    start <= i <= n,
                    n == code.len(),
                    after == code@.subrange(start as int, n as int),
                    name_end_pos(after) == (i - start) + name_end_pos(
                        code@.subrange(i as int, n as int),
                    ),
                decreases n - i,
            {
                assert(code@.subrange(i as int, n as int).drop_first() == code@.subrange(
                    i + 1,
                    n as int,
                ));
                i += 1;
            }
            assert(after.subrange(0, i - start) == code@.subrange(start as int, i as int));
            let method = trim(&slice(code, start, i));
            if method.len() > 0 && !names_field(&method) {
                Some(method)
            } else {
                None
            }
        },
    }
}

/// The calls found so far with the methods whose results `code` walks in
/// loops, for each of the first `k` names.
pub open spec fn calls_with_iterated(
    calls: Seq<Seq<char>>,
    code: Seq<char>,
    names: Seq<Seq<char>>,
    k: int,
) -> Seq<Seq<char>>
    decreases k,
{
    if k <= 0 {
        calls
    } else {
        let before = calls_with_iterated(calls, code, names, k - 1);
        match iterated_method(code, names[k - 1]) {
            Some(method) => with_name(before, method),
            None => before,
        }
    }
}

/// The calls found in `code`: those given, those of each chain in each piece
/// between semicolons, and the methods whose results are walked in loops.
pub open spec fn second_pass(calls: Seq<Seq<char>>, names: Seq<Seq<char>>, code: Seq<char>) -> Seq<
    Seq<char>,
> {
    calls_with_iterated(
        calls_after(calls, names, pieces(code, ';')),
        code,
        names,
        names.len() as int,
    )
}

/// A recorded name that is no call: it begins with `=`, left over from the
/// right-hand side of a binding.
pub open spec fn is_artifact(name: Seq<char>) -> bool {
    let t = trimmed(name);
    t.len() > 0 && t[0] == '='
}

/// `calls` without the names that are no calls.
pub open spec fn cleaned(calls: Seq<Seq<char>>) -> Seq<Seq<char>>
    decreases calls.len(),
{
    if calls.len() == 0 {
        seq![]
    } else {
        let before = cleaned(calls.drop_last());
        if is_artifact(calls.last()) {
            before
        } else {
            with_name(before, calls.last())
        }
    }
}

/// The methods that `code` calls on `root` and on the names bound to values
/// that come from it, as a parser that starts afresh finds them.
pub open spec fn calls_in(code: Seq<char>, root: Seq<char>) -> Seq<Seq<char>> {
    cleaned(
        second_pass(
            Seq::<Seq<char>>::empty(),
            first_pass(seq!["new DataFrame"@], code, root),
            code,
        ),
    )
}

/// Finds the names that stand for table-like values in a block of code and
/// the methods called on them.
#[derive(Debug)]
pub struct FunctionParser {
    /// The names that stand for table-like values.
    pub tracking: NameSet,
    /// The names of the methods and properties called on them.
    pub functions: NameSet,
}

impl FunctionParser {
    /// Both sets are well formed.
    pub open spec fn wf(&self) -> bool {
        self.tracking.wf() && self.functions.wf()
    }

    /// A parser that knows the constructor call of the record class and has
    /// found no call yet.
    pub fn new() -> (p: Self)
        ensures
            p.tracking@ == seq!["new DataFrame"@],
            p.functions@ == Seq::<Seq<char>>::empty(),
            p.wf(),
    {
        let mut tracking = NameSet::new();
        tracking.add(to_chars("new DataFrame"));
        assert(tracking@ =~= seq!["new DataFrame"@]);
        FunctionParser { tracking, functions: NameSet::new() }
    }

    /// Adds the root and the names bound to table-like values, given as
    /// characters.
    pub fn track_bindings(&mut self, code: &Vec<char>, root: &Vec<char>)
        requires
            old(self).wf(),
        ensures
            final(self).wf(),
            final(self).tracking@ == first_pass(old(self).tracking@, code@, root@),
            final(self).functions@ == old(self).functions@,
    {
        let start = slice(root, 0, root.len());
        assert(start@ == root@);
        self.tracking.add(start);
        let lines = split_lines(code);
        let ghost all = texts(lines@);
        let ghost first = self.tracking@;
        let mut i: usize = 0;
        while i < lines.len()
            invariant
                i <= lines.len(),
                all == texts(lines@),
                self.wf(),
                self.functions@ == old(self).functions@,
                self.tracking@ == known_after(first, all.take(i as int)),
            decreases lines.len() - i,
        {
            assert(all.take(i + 1).drop_last() == all.take(i as int));
            assert(all.take(i + 1).last() == lines@[i as int]@);
            let line = &lines[i];
            match split_assignment(line) {
                Some((lhs, rhs)) => {
                    if mentions(&rhs, &self.tracking) && !is_apply_assignment(line) {
                        match extract_lhs_variables(&lhs) {
                            Some(vars) => {
                                self.tracking.add_all(&vars);
                            },
                            None => {},
                        }
                    }
                },
                None => {},
            }
            i += 1;
        }
        assert(all.take(lines.len() as int) == all);
    }

    /// Adds the calls found in the code given as characters.
    pub fn collect_calls(&mut self, code: &Vec<char>)
        requires
            old(self).wf(),
        ensures
            final(self).wf(),
            final(self).tracking@ == old(self).tracking@,
            final(self).functions@ == second_pass(
                old(self).functions@,
                old(self).tracking@,
                code@,
            ),
    {
        let parts = split_on(code, ';');
        let ghost all = texts(parts@);
        let ghost names = self.tracking@;
        let ghost calls = self.functions@;
        let mut i: usize = 0;
        while i < parts.len()
            invariant
                i <= parts.len(),
                all == texts(parts@),
                self.wf(),
                self.tracking@ == names,
                self.functions@ == calls_after(calls, names, all.take(i as int)),
            decreases parts.len() - i,
        {
            assert(all.take(i + 1).drop_last() == all.take(i as int));
            assert(all.take(i + 1).last() == parts@[i as int]@);
            let stmt = trim(&parts[i]);
            if stmt.len() > 0 {
                match find_chain(&stmt, &self.tracking) {
                    Some((_, called)) => {
                        self.functions.add_all(&called);
                    },
                    None => {},
                }
            }
            i += 1;
        }
        assert(all.take(parts.len() as int) == all);
        let ghost found = self.functions@;
        let mut k: usize = 0;
        while k < self.tracking.len()
            invariant
                k <= self.tracking@.len(),
                self.wf(),
                self.tracking@ == names,
                self.functions@ == calls_with_iterated(found, code@, names, k as int),
            decreases self.tracking@.len() - k,
        {
            match find_iterated(code, self.tracking.at(k)) {
                Some(method) => {
                    self.functions.add(method);
                },
                None => {},
            }
            k += 1;
        }
    }

    /// Drops the recorded names that begin with `=`.
    pub fn clean_methods(&mut self)
        requires
            old(self).wf(),
        ensures
            final(self).wf(),
            final(self).tracking@ == old(self).tracking@,
            final(self).functions@ == cleaned(old(self).functions@),
    {
        let mut kept = NameSet::new();
        let ghost all = self.functions@;
        let mut i: usize = 0;
        while i < self.functions.len()
            invariant
                i <= self.functions@.len(),
                all == self.functions@,
                self.tracking@ == old(self).tracking@,
                self.tracking.wf(),
                kept.wf(),
                kept@ == cleaned(all.take(i as int)),
            decreases self.functions@.len() - i,
        {
            assert(all.take(i + 1).drop_last() == all.take(i as int));
            assert(all.take(i + 1).last() == all[i as int]);
            let name = self.functions.at(i);
            let t = trim(name);
            if !(t.len() > 0 && t[0] == '=') {
                let copy = slice(name, 0, name.len());
                assert(copy@ == name@);
                kept.add(copy);
            }
            i += 1;
        }
        assert(all.take(all.len() as int) == all);
        self.functions = kept;
    }

    /// Parses the code given as characters: see `parse`.
    pub fn parse_chars(&mut self, code: &Vec<char>, root: &Vec<char>)
        requires
            old(self).wf(),
        ensures
            final(self).wf(),
            final(self).tracking@ == first_pass(old(self).tracking@, code@, root@),
            final(self).functions@ == cleaned(
                second_pass(old(self).functions@, final(self).tracking@, code@),
            ),
    {
        self.track_bindings(code, root);
        self.collect_calls(code);
        self.clean_methods();
    }

    /// Adds the root and every name that `code` binds, line by line, to a
    /// value that mentions a name known so far, unless the line calls the
    /// per-row transformation method.
    pub fn first_pass_assignments(&mut self, code: &str, initial_substr: &str)
        requires
            old(self).wf(),
        ensures
            final(self).wf(),
            final(self).tracking@ == first_pass(old(self).tracking@, code@, initial_substr@),
            final(self).functions@ == old(self).functions@,
    {
        let chars = to_chars(code);
        let root = to_chars(initial_substr);
        self.track_bindings(&chars, &root);
    }

    /// Adds the calls that `code` makes on the known names: in each piece
    /// between semicolons, the chain on the longest name that heads one; and
    /// for each known name, the method whose result a loop walks.
    pub fn second_pass_methods(&mut self, code: &str)
        requires
            old(self).wf(),
        ensures
            final(self).wf(),
            final(self).tracking@ == old(self).tracking@,
            final(self).functions@ == second_pass(
                old(self).functions@,
                old(self).tracking@,
                code@,
            ),
    {
        let chars = to_chars(code);
        self.collect_calls(&chars);
    }

    /// The chain that the statement `code` holds: the known name that heads
    /// it and the names called on it.
    pub fn find_methods_in_chain(&self, code: &str) -> (r: Option<(String, Vec<String>)>)
        ensures
            match r {
                Some(c) => chain(code@, self.tracking@) == Some((c.0@, strings(c.1@))),
                None => chain(code@, self.tracking@) is None,
            },
    {
        let chars = to_chars(code);
        match find_chain(&chars, &self.tracking) {
            None => None,
            Some((anchor, called)) => {
                let mut out: Vec<String> = Vec::new();
                let mut i: usize = 0;
                while i < called.len()
                    invariant
                        i <= called.len(),
                        out.len() == i,
                        forall|k: int| 0 <= k < i ==> out@[k]@ == called@[k]@,
                    decreases called.len() - i,
                {
                    out.push(to_string(&called[i]));
                    i += 1;
                }
                assert(strings(out@) =~= texts(called@));
                Some((to_string(&anchor), out))
            },
        }
    }

    /// Finds the table-like names of `code`, starting from the root
    /// `initial_substr`, and the methods called on them.
    pub fn parse(&mut self, code: &str, initial_substr: &str)
        requires
            old(self).wf(),
        ensures
            final(self).wf(),
            final(self).tracking@ == first_pass(old(self).tracking@, code@, initial_substr@),
            final(self).functions@ == cleaned(
                second_pass(old(self).functions@, final(self).tracking@, code@),
            ),
    {
        let chars = to_chars(code);
        let root = to_chars(initial_substr);
        self.parse_chars(&chars, &root);
    }

    /// The methods that the code given as characters calls on `root` and on
    /// the names bound to values that come from it.
    pub fn find_calls(code: &Vec<char>, root: &Vec<char>) -> (r: NameSet)
        ensures
            r@ == calls_in(code@, root@),
            r.wf(),
    {
        let mut parser = FunctionParser::new();
        parser.parse_chars(code, root);
        parser.functions
    }

    /// The names of the methods found, in the order in which they were found.
    pub fn get_methods(&self) -> (r: Vec<String>)
        ensures
            strings(r@) == self.functions@,
    {
        self.functions.to_vec()
    }
}

} // verus!
