//! Trimming, splitting and joining of texts.

use crate::text::{
    append, find_char_from, first_pos, has_at, is_space, is_space_char, occurs_at, slice, tally,
    count_char,
};
use vstd::prelude::*;

verus! {

/// The texts that a vector of character vectors holds, in order.
pub open spec fn texts(v: Seq<Vec<char>>) -> Seq<Seq<char>> {
    v.map_values(|t: Vec<char>| t@)
}

/// Pushing a vector pushes its text.
pub proof fn lemma_texts_push(v: Seq<Vec<char>>, t: Vec<char>)
    ensures
        texts(v.push(t)) == texts(v).push(t@),
{
    assert(texts(v.push(t)) =~= texts(v).push(t@));
}

/// `s` without the white space it begins with.
pub open spec fn without_leading_space(s: Seq<char>) -> Seq<char>
    decreases s.len(),
{
    if s.len() > 0 && is_space(s[0]) {
        without_leading_space(s.drop_first())
    } else {
        s
    }
}

/// `s` without the white space it ends with.
pub open spec fn without_trailing_space(s: Seq<char>) -> Seq<char>
    decreases s.len(),
{
    if s.len() > 0 && is_space(s.last()) {
        without_trailing_space(s.drop_last())
    } else {
        s
    }
}

/// `s` without the white space at either end.
pub open spec fn trimmed(s: Seq<char>) -> Seq<char> {
    without_trailing_space(without_leading_space(s))
}

/// The position at or after `from` where the white space that starts at
/// `from` ends.
pub fn skip_space(s: &Vec<char>, from: usize) -> (r: usize)
    requires
        from <= s.len(),
    ensures
        from <= r <= s.len(),
        s@.subrange(r as int, s.len() as int) == without_leading_space(
            s@.subrange(from as int, s.len() as int),
        ),
{
    let n = s.len();
    let mut i: usize = from;
    while i < n && is_space_char(s[i])
        invariant
            from <= i <= n,
            n == s.len(),
            without_leading_space(s@.subrange(from as int, n as int)) == without_leading_space(
                s@.subrange(i as int, n as int),
            ),
        decreases n - i,
    {
        assert(s@.subrange(i as int, n as int).drop_first() == s@.subrange(i + 1, n as int));
        i += 1;
    }
    i
}

/// The position at or before `end` where the white space that ends at `end`
/// begins.
pub fn back_space(s: &Vec<char>, end: usize) -> (r: usize)
    requires
        end <= s.len(),
    ensures
        r <= end,
        s@.subrange(0, r as int) == without_trailing_space(s@.subrange(0, end as int)),
{
    let mut j: usize = end;
    while j > 0 && is_space_char(s[j - 1])
        invariant
            j <= end <= s.len(),
            without_trailing_space(s@.subrange(0, end as int)) == without_trailing_space(
                s@.subrange(0, j as int),
            ),
        decreases j,
    {
        assert(s@.subrange(0, j as int).drop_last() == s@.subrange(0, j - 1));
        j -= 1;
    }
    j
}

/// `s` without the white space it begins with.
pub fn trim_start(s: &Vec<char>) -> (r: Vec<char>)
    ensures
        r@ == without_leading_space(s@),
{
    assert(s@.subrange(0, s.len() as int) == s@);
    let i = skip_space(s, 0);
    slice(s, i, s.len())
}

/// `s` without the white space it ends with.
pub fn trim_end(s: &Vec<char>) -> (r: Vec<char>)
    ensures
        r@ == without_trailing_space(s@),
{
    assert(s@.subrange(0, s.len() as int) == s@);
    let j = back_space(s, s.len());
    slice(s, 0, j)
}

/// `s` without the white space at either end.
pub fn trim(s: &Vec<char>) -> (r: Vec<char>)
    ensures
        r@ == trimmed(s@),
{
    let t = trim_start(s);
    trim_end(&t)
}

/// `s` without the run of `c` it ends with.
pub open spec fn without_trailing(s: Seq<char>, c: char) -> Seq<char>
    decreases s.len(),
{
    if s.len() > 0 && s.last() == c {
        without_trailing(s.drop_last(), c)
    } else {
        s
    }
}

/// `s` without the run of `c` it ends with.
pub fn strip_trailing(s: &Vec<char>, c: char) -> (r: Vec<char>)
    ensures
        r@ == without_trailing(s@, c),
{
    let mut j: usize = s.len();
    assert(s@.subrange(0, s.len() as int) == s@);
    while j > 0 && s[j - 1] == c
        invariant
            j <= s.len(),
            without_trailing(s@, c) == without_trailing(s@.subrange(0, j as int), c),
        decreases j,
    {
        assert(s@.subrange(0, j as int).drop_last() == s@.subrange(0, j - 1));
        j -= 1;
    }
    slice(s, 0, j)
}

/// The part of `s` before its first `c`; all of `s` where it holds none.
pub open spec fn before_char(s: Seq<char>, c: char) -> Seq<char> {
    s.subrange(0, first_pos(s, c))
}

/// The part of `s` before its first `c`; all of `s` where it holds none.
pub fn take_before(s: &Vec<char>, c: char) -> (r: Vec<char>)
    ensures
        r@ == before_char(s@, c),
{
    let p = find_char_from(s, c, 0);
    assert(s@.subrange(0, s.len() as int) == s@);
    slice(s, 0, p)
}

/// The pieces of `s` between the occurrences of `sep`; one more than there
/// are occurrences.
pub open spec fn pieces(s: Seq<char>, sep: char) -> Seq<Seq<char>>
    decreases s.len(),
{
    let p = first_pos(s, sep);
    if 0 <= p < s.len() {
        seq![s.subrange(0, p)] + pieces(s.subrange(p + 1, s.len() as int), sep)
    } else {
        seq![s]
    }
}

/// The pieces of `s` between the occurrences of `sep`.
pub fn split_on(s: &Vec<char>, sep: char) -> (r: Vec<Vec<char>>)
    ensures
        texts(r@) == pieces(s@, sep),
{
    let n = s.len();
    let mut r: Vec<Vec<char>> = Vec::new();
    let mut start: usize = 0;
    assert(s@.subrange(0, n as int) == s@);
    assert(texts(r@) + pieces(s@, sep) == pieces(s@, sep));
    loop
        invariant
            start <= n,
            n == s.len(),
            texts(r@) + pieces(s@.subrange(start as int, n as int), sep) == pieces(s@, sep),
        decreases n - start,
    {
        let p = find_char_from(s, sep, start);
        let part = slice(s, start, p);
        let ghost rest = s@.subrange(start as int, n as int);
        let ghost before = r@;
        r.push(part);
        proof {
            lemma_texts_push(before, part);
            assert(rest.subrange(0, p - start) == part@);
        }
        if p == n {
            assert(rest.subrange(0, rest.len() as int) == rest);
            assert(texts(before) + seq![rest] == texts(before).push(rest));
            return r;
        }
        proof {
            assert(rest.subrange(p - start + 1, rest.len() as int) == s@.subrange(
                p + 1,
                n as int,
            ));
            let tail = pieces(s@.subrange(p + 1, n as int), sep);
            assert(texts(before) + (seq![part@] + tail) == texts(before).push(part@) + tail);
        }
        start = p + 1;
    }
}

/// `s` without the carriage return it ends with, if it ends with one.
pub open spec fn without_cr(s: Seq<char>) -> Seq<char> {
    if s.len() > 0 && s.last() == '\r' {
        s.drop_last()
    } else {
        s
    }
}

/// The lines of `s`: the runs between line feeds, each without the carriage
/// return before its line feed. A line feed at the very end opens no further
/// line, and the empty text has no line.
pub open spec fn lines_of(s: Seq<char>) -> Seq<Seq<char>>
    decreases s.len(),
{
    if s.len() == 0 {
        seq![]
    } else {
        let p = first_pos(s, '\n');
        if 0 <= p < s.len() {
            seq![without_cr(s.subrange(0, p))] + lines_of(s.subrange(p + 1, s.len() as int))
        } else {
            seq![s]
        }
    }
}

/// The lines of `s`.
pub fn split_lines(s: &Vec<char>) -> (r: Vec<Vec<char>>)
    ensures
        texts(r@) == lines_of(s@),
{
    let n = s.len();
    let mut r: Vec<Vec<char>> = Vec::new();
    let mut start: usize = 0;
    assert(s@.subrange(0, n as int) == s@);
    assert(texts(r@) + lines_of(s@) == lines_of(s@));
    while start < n
        invariant
            start <= n,
            n == s.len(),
            texts(r@) + lines_of(s@.subrange(start as int, n as int)) == lines_of(s@),
        decreases n - start,
    {
        let p = find_char_from(s, '\n', start);
        let ghost rest = s@.subrange(start as int, n as int);
        let ghost before = r@;
        if p == n {
            let part = slice(s, start, n);
            r.push(part);
            proof {
                lemma_texts_push(before, part);
                assert(texts(before) + seq![rest] == texts(before).push(rest));
            }
            return r;
        }
        let end = if p > start && s[p - 1] == '\r' {
            p - 1
        } else {
            p
        };
        let part = slice(s, start, end);
        r.push(part);
        proof {
            lemma_texts_push(before, part);
            let raw = rest.subrange(0, p - start);
            assert(raw == s@.subrange(start as int, p as int));
            if p > start && s@[p - 1] == '\r' {
                assert(raw.last() == '\r');
                assert(raw.drop_last() == part@);
            } else {
                assert(raw == part@);
                if raw.len() > 0 {
                    assert(raw.last() == s@[p - 1]);
                }
            }
            assert(without_cr(raw) == part@);
            assert(rest.subrange(p - start + 1, rest.len() as int) == s@.subrange(
                p + 1,
                n as int,
            ));
            let tail = lines_of(s@.subrange(p + 1, n as int));
            assert(texts(before) + (seq![part@] + tail) == texts(before).push(part@) + tail);
        }
        start = p + 1;
    }
    assert(texts(r@) + Seq::<Seq<char>>::empty() == texts(r@));
    r
}

/// The texts of `parts` in a row, with `sep` between each two.
pub open spec fn joined(parts: Seq<Seq<char>>, sep: Seq<char>) -> Seq<char>
    decreases parts.len(),
{
    if parts.len() == 0 {
        seq![]
    } else if parts.len() == 1 {
        parts[0]
    } else {
        joined(parts.drop_last(), sep) + sep + parts.last()
    }
}

/// The texts of `parts` in a row, with `sep` between each two.
pub fn join(parts: &Vec<Vec<char>>, sep: &Vec<char>) -> (r: Vec<char>)
    ensures
        r@ == joined(texts(parts@), sep@),
{
    let mut r: Vec<char> = Vec::new();
    let mut i: usize = 0;
    while i < parts.len()
        invariant
            i <= parts.len(),
            r@ == joined(texts(parts@).take(i as int), sep@),
        decreases parts.len() - i,
    {
        let ghost upto = texts(parts@).take(i + 1);
        assert(upto.drop_last() == texts(parts@).take(i as int));
        assert(upto.last() == parts@[i as int]@);
        if i > 0 {
            append(&mut r, sep);
        }
        append(&mut r, &parts[i]);
        proof {
            if i == 0 {
                assert(upto[0] == parts@[0]@);
                assert(r@ == parts@[0]@);
            }
        }
        i += 1;
    }
    assert(texts(parts@).take(parts.len() as int) == texts(parts@));
    r
}

/// The texts of `lines` in a row, each followed by a line feed.
pub open spec fn stacked(lines: Seq<Seq<char>>) -> Seq<char>
    decreases lines.len(),
{
    if lines.len() == 0 {
        seq![]
    } else {
        stacked(lines.drop_last()) + lines.last() + seq!['\n']
    }
}

/// Appends `line` and a line feed to `dst`.
pub fn push_line(dst: &mut Vec<char>, line: &Vec<char>)
    ensures
        final(dst)@ == old(dst)@ + line@ + seq!['\n'],
{
    append(dst, line);
    dst.push('\n');
    assert(dst@ == old(dst)@ + line@ + seq!['\n']);
}

/// `hay` without the occurrences of `needle`, taken from the left and not
/// overlapping; `hay` itself where `needle` is empty.
pub open spec fn without(hay: Seq<char>, needle: Seq<char>) -> Seq<char>
    decreases hay.len(),
{
    if needle.len() == 0 || hay.len() == 0 {
        hay
    } else if occurs_at(hay, needle, 0) {
        without(hay.subrange(needle.len() as int, hay.len() as int), needle)
    } else {
        seq![hay[0]] + without(hay.drop_first(), needle)
    }
}

/// `hay` without the occurrences of `needle`.
pub fn remove_all(hay: &Vec<char>, needle: &Vec<char>) -> (r: Vec<char>)
    ensures
        r@ == without(hay@, needle@),
{
    let n = hay.len();
    let m = needle.len();
    if m == 0 {
        let r = slice(hay, 0, n);
        assert(hay@.subrange(0, n as int) == hay@);
        return r;
    }
    let mut r: Vec<char> = Vec::new();
    let mut i: usize = 0;
    assert(hay@.subrange(0, n as int) == hay@);
    assert(r@ + without(hay@, needle@) == without(hay@, needle@));
    while i < n
        invariant
            i <= n,
            n == hay.len(),
            m == needle.len(),
            m > 0,
            r@ + without(hay@.subrange(i as int, n as int), needle@) == without(hay@, needle@),
        decreases n - i,
    {
        let ghost rest = hay@.subrange(i as int, n as int);
        let ghost before = r@;
        let hit = has_at(hay, needle, i);
        proof {
            if i + m <= n {
                assert(rest.subrange(0, m as int) == hay@.subrange(i as int, i + m));
            }
            assert(hit == occurs_at(rest, needle@, 0));
        }
        if hit {
            assert(rest.subrange(m as int, rest.len() as int) == hay@.subrange(i + m, n as int));
            i += m;
        } else {
            r.push(hay[i]);
            proof {
                assert(rest.drop_first() == hay@.subrange(i + 1, n as int));
                let tail = without(hay@.subrange(i + 1, n as int), needle@);
                assert(before + (seq![rest[0]] + tail) == before.push(rest[0]) + tail);
            }
            i += 1;
        }
    }
    assert(r@ + Seq::<char>::empty() == r@);
    r
}

/// The nesting depth after `line`, given the depth before it: each `open`
/// adds one, then each `close` takes one away, never below zero.
pub open spec fn depth_after(depth: nat, line: Seq<char>, open: char, close: char) -> nat {
    let up = depth + tally(line, open);
    let down = tally(line, close);
    if up >= down {
        (up - down) as nat
    } else {
        0
    }
}

/// The greatest depth from which a line can still be counted.
pub const DEPTH_MAX: u128 = 0xffff_ffff_ffff_ffff_0000_0000_0000_0000;

/// The most that one line can add to the depth.
pub const LINE_MAX: u128 = 0xffff_ffff_ffff_ffff;

/// The nesting depth after `line`, given the depth before it.
pub fn advance(depth: u128, line: &Vec<char>, open: char, close: char) -> (r: u128)
    requires
        depth <= DEPTH_MAX,
    ensures
        r == depth_after(depth as nat, line@, open, close),
        r <= depth + LINE_MAX,
{
    let opens = count_char(line, open);
    let closes = count_char(line, close);
    let up: u128 = depth + opens as u128;
    let down: u128 = closes as u128;
    if up >= down {
        up - down
    } else {
        0
    }
}

/// The position of the first white-space character in `s`, or the length
/// of `s` where it holds none.
pub open spec fn space_pos(s: Seq<char>) -> int
    decreases s.len(),
{
    if s.len() == 0 || is_space(s[0]) {
        0
    } else {
        1 + space_pos(s.drop_first())
    }
}

/// The first run of characters of `s` that are not white space, if there is one.
pub open spec fn first_word(s: Seq<char>) -> Option<Seq<char>> {
    let t = without_leading_space(s);
    if t.len() == 0 {
        None
    } else {
        Some(t.subrange(0, space_pos(t)))
    }
}

/// The first run of characters of `s` that are not white space, if there is one.
pub fn take_first_word(s: &Vec<char>) -> (r: Option<Vec<char>>)
    ensures
        match r {
            Some(w) => first_word(s@) == Some(w@),
            None => first_word(s@) is None,
        },
{
    let n = s.len();
    assert(s@.subrange(0, n as int) == s@);
    let start = skip_space(s, 0);
    if start == n {
        return None;
    }
    let ghost t = s@.subrange(start as int, n as int);
    let mut i: usize = start;
    while i < n && !is_space_char(s[i])
        invariant
            start <= i <= n,
            n == s.len(),
            t == s@.subrange(start as int, n as int),
            space_pos(t) == (i - start) + space_pos(s@.subrange(i as int, n as int)),
        decreases n - i,
    {
        assert(s@.subrange(i as int, n as int).drop_first() == s@.subrange(i + 1, n as int));
        i += 1;
    }
    assert(t.subrange(0, i - start) == s@.subrange(start as int, i as int));
    Some(slice(s, start, i))
}

/// The two square brackets.
pub open spec fn is_bracket(c: char) -> bool {
    c == '[' || c == ']'
}

/// `s` without the square brackets it begins with.
pub open spec fn without_leading_brackets(s: Seq<char>) -> Seq<char>
    decreases s.len(),
{
    if s.len() > 0 && is_bracket(s[0]) {
        without_leading_brackets(s.drop_first())
    } else {
        s
    }
}

/// `s` without the square brackets it ends with.
pub open spec fn without_trailing_brackets(s: Seq<char>) -> Seq<char>
    decreases s.len(),
{
    if s.len() > 0 && is_bracket(s.last()) {
        without_trailing_brackets(s.drop_last())
    } else {
        s
    }
}

/// `s` without the square brackets at either end.
pub open spec fn without_brackets(s: Seq<char>) -> Seq<char> {
    without_trailing_brackets(without_leading_brackets(s))
}

/// `s` without the square brackets at either end.
pub fn strip_brackets(s: &Vec<char>) -> (r: Vec<char>)
    ensures
        r@ == without_brackets(s@),
{
    let n = s.len();
    let mut i: usize = 0;
    assert(s@.subrange(0, n as int) == s@);
    while i < n && (s[i] == '[' || s[i] == ']')
        invariant
            i <= n,
            n == s.len(),
            without_leading_brackets(s@) == without_leading_brackets(
                s@.subrange(i as int, n as int),
            ),
        decreases n - i,
    {
        assert(s@.subrange(i as int, n as int).drop_first() == s@.subrange(i + 1, n as int));
        i += 1;
    }
    let ghost rest = s@.subrange(i as int, n as int);
    let mut j: usize = n;
    assert(rest.subrange(0, rest.len() as int) == rest);
    while j > i && (s[j - 1] == '[' || s[j - 1] == ']')
        invariant
            i <= j <= n,
            n == s.len(),
            rest == s@.subrange(i as int, n as int),
            without_trailing_brackets(rest) == without_trailing_brackets(rest.subrange(0, j - i)),
        decreases j,
    {
        assert(rest.subrange(0, j - i).drop_last() == rest.subrange(0, j - 1 - i));
        j -= 1;
    }
    assert(rest.subrange(0, j - i) == s@.subrange(i as int, j as int));
    slice(s, i, j)
}

} // verus!
