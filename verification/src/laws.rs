//! What holds of the reduction as a whole.

use crate::code_parser::{
    anchor_upto, assignment_sides, bound_names, calls_in, first_pass, heads_chain, known_after,
};
use crate::compile::{compiled, library_alias};
use crate::graph::{
    alias_root, alias_target, aliased, call_graph, closed, constructor_name, has_edge,
    is_required, is_seed, lemma_reachable_step, reachable, reached_within, required_listing,
};
use crate::names::{keys, lookup, with_name, with_names};
use crate::preprocess::{each_trimmed_end, is_blank, preprocessed, squeezed_from, uncommented};
use crate::source::{
    assembled, blocks, constructor_word, in_block, library_lines, library_lines_from, library_of,
    namespace_marker, pruned_header, region_at, resolved_key, resolved_upto, user_lines,
    user_lines_from, user_of, Region,
};
use crate::split::{depth_after, joined, lines_of, stacked, without_cr, without_trailing_space};
use crate::text::{
    first_at, first_pos, has_sub, is_space, lemma_first_pos, lemma_first_pos_unique, occurs_at,
    utf8_len,
};
use vstd::prelude::*;

verus! {

/// `c` takes each of its items, in order, from the front of `a` or of `b`,
/// and uses both up.
pub open spec fn interleaves(a: Seq<Seq<char>>, b: Seq<Seq<char>>, c: Seq<Seq<char>>) -> bool
    decreases c.len(),
{
    if c.len() == 0 {
        a.len() == 0 && b.len() == 0
    } else {
        ||| a.len() > 0 && a[0] == c[0] && interleaves(a.drop_first(), b, c.drop_first())
        ||| b.len() > 0 && b[0] == c[0] && interleaves(a, b.drop_first(), c.drop_first())
    }
}

/// From any line on, in any state, each line goes to exactly one section.
pub proof fn lemma_sections_interleave_from(
    lines: Seq<Seq<char>>,
    i: int,
    region: Region,
    depth: nat,
)
    requires
        0 <= i <= lines.len(),
    ensures
        interleaves(
            library_lines_from(lines, i, region, depth),
            user_lines_from(lines, i, region, depth),
            lines.subrange(i, lines.len() as int),
        ),
    decreases lines.len() - i,
{
    let rest = lines.subrange(i, lines.len() as int);
    if i < lines.len() {
        let lib = library_lines_from(lines, i, region, depth);
        let user = user_lines_from(lines, i, region, depth);
        assert(rest.drop_first() == lines.subrange(i + 1, lines.len() as int));
        assert(rest[0] == lines[i]);
        if in_block(region, lines[i]) {
            let d = depth_after(depth, lines[i], '{', '}');
            lemma_sections_interleave_from(lines, i + 1, region_at(d), d);
            assert(lib.drop_first() == library_lines_from(lines, i + 1, region_at(d), d));
        } else {
            lemma_sections_interleave_from(lines, i + 1, region, depth);
            assert(user.drop_first() == user_lines_from(lines, i + 1, region, depth));
        }
    }
}

/// Every line of a script stands in exactly one of its two sections, and
/// each section keeps the lines in their order.
pub proof fn lemma_every_line_in_one_section(lines: Seq<Seq<char>>)
    ensures
        interleaves(library_lines(lines), user_lines(lines), lines),
{
    lemma_sections_interleave_from(lines, 0, Region::Before, 0);
    assert(lines.subrange(0, lines.len() as int) == lines);
}

/// Once the library block is closed, every line goes to the user section.
pub proof fn lemma_after_block(lines: Seq<Seq<char>>, i: int, depth: nat)
    requires
        0 <= i <= lines.len(),
    ensures
        library_lines_from(lines, i, Region::After, depth) == Seq::<Seq<char>>::empty(),
        user_lines_from(lines, i, Region::After, depth) == lines.subrange(i, lines.len() as int),
    decreases lines.len() - i,
{
    if i < lines.len() {
        lemma_after_block(lines, i + 1, depth);
        assert(seq![lines[i]] + lines.subrange(i + 1, lines.len() as int) == lines.subrange(
            i,
            lines.len() as int,
        ));
    } else {
        assert(lines.subrange(i, lines.len() as int) == Seq::<Seq<char>>::empty());
    }
}

/// Inside the library block, the lines up to some line go to the library
/// section and all that follow go to the user section.
pub proof fn lemma_inside_block(lines: Seq<Seq<char>>, i: int, depth: nat) -> (e: int)
    requires
        0 <= i <= lines.len(),
    ensures
        i <= e <= lines.len(),
        library_lines_from(lines, i, Region::Inside, depth) == lines.subrange(i, e),
        user_lines_from(lines, i, Region::Inside, depth) == lines.subrange(e, lines.len() as int),
    decreases lines.len() - i,
{
    if i < lines.len() {
        let d = depth_after(depth, lines[i], '{', '}');
        let e = if d == 0 {
            lemma_after_block(lines, i + 1, d);
            i + 1
        } else {
            lemma_inside_block(lines, i + 1, d)
        };
        assert(seq![lines[i]] + lines.subrange(i + 1, e) == lines.subrange(i, e));
        e
    } else {
        assert(lines.subrange(i, i) == Seq::<Seq<char>>::empty());
        assert(lines.subrange(i, lines.len() as int) == Seq::<Seq<char>>::empty());
        i
    }
}

/// The library section is one run of lines of the script, and the user
/// section is what stands before and after that run.
pub proof fn lemma_library_is_one_block(lines: Seq<Seq<char>>) -> (bounds: (int, int))
    ensures
        0 <= bounds.0 <= bounds.1 <= lines.len(),
        library_lines(lines) == lines.subrange(bounds.0, bounds.1),
        user_lines(lines) == lines.subrange(0, bounds.0) + lines.subrange(
            bounds.1,
            lines.len() as int,
        ),
        bounds.0 < bounds.1 ==> has_sub(lines[bounds.0], namespace_marker()),
        forall|k: int| 0 <= k < bounds.0 ==> !has_sub(#[trigger] lines[k], namespace_marker()),
{
    lemma_block_starts_at_marker(lines, 0)
}

/// The run of library lines starts at the first line that holds the
/// namespace marker.
pub proof fn lemma_block_starts_at_marker(lines: Seq<Seq<char>>, i: int) -> (bounds: (int, int))
    requires
        0 <= i <= lines.len(),
    ensures
        i <= bounds.0 <= bounds.1 <= lines.len(),
        library_lines_from(lines, i, Region::Before, 0) == lines.subrange(bounds.0, bounds.1),
        user_lines_from(lines, i, Region::Before, 0) == lines.subrange(i, bounds.0)
            + lines.subrange(bounds.1, lines.len() as int),
        bounds.0 < bounds.1 ==> has_sub(lines[bounds.0], namespace_marker()),
        forall|k: int| i <= k < bounds.0 ==> !has_sub(#[trigger] lines[k], namespace_marker()),
    decreases lines.len() - i,
{
    let n = lines.len() as int;
    if i < n {
        if in_block(Region::Before, lines[i]) {
            let d = depth_after(0, lines[i], '{', '}');
            let e = if d == 0 {
                lemma_after_block(lines, i + 1, d);
                i + 1
            } else {
                lemma_inside_block(lines, i + 1, d)
            };
            assert(seq![lines[i]] + lines.subrange(i + 1, e) == lines.subrange(i, e));
            assert(lines.subrange(i, i) + lines.subrange(e, n) == lines.subrange(e, n));
            (i, e)
        } else {
            let (s, e) = lemma_block_starts_at_marker(lines, i + 1);
            assert(seq![lines[i]] + (lines.subrange(i + 1, s) + lines.subrange(e, n))
                == lines.subrange(i, s) + lines.subrange(e, n));
            (s, e)
        }
    } else {
        assert(lines.subrange(i, i) == Seq::<Seq<char>>::empty());
        assert(lines.subrange(i, i) + lines.subrange(i, n) == Seq::<Seq<char>>::empty());
        (i, i)
    }
}

/// Where no line from `i` on holds the namespace marker, none of them goes
/// to the library section.
pub proof fn lemma_no_marker_from(lines: Seq<Seq<char>>, i: int)
    requires
        0 <= i <= lines.len(),
        forall|k: int| 0 <= k < lines.len() ==> !has_sub(#[trigger] lines[k], namespace_marker()),
    ensures
        library_lines_from(lines, i, Region::Before, 0) == Seq::<Seq<char>>::empty(),
        user_lines_from(lines, i, Region::Before, 0) == lines.subrange(i, lines.len() as int),
    decreases lines.len() - i,
{
    if i < lines.len() {
        lemma_no_marker_from(lines, i + 1);
        assert(!in_block(Region::Before, lines[i]));
        assert(seq![lines[i]] + lines.subrange(i + 1, lines.len() as int) == lines.subrange(
            i,
            lines.len() as int,
        ));
    } else {
        assert(lines.subrange(i, lines.len() as int) == Seq::<Seq<char>>::empty());
    }
}

/// Every line of a text is a part of the text.
pub proof fn lemma_line_is_part(s: Seq<char>, k: int)
    requires
        0 <= k < lines_of(s).len(),
    ensures
        exists|a: int, b: int| 0 <= a <= b <= s.len() && lines_of(s)[k] == #[trigger] s.subrange(a, b),
    decreases s.len(),
{
    let p = first_pos(s, '\n');
    lemma_first_pos(s, '\n');
    if s.len() == 0 {
    } else if p < s.len() {
        let head = s.subrange(0, p);
        let rest = s.subrange(p + 1, s.len() as int);
        if k == 0 {
            if head.len() > 0 && head.last() == '\r' {
                assert(without_cr(head) == s.subrange(0, p - 1));
            } else {
                assert(without_cr(head) == s.subrange(0, p));
            }
        } else {
            assert(lines_of(s)[k] == lines_of(rest)[k - 1]);
            lemma_line_is_part(rest, k - 1);
            let (a, b) = choose|a: int, b: int|
                0 <= a <= b <= rest.len() && lines_of(rest)[k - 1] == #[trigger] rest.subrange(a, b);
            assert(rest.subrange(a, b) == s.subrange(p + 1 + a, p + 1 + b));
        }
    } else {
        assert(lines_of(s)[0] == s.subrange(0, s.len() as int));
    }
}

/// A text that does not hold `needle` has no line that holds it.
pub proof fn lemma_lines_without(s: Seq<char>, needle: Seq<char>)
    requires
        !has_sub(s, needle),
    ensures
        forall|k: int| 0 <= k < lines_of(s).len() ==> !has_sub(#[trigger] lines_of(s)[k], needle),
{
    assert forall|k: int| 0 <= k < lines_of(s).len() implies !has_sub(
        #[trigger] lines_of(s)[k],
        needle,
    ) by {
        let line = lines_of(s)[k];
        if has_sub(line, needle) {
            lemma_line_is_part(s, k);
            let (a, b) = choose|a: int, b: int|
                0 <= a <= b <= s.len() && lines_of(s)[k] == #[trigger] s.subrange(a, b);
            let i = choose|i: int| occurs_at(line, needle, i);
            assert(s.subrange(a + i, a + i + needle.len()) == line.subrange(i, i + needle.len()));
            assert(occurs_at(s, needle, a + i));
        }
    }
}

/// A line as it stands in a text that is made of whole lines: it holds no
/// line feed and does not end with a carriage return.
pub open spec fn plain_line(line: Seq<char>) -> bool {
    !line.contains('\n') && (line.len() == 0 || line.last() != '\r')
}

/// Stacking a line before others puts it, and a line feed, before their text.
pub proof fn lemma_stacked_front(line: Seq<char>, rest: Seq<Seq<char>>)
    ensures
        stacked(seq![line] + rest) == line + seq!['\n'] + stacked(rest),
    decreases rest.len(),
{
    let all = seq![line] + rest;
    if rest.len() == 0 {
        assert(all.drop_last() == Seq::<Seq<char>>::empty());
        assert(all.last() == line);
        assert(stacked(all.drop_last()) == Seq::<char>::empty());
        assert(Seq::<char>::empty() + line + seq!['\n'] == line + seq!['\n']);
        assert(stacked(all) == line + seq!['\n']);
        assert(line + seq!['\n'] + stacked(rest) == line + seq!['\n']);
    } else {
        assert(all.drop_last() == seq![line] + rest.drop_last());
        assert(all.last() == rest.last());
        lemma_stacked_front(line, rest.drop_last());
        assert(line + seq!['\n'] + stacked(rest.drop_last()) + rest.last() + seq!['\n'] == line
            + seq!['\n'] + (stacked(rest.drop_last()) + rest.last() + seq!['\n']));
    }
}

/// The lines of a plain line, a line feed and a text are the line and the
/// lines of the text.
pub proof fn lemma_lines_of_front(line: Seq<char>, rest: Seq<char>)
    requires
        plain_line(line),
    ensures
        lines_of(line + seq!['\n'] + rest) == seq![line] + lines_of(rest),
{
    let text = line + seq!['\n'] + rest;
    let p = line.len() as int;
    assert(text[p] == '\n');
    assert forall|j: int| 0 <= j < p implies text[j] != '\n' by {
        assert(text[j] == line[j]);
        assert(line.contains(line[j]));
    }
    lemma_first_pos_unique(text, '\n', p);
    assert(text.subrange(0, p) == line);
    assert(text.subrange(p + 1, text.len() as int) == rest);
    assert(without_cr(line) == line);
}

/// A text made of plain lines, each followed by a line feed, is the stack of
/// its own lines.
pub proof fn lemma_whole_lines(line: Seq<char>, rest: Seq<char>)
    requires
        plain_line(line),
        stacked(lines_of(rest)) == rest,
    ensures
        stacked(lines_of(line + seq!['\n'] + rest)) == line + seq!['\n'] + rest,
{
    lemma_lines_of_front(line, rest);
    lemma_stacked_front(line, lines_of(rest));
}

/// A text with blank lines squeezed out of plain lines is the stack of its
/// own lines.
pub proof fn lemma_squeezed_is_whole_lines(lines: Seq<Seq<char>>, i: int, after_blank: bool)
    requires
        0 <= i <= lines.len(),
        forall|k: int| 0 <= k < lines.len() ==> plain_line(#[trigger] lines[k]),
    ensures
        stacked(lines_of(squeezed_from(lines, i, after_blank))) == squeezed_from(
            lines,
            i,
            after_blank,
        ),
    decreases lines.len() - i,
{
    if i < lines.len() {
        if is_blank(lines[i]) {
            lemma_squeezed_is_whole_lines(lines, i + 1, true);
            if !after_blank {
                let rest = squeezed_from(lines, i + 1, true);
                let none = Seq::<char>::empty();
                assert(none + seq!['\n'] + rest == seq!['\n'] + rest);
                lemma_whole_lines(none, rest);
            }
        } else {
            lemma_squeezed_is_whole_lines(lines, i + 1, false);
            lemma_whole_lines(lines[i], squeezed_from(lines, i + 1, false));
        }
    }
}

/// No line of a text holds a line feed.
pub proof fn lemma_lines_hold_no_feed(s: Seq<char>, k: int)
    requires
        0 <= k < lines_of(s).len(),
    ensures
        !lines_of(s)[k].contains('\n'),
    decreases s.len(),
{
    let p = first_pos(s, '\n');
    lemma_first_pos(s, '\n');
    let line = lines_of(s)[k];
    if s.len() == 0 {
    } else if p < s.len() {
        if k == 0 {
            let head = s.subrange(0, p);
            if line.contains('\n') {
                let j = choose|j: int| 0 <= j < line.len() && line[j] == '\n';
                assert(line[j] == s[j]);
            }
        } else {
            let rest = s.subrange(p + 1, s.len() as int);
            assert(line == lines_of(rest)[k - 1]);
            lemma_lines_hold_no_feed(rest, k - 1);
        }
    } else {
        if line.contains('\n') {
            let j = choose|j: int| 0 <= j < line.len() && line[j] == '\n';
            assert(line[j] == s[j]);
        }
    }
}

/// A text without the white space it ends with is a part of the text from
/// its start, and ends with no white space.
pub proof fn lemma_without_trailing_space(s: Seq<char>)
    ensures
        without_trailing_space(s).len() <= s.len(),
        without_trailing_space(s) == s.subrange(0, without_trailing_space(s).len() as int),
        without_trailing_space(s).len() == 0 || !is_space(without_trailing_space(s).last()),
    decreases s.len(),
{
    if s.len() > 0 && is_space(s.last()) {
        lemma_without_trailing_space(s.drop_last());
        let t = without_trailing_space(s.drop_last());
        assert(s.drop_last().subrange(0, t.len() as int) == s.subrange(0, t.len() as int));
    } else {
        assert(s.subrange(0, s.len() as int) == s);
    }
}

/// Joining at least two texts puts the first and the separator before the
/// others joined.
pub proof fn lemma_joined_front(parts: Seq<Seq<char>>, sep: Seq<char>)
    requires
        parts.len() >= 2,
    ensures
        joined(parts, sep) == parts[0] + sep + joined(parts.drop_first(), sep),
    decreases parts.len(),
{
    if parts.len() == 2 {
        assert(parts.drop_last() == seq![parts[0]]);
        assert(parts.drop_first() == seq![parts[1]]);
        assert(joined(parts.drop_last(), sep) == parts[0]);
        assert(joined(parts.drop_first(), sep) == parts[1]);
    } else {
        let front = parts.drop_last();
        lemma_joined_front(front, sep);
        assert(front.drop_first() == parts.drop_first().drop_last());
        assert(parts.drop_first().last() == parts.last());
        assert(front[0] == parts[0]);
        assert(parts[0] + sep + joined(front.drop_first(), sep) + sep + parts.last() == parts[0]
            + sep + (joined(front.drop_first(), sep) + sep + parts.last()));
    }
}

/// The lines of plain lines joined by line feeds are plain lines.
pub proof fn lemma_lines_of_joined(parts: Seq<Seq<char>>, k: int)
    requires
        forall|i: int| 0 <= i < parts.len() ==> plain_line(#[trigger] parts[i]),
        0 <= k < lines_of(joined(parts, seq!['\n'])).len(),
    ensures
        plain_line(lines_of(joined(parts, seq!['\n']))[k]),
    decreases parts.len(),
{
    let sep = seq!['\n'];
    let text = joined(parts, sep);
    if parts.len() == 0 {
    } else if parts.len() == 1 {
        let only = parts[0];
        assert(text == only);
        lemma_first_pos(only, '\n');
        if first_pos(only, '\n') < only.len() {
            assert(only.contains(only[first_pos(only, '\n')]));
        }
    } else {
        lemma_joined_front(parts, sep);
        let rest = joined(parts.drop_first(), sep);
        lemma_lines_of_front(parts[0], rest);
        if k > 0 {
            assert forall|i: int| 0 <= i < parts.drop_first().len() implies plain_line(
                #[trigger] parts.drop_first()[i],
            ) by {
                assert(parts.drop_first()[i] == parts[i + 1]);
            }
            assert(lines_of(text)[k] == lines_of(rest)[k - 1]);
            lemma_lines_of_joined(parts.drop_first(), k - 1);
        }
    }
}

/// A cleaned text is made of whole lines: it is the stack of its own lines.
pub proof fn lemma_preprocessed_is_whole_lines(input: Seq<char>)
    ensures
        stacked(lines_of(preprocessed(input))) == preprocessed(input),
{
    let bare = uncommented(input);
    let raw = lines_of(bare);
    let parts = each_trimmed_end(raw);
    let tidy = joined(parts, seq!['\n']);
    let lines = lines_of(tidy);
    assert forall|i: int| 0 <= i < parts.len() implies plain_line(#[trigger] parts[i]) by {
        lemma_lines_hold_no_feed(bare, i);
        lemma_without_trailing_space(raw[i]);
        let t = parts[i];
        if t.contains('\n') {
            let j = choose|j: int| 0 <= j < t.len() && t[j] == '\n';
            assert(raw[i][j] == '\n');
            assert(raw[i].contains('\n'));
        }
    }
    assert forall|k: int| 0 <= k < lines.len() implies plain_line(#[trigger] lines[k]) by {
        lemma_lines_of_joined(parts, k);
    }
    lemma_squeezed_is_whole_lines(lines, 0, false);
}

/// A script whose cleaned text does not hold the namespace marker has an
/// empty library section, and is reduced to its cleaned text.
pub proof fn lemma_script_without_library(input: Seq<char>)
    requires
        !has_sub(preprocessed(input), namespace_marker()),
    ensures
        library_of(preprocessed(input)) == Seq::<char>::empty(),
        user_of(preprocessed(input)) == preprocessed(input),
        compiled(input) == Ok::<Seq<char>, crate::source::Failure>(preprocessed(input)),
{
    let clean = preprocessed(input);
    let lines = lines_of(clean);
    lemma_lines_without(clean, namespace_marker());
    lemma_no_marker_from(lines, 0);
    assert(lines.subrange(0, lines.len() as int) == lines);
    lemma_preprocessed_is_whole_lines(input);
}

/// The anchor of a statement heads a chain in it, is one of the names, and is
/// at least as long as every name that heads a chain; where it is empty, no
/// name but the empty one heads a chain.
pub proof fn lemma_anchor_is_longest(stmt: Seq<char>, names: Seq<Seq<char>>, k: int)
    requires
        0 <= k <= names.len(),
    ensures
        ({
            let a = anchor_upto(stmt, names, k);
            &&& a.len() > 0 ==> heads_chain(stmt, a) && names.contains(a)
            &&& forall|i: int|
                0 <= i < k && heads_chain(stmt, #[trigger] names[i]) ==> utf8_len(names[i])
                    <= utf8_len(a)
        }),
    decreases k,
{
    if k > 0 {
        lemma_anchor_is_longest(stmt, names, k - 1);
        let best = anchor_upto(stmt, names, k - 1);
        let a = anchor_upto(stmt, names, k);
        if a.len() > 0 && a != best {
            assert(names[k - 1] == a);
        }
    }
}

/// Adding names loses none.
pub proof fn lemma_with_names_grows(names: Seq<Seq<char>>, more: Seq<Seq<char>>)
    ensures
        forall|x: Seq<char>| names.contains(x) ==> with_names(names, more).contains(x),
    decreases more.len(),
{
    if more.len() > 0 {
        let before = with_names(names, more.drop_last());
        lemma_with_names_grows(names, more.drop_last());
        assert forall|x: Seq<char>| names.contains(x) implies with_names(names, more).contains(
            x,
        ) by {
            let i = choose|i: int| 0 <= i < before.len() && before[i] == x;
            assert(with_name(before, more.last())[i] == x);
        }
    }
}

/// Reading lines loses none of the names known before.
pub proof fn lemma_known_after_grows(names: Seq<Seq<char>>, lines: Seq<Seq<char>>)
    ensures
        forall|x: Seq<char>| names.contains(x) ==> known_after(names, lines).contains(x),
    decreases lines.len(),
{
    if lines.len() > 0 {
        let before = known_after(names, lines.drop_last());
        lemma_known_after_grows(names, lines.drop_last());
        match assignment_sides(lines.last()) {
            Some((lhs, rhs)) => {
                match bound_names(lhs) {
                    Some(vars) => {
                        lemma_with_names_grows(before, vars);
                    },
                    None => {},
                }
            },
            None => {},
        }
    }
}

/// The names that stand for table-like values only grow while a block of
/// code is read: the names known before are kept, and the root is among them.
pub proof fn lemma_tracking_grows(names: Seq<Seq<char>>, code: Seq<char>, root: Seq<char>)
    ensures
        first_pass(names, code, root).contains(root),
        forall|x: Seq<char>| names.contains(x) ==> first_pass(names, code, root).contains(x),
{
    let start = with_name(names, root);
    lemma_known_after_grows(start, lines_of(code));
    if names.contains(root) {
    } else {
        assert(start[names.len() as int] == root);
    }
    assert(start.contains(root));
    assert forall|x: Seq<char>| names.contains(x) implies start.contains(x) by {
        let i = choose|i: int| 0 <= i < names.len() && names[i] == x;
        assert(start[i] == x);
    }
}

/// In a graph whose calls all go to nodes, what is reached is a node, or one
/// of the two names of the alias where the roots call the aliased function.
pub proof fn lemma_reached_is_node_or_alias(
    g: Seq<(Seq<char>, Seq<Seq<char>>)>,
    roots: Seq<Seq<char>>,
    v: Seq<char>,
    n: nat,
)
    requires
        closed(g),
        reached_within(g, roots, v, n),
    ensures
        keys(g).contains(v) || (aliased(g, roots) && (v == alias_root() || v == alias_target())),
    decreases n,
{
    if n > 0 {
        if reached_within(g, roots, v, (n - 1) as nat) {
            lemma_reached_is_node_or_alias(g, roots, v, (n - 1) as nat);
        } else {
            let u = choose|u: Seq<char>| #[trigger]
                has_edge(g, u, v) && reached_within(g, roots, u, (n - 1) as nat);
            lemma_edge_goes_to_node(g, u, v);
        }
    }
}

/// In a graph whose calls all go to nodes, every edge ends in a node.
pub proof fn lemma_edge_goes_to_node(
    g: Seq<(Seq<char>, Seq<Seq<char>>)>,
    u: Seq<char>,
    v: Seq<char>,
)
    requires
        closed(g),
        has_edge(g, u, v),
    ensures
        keys(g).contains(v),
{
    let i = first_pos(keys(g), u);
    lemma_first_pos(keys(g), u);
    let targets = g[i].1;
    let j = choose|j: int| 0 <= j < targets.len() && targets[j] == v;
    assert(keys(g).contains(g[i].1[j]));
}

/// The required names hold every root that is a method of the graph, and
/// hold nothing but methods of the graph, the constructor, and the two names
/// of the alias where the roots call the aliased function.
pub proof fn lemma_required_bounds(g: Seq<(Seq<char>, Seq<Seq<char>>)>, roots: Seq<Seq<char>>)
    requires
        closed(g),
    ensures
        forall|v: Seq<char>| roots.contains(v) && keys(g).contains(v) ==> is_required(g, roots, v),
        forall|v: Seq<char>|
            is_required(g, roots, v) ==> keys(g).contains(v) || v == constructor_name() || (
            aliased(g, roots) && (v == alias_root() || v == alias_target())),
{
    assert forall|v: Seq<char>| roots.contains(v) && keys(g).contains(v) implies is_required(
        g,
        roots,
        v,
    ) by {
        assert(reached_within(g, roots, v, 0));
    }
    assert forall|v: Seq<char>| is_required(g, roots, v) implies keys(g).contains(v) || v
        == constructor_name() || (aliased(g, roots) && (v == alias_root() || v
        == alias_target())) by {
        if reachable(g, roots, v) {
            let n = choose|n: nat| reached_within(g, roots, v, n);
            lemma_reached_is_node_or_alias(g, roots, v, n);
        }
    }
}

/// Where every root and the constructor are methods of the graph, the
/// required names hold every root and are all methods of the graph.
pub proof fn lemma_required_between_roots_and_methods(
    g: Seq<(Seq<char>, Seq<Seq<char>>)>,
    roots: Seq<Seq<char>>,
)
    requires
        closed(g),
        forall|v: Seq<char>| roots.contains(v) ==> keys(g).contains(v),
        keys(g).contains(constructor_name()),
    ensures
        forall|v: Seq<char>| roots.contains(v) ==> is_required(g, roots, v),
        forall|v: Seq<char>| is_required(g, roots, v) ==> keys(g).contains(v),
{
    lemma_required_bounds(g, roots);
}

/// What is reached from the reached names is what was reached before.
pub proof fn lemma_reached_is_stable(
    g: Seq<(Seq<char>, Seq<Seq<char>>)>,
    roots: Seq<Seq<char>>,
    found: Seq<Seq<char>>,
)
    requires
        closed(g),
        forall|v: Seq<char>| found.contains(v) <==> reachable(g, roots, v),
    ensures
        forall|v: Seq<char>| reachable(g, found, v) <==> reachable(g, roots, v),
{
    assert forall|v: Seq<char>| reachable(g, roots, v) implies reachable(g, found, v) by {
        lemma_found_seeds_again(g, roots, found, v);
    }
    assert forall|v: Seq<char>| reachable(g, found, v) implies reachable(g, roots, v) by {
        let n = choose|n: nat| reached_within(g, found, v, n);
        lemma_second_search_within_first(g, roots, found, v, n);
    }
}

/// What was reached is where a walk from the reached names starts.
proof fn lemma_found_seeds_again(
    g: Seq<(Seq<char>, Seq<Seq<char>>)>,
    roots: Seq<Seq<char>>,
    found: Seq<Seq<char>>,
    v: Seq<char>,
)
    requires
        closed(g),
        forall|x: Seq<char>| reachable(g, roots, x) ==> found.contains(x),
        reachable(g, roots, v),
    ensures
        reachable(g, found, v),
{
    let n = choose|n: nat| reached_within(g, roots, v, n);
    lemma_reached_is_node_or_alias(g, roots, v, n);
    if !keys(g).contains(v) {
        assert(reached_within(g, roots, alias_root(), 0));
        assert(found.contains(alias_root()));
    }
    assert(is_seed(g, found, v));
    assert(reached_within(g, found, v, 0));
}

/// What a walk from the reached names reaches was reached before.
proof fn lemma_second_search_within_first(
    g: Seq<(Seq<char>, Seq<Seq<char>>)>,
    roots: Seq<Seq<char>>,
    found: Seq<Seq<char>>,
    v: Seq<char>,
    n: nat,
)
    requires
        closed(g),
        forall|x: Seq<char>| found.contains(x) ==> reachable(g, roots, x),
        reached_within(g, found, v, n),
    ensures
        reachable(g, roots, v),
    decreases n,
{
    if n == 0 {
        if !(found.contains(v) && keys(g).contains(v)) {
            assert(found.contains(alias_root()));
            let m = choose|m: nat| reached_within(g, roots, alias_root(), m);
            lemma_reached_is_node_or_alias(g, roots, alias_root(), m);
            assert(aliased(g, roots));
            assert(reached_within(g, roots, v, 0));
        }
    } else if reached_within(g, found, v, (n - 1) as nat) {
        lemma_second_search_within_first(g, roots, found, v, (n - 1) as nat);
    } else {
        let u = choose|u: Seq<char>| #[trigger]
            has_edge(g, u, v) && reached_within(g, found, u, (n - 1) as nat);
        lemma_second_search_within_first(g, roots, found, u, (n - 1) as nat);
        lemma_reachable_step(g, roots, u, v);
    }
}

/// Reducing again loses nothing: every name that was required is required
/// again when the required names are taken as the roots.
pub proof fn lemma_required_never_shrinks(
    g: Seq<(Seq<char>, Seq<Seq<char>>)>,
    roots: Seq<Seq<char>>,
    kept: Seq<Seq<char>>,
)
    requires
        closed(g),
        forall|v: Seq<char>| kept.contains(v) <==> is_required(g, roots, v),
    ensures
        forall|v: Seq<char>| is_required(g, roots, v) ==> is_required(g, kept, v),
{
    assert forall|v: Seq<char>| is_required(g, roots, v) implies is_required(g, kept, v) by {
        if reachable(g, roots, v) {
            lemma_found_seeds_again(g, roots, kept, v);
        }
    }
}

/// What holds a text holds what that text holds.
pub proof fn lemma_has_sub_transitive(a: Seq<char>, b: Seq<char>, c: Seq<char>)
    requires
        has_sub(a, b),
        has_sub(b, c),
    ensures
        has_sub(a, c),
{
    let i = choose|i: int| occurs_at(a, b, i);
    let j = choose|j: int| occurs_at(b, c, j);
    assert(a.subrange(i + j, i + j + c.len()) == a.subrange(i, i + b.len()).subrange(
        j,
        j + c.len(),
    ));
    assert(occurs_at(a, c, i + j));
}

/// Texts joined hold each of the texts.
pub proof fn lemma_joined_holds_part(parts: Seq<Seq<char>>, sep: Seq<char>, i: int)
    requires
        0 <= i < parts.len(),
    ensures
        has_sub(joined(parts, sep), parts[i]),
    decreases parts.len(),
{
    let all = joined(parts, sep);
    if parts.len() == 1 {
        assert(all.subrange(0, all.len() as int) == all);
        assert(occurs_at(all, parts[i], 0));
    } else {
        let front = joined(parts.drop_last(), sep);
        if i == parts.len() - 1 {
            let at = (front.len() + sep.len()) as int;
            assert(all.subrange(at, at + parts[i].len()) == parts[i]);
            assert(occurs_at(all, parts[i], at));
        } else {
            lemma_joined_holds_part(parts.drop_last(), sep, i);
            let at = choose|at: int| occurs_at(front, parts.drop_last()[i], at);
            assert(all.subrange(at, at + parts[i].len()) == front.subrange(
                at,
                at + parts[i].len(),
            ));
            assert(occurs_at(all, parts[i], at));
        }
    }
}

/// Where the first `m` required names have their bodies, so have the first
/// `n` of them, and each of those bodies is among the bodies of the `m`.
pub proof fn lemma_resolved_grows(
    methods: Seq<(Seq<char>, Seq<char>)>,
    flagged: Seq<Seq<char>>,
    required: Seq<Seq<char>>,
    n: int,
    m: int,
)
    requires
        0 <= n <= m,
        resolved_upto(methods, flagged, required, m) is Ok,
    ensures
        resolved_upto(methods, flagged, required, n) is Ok,
        forall|b: Seq<char>|
            resolved_upto(methods, flagged, required, n)->Ok_0.contains(b) ==> resolved_upto(
                methods,
                flagged,
                required,
                m,
            )->Ok_0.contains(b),
    decreases m - n,
{
    if n < m {
        lemma_resolved_grows(methods, flagged, required, n, m - 1);
        let before = resolved_upto(methods, flagged, required, m - 1)->Ok_0;
        let now = resolved_upto(methods, flagged, required, m)->Ok_0;
        assert forall|b: Seq<char>| before.contains(b) implies now.contains(b) by {
            let i = choose|i: int| 0 <= i < before.len() && before[i] == b;
            assert(now[i] == b);
        }
    }
}

/// The reduced library section holds the body of every required method:
/// where the section is put together, each required name that is no flagged
/// function has a body, and the text holds that body.
pub proof fn lemma_assembled_holds_required_bodies(
    header: Seq<char>,
    methods: Seq<(Seq<char>, Seq<char>)>,
    flagged: Seq<(Seq<char>, Seq<char>)>,
    required: Seq<Seq<char>>,
    k: int,
)
    requires
        assembled(header, methods, flagged, required) is Ok,
        0 <= k < required.len(),
        !keys(flagged).contains(required[k]),
    ensures
        lookup(methods, resolved_key(required[k])) is Some,
        has_sub(
            assembled(header, methods, flagged, required)->Ok_0,
            lookup(methods, resolved_key(required[k]))->0,
        ),
{
    let names = keys(flagged);
    let n = required.len() as int;
    let bodies = resolved_upto(methods, names, required, n)->Ok_0;
    lemma_resolved_grows(methods, names, required, k + 1, n);
    let upto = resolved_upto(methods, names, required, k + 1)->Ok_0;
    assert(resolved_upto(methods, names, required, (k + 1) - 1) is Ok);
    let body = lookup(methods, resolved_key(required[k]))->0;
    assert(upto.last() == body);
    assert(upto.contains(body));
    assert(bodies.contains(body));
    let i = choose|i: int| 0 <= i < bodies.len() && bodies[i] == body;
    let inner = joined(bodies, "\n"@);
    lemma_joined_holds_part(bodies, "\n"@, i);
    let parts = seq![pruned_header(header, flagged, required), inner, "}"@, "}"@];
    lemma_joined_holds_part(parts, "\n"@, 1);
    lemma_has_sub_transitive(joined(parts, "\n"@), inner, body);
}

/// The reduced script ends with the user section of the cleaned script.
pub proof fn lemma_compiled_keeps_user_section(input: Seq<char>)
    requires
        compiled(input) is Ok,
    ensures
        ({
            let out = compiled(input)->Ok_0;
            let user = user_of(preprocessed(input));
            user.len() <= out.len() && out.subrange(out.len() - user.len(), out.len() as int)
                == user
        }),
{
    let out = compiled(input)->Ok_0;
    let user = user_of(preprocessed(input));
    if library_of(preprocessed(input)).len() == 0 {
        assert(out.subrange(0, out.len() as int) == out);
    } else {
        assert(out.subrange(out.len() - user.len(), out.len() as int) == user);
    }
}

/// The reduced script holds the body of every required method: where a
/// script with a library section is reduced, each required name that is no
/// flagged function has a body among the methods read from the section, and
/// the reduced script holds that body.
pub proof fn lemma_compiled_holds_required_bodies(input: Seq<char>, k: int)
    requires
        compiled(input) is Ok,
        library_of(preprocessed(input)).len() > 0,
    ensures
        ({
            let library = library_of(preprocessed(input));
            let user = user_of(preprocessed(input));
            let p = first_at(library, constructor_word())->0;
            let header = library.subrange(0, p);
            let flagged = blocks(header, true, seq![]);
            let methods = blocks(library.subrange(p, library.len() as int), false, keys(flagged));
            let required = required_listing(call_graph(methods), calls_in(user, library_alias()));
            0 <= k < required.len() && !keys(flagged).contains(required[k]) ==> lookup(
                methods,
                resolved_key(required[k]),
            ) is Some && has_sub(
                compiled(input)->Ok_0,
                lookup(methods, resolved_key(required[k]))->0,
            )
        }),
{
    let library = library_of(preprocessed(input));
    let user = user_of(preprocessed(input));
    let p = first_at(library, constructor_word())->0;
    let header = library.subrange(0, p);
    let flagged = blocks(header, true, seq![]);
    let methods = blocks(library.subrange(p, library.len() as int), false, keys(flagged));
    let required = required_listing(call_graph(methods), calls_in(user, library_alias()));
    if 0 <= k < required.len() && !keys(flagged).contains(required[k]) {
        lemma_assembled_holds_required_bodies(header, methods, flagged, required, k);
        let text = assembled(header, methods, flagged, required)->Ok_0;
        let body = lookup(methods, resolved_key(required[k]))->0;
        let out = compiled(input)->Ok_0;
        let at = choose|at: int| occurs_at(text, body, at);
        assert(out.subrange(at, at + body.len()) == text.subrange(at, at + body.len()));
        assert(occurs_at(out, body, at));
    }
}

} // verus!
