//! Short views of long texts, for looking at the steps of a reduction.

use crate::source::FrostSource;
use crate::split::{join, joined, lemma_texts_push, lines_of, split_lines, texts};
use crate::text::{append, copy_of, to_chars, to_string};
use vstd::prelude::*;

verus! {

/// The lines of `source`, one to a line; where there are more than `n` of
/// them, the first and the last `n / 2` with a line of dots between.
pub open spec fn peeked(source: Seq<char>, n: nat) -> Seq<char> {
    let lines = lines_of(source);
    if lines.len() <= n {
        joined(lines, "\n"@)
    } else {
        let half = (n / 2) as int;
        joined(lines.subrange(0, half), "\n"@) + "\n...\n"@ + joined(
            lines.subrange(lines.len() - half, lines.len() as int),
            "\n"@,
        )
    }
}

/// A copy of the texts of `lines` from position `a` up to, not including, `b`.
fn copy_lines(lines: &Vec<Vec<char>>, a: usize, b: usize) -> (r: Vec<Vec<char>>)
    requires
        a <= b <= lines.len(),
    ensures
        texts(r@) == texts(lines@).subrange(a as int, b as int),
{
    let mut r: Vec<Vec<char>> = Vec::new();
    let mut i: usize = a;
    assert(texts(r@) =~= texts(lines@).subrange(a as int, a as int));
    while i < b
        invariant
            a <= i <= b <= lines.len(),
            texts(r@) == texts(lines@).subrange(a as int, i as int),
        decreases b - i,
    {
        let line = copy_of(&lines[i]);
        proof {
            lemma_texts_push(r@, line);
            assert(texts(lines@).subrange(a as int, i as int).push(line@) =~= texts(
                lines@,
            ).subrange(a as int, i + 1));
        }
        r.push(line);
        i += 1;
    }
    r
}

/// A short view of the text given as characters: see `peek_code`.
pub fn peek_chars(source: &Vec<char>, n_lines: usize) -> (r: Vec<char>)
    ensures
        r@ == peeked(source@, n_lines as nat),
{
    let lines = split_lines(source);
    let sep = to_chars("\n");
    let total = lines.len();
    if total <= n_lines {
        join(&lines, &sep)
    } else {
        let half = n_lines / 2;
        let head = copy_lines(&lines, 0, half);
        let tail = copy_lines(&lines, total - half, total);
        let mut r = join(&head, &sep);
        append(&mut r, &to_chars("\n...\n"));
        append(&mut r, &join(&tail, &sep));
        r
    }
}

/// A short view of `source`: all of its lines where there are at most
/// `n_lines`, and else the first and the last `n_lines / 2` with a line of
/// dots between.
pub fn peek_code(source: &str, n_lines: usize) -> (r: String)
    ensures
        r@ == peeked(source@, n_lines as nat),
{
    to_string(&peek_chars(&to_chars(source), n_lines))
}

/// A short view of both sections of a script under the heading `step`.
pub open spec fn peeked_source(step: Seq<char>, fr: Seq<char>, main: Seq<char>) -> Seq<char> {
    step + ":step_name\n==== FR NAMESPACE ====\n"@ + peeked(fr, 20) + "\n==== MAIN SCRIPT ====\n"@
        + peeked(main, 20)
}

impl FrostSource {
    /// A short view of both sections, at most twenty lines of each, under the
    /// heading `step_name`.
    pub fn peek(&self, step_name: &str) -> (r: String)
        ensures
            r@ == peeked_source(step_name@, self.fr@, self.main@),
    {
        let mut r = to_chars(step_name);
        append(&mut r, &to_chars(":step_name\n==== FR NAMESPACE ====\n"));
        append(&mut r, &peek_chars(&to_chars(self.fr.as_str()), 20));
        append(&mut r, &to_chars("\n==== MAIN SCRIPT ====\n"));
        append(&mut r, &peek_chars(&to_chars(self.main.as_str()), 20));
        to_string(&r)
    }
}

} // verus!
