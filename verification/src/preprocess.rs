//! Removal of comments and of redundant white space from script text.

use crate::split::{
    join, joined, lines_of, push_line, split_lines, texts, trim, trim_end, trimmed,
    without_trailing_space,
};
use crate::text::{to_chars, to_string};
use vstd::prelude::*;

verus! {

/// Where the comment scanner stands: in code, inside a string literal opened
/// by the given quote, inside a line comment, or inside a block comment.
#[derive(Clone, Copy, Debug)]
pub enum ScanState {
    Code,
    Quoted(char),
    LineComment,
    BlockComment,
}

/// The characters that open and close a string literal.
pub open spec fn is_quote(c: char) -> bool {
    c == '"' || c == '\'' || c == '`'
}

/// What remains of `s` from position `i` on, read in state `st`, once comments
/// are dropped. String literals are kept as they stand, a backslash in one
/// taking the next character with it; a line comment runs up to the next line
/// feed, which is kept; a block comment runs up to and including the next `*/`.
/// A literal or comment left open runs to the end.
pub open spec fn uncommented_from(s: Seq<char>, i: int, st: ScanState) -> Seq<char>
    decreases s.len() - i,
{
    if i < 0 || i >= s.len() {
        seq![]
    } else {
        let c = s[i];
        let pair = i + 1 < s.len();
        match st {
            ScanState::Code => if is_quote(c) {
                seq![c] + uncommented_from(s, i + 1, ScanState::Quoted(c))
            } else if c == '/' && pair && s[i + 1] == '/' {
                uncommented_from(s, i + 2, ScanState::LineComment)
            } else if c == '/' && pair && s[i + 1] == '*' {
                uncommented_from(s, i + 2, ScanState::BlockComment)
            } else {
                seq![c] + uncommented_from(s, i + 1, ScanState::Code)
            },
            ScanState::Quoted(q) => if c == '\\' && pair {
                seq![c, s[i + 1]] + uncommented_from(s, i + 2, st)
            } else if c == '\\' {
                seq![c]
            } else if c == q {
                seq![c] + uncommented_from(s, i + 1, ScanState::Code)
            } else {
                seq![c] + uncommented_from(s, i + 1, st)
            },
            ScanState::LineComment => if c == '\n' {
                seq![c] + uncommented_from(s, i + 1, ScanState::Code)
            } else {
                uncommented_from(s, i + 1, st)
            },
            ScanState::BlockComment => if c == '*' && pair && s[i + 1] == '/' {
                uncommented_from(s, i + 2, ScanState::Code)
            } else {
                uncommented_from(s, i + 1, st)
            },
        }
    }
}

/// `s` without its comments.
pub open spec fn uncommented(s: Seq<char>) -> Seq<char> {
    uncommented_from(s, 0, ScanState::Code)
}

/// Each of `lines` without the white space it ends with.
pub open spec fn each_trimmed_end(lines: Seq<Seq<char>>) -> Seq<Seq<char>> {
    Seq::new(lines.len(), |i: int| without_trailing_space(lines[i]))
}

/// A line of nothing but white space.
pub open spec fn is_blank(line: Seq<char>) -> bool {
    trimmed(line).len() == 0
}

/// The lines from position `i` on, each followed by a line feed, with every run
/// of blank lines reduced to one empty line; `after_blank` tells that the line
/// before position `i` was blank.
pub open spec fn squeezed_from(lines: Seq<Seq<char>>, i: int, after_blank: bool) -> Seq<char>
    decreases lines.len() - i,
{
    if i < 0 || i >= lines.len() {
        seq![]
    } else if is_blank(lines[i]) {
        if after_blank {
            squeezed_from(lines, i + 1, true)
        } else {
            seq!['\n'] + squeezed_from(lines, i + 1, true)
        }
    } else {
        lines[i] + seq!['\n'] + squeezed_from(lines, i + 1, false)
    }
}

/// `s` without comments, without white space at the end of a line, and with
/// every run of blank lines reduced to one empty line.
pub open spec fn preprocessed(s: Seq<char>) -> Seq<char> {
    let tidy = joined(each_trimmed_end(lines_of(uncommented(s))), seq!['\n']);
    squeezed_from(lines_of(tidy), 0, false)
}

/// `s` without its comments.
pub fn strip_comments(s: &Vec<char>) -> (r: Vec<char>)
    ensures
        r@ == uncommented(s@),
{
    let n = s.len();
    let mut r: Vec<char> = Vec::new();
    let mut st = ScanState::Code;
    let mut i: usize = 0;
    assert(r@ + uncommented(s@) == uncommented(s@));
    while i < n
        invariant
            i <= n,
            n == s.len(),
            r@ + uncommented_from(s@, i as int, st) == uncommented(s@),
        decreases n - i,
    {
        let c = s[i];
        let pair = i + 1 < n;
        let ghost before = r@;
        let ghost old_st = st;
        let mut step: usize = 1;
        let mut keep: bool = true;
        match st {
            ScanState::Code => {
                if c == '"' || c == '\'' || c == '`' {
                    st = ScanState::Quoted(c);
                } else if c == '/' && pair && s[i + 1] == '/' {
                    st = ScanState::LineComment;
                    step = 2;
                    keep = false;
                } else if c == '/' && pair && s[i + 1] == '*' {
                    st = ScanState::BlockComment;
                    step = 2;
                    keep = false;
                }
            },
            ScanState::Quoted(q) => {
                if c == '\\' && pair {
                    r.push(c);
                    r.push(s[i + 1]);
                    step = 2;
                    keep = false;
                    proof {
                        let tail = uncommented_from(s@, i + 2, st);
                        assert(before + (seq![c, s@[i + 1]] + tail) == before.push(c).push(
                            s@[i + 1],
                        ) + tail);
                    }
                } else if c == '\\' {
                } else if c == q {
                    st = ScanState::Code;
                }
            },
            ScanState::LineComment => {
                if c == '\n' {
                    st = ScanState::Code;
                } else {
                    keep = false;
                }
            },
            ScanState::BlockComment => {
                keep = false;
                if c == '*' && pair && s[i + 1] == '/' {
                    st = ScanState::Code;
                    step = 2;
                }
            },
        }
        if keep {
            r.push(c);
            proof {
                let tail = uncommented_from(s@, i + 1, st);
                assert(before + (seq![c] + tail) == before.push(c) + tail);
                assert(before + seq![c] == before.push(c));
            }
        }
        i += step;
    }
    assert(r@ + Seq::<char>::empty() == r@);
    r
}

/// Each of `lines` without the white space it ends with.
pub fn trim_line_ends(lines: &Vec<Vec<char>>) -> (r: Vec<Vec<char>>)
    ensures
        texts(r@) == each_trimmed_end(texts(lines@)),
{
    let mut r: Vec<Vec<char>> = Vec::new();
    let mut i: usize = 0;
    while i < lines.len()
        invariant
            i <= lines.len(),
            r.len() == i,
            forall|k: int| 0 <= k < i ==> r@[k]@ == without_trailing_space(lines@[k]@),
        decreases lines.len() - i,
    {
        r.push(trim_end(&lines[i]));
        i += 1;
    }
    assert(texts(r@) =~= each_trimmed_end(texts(lines@)));
    r
}

/// The lines, each followed by a line feed, with every run of blank lines
/// reduced to one empty line.
pub fn squeeze_blank_lines(lines: &Vec<Vec<char>>) -> (r: Vec<char>)
    ensures
        r@ == squeezed_from(texts(lines@), 0, false),
{
    let ghost all = texts(lines@);
    let mut r: Vec<char> = Vec::new();
    let mut after_blank = false;
    let mut i: usize = 0;
    assert(r@ + squeezed_from(all, 0, false) == squeezed_from(all, 0, false));
    while i < lines.len()
        invariant
            i <= lines.len(),
            all == texts(lines@),
            r@ + squeezed_from(all, i as int, after_blank) == squeezed_from(all, 0, false),
        decreases lines.len() - i,
    {
        let ghost before = r@;
        let line = &lines[i];
        assert(all[i as int] == line@);
        if trim(line).len() == 0 {
            if !after_blank {
                r.push('\n');
                after_blank = true;
                proof {
                    let tail = squeezed_from(all, i + 1, true);
                    assert(before + (seq!['\n'] + tail) == before.push('\n') + tail);
                }
            }
        } else {
            push_line(&mut r, line);
            after_blank = false;
            proof {
                let tail = squeezed_from(all, i + 1, false);
                assert(before + (line@ + seq!['\n'] + tail) == before + line@ + seq!['\n'] + tail);
            }
        }
        i += 1;
    }
    assert(r@ + Seq::<char>::empty() == r@);
    r
}

/// Cleans script text given as characters: see `preprocessed`.
pub fn preprocess_chars(code: &Vec<char>) -> (r: Vec<char>)
    ensures
        r@ == preprocessed(code@),
{
    let bare = strip_comments(code);
    let lines = split_lines(&bare);
    let trimmed_lines = trim_line_ends(&lines);
    let mut sep: Vec<char> = Vec::new();
    sep.push('\n');
    assert(sep@ == seq!['\n']);
    let tidy = join(&trimmed_lines, &sep);
    let tidy_lines = split_lines(&tidy);
    squeeze_blank_lines(&tidy_lines)
}

/// Strips comments, white space at the end of lines and repeated blank lines
/// from script text, leaving string literals as they stand.
pub fn preprocess_code(code: &str) -> (r: String)
    ensures
        r@ == preprocessed(code@),
{
    let chars = to_chars(code);
    let out = preprocess_chars(&chars);
    to_string(&out)
}

} // verus!
