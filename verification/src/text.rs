//! Text as a sequence of characters: conversions between strings and
//! character vectors, and the character classes the scanners rely on.

use vstd::prelude::*;

verus! {

/// The white-space class of characters: the code points that Unicode gives
/// the property `White_Space`.
pub open spec fn is_space(c: char) -> bool {
    let u = c as u32;
    ||| 0x09 <= u <= 0x0D
    ||| u == 0x20
    ||| u == 0x85
    ||| u == 0xA0
    ||| u == 0x1680
    ||| 0x2000 <= u <= 0x200A
    ||| u == 0x2028
    ||| u == 0x2029
    ||| u == 0x202F
    ||| u == 0x205F
    ||| u == 0x3000
}

/// Whether `c` is white space.
pub fn is_space_char(c: char) -> (b: bool)
    ensures
        b == is_space(c),
{
    let u = c as u32;
    (0x09 <= u && u <= 0x0D) || u == 0x20 || u == 0x85 || u == 0xA0 || u == 0x1680 || (0x2000 <= u
        && u <= 0x200A) || u == 0x2028 || u == 0x2029 || u == 0x202F || u == 0x205F || u == 0x3000
}

/// The class of letters and digits: what `char::is_alphanumeric` answers.
pub uninterp spec fn is_alnum(c: char) -> bool;

/// `char::is_alphanumeric` decides membership in the Unicode alphabetic and
/// numeric classes; the classes are not written out here and go by the name
/// `is_alnum`.
pub assume_specification[ char::is_alphanumeric ](c: char) -> (b: bool)
    ensures
        b == is_alnum(c),
;

/// A character that can stand inside an identifier: a letter, a digit or an
/// underscore.
pub open spec fn is_word(c: char) -> bool {
    is_alnum(c) || c == '_'
}

/// Whether `c` can stand inside an identifier, given whether it is a letter
/// or a digit.
pub fn word_given(c: char, alphanumeric: bool) -> (b: bool)
    ensures
        b == (alphanumeric || c == '_'),
{
    alphanumeric || c == '_'
}

/// Whether `c` can stand inside an identifier.
pub fn is_word_char(c: char) -> (b: bool)
    ensures
        b == is_word(c),
{
    word_given(c, c.is_alphanumeric())
}

/// The number of bytes that `c` takes in UTF-8.
pub open spec fn utf8_width(c: char) -> nat {
    let u = c as u32;
    if u < 0x80 {
        1
    } else if u < 0x800 {
        2
    } else if u < 0x10000 {
        3
    } else {
        4
    }
}

/// The number of bytes that `s` takes in UTF-8.
pub open spec fn utf8_len(s: Seq<char>) -> nat
    decreases s.len(),
{
    if s.len() == 0 {
        0
    } else {
        utf8_len(s.drop_last()) + utf8_width(s.last())
    }
}

/// The number of bytes that `s` takes in UTF-8.
pub fn encoded_len(s: &Vec<char>) -> (r: u128)
    ensures
        r == utf8_len(s@),
        r == 0 <==> s@.len() == 0,
{
    let mut r: u128 = 0;
    let mut i: usize = 0;
    while i < s.len()
        invariant
            i <= s.len(),
            r == utf8_len(s@.take(i as int)),
            i <= r <= 4 * i,
        decreases s.len() - i,
    {
        assert(s@.take(i + 1).drop_last() == s@.take(i as int));
        let u = s[i] as u32;
        let w: u128 = if u < 0x80 {
            1
        } else if u < 0x800 {
            2
        } else if u < 0x10000 {
            3
        } else {
            4
        };
        r = r + w;
        i += 1;
    }
    assert(s@.take(s.len() as int) == s@);
    r
}

/// `String::push` appends one character to the end of the string.
pub assume_specification[ String::push ](s: &mut String, c: char)
    ensures
        final(s)@ == old(s)@.push(c),
;

/// The characters of `s`, in order.
pub fn to_chars(s: &str) -> (v: Vec<char>)
    ensures
        v@ == s@,
{
    let mut v: Vec<char> = Vec::new();
    for c in it: s.chars()
        invariant
            v@ == it.seq().take(it.index() as int),
            it.seq() == s@,
    {
        v.push(c);
    }
    v
}

/// The string made of the characters of `v`, in order.
pub fn to_string(v: &Vec<char>) -> (s: String)
    ensures
        s@ == v@,
{
    let mut s = String::new();
    let mut i: usize = 0;
    while i < v.len()
        invariant
            i <= v.len(),
            s@ == v@.take(i as int),
        decreases v.len() - i,
    {
        s.push(v[i]);
        i += 1;
    }
    s
}

/// A copy of the characters of `s` from position `a` up to, not including, `b`.
pub fn slice(s: &Vec<char>, a: usize, b: usize) -> (r: Vec<char>)
    requires
        a <= b <= s.len(),
    ensures
        r@ == s@.subrange(a as int, b as int),
{
    let mut r: Vec<char> = Vec::new();
    let mut i: usize = a;
    while i < b
        invariant
            a <= i <= b <= s.len(),
            r@ == s@.subrange(a as int, i as int),
        decreases b - i,
    {
        r.push(s[i]);
        i += 1;
    }
    r
}

/// A copy of `s`.
pub fn copy_of(s: &Vec<char>) -> (r: Vec<char>)
    ensures
        r@ == s@,
{
    let r = slice(s, 0, s.len());
    assert(s@.subrange(0, s.len() as int) == s@);
    r
}

/// Appends the characters of `src` to `dst`.
pub fn append(dst: &mut Vec<char>, src: &Vec<char>)
    ensures
        final(dst)@ == old(dst)@ + src@,
{
    let mut i: usize = 0;
    while i < src.len()
        invariant
            i <= src.len(),
            dst@ == old(dst)@ + src@.take(i as int),
        decreases src.len() - i,
    {
        dst.push(src[i]);
        i += 1;
    }
    assert(src@.take(src.len() as int) == src@);
}

/// Whether two texts hold the same characters.
pub fn same(a: &Vec<char>, b: &Vec<char>) -> (r: bool)
    ensures
        r == (a@ == b@),
{
    if a.len() != b.len() {
        return false;
    }
    let mut i: usize = 0;
    while i < a.len()
        invariant
            i <= a.len(),
            a.len() == b.len(),
            a@.take(i as int) == b@.take(i as int),
        decreases a.len() - i,
    {
        if a[i] != b[i] {
            return false;
        }
        assert(a@.take(i + 1) == a@.take(i as int).push(a@[i as int]));
        assert(b@.take(i + 1) == b@.take(i as int).push(b@[i as int]));
        i += 1;
    }
    assert(a@.take(a.len() as int) == a@);
    assert(b@.take(b.len() as int) == b@);
    true
}

/// `needle` stands in `hay` at position `i`.
pub open spec fn occurs_at(hay: Seq<char>, needle: Seq<char>, i: int) -> bool {
    &&& 0 <= i
    &&& i + needle.len() <= hay.len()
    &&& hay.subrange(i, i + needle.len()) == needle
}

/// `needle` stands somewhere in `hay`.
pub open spec fn has_sub(hay: Seq<char>, needle: Seq<char>) -> bool {
    exists|i: int| occurs_at(hay, needle, i)
}

/// The first position at or after `from` where `needle` stands in `hay`.
pub open spec fn first_at_from(hay: Seq<char>, needle: Seq<char>, from: int) -> Option<int>
    decreases hay.len() + 1 - from,
{
    if from < 0 || from + needle.len() > hay.len() {
        None
    } else if occurs_at(hay, needle, from) {
        Some(from)
    } else {
        first_at_from(hay, needle, from + 1)
    }
}

/// The first position where `needle` stands in `hay`.
pub open spec fn first_at(hay: Seq<char>, needle: Seq<char>) -> Option<int> {
    first_at_from(hay, needle, 0)
}

/// `first_at_from` yields an occurrence with none between `from` and it, and
/// yields nothing only where no occurrence follows `from`.
pub proof fn lemma_first_at_from(hay: Seq<char>, needle: Seq<char>, from: int)
    requires
        0 <= from,
    ensures
        match first_at_from(hay, needle, from) {
            Some(i) => from <= i && occurs_at(hay, needle, i) && forall|j: int|
                from <= j < i ==> !occurs_at(hay, needle, j),
            None => forall|j: int| from <= j ==> !occurs_at(hay, needle, j),
        },
    decreases hay.len() + 1 - from,
{
    if from + needle.len() > hay.len() {
    } else if occurs_at(hay, needle, from) {
    } else {
        lemma_first_at_from(hay, needle, from + 1);
    }
}

/// A text is found exactly where it is contained.
pub proof fn lemma_first_at_iff_has_sub(hay: Seq<char>, needle: Seq<char>)
    ensures
        first_at(hay, needle) is Some <==> has_sub(hay, needle),
{
    lemma_first_at_from(hay, needle, 0);
}

/// Whether `needle` stands in `hay` at position `i`.
pub fn has_at(hay: &Vec<char>, needle: &Vec<char>, i: usize) -> (r: bool)
    ensures
        r == occurs_at(hay@, needle@, i as int),
{
    let n = needle.len();
    if n > hay.len() || i > hay.len() - n {
        return false;
    }
    let mut k: usize = 0;
    while k < n
        invariant
            k <= n,
            n == needle.len(),
            i + n <= hay.len(),
            hay@.subrange(i as int, i + k) == needle@.take(k as int),
        decreases n - k,
    {
        if hay[i + k] != needle[k] {
            assert(hay@.subrange(i as int, i + n)[k as int] != needle@[k as int]);
            return false;
        }
        assert(hay@.subrange(i as int, i + k + 1) == hay@.subrange(i as int, i + k).push(
            hay@[i + k],
        ));
        assert(needle@.take(k + 1) == needle@.take(k as int).push(needle@[k as int]));
        k += 1;
    }
    assert(needle@.take(n as int) == needle@);
    true
}

/// The first position where `needle` stands in `hay`, if there is one.
pub fn find(hay: &Vec<char>, needle: &Vec<char>) -> (r: Option<usize>)
    ensures
        match r {
            Some(i) => first_at(hay@, needle@) == Some(i as int),
            None => first_at(hay@, needle@) is None,
        },
{
    let n = needle.len();
    if n > hay.len() {
        return None;
    }
    let last = hay.len() - n;
    let mut i: usize = 0;
    loop
        invariant
            i <= last,
            last + n == hay.len(),
            n == needle.len(),
            first_at(hay@, needle@) == first_at_from(hay@, needle@, i as int),
        decreases last - i,
    {
        if has_at(hay, needle, i) {
            return Some(i);
        }
        if i == last {
            assert(first_at_from(hay@, needle@, i + 1) is None);
            return None;
        }
        i += 1;
    }
}

/// Whether `needle` stands somewhere in `hay`.
pub fn contains(hay: &Vec<char>, needle: &Vec<char>) -> (r: bool)
    ensures
        r == has_sub(hay@, needle@),
{
    proof {
        lemma_first_at_iff_has_sub(hay@, needle@);
    }
    find(hay, needle).is_some()
}

/// Whether `s` begins with `prefix`.
pub fn starts_with(s: &Vec<char>, prefix: &Vec<char>) -> (r: bool)
    ensures
        r == occurs_at(s@, prefix@, 0),
{
    has_at(s, prefix, 0)
}

/// The position of the first `c` in `s`, or the length of `s` where it holds none.
pub open spec fn first_pos<T>(s: Seq<T>, c: T) -> int
    decreases s.len(),
{
    if s.len() == 0 {
        0
    } else if s[0] == c {
        0
    } else {
        1 + first_pos(s.drop_first(), c)
    }
}

/// `first_pos` is the least position that holds `c`.
pub proof fn lemma_first_pos<T>(s: Seq<T>, c: T)
    ensures
        0 <= first_pos(s, c) <= s.len(),
        first_pos(s, c) < s.len() ==> s[first_pos(s, c)] == c,
        forall|j: int| 0 <= j < first_pos(s, c) ==> s[j] != c,
    decreases s.len(),
{
    if s.len() > 0 && s[0] != c {
        lemma_first_pos(s.drop_first(), c);
        assert forall|j: int| 0 <= j < first_pos(s, c) implies s[j] != c by {
            if j > 0 {
                assert(s[j] == s.drop_first()[j - 1]);
            }
        }
    }
}

/// A position that holds `c` with no `c` before it is `first_pos`.
pub proof fn lemma_first_pos_unique<T>(s: Seq<T>, c: T, p: int)
    requires
        0 <= p <= s.len(),
        p < s.len() ==> s[p] == c,
        forall|j: int| 0 <= j < p ==> s[j] != c,
    ensures
        first_pos(s, c) == p,
{
    lemma_first_pos(s, c);
}

/// The position of the first `c` in `s` at or after `from`, or the length of `s`.
pub fn find_char_from(s: &Vec<char>, c: char, from: usize) -> (r: usize)
    requires
        from <= s.len(),
    ensures
        from <= r <= s.len(),
        r - from == first_pos(s@.subrange(from as int, s.len() as int), c),
{
    let mut i: usize = from;
    while i < s.len() && s[i] != c
        invariant
            from <= i <= s.len(),
            forall|j: int| from <= j < i ==> s@[j] != c,
        decreases s.len() - i,
    {
        i += 1;
    }
    proof {
        lemma_first_pos_unique(s@.subrange(from as int, s.len() as int), c, i - from);
    }
    i
}

/// Whether `s` holds the character `c`.
pub fn contains_char(s: &Vec<char>, c: char) -> (r: bool)
    ensures
        r == s@.contains(c),
{
    let p = find_char_from(s, c, 0);
    proof {
        assert(s@.subrange(0, s.len() as int) == s@);
        lemma_first_pos(s@, c);
    }
    p < s.len()
}

/// How often `c` stands in `s`.
pub open spec fn tally(s: Seq<char>, c: char) -> nat
    decreases s.len(),
{
    if s.len() == 0 {
        0
    } else {
        tally(s.drop_last(), c) + if s.last() == c {
            1nat
        } else {
            0nat
        }
    }
}

/// How often `c` stands in `s`.
pub fn count_char(s: &Vec<char>, c: char) -> (r: usize)
    ensures
        r == tally(s@, c),
{
    let mut r: usize = 0;
    let mut i: usize = 0;
    while i < s.len()
        invariant
            i <= s.len(),
            r == tally(s@.take(i as int), c),
            r <= i,
        decreases s.len() - i,
    {
        assert(s@.take(i + 1).drop_last() == s@.take(i as int));
        if s[i] == c {
            r += 1;
        }
        i += 1;
    }
    assert(s@.take(s.len() as int) == s@);
    r
}

} // verus!
