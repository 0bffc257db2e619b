//! Locating the header line of a request definition and splitting it into
//! method and URL.

use crate::text::{
    back_spaces, chars_of, find_char, find_from, find_space, find_space_from, lemma_back_space,
    lemma_find_char, lemma_find_space, lemma_skip_space, skip_space, skip_spaces, space,
    trim_start, trim_stop,
};
use vstd::prelude::*;

verus! {

/// Where the header line starts when scanning begins at the line start
/// `from`: blank lines and lines whose first visible character is `#` are
/// passed over. The length of `s` when no line is left.
pub open spec fn content_start(s: Seq<char>, from: int) -> int
    decreases s.len() - from,
    via content_start_decreases
{
    let a = skip_space(s, from);
    if from < 0 || a >= s.len() {
        s.len() as int
    } else if s[a] != '#' {
        a
    } else {
        let e = find_char(s, '\n', a);
        if e < s.len() {
            content_start(s, e + 1)
        } else {
            s.len() as int
        }
    }
}

#[via_fn]
proof fn content_start_decreases(s: Seq<char>, from: int) {
    if 0 <= from <= s.len() {
        lemma_skip_space(s, from);
        if skip_space(s, from) < s.len() {
            lemma_find_char(s, '\n', skip_space(s, from));
        }
    }
}

/// Where the header line ends: at its line break, or where the text ends
/// once trailing white space is ignored.
pub open spec fn line_stop(s: Seq<char>, a: int) -> int {
    let e = find_char(s, '\n', a);
    if e < trim_stop(s) {
        e
    } else {
        trim_stop(s)
    }
}

/// The header line of `s`: its first line that is neither blank nor a
/// comment, without the white space before it.
pub open spec fn header_line(s: Seq<char>) -> Option<Seq<char>> {
    let a = content_start(s, 0);
    if a < s.len() {
        Some(s.subrange(a, line_stop(s, a)))
    } else {
        None
    }
}

/// The body section of `s`: what follows the header line, up to the last
/// visible character of the text.
pub open spec fn body_section(s: Seq<char>) -> Seq<char> {
    let a = content_start(s, 0);
    let e = find_char(s, '\n', a);
    if a < s.len() && e < trim_stop(s) {
        s.subrange(e + 1, trim_stop(s))
    } else {
        Seq::empty()
    }
}

/// Every line of `s` is blank or a comment: after each line start the first
/// visible character, if there is one, is `#`.
pub open spec fn comment_only(s: Seq<char>) -> bool {
    forall|a: int|
        0 <= a <= s.len() && (a == 0 || s[a - 1] == '\n') ==> {
            let p = #[trigger] skip_space(s, a);
            p < s.len() ==> s[p] == '#'
        }
}

/// Method and URL of a header line: the line is trimmed, the method runs up
/// to the first white space, the URL is the rest without the white space
/// around it. `None` when the line holds a single word or nothing.
pub open spec fn method_url(line: Seq<char>) -> Option<(Seq<char>, Seq<char>)> {
    let a = trim_start(line);
    let b = trim_stop(line);
    let i = find_space(line, a);
    if i < b {
        Some((line.subrange(a, i), line.subrange(skip_space(line, i), b)))
    } else {
        None
    }
}

/// The header line starts inside the text at a visible character other than
/// `#`, or there is none.
pub proof fn lemma_content_start(s: Seq<char>, from: int)
    requires
        0 <= from <= s.len(),
    ensures
        from <= content_start(s, from) <= s.len(),
        content_start(s, from) < s.len() ==> !space(s[content_start(s, from)]) && s[content_start(
            s,
            from,
        )] != '#',
    decreases s.len() - from,
{
    lemma_skip_space(s, from);
    let a = skip_space(s, from);
    if a < s.len() && s[a] == '#' {
        lemma_find_char(s, '\n', a);
        let e = find_char(s, '\n', a);
        if e < s.len() {
            lemma_content_start(s, e + 1);
        }
    }
}

/// A visible character lies before the place where trailing white space
/// begins.
pub proof fn lemma_visible_before_stop(s: Seq<char>, p: int)
    requires
        0 <= p < s.len(),
        !space(s[p]),
    ensures
        trim_start(s) <= p < trim_stop(s) <= s.len(),
{
    lemma_skip_space(s, 0);
    lemma_back_space(s, trim_start(s), s.len() as int);
    if trim_start(s) > p {
        assert(space(s[p]));
    }
    if trim_stop(s) <= p {
        assert(space(s[p]));
    }
}

/// When scanning from a line start finds no header line, every later line
/// start is followed by a comment or by nothing.
proof fn lemma_no_content_after(s: Seq<char>, from: int, a: int)
    requires
        0 <= from <= a <= s.len(),
        from == 0 || s[from - 1] == '\n',
        a == 0 || s[a - 1] == '\n',
        content_start(s, from) >= s.len(),
    ensures
        skip_space(s, a) < s.len() ==> s[skip_space(s, a)] == '#',
    decreases s.len() - from,
{
    lemma_skip_space(s, from);
    lemma_skip_space(s, a);
    let f = skip_space(s, from);
    if f >= s.len() {
        if skip_space(s, a) < s.len() {
            assert(space(s[skip_space(s, a)]));
        }
    } else {
        assert(s[f] == '#');
        lemma_find_char(s, '\n', f);
        let e = find_char(s, '\n', f);
        if a <= f {
            lemma_skip_same(s, a, f);
        } else if e < s.len() {
            if a <= e {
                assert(s[a - 1] != '\n');
            }
            lemma_no_content_after(s, e + 1, a);
        } else {
            assert(s[a - 1] != '\n');
        }
    }
}

/// Skipping white space from `a` stops at `f` when `f` is visible and only
/// white space lies between them.
proof fn lemma_skip_same(s: Seq<char>, a: int, f: int)
    requires
        0 <= a <= f < s.len(),
        !space(s[f]),
        forall|k: int| a <= k < f ==> space(#[trigger] s[k]),
    ensures
        skip_space(s, a) == f,
    decreases f - a,
{
    if a < f {
        assert(space(s[a]));
        lemma_skip_same(s, a + 1, f);
    }
}

/// When every line from `from` on is blank or a comment, scanning finds no
/// header line.
proof fn lemma_comments_have_no_content(s: Seq<char>, from: int)
    requires
        0 <= from <= s.len(),
        from == 0 || s[from - 1] == '\n',
        comment_only(s),
    ensures
        content_start(s, from) >= s.len(),
    decreases s.len() - from,
{
    lemma_skip_space(s, from);
    let a = skip_space(s, from);
    if a < s.len() {
        assert(s[a] == '#');
        lemma_find_char(s, '\n', a);
        let e = find_char(s, '\n', a);
        if e < s.len() {
            lemma_comments_have_no_content(s, e + 1);
        }
    }
}

/// A text has no header line exactly when it holds nothing but blank lines
/// and comments.
pub proof fn lemma_header_absent_iff_comment_only(s: Seq<char>)
    ensures
        header_line(s) is None <==> comment_only(s),
{
    lemma_content_start(s, 0);
    if comment_only(s) {
        lemma_comments_have_no_content(s, 0);
    }
    if header_line(s) is None {
        assert forall|a: int| 0 <= a <= s.len() && (a == 0 || s[a - 1] == '\n') implies {
            let p = #[trigger] skip_space(s, a);
            p < s.len() ==> s[p] == '#'
        } by {
            lemma_no_content_after(s, 0, a);
        }
    }
}

/// The header line is not empty, begins with a visible character other than
/// `#` and holds no line break.
pub proof fn lemma_header_line_shape(s: Seq<char>)
    requires
        header_line(s) is Some,
    ensures
        header_line(s).unwrap().len() > 0,
        !space(header_line(s).unwrap()[0]),
        header_line(s).unwrap()[0] != '#',
        forall|k: int|
            0 <= k < header_line(s).unwrap().len() ==> #[trigger] header_line(s).unwrap()[k]
                != '\n',
{
    lemma_content_start(s, 0);
    let a = content_start(s, 0);
    lemma_visible_before_stop(s, a);
    lemma_find_char(s, '\n', a);
}

/// Splits `s` into its header line and its body section.
pub fn get_method_url_line(s: &str) -> (out: (Option<&str>, &str))
    ensures
        match out.0 {
            Some(line) => header_line(s@) == Some(line@),
            None => header_line(s@) is None,
        },
        out.1@ == body_section(s@),
{
    let chars = chars_of(s);
    let n = chars.len();
    let first = skip_spaces(&chars, 0);
    let stop = back_spaces(&chars, first, n);
    let mut from: usize = 0;
    loop
        invariant
            0 <= from <= n,
            n == chars@.len(),
            chars@ == s@,
            stop == trim_stop(s@),
            content_start(s@, 0) == content_start(s@, from as int),
        decreases n - from,
    {
        let a = skip_spaces(&chars, from);
        if a >= n {
            return (None, s.substring_char(n, n));
        }
        let e = find_from(&chars, '\n', a);
        proof {
            lemma_skip_space(s@, from as int);
            lemma_find_char(s@, '\n', a as int);
            lemma_visible_before_stop(s@, a as int);
        }
        if chars[a] != '#' {
            if e < stop {
                return (Some(s.substring_char(a, e)), s.substring_char(e + 1, stop));
            } else {
                return (Some(s.substring_char(a, stop)), s.substring_char(n, n));
            }
        }
        if e >= n {
            return (None, s.substring_char(n, n));
        }
        from = e + 1;
    }
}

/// Splits a header line into method and URL.
pub fn parse_method_url(s: &str) -> (out: Option<(&str, &str)>)
    ensures
        match out {
            Some((method, url)) => method_url(s@) == Some((method@, url@)),
            None => method_url(s@) is None,
        },
{
    let chars = chars_of(s);
    let n = chars.len();
    let a = skip_spaces(&chars, 0);
    let b = back_spaces(&chars, a, n);
    let i = find_space_from(&chars, a);
    if i < b {
        let u = skip_spaces(&chars, i);
        proof {
            lemma_back_space(s@, a as int, n as int);
            lemma_skip_space(s@, i as int);
            if u > b - 1 {
                assert(space(s@[b - 1]));
            }
        }
        Some((s.substring_char(a, i), s.substring_char(u, b)))
    } else {
        None
    }
}

/// A header line that splits has one method without white space and a URL
/// that begins and ends with a visible character.
pub proof fn lemma_method_url_shape(line: Seq<char>)
    requires
        method_url(line) is Some,
    ensures
        forall|k: int|
            0 <= k < method_url(line).unwrap().0.len() ==> !space(
                #[trigger] method_url(line).unwrap().0[k],
            ),
        method_url(line).unwrap().1.len() > 0,
        !space(method_url(line).unwrap().1[0]),
        !space(method_url(line).unwrap().1.last()),
{
    let a = trim_start(line);
    let b = trim_stop(line);
    let i = find_space(line, a);
    lemma_skip_space(line, 0);
    lemma_back_space(line, a, line.len() as int);
    lemma_find_space(line, a);
    lemma_skip_space(line, i);
    if skip_space(line, i) > b - 1 {
        assert(space(line[b - 1]));
    }
}

} // verus!
