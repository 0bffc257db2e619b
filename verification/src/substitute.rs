//! Expansion of `$NAME` and `${NAME}` references against a variable mapping.

use crate::fields::{lookup, Entries, StrMap};
use crate::text::{chars_of, text_of};
use vstd::prelude::*;

verus! {

/// ASCII letters and digits.
pub open spec fn alpha_digit(c: char) -> bool {
    ('0' <= c && c <= '9') || ('a' <= c && c <= 'z') || ('A' <= c && c <= 'Z')
}

/// The characters a variable name is made of.
pub open spec fn name_char(c: char) -> bool {
    alpha_digit(c) || c == '_'
}

/// The end of the maximal run of name characters that starts at `i`.
pub open spec fn name_end(s: Seq<char>, i: int) -> int
    decreases s.len() - i,
{
    if 0 <= i < s.len() && name_char(s[i]) {
        name_end(s, i + 1)
    } else {
        i
    }
}

/// Whether a braced reference opens at `i`.
pub open spec fn brace_opens(s: Seq<char>, i: int) -> bool {
    0 <= i && i + 1 < s.len() && s[i] == '$' && s[i + 1] == '{'
}

/// Whether the braced reference that opens at `i` has a name and is closed.
pub open spec fn brace_complete(s: Seq<char>, i: int) -> bool {
    let j = name_end(s, i + 2);
    brace_opens(s, i) && j > i + 2 && j < s.len() && s[j] == '}'
}

/// Whether a bare reference starts at `i`.
pub open spec fn bare_starts(s: Seq<char>, i: int) -> bool {
    0 <= i && i + 1 < s.len() && s[i] == '$' && name_char(s[i + 1])
}

/// Where scanning resumes after the piece of text that starts at `i`.
pub open spec fn next_at(s: Seq<char>, i: int) -> int {
    if brace_complete(s, i) {
        name_end(s, i + 2) + 1
    } else if brace_opens(s, i) {
        name_end(s, i + 2)
    } else if bare_starts(s, i) {
        name_end(s, i + 1)
    } else {
        i + 1
    }
}

/// What the piece of text that starts at `i` turns into: the value of a
/// resolved reference, or the piece itself.
pub open spec fn piece_at(s: Seq<char>, env: Entries, i: int) -> Seq<char> {
    let verbatim = s.subrange(i, next_at(s, i));
    if brace_complete(s, i) {
        match lookup(env, s.subrange(i + 2, name_end(s, i + 2))) {
            Some(value) => value,
            None => verbatim,
        }
    } else if brace_opens(s, i) {
        verbatim
    } else if bare_starts(s, i) {
        match lookup(env, s.subrange(i + 1, name_end(s, i + 1))) {
            Some(value) => value,
            None => verbatim,
        }
    } else {
        verbatim
    }
}

/// The expansion of `s[i..]`.
pub open spec fn expand_from(s: Seq<char>, env: Entries, i: int) -> Seq<char>
    decreases s.len() - i,
    via expand_from_decreases
{
    if i < 0 || i >= s.len() {
        Seq::empty()
    } else {
        piece_at(s, env, i) + expand_from(s, env, next_at(s, i))
    }
}

#[via_fn]
proof fn expand_from_decreases(s: Seq<char>, env: Entries, i: int) {
    if 0 <= i < s.len() {
        lemma_next_at(s, i);
    }
}

/// The text `s` with every resolvable reference replaced by its value.
pub open spec fn expand(s: Seq<char>, env: Entries) -> Seq<char> {
    expand_from(s, env, 0)
}

/// A run of name characters ends inside the text, at a character that is not
/// one of them.
pub proof fn lemma_name_end(s: Seq<char>, i: int)
    requires
        0 <= i <= s.len(),
    ensures
        i <= name_end(s, i) <= s.len(),
        name_end(s, i) < s.len() ==> !name_char(s[name_end(s, i)]),
        forall|k: int| i <= k < name_end(s, i) ==> name_char(#[trigger] s[k]),
    decreases s.len() - i,
{
    if i < s.len() && name_char(s[i]) {
        lemma_name_end(s, i + 1);
    }
}

/// Scanning always moves forward and stays inside the text.
pub proof fn lemma_next_at(s: Seq<char>, i: int)
    requires
        0 <= i < s.len(),
    ensures
        i < next_at(s, i) <= s.len(),
{
    if brace_opens(s, i) {
        lemma_name_end(s, i + 2);
    } else if bare_starts(s, i) {
        lemma_name_end(s, i + 1);
    }
}

/// From any position on, expansion copies the text when the mapping resolves
/// none of its pieces.
proof fn lemma_expand_from_unresolved(s: Seq<char>, env: Entries, i: int)
    requires
        0 <= i <= s.len(),
        forall|a: int, b: int|
            0 <= a <= b <= s.len() ==> lookup(env, #[trigger] s.subrange(a, b)) is None,
    ensures
        expand_from(s, env, i) == s.subrange(i, s.len() as int),
    decreases s.len() - i,
{
    if i < s.len() {
        lemma_next_at(s, i);
        let next = next_at(s, i);
        lemma_expand_from_unresolved(s, env, next);
        if brace_opens(s, i) {
            lemma_name_end(s, i + 2);
        } else if bare_starts(s, i) {
            lemma_name_end(s, i + 1);
        }
        assert(piece_at(s, env, i) == s.subrange(i, next));
        assert(s.subrange(i, next) + s.subrange(next, s.len() as int) =~= s.subrange(
            i,
            s.len() as int,
        ));
    } else {
        assert(s.subrange(i, s.len() as int) =~= Seq::<char>::empty());
    }
}

/// Substitution is the identity on a text none of whose parts is a name that
/// the mapping resolves.
pub proof fn lemma_expand_unresolved(s: Seq<char>, env: Entries)
    requires
        forall|a: int, b: int|
            0 <= a <= b <= s.len() ==> lookup(env, #[trigger] s.subrange(a, b)) is None,
    ensures
        expand(s, env) == s,
{
    lemma_expand_from_unresolved(s, env, 0);
    assert(s.subrange(0, s.len() as int) =~= s);
}

/// Whether `c` is an ASCII letter or digit.
pub fn is_alpha_digit(c: char) -> (b: bool)
    ensures
        b == alpha_digit(c),
{
    (c >= '0' && c <= '9') || (c >= 'a' && c <= 'z') || (c >= 'A' && c <= 'Z')
}

/// Whether `c` may occur in a variable name.
pub fn is_name_char(c: char) -> (b: bool)
    ensures
        b == name_char(c),
{
    is_alpha_digit(c) || c == '_'
}

/// The end of the run of name characters that starts at `i`.
fn scan_name(chars: &Vec<char>, i: usize) -> (j: usize)
    requires
        i <= chars@.len(),
    ensures
        j == name_end(chars@, i as int),
        i <= j <= chars@.len(),
{
    let n = chars.len();
    let mut j: usize = i;
    while j < n && is_name_char(chars[j])
        invariant
            i <= j <= n,
            n == chars@.len(),
            name_end(chars@, i as int) == name_end(chars@, j as int),
        decreases n - j,
    {
        j += 1;
    }
    j
}

/// Appends `chars[from..to]` to `out`.
fn push_range(out: &mut Vec<char>, chars: &Vec<char>, from: usize, to: usize)
    requires
        from <= to <= chars@.len(),
    ensures
        final(out)@ == old(out)@ + chars@.subrange(from as int, to as int),
{
    let mut k: usize = from;
    while k < to
        invariant
            from <= k <= to <= chars@.len(),
            out@ == old(out)@ + chars@.subrange(from as int, k as int),
        decreases to - k,
    {
        out.push(chars[k]);
        k += 1;
        proof {
            assert(out@ =~= old(out)@ + chars@.subrange(from as int, k as int));
        }
    }
}

/// Appends the value of `name` to `out` when `map` has one, the text
/// `chars[from..to]` otherwise.
fn push_resolved(
    out: &mut Vec<char>,
    chars: &Vec<char>,
    map: &StrMap,
    name: &str,
    from: usize,
    to: usize,
)
    requires
        from <= to <= chars@.len(),
    ensures
        final(out)@ == old(out)@ + (match lookup(map@, name@) {
            Some(value) => value,
            None => chars@.subrange(from as int, to as int),
        }),
{
    match map.get(name) {
        Some(value) => {
            let v = chars_of(value.as_str());
            push_range(out, &v, 0, v.len());
            proof {
                assert(v@.subrange(0, v@.len() as int) =~= v@);
            }
        },
        None => {
            push_range(out, chars, from, to);
        },
    }
}

/// Replaces every reference `$NAME` or `${NAME}` whose name `map` resolves by
/// its value. A name is a maximal run of ASCII letters, digits and
/// underscores. Unresolved references, a brace without a name and a brace
/// that is never closed stay as they are.
pub fn substitute(s: &str, map: &StrMap) -> (out: String)
    ensures
        out@ == expand(s@, map@),
{
    let chars = chars_of(s);
    let n = chars.len();
    let mut out: Vec<char> = Vec::new();
    let mut i: usize = 0;
    while i < n
        invariant
            0 <= i <= n,
            n == chars@.len(),
            chars@ == s@,
            expand(s@, map@) == out@ + expand_from(s@, map@, i as int),
        decreases n - i,
    {
        let ghost before = out@;
        let ghost start = i;
        proof {
            lemma_next_at(chars@, i as int);
        }
        if chars[i] == '$' && i + 1 < n && chars[i + 1] == '{' {
            let j = scan_name(&chars, i + 2);
            if j > i + 2 && j < n && chars[j] == '}' {
                let name = text_of(&chars, i + 2, j);
                push_resolved(&mut out, &chars, map, name.as_str(), i, j + 1);
                i = j + 1;
            } else {
                push_range(&mut out, &chars, i, j);
                i = j;
            }
        } else if chars[i] == '$' && i + 1 < n && is_name_char(chars[i + 1]) {
            let j = scan_name(&chars, i + 1);
            let name = text_of(&chars, i + 1, j);
            push_resolved(&mut out, &chars, map, name.as_str(), i, j);
            i = j;
        } else {
            out.push(chars[i]);
            proof {
                assert(out@ =~= before + chars@.subrange(i as int, i + 1));
            }
            i += 1;
        }
        proof {
            assert(i == next_at(s@, start as int));
            assert(out@ =~= before + piece_at(s@, map@, start as int));
            assert(out@ + expand_from(s@, map@, i as int) =~= before + expand_from(
                s@,
                map@,
                start as int,
            ));
        }
    }
    let len = out.len();
    text_of(&out, 0, len)
}

} // verus!
