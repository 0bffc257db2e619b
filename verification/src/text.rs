//! Character-level helpers shared by the request compiler and the executor.

use vstd::prelude::*;
use vstd::std_specs::iter::IteratorSpec;

verus! {

/// `String::push` appends one character to the end of the string.
pub assume_specification[ String::push ](s: &mut String, c: char)
    ensures
        final(s)@ == old(s)@.push(c),
;

/// The characters of `s`, in order.
pub fn chars_of(s: &str) -> (out: Vec<char>)
    ensures
        out@ == s@,
{
    broadcast use vstd::string::axiom_spec_iter, vstd::string::next_postcondition;

    let mut it = s.chars();
    let mut out: Vec<char> = Vec::new();
    loop
        invariant
            out@ + it.remaining() == s@,
            out@.len() <= s@.len(),
        decreases s@.len() - out@.len(),
    {
        match it.next() {
            Some(c) => {
                proof {
                    assert(out@.push(c) + it.remaining() =~= s@);
                }
                out.push(c);
            },
            None => {
                proof {
                    assert(out@ =~= out@ + it.remaining());
                }
                return out;
            },
        }
    }
}

/// The string spelled by `chars[from..to]`.
pub fn text_of(chars: &Vec<char>, from: usize, to: usize) -> (out: String)
    requires
        from <= to <= chars@.len(),
    ensures
        out@ == chars@.subrange(from as int, to as int),
{
    let mut out = String::new();
    let mut i: usize = from;
    while i < to
        invariant
            from <= i <= to <= chars@.len(),
            out@ == chars@.subrange(from as int, i as int),
        decreases to - i,
    {
        out.push(chars[i]);
        i += 1;
        proof {
            assert(out@ =~= chars@.subrange(from as int, i as int));
        }
    }
    out
}

/// The characters with the Unicode property `White_Space`.
pub open spec fn space(c: char) -> bool {
    c == ' ' || ('\u{9}' <= c && c <= '\u{d}') || c == '\u{85}' || c == '\u{a0}' || c
        == '\u{1680}' || ('\u{2000}' <= c && c <= '\u{200a}') || c == '\u{2028}' || c
        == '\u{2029}' || c == '\u{202f}' || c == '\u{205f}' || c == '\u{3000}'
}

/// The first position at or after `i` that holds no white space.
pub open spec fn skip_space(s: Seq<char>, i: int) -> int
    decreases s.len() - i,
{
    if 0 <= i < s.len() && space(s[i]) {
        skip_space(s, i + 1)
    } else {
        i
    }
}

/// The end of `s[lo..hi]` once the white space at its end is taken away.
pub open spec fn back_space(s: Seq<char>, lo: int, hi: int) -> int
    decreases hi - lo,
{
    if 0 <= lo < hi <= s.len() && space(s[hi - 1]) {
        back_space(s, lo, hi - 1)
    } else {
        hi
    }
}

/// The first position at or after `i` that holds `c`, or the length of `s`.
pub open spec fn find_char(s: Seq<char>, c: char, i: int) -> int
    decreases s.len() - i,
{
    if 0 <= i < s.len() && s[i] != c {
        find_char(s, c, i + 1)
    } else {
        i
    }
}

/// The first position at or after `i` that holds white space, or the length
/// of `s`.
pub open spec fn find_space(s: Seq<char>, i: int) -> int
    decreases s.len() - i,
{
    if 0 <= i < s.len() && !space(s[i]) {
        find_space(s, i + 1)
    } else {
        i
    }
}

/// Where the text of `s` begins once leading white space is taken away.
pub open spec fn trim_start(s: Seq<char>) -> int {
    skip_space(s, 0)
}

/// Where the text of `s` ends once trailing white space is taken away.
pub open spec fn trim_stop(s: Seq<char>) -> int {
    back_space(s, trim_start(s), s.len() as int)
}

/// Whether `s` begins with `p`.
pub open spec fn begins_with(s: Seq<char>, p: Seq<char>) -> bool {
    p.len() <= s.len() && s.subrange(0, p.len() as int) == p
}

/// What `skip_space` returns: a position inside the text, with white space
/// only before it and none at it.
pub proof fn lemma_skip_space(s: Seq<char>, i: int)
    requires
        0 <= i <= s.len(),
    ensures
        i <= skip_space(s, i) <= s.len(),
        skip_space(s, i) < s.len() ==> !space(s[skip_space(s, i)]),
        forall|k: int| i <= k < skip_space(s, i) ==> space(#[trigger] s[k]),
    decreases s.len() - i,
{
    if i < s.len() && space(s[i]) {
        lemma_skip_space(s, i + 1);
    }
}

/// What `back_space` returns: an end between `lo` and `hi`, with white space
/// only after it and none just before it.
pub proof fn lemma_back_space(s: Seq<char>, lo: int, hi: int)
    requires
        0 <= lo <= hi <= s.len(),
    ensures
        lo <= back_space(s, lo, hi) <= hi,
        back_space(s, lo, hi) > lo ==> !space(s[back_space(s, lo, hi) - 1]),
        forall|k: int| back_space(s, lo, hi) <= k < hi ==> space(#[trigger] s[k]),
    decreases hi - lo,
{
    if lo < hi && space(s[hi - 1]) {
        lemma_back_space(s, lo, hi - 1);
    }
}

/// What `find_char` returns: the first occurrence of `c` from `i` on.
pub proof fn lemma_find_char(s: Seq<char>, c: char, i: int)
    requires
        0 <= i <= s.len(),
    ensures
        i <= find_char(s, c, i) <= s.len(),
        find_char(s, c, i) < s.len() ==> s[find_char(s, c, i)] == c,
        forall|k: int| i <= k < find_char(s, c, i) ==> #[trigger] s[k] != c,
    decreases s.len() - i,
{
    if i < s.len() && s[i] != c {
        lemma_find_char(s, c, i + 1);
    }
}

/// What `find_space` returns: the first white space from `i` on.
pub proof fn lemma_find_space(s: Seq<char>, i: int)
    requires
        0 <= i <= s.len(),
    ensures
        i <= find_space(s, i) <= s.len(),
        find_space(s, i) < s.len() ==> space(s[find_space(s, i)]),
        forall|k: int| i <= k < find_space(s, i) ==> !space(#[trigger] s[k]),
    decreases s.len() - i,
{
    if i < s.len() && !space(s[i]) {
        lemma_find_space(s, i + 1);
    }
}

/// Whether `c` is white space.
pub fn is_space(c: char) -> (b: bool)
    ensures
        b == space(c),
{
    c == ' ' || (c >= '\u{9}' && c <= '\u{d}') || c == '\u{85}' || c == '\u{a0}' || c
        == '\u{1680}' || (c >= '\u{2000}' && c <= '\u{200a}') || c == '\u{2028}' || c
        == '\u{2029}' || c == '\u{202f}' || c == '\u{205f}' || c == '\u{3000}'
}

/// The first position at or after `i` that holds no white space.
pub fn skip_spaces(chars: &Vec<char>, i: usize) -> (j: usize)
    requires
        i <= chars@.len(),
    ensures
        j == skip_space(chars@, i as int),
        i <= j <= chars@.len(),
{
    let n = chars.len();
    let mut j: usize = i;
    while j < n && is_space(chars[j])
        invariant
            i <= j <= n,
            n == chars@.len(),
            skip_space(chars@, i as int) == skip_space(chars@, j as int),
        decreases n - j,
    {
        j += 1;
    }
    j
}

/// The end of `chars[lo..hi]` without its trailing white space.
pub fn back_spaces(chars: &Vec<char>, lo: usize, hi: usize) -> (e: usize)
    requires
        lo <= hi <= chars@.len(),
    ensures
        e == back_space(chars@, lo as int, hi as int),
        lo <= e <= hi,
{
    let mut e: usize = hi;
    while e > lo && is_space(chars[e - 1])
        invariant
            lo <= e <= hi <= chars@.len(),
            back_space(chars@, lo as int, hi as int) == back_space(chars@, lo as int, e as int),
        decreases e - lo,
    {
        e -= 1;
    }
    e
}

/// The first position at or after `i` that holds `c`.
pub fn find_from(chars: &Vec<char>, c: char, i: usize) -> (j: usize)
    requires
        i <= chars@.len(),
    ensures
        j == find_char(chars@, c, i as int),
        i <= j <= chars@.len(),
{
    let n = chars.len();
    let mut j: usize = i;
    while j < n && chars[j] != c
        invariant
            i <= j <= n,
            n == chars@.len(),
            find_char(chars@, c, i as int) == find_char(chars@, c, j as int),
        decreases n - j,
    {
        j += 1;
    }
    j
}

/// The first position at or after `i` that holds white space.
pub fn find_space_from(chars: &Vec<char>, i: usize) -> (j: usize)
    requires
        i <= chars@.len(),
    ensures
        j == find_space(chars@, i as int),
        i <= j <= chars@.len(),
{
    let n = chars.len();
    let mut j: usize = i;
    while j < n && !is_space(chars[j])
        invariant
            i <= j <= n,
            n == chars@.len(),
            find_space(chars@, i as int) == find_space(chars@, j as int),
        decreases n - j,
    {
        j += 1;
    }
    j
}

/// Whether `chars` begins with `prefix`.
pub fn has_prefix(chars: &Vec<char>, prefix: &str) -> (b: bool)
    ensures
        b == begins_with(chars@, prefix@),
{
    let p = chars_of(prefix);
    if p.len() > chars.len() {
        return false;
    }
    let mut k: usize = 0;
    while k < p.len()
        invariant
            0 <= k <= p@.len() <= chars@.len(),
            p@ == prefix@,
            chars@.subrange(0, k as int) == p@.subrange(0, k as int),
        decreases p@.len() - k,
    {
        if chars[k] != p[k] {
            proof {
                assert(chars@.subrange(0, p@.len() as int)[k as int] != p@[k as int]);
            }
            return false;
        }
        k += 1;
        proof {
            assert(chars@.subrange(0, k as int) =~= chars@.subrange(0, k - 1).push(
                chars@[k - 1],
            ));
            assert(p@.subrange(0, k as int) =~= p@.subrange(0, k - 1).push(p@[k - 1]));
        }
    }
    proof {
        assert(p@.subrange(0, p@.len() as int) =~= p@);
    }
    true
}

/// The upper-case form of a text, as `str::to_uppercase` computes it.
pub uninterp spec fn uppercase(s: Seq<char>) -> Seq<char>;

/// The text that `String::from_utf8_lossy` decodes from a run of bytes.
pub uninterp spec fn utf8_lossy(bytes: Seq<u8>) -> Seq<char>;

/// Calls `str::to_uppercase`, which maps a text to its upper-case equivalent
/// by the Unicode case tables; the result is known by the name `uppercase`.
#[verifier::external_body]
pub(crate) fn to_upper(s: &str) -> (out: String)
    ensures
        out@ == uppercase(s@),
{
    s.to_uppercase()
}

/// Calls `String::from_utf8_lossy`, which decodes bytes as UTF-8 and puts
/// U+FFFD in the place of each invalid sequence; the result is known by the
/// name `utf8_lossy`, and bytes that are valid UTF-8 decode to their text.
#[verifier::external_body]
pub(crate) fn decode_lossy(bytes: &[u8]) -> (out: String)
    ensures
        out@ == utf8_lossy(bytes@),
        vstd::utf8::valid_utf8(bytes@) ==> out@ == vstd::utf8::decode_utf8(bytes@),
{
    String::from_utf8_lossy(bytes).into_owned()
}

/// Whether `pat` stands in `s` at `i`.
pub open spec fn matches_at(s: Seq<char>, pat: Seq<char>, i: int) -> bool {
    0 <= i && i + pat.len() <= s.len() && s.subrange(i, i + pat.len()) == pat
}

/// Whether `pat` stands in `chars` at `i`.
pub fn is_match(chars: &Vec<char>, pat: &Vec<char>, i: usize) -> (b: bool)
    requires
        i <= chars@.len(),
    ensures
        b == matches_at(chars@, pat@, i as int),
{
    let m = pat.len();
    if m > chars.len() - i {
        return false;
    }
    let mut k: usize = 0;
    while k < m
        invariant
            0 <= k <= m,
            m == pat@.len(),
            i + m <= chars@.len(),
            chars@.len() <= usize::MAX,
            chars@.subrange(i as int, i + k) == pat@.subrange(0, k as int),
        decreases m - k,
    {
        if chars[i + k] != pat[k] {
            proof {
                assert(chars@.subrange(i as int, i + m)[k as int] != pat@[k as int]);
            }
            return false;
        }
        k += 1;
        proof {
            assert(chars@.subrange(i as int, i + k) =~= chars@.subrange(i as int, i + k - 1).push(
                chars@[i + k - 1],
            ));
            assert(pat@.subrange(0, k as int) =~= pat@.subrange(0, k - 1).push(pat@[k - 1]));
        }
    }
    proof {
        assert(pat@.subrange(0, m as int) =~= pat@);
    }
    true
}

/// Whether `pat` stands somewhere in `s`.
pub open spec fn occurs_in(s: Seq<char>, pat: Seq<char>) -> bool {
    exists|i: int| #[trigger] matches_at(s, pat, i)
}

/// Whether `pat` stands somewhere in `chars`.
pub fn contains_text(chars: &Vec<char>, pat: &Vec<char>) -> (b: bool)
    ensures
        b == occurs_in(chars@, pat@),
{
    let n = chars.len();
    let m = pat.len();
    if m > n {
        proof {
            assert forall|i: int| !#[trigger] matches_at(chars@, pat@, i) by {}
        }
        return false;
    }
    let last = n - m;
    let mut i: usize = 0;
    loop
        invariant
            0 <= i <= last,
            last == n - m,
            n == chars@.len(),
            m == pat@.len(),
            forall|k: int| 0 <= k < i ==> !#[trigger] matches_at(chars@, pat@, k),
        decreases last - i,
    {
        if is_match(chars, pat, i) {
            return true;
        }
        if i == last {
            proof {
                assert forall|k: int| !#[trigger] matches_at(chars@, pat@, k) by {}
            }
            return false;
        }
        i += 1;
    }
}

/// Whether `a[i..]` comes before `b[i..]` in the order of dictionaries,
/// characters being ordered by their code.
pub open spec fn lex_from(a: Seq<char>, b: Seq<char>, i: int) -> bool
    decreases b.len() - i,
{
    if i < 0 || i >= b.len() {
        false
    } else if i >= a.len() {
        true
    } else if a[i] != b[i] {
        a[i] < b[i]
    } else {
        lex_from(a, b, i + 1)
    }
}

/// Whether `a` comes before `b` in the order of dictionaries.
pub open spec fn lex_less(a: Seq<char>, b: Seq<char>) -> bool {
    lex_from(a, b, 0)
}

/// Of two texts that agree before `i`, one comes before the other from `i`
/// on, or they are equal.
pub proof fn lemma_lex_total_from(a: Seq<char>, b: Seq<char>, i: int)
    requires
        0 <= i <= a.len(),
        i <= b.len(),
        forall|k: int| 0 <= k < i ==> a[k] == b[k],
    ensures
        lex_from(a, b, i) || lex_from(b, a, i) || a == b,
    decreases a.len() - i,
{
    if i < a.len() && i < b.len() {
        if a[i] == b[i] {
            lemma_lex_total_from(a, b, i + 1);
        }
    } else if i >= a.len() && i >= b.len() {
        assert(a =~= b);
    }
}

/// No text comes before another that comes before it.
pub proof fn lemma_lex_asymmetric_from(a: Seq<char>, b: Seq<char>, i: int)
    requires
        0 <= i,
    ensures
        !(lex_from(a, b, i) && lex_from(b, a, i)),
    decreases a.len() - i,
{
    if i < a.len() && i < b.len() && a[i] == b[i] {
        lemma_lex_asymmetric_from(a, b, i + 1);
    }
}

/// The order of dictionaries is transitive.
pub proof fn lemma_lex_transitive_from(a: Seq<char>, b: Seq<char>, c: Seq<char>, i: int)
    requires
        0 <= i,
        lex_from(a, b, i),
        lex_from(b, c, i),
    ensures
        lex_from(a, c, i),
    decreases c.len() - i,
{
    if i < a.len() && a[i] == b[i] && b[i] == c[i] {
        lemma_lex_transitive_from(a, b, c, i + 1);
    }
}

/// Two different texts are ordered one way or the other.
pub proof fn lemma_lex_total(a: Seq<char>, b: Seq<char>)
    ensures
        lex_less(a, b) || lex_less(b, a) || a == b,
{
    lemma_lex_total_from(a, b, 0);
}

/// No text comes before itself, and two texts are not ordered both ways.
pub proof fn lemma_lex_asymmetric(a: Seq<char>, b: Seq<char>)
    ensures
        !(lex_less(a, b) && lex_less(b, a)),
{
    lemma_lex_asymmetric_from(a, b, 0);
}

/// What comes before a text comes before all that follow it.
pub proof fn lemma_lex_transitive(a: Seq<char>, b: Seq<char>, c: Seq<char>)
    requires
        lex_less(a, b),
        lex_less(b, c),
    ensures
        lex_less(a, c),
{
    lemma_lex_transitive_from(a, b, c, 0);
}

/// Whether `a` comes before `b` in the order of dictionaries.
pub fn text_less(a: &str, b: &str) -> (out: bool)
    ensures
        out == lex_less(a@, b@),
{
    let x = chars_of(a);
    let y = chars_of(b);
    let mut i: usize = 0;
    while i < y.len()
        invariant
            0 <= i <= y@.len(),
            x@ == a@,
            y@ == b@,
            lex_less(a@, b@) == lex_from(a@, b@, i as int),
        decreases y@.len() - i,
    {
        if i >= x.len() {
            return true;
        }
        if x[i] != y[i] {
            return x[i] < y[i];
        }
        i += 1;
    }
    false
}

} // verus!
