//! What a request puts on the wire: target URL, header lines and payload.

use crate::fields::{Entries, StrMap};
use crate::request::{Body, Request};
use crate::text::{
    begins_with, chars_of, has_prefix, is_match, matches_at, text_of, to_upper, uppercase,
};
use vstd::prelude::*;
use vstd::string::StringExecFns;

verus! {

/// Whether the byte is an ASCII letter or digit.
pub open spec fn alnum_byte(b: u8) -> bool {
    (0x30 <= b && b <= 0x39) || (0x41 <= b && b <= 0x5a) || (0x61 <= b && b <= 0x7a)
}

/// The upper-case hexadecimal digit of a value below sixteen.
pub open spec fn hex_digit(n: int) -> char {
    if n == 0 {
        '0'
    } else if n == 1 {
        '1'
    } else if n == 2 {
        '2'
    } else if n == 3 {
        '3'
    } else if n == 4 {
        '4'
    } else if n == 5 {
        '5'
    } else if n == 6 {
        '6'
    } else if n == 7 {
        '7'
    } else if n == 8 {
        '8'
    } else if n == 9 {
        '9'
    } else if n == 10 {
        'A'
    } else if n == 11 {
        'B'
    } else if n == 12 {
        'C'
    } else if n == 13 {
        'D'
    } else if n == 14 {
        'E'
    } else {
        'F'
    }
}

/// One byte, percent-encoded unless it is an ASCII letter or digit.
pub open spec fn encoded_byte(b: u8) -> Seq<char> {
    if alnum_byte(b) {
        seq![b as char]
    } else {
        seq!['%', hex_digit(b as int / 16), hex_digit(b as int % 16)]
    }
}

/// A run of bytes, each percent-encoded unless it is an ASCII letter or
/// digit.
pub open spec fn percent_encoded(bytes: Seq<u8>) -> Seq<char>
    decreases bytes.len(),
{
    if bytes.len() == 0 {
        Seq::empty()
    } else {
        percent_encoded(bytes.drop_last()) + encoded_byte(bytes.last())
    }
}

/// The percent-encoding of the UTF-8 form of a text.
pub open spec fn percent_text(s: Seq<char>) -> Seq<char> {
    percent_encoded(vstd::utf8::encode_utf8(s))
}

/// Calls `percent_encoding::utf8_percent_encode` with the set
/// `NON_ALPHANUMERIC` and collects what it yields: every byte of the UTF-8
/// form of `s` that is not an ASCII letter or digit comes out as `%` and two
/// upper-case hexadecimal digits, the others as they are.
#[verifier::external_body]
fn percent_encode(s: &str) -> (out: String)
    ensures
        out@ == percent_text(s@),
{
    percent_encoding::utf8_percent_encode(s, percent_encoding::NON_ALPHANUMERIC).to_string()
}

/// One `key=value` pair of a query, both sides percent-encoded.
pub open spec fn pair_text(entry: (Seq<char>, Seq<char>)) -> Seq<char> {
    percent_text(entry.0) + seq!['='] + percent_text(entry.1)
}

/// The first `n` pairs of `entries`, joined by `&`.
pub open spec fn query_prefix(entries: Entries, n: int) -> Seq<char>
    decreases n,
{
    if n <= 0 {
        Seq::empty()
    } else if n == 1 {
        pair_text(entries[0])
    } else {
        query_prefix(entries, n - 1) + seq!['&'] + pair_text(entries[n - 1])
    }
}

/// The query string of a mapping: its pairs in order, joined by `&`.
pub open spec fn query_text(entries: Entries) -> Seq<char> {
    query_prefix(entries, entries.len() as int)
}

/// The characters of a percent-encoded text: ASCII letters, digits and `%`.
pub open spec fn encoded_char(c: char) -> bool {
    ('0' <= c && c <= '9') || ('a' <= c && c <= 'z') || ('A' <= c && c <= 'Z') || c == '%'
}

/// Percent-encoding leaves nothing but ASCII letters, digits and `%`.
pub proof fn lemma_percent_encoded_chars(bytes: Seq<u8>)
    ensures
        forall|i: int|
            0 <= i < percent_encoded(bytes).len() ==> encoded_char(
                #[trigger] percent_encoded(bytes)[i],
            ),
    decreases bytes.len(),
{
    if bytes.len() > 0 {
        lemma_percent_encoded_chars(bytes.drop_last());
        let head = percent_encoded(bytes.drop_last());
        let tail = encoded_byte(bytes.last());
        assert forall|i: int| 0 <= i < tail.len() implies encoded_char(#[trigger] tail[i]) by {}
        assert forall|i: int| 0 <= i < percent_encoded(bytes).len() implies encoded_char(
            #[trigger] percent_encoded(bytes)[i],
        ) by {
            if i < head.len() {
                assert(percent_encoded(bytes)[i] == head[i]);
            } else {
                assert(percent_encoded(bytes)[i] == tail[i - head.len()]);
            }
        }
    }
}

/// A query string holds nothing but ASCII letters, digits, `%`, `=` and `&`,
/// and does not end in `&`.
pub proof fn lemma_query_prefix_shape(entries: Entries, n: int)
    requires
        0 <= n <= entries.len(),
    ensures
        forall|i: int|
            0 <= i < query_prefix(entries, n).len() ==> {
                let c = #[trigger] query_prefix(entries, n)[i];
                encoded_char(c) || c == '=' || c == '&'
            },
        n > 0 ==> query_prefix(entries, n).len() > 0 && query_prefix(entries, n).last() != '&',
    decreases n,
{
    if n > 0 {
        let pair = pair_text(entries[n - 1]);
        let key = percent_text(entries[n - 1].0);
        let value = percent_text(entries[n - 1].1);
        lemma_percent_encoded_chars(vstd::utf8::encode_utf8(entries[n - 1].0));
        lemma_percent_encoded_chars(vstd::utf8::encode_utf8(entries[n - 1].1));
        assert forall|i: int| 0 <= i < pair.len() implies {
            let c = #[trigger] pair[i];
            encoded_char(c) || c == '='
        } by {
            if i < key.len() {
                assert(pair[i] == key[i]);
            } else if i == key.len() {
                assert(pair[i] == '=');
            } else {
                assert(pair[i] == value[i - key.len() - 1]);
            }
        }
        assert(pair.len() > 0 && pair.last() != '&') by {
            assert(pair[pair.len() - 1] == pair.last());
        }
        if n > 1 {
            lemma_query_prefix_shape(entries, n - 1);
            let head = query_prefix(entries, n - 1);
            let whole = query_prefix(entries, n);
            assert(whole =~= head + seq!['&'] + pair);
            assert forall|i: int| 0 <= i < whole.len() implies {
                let c = #[trigger] whole[i];
                encoded_char(c) || c == '=' || c == '&'
            } by {
                if i < head.len() {
                    assert(whole[i] == head[i]);
                } else if i == head.len() {
                    assert(whole[i] == '&');
                } else {
                    assert(whole[i] == pair[i - head.len() - 1]);
                }
            }
            assert(whole.last() == pair.last());
        }
    }
}

/// The query string of a mapping holds nothing but ASCII letters, digits,
/// `%`, `=` and `&`, and does not end in `&`.
pub proof fn lemma_query_text_shape(entries: Entries)
    ensures
        forall|i: int|
            0 <= i < query_text(entries).len() ==> {
                let c = #[trigger] query_text(entries)[i];
                encoded_char(c) || c == '=' || c == '&'
            },
        query_text(entries).len() > 0 ==> query_text(entries).last() != '&',
{
    lemma_query_prefix_shape(entries, entries.len() as int);
}

/// The query string of `query`.
pub fn http_build_query(query: &StrMap) -> (out: String)
    ensures
        out@ == query_text(query@),
{
    let n = query.len();
    let mut out = String::new();
    let mut i: usize = 0;
    while i < n
        invariant
            0 <= i <= n,
            n == query@.len(),
            out@ == query_prefix(query@, i as int),
        decreases n - i,
    {
        let ghost before = out@;
        if i > 0 {
            out.push('&');
        }
        let key = percent_encode(query.key_at(i).as_str());
        out.append(key.as_str());
        out.push('=');
        let value = percent_encode(query.value_at(i).as_str());
        out.append(value.as_str());
        proof {
            if i == 0 {
                assert(before =~= Seq::<char>::empty());
                assert(out@ =~= pair_text(query@[0]));
            } else {
                assert(out@ =~= before + seq!['&'] + pair_text(query@[i as int]));
            }
        }
        i += 1;
    }
    out
}

/// Whether a URL names its scheme, `http` or `https`.
pub open spec fn url_absolute(url: Seq<char>) -> bool {
    begins_with(url, "http://"@) || begins_with(url, "https://"@)
}

/// Whether `url` starts with `http://` or `https://`.
pub fn url_is_absolute(url: &str) -> (b: bool)
    ensures
        b == url_absolute(url@),
{
    let chars = chars_of(url);
    has_prefix(&chars, "http://") || has_prefix(&chars, "https://")
}

/// `s[i..]` with every occurrence of `pat` replaced by `rep`, occurrences
/// being taken from left to right and not overlapping.
pub open spec fn replace_from(s: Seq<char>, pat: Seq<char>, rep: Seq<char>, i: int) -> Seq<char>
    decreases s.len() - i,
{
    if i < 0 || i >= s.len() {
        Seq::empty()
    } else if pat.len() > 0 && matches_at(s, pat, i) {
        rep + replace_from(s, pat, rep, i + pat.len())
    } else {
        seq![s[i]] + replace_from(s, pat, rep, i + 1)
    }
}

/// The text that marks the parameter `name` in a path.
pub open spec fn marker(name: Seq<char>) -> Seq<char> {
    seq!['/', ':'] + name + seq!['/']
}

/// The text that takes the place of a marker.
pub open spec fn filler(value: Seq<char>) -> Seq<char> {
    seq!['/'] + value + seq!['/']
}

/// `path` after the first `n` parameters were put in, one after the other.
pub open spec fn with_params(path: Seq<char>, params: Entries, n: int) -> Seq<char>
    decreases n,
{
    if n <= 0 {
        path
    } else {
        replace_from(
            with_params(path, params, n - 1),
            marker(params[n - 1].0),
            filler(params[n - 1].1),
            0,
        )
    }
}

/// `path` with its parameters put in: every `:name` between two slashes is
/// replaced by the value of `name`. A path that does not end in a slash is
/// treated as if it did, and the slash is taken off again.
pub open spec fn path_text(path: Seq<char>, params: Entries) -> Seq<char> {
    if path.len() > 0 && path.last() == '/' {
        with_params(path, params, params.len() as int)
    } else {
        with_params(path.push('/'), params, params.len() as int).drop_last()
    }
}

/// Replacing markers by fillers keeps the slash at the end of a text.
pub proof fn lemma_replace_keeps_slash(s: Seq<char>, pat: Seq<char>, rep: Seq<char>, i: int)
    requires
        0 <= i < s.len(),
        s.last() == '/',
        rep.len() > 0,
        rep.last() == '/',
    ensures
        replace_from(s, pat, rep, i).len() > 0,
        replace_from(s, pat, rep, i).last() == '/',
    decreases s.len() - i,
{
    if pat.len() > 0 && matches_at(s, pat, i) {
        let next = i + pat.len();
        if next < s.len() {
            lemma_replace_keeps_slash(s, pat, rep, next);
        } else {
            assert(replace_from(s, pat, rep, next) =~= Seq::<char>::empty());
            assert(rep + Seq::<char>::empty() =~= rep);
        }
    } else {
        if i + 1 < s.len() {
            lemma_replace_keeps_slash(s, pat, rep, i + 1);
        } else {
            assert(replace_from(s, pat, rep, i + 1) =~= Seq::<char>::empty());
            assert(seq![s[i]] + Seq::<char>::empty() =~= seq![s[i]]);
        }
    }
}

/// Putting parameters into a path that ends in a slash gives a path that
/// ends in a slash.
pub proof fn lemma_with_params_keeps_slash(path: Seq<char>, params: Entries, n: int)
    requires
        path.len() > 0,
        path.last() == '/',
        0 <= n <= params.len(),
    ensures
        with_params(path, params, n).len() > 0,
        with_params(path, params, n).last() == '/',
    decreases n,
{
    if n > 0 {
        lemma_with_params_keeps_slash(path, params, n - 1);
        let rep = filler(params[n - 1].1);
        assert(rep.last() == '/');
        lemma_replace_keeps_slash(
            with_params(path, params, n - 1),
            marker(params[n - 1].0),
            rep,
            0,
        );
    }
}

/// A parameter at the end of a path is replaced as one inside it is: putting
/// the parameters in and then adding a slash gives what adding the slash
/// first gives.
pub proof fn lemma_trailing_like_interior(path: Seq<char>, params: Entries)
    requires
        path.len() == 0 || path.last() != '/',
    ensures
        path_text(path, params).push('/') == path_text(path.push('/'), params),
{
    let p = path.push('/');
    lemma_with_params_keeps_slash(p, params, params.len() as int);
    let w = with_params(p, params, params.len() as int);
    assert(w.drop_last().push('/') =~= w);
}

/// `chars` with every occurrence of `pat` replaced by `rep`.
fn replace_all(chars: &Vec<char>, pat: &Vec<char>, rep: &Vec<char>) -> (out: Vec<char>)
    ensures
        out@ == replace_from(chars@, pat@, rep@, 0),
{
    let n = chars.len();
    let mut out: Vec<char> = Vec::new();
    let mut i: usize = 0;
    while i < n
        invariant
            0 <= i <= n,
            n == chars@.len(),
            replace_from(chars@, pat@, rep@, 0) == out@ + replace_from(
                chars@,
                pat@,
                rep@,
                i as int,
            ),
        decreases n - i,
    {
        let ghost before = out@;
        let ghost start = i;
        if pat.len() > 0 && is_match(chars, pat, i) {
            let mut k: usize = 0;
            while k < rep.len()
                invariant
                    0 <= k <= rep@.len(),
                    out@ == before + rep@.subrange(0, k as int),
                decreases rep@.len() - k,
            {
                out.push(rep[k]);
                k += 1;
                proof {
                    assert(out@ =~= before + rep@.subrange(0, k as int));
                }
            }
            proof {
                assert(rep@.subrange(0, rep@.len() as int) =~= rep@);
            }
            i += pat.len();
        } else {
            out.push(chars[i]);
            proof {
                assert(out@ =~= before + seq![chars@[i as int]]);
            }
            i += 1;
        }
        proof {
            assert(out@ + replace_from(chars@, pat@, rep@, i as int) =~= before + replace_from(
                chars@,
                pat@,
                rep@,
                start as int,
            ));
        }
    }
    proof {
        assert(out@ + Seq::<char>::empty() =~= out@);
    }
    out
}

/// The characters `lead`, then those of `name`, then a slash.
fn delimited(lead: &str, name: &str) -> (out: Vec<char>)
    ensures
        out@ == lead@ + name@ + seq!['/'],
{
    let mut out = chars_of(lead);
    let mut rest = chars_of(name);
    out.append(&mut rest);
    out.push('/');
    out
}

/// `path` with the values of `params` put in the place of their markers.
pub fn replace_path_params(path: String, params: &StrMap) -> (out: String)
    ensures
        out@ == path_text(path@, params@),
{
    let mut chars = chars_of(path.as_str());
    let n0 = chars.len();
    let end_slash = n0 > 0 && chars[n0 - 1] == '/';
    if !end_slash {
        chars.push('/');
    }
    let ghost base = chars@;
    let n = params.len();
    let mut i: usize = 0;
    while i < n
        invariant
            0 <= i <= n,
            n == params@.len(),
            base.len() > 0,
            base.last() == '/',
            chars@ == with_params(base, params@, i as int),
        decreases n - i,
    {
        let pat = delimited("/:", params.key_at(i).as_str());
        let rep = delimited("/", params.value_at(i).as_str());
        proof {
            reveal_strlit("/:");
            reveal_strlit("/");
            assert(pat@ =~= marker(params@[i as int].0));
            assert(rep@ =~= filler(params@[i as int].1));
        }
        chars = replace_all(&chars, &pat, &rep);
        i += 1;
    }
    proof {
        lemma_with_params_keeps_slash(base, params@, n as int);
    }
    if !end_slash {
        chars.pop();
    }
    let len = chars.len();
    proof {
        assert(chars@.subrange(0, len as int) =~= chars@);
    }
    text_of(&chars, 0, len)
}

/// What a request sends as its body.
#[derive(Debug, Clone)]
pub enum Payload {
    /// No body.
    Nothing,
    /// A multipart form with one part for each entry.
    Form(StrMap),
    /// The given text.
    Data(String),
}

/// A request as it goes on the wire.
#[derive(Debug, Clone)]
pub struct Transfer {
    pub method: String,
    pub url: String,
    pub headers: Vec<String>,
    pub payload: Payload,
    /// Whether redirects are followed.
    pub follow_redirects: bool,
}

/// The methods that send a body.
pub open spec fn carries_body(method: Seq<char>) -> bool {
    method == "POST"@ || method == "PUT"@ || method == "PATCH"@
}

/// The URL that a request is sent to: the base URL unless the URL of the
/// request is absolute, the URL with the path parameters put in, and the
/// query string after a question mark when there is a query mapping.
pub open spec fn target_url(request: Request) -> Seq<char> {
    let base = match request.base_url {
        Some(b) => if url_absolute(request.url@) {
            Seq::empty()
        } else {
            b@
        },
        None => Seq::empty(),
    };
    let path = match request.param.path {
        Some(p) => path_text(request.url@, p@),
        None => request.url@,
    };
    let query = match request.param.query {
        Some(q) => seq!['?'] + query_text(q@),
        None => Seq::empty(),
    };
    base + path + query
}

/// One header line for each entry: key, colon, space, value.
pub open spec fn header_texts(headers: Entries) -> Seq<Seq<char>> {
    Seq::new(headers.len(), |i: int| headers[i].0 + seq![':', ' '] + headers[i].1)
}

/// The header line that announces the kind of body, for the bodies that
/// have one.
pub open spec fn content_type(method: Seq<char>, body: Option<Body>) -> Seq<Seq<char>> {
    if carries_body(method) {
        match body {
            Some(Body::Params(_)) => seq!["content-type: application/x-www-form-urlencoded"@],
            Some(Body::Json(_)) => seq!["content-type: application/json"@],
            _ => Seq::empty(),
        }
    } else {
        Seq::empty()
    }
}

/// All header lines of a request: those of its header mapping, then the
/// content type.
pub open spec fn wire_headers(request: Request) -> Seq<Seq<char>> {
    (match request.param.header {
        Some(h) => header_texts(h@),
        None => Seq::empty(),
    }) + content_type(uppercase(request.method@), request.param.body)
}

/// Whether `payload` is what a request with this method and body sends.
pub open spec fn payload_for(method: Seq<char>, body: Option<Body>, payload: Payload) -> bool {
    if carries_body(method) {
        match body {
            Some(Body::Form(m)) => payload matches Payload::Form(f) && f@ == m@,
            Some(Body::Params(m)) => payload matches Payload::Data(t) && t@ == query_text(m@),
            Some(Body::Json(s)) => payload matches Payload::Data(t) && t@ == s@,
            Some(Body::Raw(s)) => payload matches Payload::Data(t) && t@ == s@,
            None => payload is Nothing,
        }
    } else {
        payload is Nothing
    }
}

/// The texts of a list of strings.
pub open spec fn texts(lines: Seq<String>) -> Seq<Seq<char>> {
    Seq::new(lines.len(), |i: int| lines[i]@)
}

/// Whether `method` is one that sends a body.
pub fn method_carries_body(method: &String) -> (b: bool)
    ensures
        b == carries_body(method@),
{
    *method == "POST".to_owned() || *method == "PUT".to_owned() || *method == "PATCH".to_owned()
}

impl Request {
    /// The URL that the request is sent to.
    pub fn target(&self) -> (out: String)
        ensures
            out@ == target_url(*self),
    {
        let mut url = match &self.base_url {
            Some(base) => {
                if url_is_absolute(self.url.as_str()) {
                    String::new()
                } else {
                    base.clone()
                }
            },
            None => String::new(),
        };
        match &self.param.path {
            Some(params) => {
                let path = replace_path_params(self.url.clone(), params);
                url.append(path.as_str());
            },
            None => {
                url.append(self.url.as_str());
            },
        }
        let ghost head = url@;
        match &self.param.query {
            Some(query) => {
                url.push('?');
                let q = http_build_query(query);
                url.append(q.as_str());
                proof {
                    assert(url@ =~= head + (seq!['?'] + query_text(query@)));
                }
            },
            None => {
                proof {
                    assert(url@ =~= head + Seq::<char>::empty());
                }
            },
        }
        url
    }

    /// What the request puts on the wire: the method in upper case, the
    /// target URL, the header lines and, for `POST`, `PUT` and `PATCH`, the
    /// body.
    pub fn prepare(&self) -> (out: Transfer)
        ensures
            out.method@ == uppercase(self.method@),
            out.url@ == target_url(*self),
            texts(out.headers@) == wire_headers(*self),
            payload_for(uppercase(self.method@), self.param.body, out.payload),
            out.follow_redirects,
    {
        let url = self.target();
        let mut headers: Vec<String> = Vec::new();
        match &self.param.header {
            Some(m) => {
                let n = m.len();
                let mut i: usize = 0;
                while i < n
                    invariant
                        0 <= i <= n,
                        n == m@.len(),
                        headers@.len() == i,
                        forall|k: int|
                            0 <= k < i ==> (#[trigger] headers@[k])@ == header_texts(m@)[k],
                    decreases n - i,
                {
                    let mut line = m.key_at(i).clone();
                    line.append(": ");
                    line.append(m.value_at(i).as_str());
                    proof {
                        reveal_strlit(": ");
                        assert(": "@ =~= seq![':', ' ']);
                    }
                    headers.push(line);
                    i += 1;
                }
                proof {
                    assert(texts(headers@) =~= header_texts(m@));
                }
            },
            None => {
                proof {
                    assert(texts(headers@) =~= Seq::<Seq<char>>::empty());
                }
            },
        }
        let ghost listed = texts(headers@);
        let method = to_upper(self.method.as_str());
        let mut payload = Payload::Nothing;
        if method_carries_body(&method) {
            match &self.param.body {
                Some(Body::Form(m)) => {
                    payload = Payload::Form(m.duplicate());
                },
                Some(Body::Params(m)) => {
                    payload = Payload::Data(http_build_query(m));
                    headers.push("content-type: application/x-www-form-urlencoded".to_owned());
                },
                Some(Body::Json(s)) => {
                    payload = Payload::Data(s.clone());
                    headers.push("content-type: application/json".to_owned());
                },
                Some(Body::Raw(s)) => {
                    payload = Payload::Data(s.clone());
                },
                None => {},
            }
        }
        proof {
            assert(texts(headers@) =~= listed + content_type(method@, self.param.body));
        }
        Transfer { method, url, headers, payload, follow_redirects: true }
    }
}

} // verus!
