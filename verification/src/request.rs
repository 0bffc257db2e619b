//! Requests, their compilation from text, and responses.

use crate::config::Group;
use crate::fields::StrMap;
use crate::header::{
    body_section, get_method_url_line, header_line, method_url, parse_method_url,
};
use crate::substitute::{expand, substitute};
use crate::text::{chars_of, decode_lossy, find_char, find_from, to_upper, uppercase};
use vstd::prelude::*;
use vstd::string::StringExecFns;

verus! {

/// `serde_json::Value`, a JSON value; nothing is known of what it holds.
#[verifier::external_type_specification]
#[verifier::external_body]
pub struct ExJsonValue(serde_json::Value);

/// `serde_json::Error`, the fault that rendering a JSON value ends in.
#[verifier::external_type_specification]
#[verifier::external_body]
pub struct ExJsonError(serde_json::Error);

/// The compact JSON text of a value, as `serde_json::to_string` writes it.
pub uninterp spec fn json_text(value: serde_json::Value) -> Seq<char>;

/// Calls `serde_json::to_string` on a JSON value. When it succeeds the text
/// is the one known by the name `json_text`; it may fail.
#[verifier::external_body]
fn json_to_text(value: &serde_json::Value) -> (out: Result<String, serde_json::Error>)
    ensures
        out matches Ok(text) ==> text@ == json_text(*value),
{
    serde_json::to_string(value)
}

/// Calls `to_string` on a `serde_json::Error`, which renders its message.
#[verifier::external_body]
fn json_error_text(error: &serde_json::Error) -> (out: String) {
    error.to_string()
}

/// The body of a request.
#[derive(Debug, Clone)]
pub enum Body {
    Params(StrMap),
    Form(StrMap),
    Json(String),
    Raw(String),
}

/// The parameters of a request.
#[derive(Debug, Clone)]
pub struct RequestParam {
    pub path: Option<StrMap>,
    pub query: Option<StrMap>,
    pub header: Option<StrMap>,
    pub body: Option<Body>,
}

impl Default for RequestParam {
    fn default() -> (out: Self)
        ensures
            out.path is None,
            out.query is None,
            out.header is None,
            out.body is None,
    {
        RequestParam { path: None, query: None, header: None, body: None }
    }
}

/// The decoded body section of a request definition.
#[derive(Debug, Clone)]
pub struct YamlRequest {
    pub path: Option<StrMap>,
    pub query: Option<StrMap>,
    pub header: Option<StrMap>,
    pub params: Option<StrMap>,
    pub form: Option<StrMap>,
    pub body: Option<String>,
    pub json: Option<serde_json::Value>,
}

/// Why a request definition was refused.
#[derive(Debug, Clone, Copy, PartialEq, Eq, Structural)]
pub enum ParseErrorKind {
    /// The text holds nothing but blank lines and comments.
    EmptyContent,
    /// The header line is not a method followed by a URL.
    InvalidFormat,
    /// The body section could not be decoded.
    BodyDecode,
}

/// A refused request definition: the kind of fault and the text it concerns
/// (the header line, or the decoder's message).
#[derive(Debug, Clone)]
pub struct ParseError {
    pub kind: ParseErrorKind,
    pub detail: String,
}

impl ParseError {
    /// An error of the given kind about `detail`.
    pub fn create(kind: ParseErrorKind, detail: String) -> (out: ParseError)
        ensures
            out.kind == kind,
            out.detail == detail,
    {
        ParseError { kind, detail }
    }

    /// The message of the error as a text over its kind and detail.
    pub open spec fn message_text(kind: ParseErrorKind, detail: Seq<char>) -> Seq<char> {
        match kind {
            ParseErrorKind::EmptyContent => "empty content"@,
            ParseErrorKind::InvalidFormat => "invalid format: "@ + detail,
            ParseErrorKind::BodyDecode => detail,
        }
    }

    /// The message shown to the user.
    pub fn message(&self) -> (out: String)
        ensures
            out@ == Self::message_text(self.kind, self.detail@),
    {
        match self.kind {
            ParseErrorKind::EmptyContent => "empty content".to_owned(),
            ParseErrorKind::InvalidFormat => {
                String::from_str("invalid format: ").concat(self.detail.as_str())
            },
            ParseErrorKind::BodyDecode => self.detail.clone(),
        }
    }
}

/// Issues the ids that tie a response to the request that caused it.
#[derive(Debug)]
pub struct RequestCounter {
    next: u32,
}

impl RequestCounter {
    /// How many ids were issued; also the id that comes next.
    pub closed spec fn issued(&self) -> nat {
        self.next as nat
    }

    /// A counter that has issued no id.
    pub fn new() -> (out: Self)
        ensures
            out.issued() == 0,
    {
        RequestCounter { next: 0 }
    }

    /// Whether another id can be issued.
    pub fn has_next(&self) -> (b: bool)
        ensures
            b == (self.issued() < u32::MAX),
    {
        self.next < u32::MAX
    }

    /// The next id. Ids are issued in increasing order, each once.
    pub fn next_id(&mut self) -> (id: u32)
        requires
            old(self).issued() < u32::MAX,
        ensures
            id == old(self).issued(),
            final(self).issued() == old(self).issued() + 1,
    {
        let id = self.next;
        self.next = id + 1;
        id
    }
}

/// The body that a decoded document selects: `params` before `form` before
/// `json` before `body`.
pub open spec fn body_choice(
    params: Option<StrMap>,
    form: Option<StrMap>,
    json: Option<String>,
    body: Option<String>,
) -> Option<Body> {
    if params is Some {
        Some(Body::Params(params.unwrap()))
    } else if form is Some {
        Some(Body::Form(form.unwrap()))
    } else if json is Some {
        Some(Body::Json(json.unwrap()))
    } else if body is Some {
        Some(Body::Raw(body.unwrap()))
    } else {
        None
    }
}

/// Selects the body among the sources of a document, `json` being given as
/// the text it was rendered to.
pub fn select_body(
    params: Option<StrMap>,
    form: Option<StrMap>,
    json: Option<String>,
    body: Option<String>,
) -> (out: Option<Body>)
    ensures
        out == body_choice(params, form, json, body),
{
    match params {
        Some(m) => Some(Body::Params(m)),
        None => match form {
            Some(m) => Some(Body::Form(m)),
            None => match json {
                Some(s) => Some(Body::Json(s)),
                None => match body {
                    Some(s) => Some(Body::Raw(s)),
                    None => None,
                },
            },
        },
    }
}

impl YamlRequest {
    /// Whether the JSON source is the one that gives the body, so that it
    /// has to be rendered.
    pub open spec fn renders_json(&self) -> bool {
        self.params is None && self.form is None && self.json is Some
    }

    /// Whether `param` is what this document turns into. A body given as
    /// JSON holds the compact text of the value.
    pub open spec fn yields(&self, param: RequestParam) -> bool {
        &&& param.path == self.path
        &&& param.query == self.query
        &&& param.header == self.header
        &&& if self.renders_json() {
            param.body matches Some(Body::Json(text)) && text@ == json_text(self.json.unwrap())
        } else {
            param.body == body_choice(self.params, self.form, None, self.body)
        }
    }

    /// Turns the document into request parameters. Fails only when the JSON
    /// source gives the body and cannot be rendered.
    pub fn into_param(self) -> (out: Result<RequestParam, ParseError>)
        ensures
            match out {
                Ok(param) => self.yields(param),
                Err(e) => self.renders_json() && e.kind == ParseErrorKind::BodyDecode,
            },
    {
        let render = self.params.is_none() && self.form.is_none();
        let json = match self.json {
            Some(value) => {
                if render {
                    match json_to_text(&value) {
                        Ok(text) => Some(text),
                        Err(e) => {
                            return Err(
                                ParseError::create(
                                    ParseErrorKind::BodyDecode,
                                    json_error_text(&e),
                                ),
                            );
                        },
                    }
                } else {
                    None
                }
            },
            None => None,
        };
        Ok(
            RequestParam {
                path: self.path,
                query: self.query,
                header: self.header,
                body: select_body(self.params, self.form, json, self.body),
            },
        )
    }
}

/// A compiled request.
#[derive(Debug, Clone)]
pub struct Request {
    pub id: u32,
    pub method: String,
    pub url: String,
    pub param: RequestParam,
    pub base_url: Option<String>,
    pub raw: String,
}

/// What came back for a request.
#[derive(Debug, Clone)]
pub struct Response {
    pub body: String,
    pub header: String,
    pub time: u32,
}

/// The header line of a definition, split, and its body section.
#[derive(Debug, Clone)]
pub struct Outline {
    pub method: String,
    pub url: String,
    pub section: String,
}

/// How a text divides into header line and body section.
pub enum Framing {
    /// No header line.
    Empty,
    /// A header line that is not a method and a URL.
    Invalid(Seq<char>),
    /// Method and URL as written, and the body section.
    Framed { method: Seq<char>, url: Seq<char>, section: Seq<char> },
}

/// The variables of a group, when it has some.
pub open spec fn active_env(group: Option<Group>) -> Option<StrMap> {
    match group {
        Some(g) => match g.env {
            Some(env) => if env@.len() > 0 {
                Some(env)
            } else {
                None
            },
            None => None,
        },
        None => None,
    }
}

/// The text that is parsed: `yaml` with the variables of the group put in.
pub open spec fn source_text(yaml: Seq<char>, group: Option<Group>) -> Seq<char> {
    match active_env(group) {
        Some(env) => expand(yaml, env@),
        None => yaml,
    }
}

/// The framing of a text.
pub open spec fn framing(text: Seq<char>) -> Framing {
    match header_line(text) {
        None => Framing::Empty,
        Some(line) => match method_url(line) {
            None => Framing::Invalid(line),
            Some((method, url)) => Framing::Framed { method, url, section: body_section(text) },
        },
    }
}

/// The group behind an optional reference.
pub open spec fn group_of(group: Option<&Group>) -> Option<Group> {
    match group {
        Some(g) => Some(*g),
        None => None,
    }
}

/// The base URL that a request takes from its group.
pub open spec fn inherited_base(group: Option<Group>) -> Option<String> {
    match group {
        Some(g) => g.base_url,
        None => None,
    }
}

/// `s` with the variables of `group` put in; `None` when the group has no
/// variables, so that nothing is to be replaced.
pub fn substitute_env(s: &str, group: Option<&Group>) -> (out: Option<String>)
    ensures
        match out {
            Some(text) => active_env(group_of(group)) is Some && text@ == source_text(
                s@,
                group_of(group),
            ),
            None => active_env(group_of(group)) is None,
        },
{
    match group {
        Some(g) => match &g.env {
            Some(env) => {
                if env.is_empty() {
                    None
                } else {
                    Some(substitute(s, env))
                }
            },
            None => None,
        },
        None => None,
    }
}

impl Request {
    /// Finds the header line of `yaml`, after the variables of `group` were
    /// put in, and splits it. The method comes back in upper case.
    pub fn outline(yaml: &str, group: Option<&Group>) -> (out: Result<Outline, ParseError>)
        ensures
            match framing(source_text(yaml@, group_of(group))) {
                Framing::Empty => out is Err && out.unwrap_err().kind
                    == ParseErrorKind::EmptyContent && out.unwrap_err().detail@.len() == 0,
                Framing::Invalid(line) => out is Err && out.unwrap_err().kind
                    == ParseErrorKind::InvalidFormat && out.unwrap_err().detail@ == line,
                Framing::Framed { method, url, section } => out is Ok && out.unwrap().method@
                    == uppercase(method) && out.unwrap().url@ == url && out.unwrap().section@
                    == section,
            },
    {
        let substituted = substitute_env(yaml, group);
        let text: &str = match &substituted {
            Some(t) => t.as_str(),
            None => yaml,
        };
        let (line, remain) = get_method_url_line(text);
        match line {
            Some(line) => match parse_method_url(line) {
                Some((method, url)) => Ok(
                    Outline {
                        method: to_upper(method),
                        url: url.to_owned(),
                        section: remain.to_owned(),
                    },
                ),
                None => Err(ParseError::create(ParseErrorKind::InvalidFormat, line.to_owned())),
            },
            None => Err(ParseError::create(ParseErrorKind::EmptyContent, String::new())),
        }
    }

    /// Compiles a request definition. `document` is what decoding the body
    /// section gave, for a definition that has one: the document, or the
    /// message of the decoder that refused it. The request takes the next id
    /// of `counter`; a refused definition takes none.
    pub fn parse(
        yaml: String,
        group: Option<Group>,
        document: Option<Result<YamlRequest, String>>,
        counter: &mut RequestCounter,
    ) -> (out: Result<Request, ParseError>)
        requires
            old(counter).issued() < u32::MAX,
        ensures
            match framing(source_text(yaml@, group)) {
                Framing::Empty => out is Err && out.unwrap_err().kind
                    == ParseErrorKind::EmptyContent,
                Framing::Invalid(line) => out is Err && out.unwrap_err().kind
                    == ParseErrorKind::InvalidFormat && out.unwrap_err().detail@ == line,
                Framing::Framed { method, url, section } => match out {
                    Ok(request) => {
                        &&& request.method@ == uppercase(method)
                        &&& request.url@ == url
                        &&& request.raw == yaml
                        &&& request.base_url == inherited_base(group)
                        &&& if section.len() == 0 || document is None {
                            &&& request.param.path is None
                            &&& request.param.query is None
                            &&& request.param.header is None
                            &&& request.param.body is None
                        } else {
                            document matches Some(Ok(doc)) && doc.yields(request.param)
                        }
                    },
                    Err(e) => {
                        &&& section.len() > 0
                        &&& e.kind == ParseErrorKind::BodyDecode
                        &&& match document {
                            Some(Ok(doc)) => doc.renders_json(),
                            Some(Err(cause)) => e.detail == cause,
                            None => false,
                        }
                    },
                },
            },
            match out {
                Ok(request) => request.id == old(counter).issued() && final(counter).issued()
                    == old(counter).issued() + 1,
                Err(_) => final(counter).issued() == old(counter).issued(),
            },
    {
        let outline = match Request::outline(yaml.as_str(), group.as_ref()) {
            Ok(o) => o,
            Err(e) => {
                return Err(e);
            },
        };
        let param = if outline.section.as_str().is_empty() {
            RequestParam::default()
        } else {
            match document {
                Some(Ok(doc)) => match doc.into_param() {
                    Ok(p) => p,
                    Err(e) => {
                        return Err(e);
                    },
                },
                Some(Err(cause)) => {
                    return Err(ParseError::create(ParseErrorKind::BodyDecode, cause));
                },
                None => RequestParam::default(),
            }
        };
        let base_url = match group {
            Some(g) => g.base_url,
            None => None,
        };
        Ok(
            Request {
                id: counter.next_id(),
                method: outline.method,
                url: outline.url,
                param,
                base_url,
                raw: yaml,
            },
        )
    }
}

/// Whether a carriage return and a line feed stand at `i`.
pub open spec fn crlf_at(s: Seq<char>, i: int) -> bool {
    0 <= i && i + 1 < s.len() && s[i] == '\r' && s[i + 1] == '\n'
}

/// The first position at or after `i` where a line ends with carriage return
/// and line feed, or the length of `s`.
pub open spec fn find_crlf(s: Seq<char>, i: int) -> int
    decreases s.len() - i,
{
    if i < 0 || i >= s.len() {
        s.len() as int
    } else if crlf_at(s, i) {
        i
    } else {
        find_crlf(s, i + 1)
    }
}

/// The status of a header block: what follows the first space on its first
/// line. `None` when no line is terminated or the first line has no space.
pub open spec fn status_of(header: Seq<char>) -> Option<Seq<char>> {
    let end = find_crlf(header, 0);
    let sp = find_char(header, ' ', 0);
    if end < header.len() && sp < end {
        Some(header.subrange(sp + 1, end))
    } else {
        None
    }
}

/// The first position at or after `i` where a line ends.
fn find_line_end(chars: &Vec<char>, i: usize) -> (j: usize)
    requires
        i <= chars@.len(),
    ensures
        j == find_crlf(chars@, i as int),
        i <= j <= chars@.len(),
{
    let n = chars.len();
    let mut j: usize = i;
    while j < n
        invariant
            i <= j <= n,
            n == chars@.len(),
            find_crlf(chars@, i as int) == find_crlf(chars@, j as int),
        decreases n - j,
    {
        if chars[j] == '\r' && j + 1 < n && chars[j + 1] == '\n' {
            return j;
        }
        j += 1;
    }
    n
}

impl Response {
    /// The response to a transfer that delivered the header block `header`
    /// and the body `body` in `millis` milliseconds. Both are decoded as
    /// UTF-8, invalid sequences being replaced; the time is kept modulo
    /// 2^32.
    pub fn from_transfer(header: &[u8], body: &[u8], millis: u128) -> (out: Response)
        ensures
            out.header@ == crate::text::utf8_lossy(header@),
            out.body@ == crate::text::utf8_lossy(body@),
            out.time == millis % 0x1_0000_0000,
    {
        let low: u128 = millis % 0x1_0000_0000;
        Response { body: decode_lossy(body), header: decode_lossy(header), time: low as u32 }
    }

    /// The status of the response: code and reason of its status line.
    pub fn status(&self) -> (out: Option<&str>)
        ensures
            match out {
                Some(status) => status_of(self.header@) == Some(status@),
                None => status_of(self.header@) is None,
            },
    {
        let chars = chars_of(self.header.as_str());
        let end = find_line_end(&chars, 0);
        let sp = find_from(&chars, ' ', 0);
        if end < chars.len() && sp < end {
            Some(self.header.as_str().substring_char(sp + 1, end))
        } else {
            None
        }
    }
}

} // verus!
