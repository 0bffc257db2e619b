use put::config::Group;
use put::fields::StrMap;
use put::header::{get_method_url_line, parse_method_url};
use put::request::{
    select_body, substitute_env, Body, ParseError, ParseErrorKind, Request, RequestCounter,
    YamlRequest,
};
use put::substitute::{is_alpha_digit, is_name_char, substitute};

fn map(pairs: &[(&str, &str)]) -> StrMap {
    let mut m = StrMap::new();
    for (k, v) in pairs {
        m.insert(k.to_string(), v.to_string());
    }
    m
}

fn group(env: Option<StrMap>, base_url: Option<&str>) -> Group {
    Group {
        id: "g1".to_string(),
        name: "first".to_string(),
        base_url: base_url.map(|s| s.to_string()),
        env,
    }
}

fn empty_doc() -> YamlRequest {
    YamlRequest {
        path: None,
        query: None,
        header: None,
        params: None,
        form: None,
        body: None,
        json: None,
    }
}

#[test]
fn compile_plain_header() {
    let mut counter = RequestCounter::new();
    let req = Request::parse("GET /x".to_string(), None, None, &mut counter).unwrap();
    assert_eq!(req.method, "GET");
    assert_eq!(req.url, "/x");
    assert!(req.param.path.is_none());
    assert!(req.param.query.is_none());
    assert!(req.param.header.is_none());
    assert!(req.param.body.is_none());
    assert_eq!(req.raw, "GET /x");
    assert!(req.base_url.is_none());
    assert_eq!(req.id, 0);
}

#[test]
fn compile_only_comments_is_empty_content() {
    let mut counter = RequestCounter::new();
    let err = Request::parse(
        "# one\n\n   # two\n\t\n#three".to_string(),
        None,
        None,
        &mut counter,
    )
    .unwrap_err();
    assert_eq!(err.kind, ParseErrorKind::EmptyContent);
    assert_eq!(err.message(), "empty content");
    assert!(counter.has_next());
    let next = Request::parse("GET /x".to_string(), None, None, &mut counter).unwrap();
    assert_eq!(next.id, 0);
}

#[test]
fn compile_empty_text_is_empty_content() {
    let mut counter = RequestCounter::new();
    let g = group(Some(map(&[("A", "b")])), None);
    let err = Request::parse(String::new(), Some(g), None, &mut counter).unwrap_err();
    assert_eq!(err.kind, ParseErrorKind::EmptyContent);
    let err = Request::parse("  \n \n".to_string(), None, None, &mut counter).unwrap_err();
    assert_eq!(err.kind, ParseErrorKind::EmptyContent);
}

#[test]
fn compile_uppercases_method() {
    let mut counter = RequestCounter::new();
    let g = group(Some(map(&[("HOST", "example.com")])), Some("https://base"));
    let req = Request::parse("get HOST/a".to_string(), Some(g), None, &mut counter).unwrap();
    assert_eq!(req.method, "GET");
    assert_eq!(req.url, "HOST/a");
    assert_eq!(req.base_url.as_deref(), Some("https://base"));
}

#[test]
fn compile_substitutes_before_parsing() {
    let mut counter = RequestCounter::new();
    let g = group(Some(map(&[("HOST", "example.com"), ("VERB", "post")])), None);
    let text = "# $VERB\n$VERB https://$HOST/a\nbody: ${HOST}";
    let req = Request::parse(text.to_string(), Some(g), None, &mut counter).unwrap();
    assert_eq!(req.method, "POST");
    assert_eq!(req.url, "https://example.com/a");
    assert_eq!(req.raw, text);
}

#[test]
fn compile_invalid_header_line() {
    let mut counter = RequestCounter::new();
    let err = Request::parse("# c\nGET\nbody: x".to_string(), None, None, &mut counter)
        .unwrap_err();
    assert_eq!(err.kind, ParseErrorKind::InvalidFormat);
    assert_eq!(err.detail, "GET");
    assert_eq!(err.message(), "invalid format: GET");
}

#[test]
fn compile_ids_increase() {
    let mut counter = RequestCounter::new();
    let a = Request::parse("GET /a".to_string(), None, None, &mut counter).unwrap();
    let b = Request::parse("GET /b".to_string(), None, None, &mut counter).unwrap();
    let _ = Request::parse("oops".to_string(), None, None, &mut counter).unwrap_err();
    let c = Request::parse("GET /c".to_string(), None, None, &mut counter).unwrap();
    assert_eq!((a.id, b.id, c.id), (0, 1, 2));
}

#[test]
fn compile_with_document() {
    let mut counter = RequestCounter::new();
    let mut doc = empty_doc();
    doc.path = Some(map(&[("id", "7")]));
    doc.query = Some(map(&[("q", "1")]));
    doc.header = Some(map(&[("Accept", "text/plain")]));
    doc.form = Some(map(&[("f", "v")]));
    doc.body = Some("raw".to_string());
    let text = "POST /users/:id\npath:\n  id: 7\n";
    let req = Request::parse(text.to_string(), None, Some(Ok(doc)), &mut counter).unwrap();
    assert_eq!(req.method, "POST");
    assert_eq!(req.url, "/users/:id");
    assert_eq!(req.param.path.unwrap().get("id").map(|s| s.as_str()), Some("7"));
    assert_eq!(req.param.query.unwrap().get("q").map(|s| s.as_str()), Some("1"));
    assert_eq!(
        req.param.header.unwrap().get("Accept").map(|s| s.as_str()),
        Some("text/plain")
    );
    match req.param.body {
        Some(Body::Form(m)) => assert_eq!(m.get("f").map(|s| s.as_str()), Some("v")),
        other => panic!("unexpected body {:?}", other),
    }
}

#[test]
fn compile_ignores_document_without_section() {
    let mut counter = RequestCounter::new();
    let mut doc = empty_doc();
    doc.body = Some("raw".to_string());
    let req =
        Request::parse("GET /x  \n\n".to_string(), None, Some(Ok(doc)), &mut counter).unwrap();
    assert!(req.param.body.is_none());
    let req = Request::parse("GET /x\nbody: raw".to_string(), None, None, &mut counter).unwrap();
    assert!(req.param.body.is_none());
}

#[test]
fn outline_gives_section() {
    let out = Request::outline("# c\n  put  /a b \n\nquery:\n  a: 1\n\n", None).unwrap();
    assert_eq!(out.method, "PUT");
    assert_eq!(out.url, "/a b");
    assert_eq!(out.section, "\nquery:\n  a: 1");
    let out = Request::outline("GET /x", None).unwrap();
    assert_eq!(out.section, "");
}

#[test]
fn body_precedence() {
    let json = serde_json::from_str::<serde_json::Value>("{\"a\": [1, \"x\", null]}").unwrap();
    let mut doc = empty_doc();
    doc.params = Some(map(&[("p", "1")]));
    doc.form = Some(map(&[("f", "1")]));
    doc.json = Some(json.clone());
    doc.body = Some("raw".to_string());
    assert!(matches!(doc.clone().into_param().unwrap().body, Some(Body::Params(_))));
    doc.params = None;
    assert!(matches!(doc.clone().into_param().unwrap().body, Some(Body::Form(_))));
    doc.form = None;
    match doc.clone().into_param().unwrap().body {
        Some(Body::Json(s)) => assert_eq!(s, "{\"a\":[1,\"x\",null]}"),
        other => panic!("unexpected body {:?}", other),
    }
    doc.json = None;
    match doc.clone().into_param().unwrap().body {
        Some(Body::Raw(s)) => assert_eq!(s, "raw"),
        other => panic!("unexpected body {:?}", other),
    }
    doc.body = None;
    assert!(doc.into_param().unwrap().body.is_none());
}

#[test]
fn json_string_body_is_rendered() {
    let mut doc = empty_doc();
    doc.json = Some(serde_json::Value::String("a\"b".to_string()));
    match doc.into_param().unwrap().body {
        Some(Body::Json(s)) => assert_eq!(s, "\"a\\\"b\""),
        other => panic!("unexpected body {:?}", other),
    }
}

#[test]
fn select_body_takes_first_source() {
    let b = select_body(None, None, Some("{}".to_string()), Some("raw".to_string()));
    assert!(matches!(b, Some(Body::Json(ref s)) if s == "{}"));
    let b = select_body(None, Some(map(&[])), Some("{}".to_string()), None);
    assert!(matches!(b, Some(Body::Form(_))));
    assert!(select_body(None, None, None, None).is_none());
}

#[test]
fn substitute_bare_and_braced() {
    let env = map(&[("HOST", "example.com")]);
    assert_eq!(
        substitute("GET https://$HOST/a/${HOST}/b", &env),
        "GET https://example.com/a/example.com/b"
    );
}

#[test]
fn substitute_unknown_is_noop() {
    let env = map(&[("BAR", "x")]);
    assert_eq!(substitute("$FOO bar", &env), "$FOO bar");
    assert_eq!(substitute("${FOO} bar", &env), "${FOO} bar");
    assert_eq!(substitute("no references", &env), "no references");
}

#[test]
fn substitute_edge_cases() {
    let env = map(&[("A", "1"), ("A_B", "2"), ("_X", "3"), ("N9", "4")]);
    assert_eq!(substitute("", &env), "");
    assert_eq!(substitute("$", &env), "$");
    assert_eq!(substitute("a$", &env), "a$");
    assert_eq!(substitute("${}", &env), "${}");
    assert_eq!(substitute("${A", &env), "${A");
    assert_eq!(substitute("${A$A}", &env), "${A1}");
    assert_eq!(substitute("${", &env), "${");
    assert_eq!(substitute("$A_B-$A", &env), "2-1");
    assert_eq!(substitute("$A-B", &env), "1-B");
    assert_eq!(substitute("$_X ${_X}", &env), "3 3");
    assert_eq!(substitute("$N9$N9", &env), "44");
    assert_eq!(substitute("$$A", &env), "$1");
    assert_eq!(substitute("${A}${A_B}", &env), "12");
    assert_eq!(substitute("\u{e9}$A\u{4e2d}${A}\u{1f600}", &env), "\u{e9}1\u{4e2d}1\u{1f600}");
    assert_eq!(substitute("$\u{e9}", &env), "$\u{e9}");
}

#[test]
fn substitute_value_is_not_expanded_again() {
    let env = map(&[("A", "$B"), ("B", "x")]);
    assert_eq!(substitute("$A $B", &env), "$B x");
}

#[test]
fn substitute_env_needs_variables() {
    assert_eq!(substitute_env("$A", None), None);
    let g = group(None, None);
    assert_eq!(substitute_env("$A", Some(&g)), None);
    let g = group(Some(StrMap::new()), None);
    assert_eq!(substitute_env("$A", Some(&g)), None);
    let g = group(Some(map(&[("A", "1")])), None);
    assert_eq!(substitute_env("$A", Some(&g)), Some("1".to_string()));
}

#[test]
fn name_characters() {
    assert!(is_alpha_digit('a') && is_alpha_digit('Z') && is_alpha_digit('0'));
    assert!(!is_alpha_digit('_') && !is_alpha_digit('-') && !is_alpha_digit('\u{e9}'));
    assert!(is_name_char('_') && is_name_char('q') && !is_name_char('{'));
}

#[test]
fn header_line_skips_comments_and_blank_lines() {
    assert_eq!(get_method_url_line("GET /x"), (Some("GET /x"), ""));
    assert_eq!(get_method_url_line("\n\n  GET /x  \n"), (Some("GET /x"), ""));
    assert_eq!(
        get_method_url_line("# a\n\n  # b\nGET /x \r\nbody: 1\n  \n"),
        (Some("GET /x \r"), "body: 1")
    );
    assert_eq!(get_method_url_line("GET /x\n  indented: 1"), (Some("GET /x"), "  indented: 1"));
    assert_eq!(get_method_url_line("GET /x # not a comment"), (Some("GET /x # not a comment"), ""));
    assert_eq!(get_method_url_line("GET /x\n# kept\nbody: 1"), (Some("GET /x"), "# kept\nbody: 1"));
    assert_eq!(get_method_url_line(""), (None, ""));
    assert_eq!(get_method_url_line("#"), (None, ""));
    assert_eq!(get_method_url_line("# a\n# b"), (None, ""));
    assert_eq!(get_method_url_line(" \u{a0}\u{3000}\n#x\n"), (None, ""));
}

#[test]
fn method_and_url_are_split_at_white_space() {
    assert_eq!(parse_method_url("GET /x"), Some(("GET", "/x")));
    assert_eq!(parse_method_url("  GET    /x y  "), Some(("GET", "/x y")));
    assert_eq!(parse_method_url("GET\t/x"), Some(("GET", "/x")));
    assert_eq!(parse_method_url("GET"), None);
    assert_eq!(parse_method_url("GET   "), None);
    assert_eq!(parse_method_url(""), None);
    assert_eq!(parse_method_url("   "), None);
}

#[test]
fn parse_error_messages() {
    let e = ParseError::create(ParseErrorKind::InvalidFormat, "x".to_string());
    assert_eq!(e.message(), "invalid format: x");
    let e = ParseError::create(ParseErrorKind::BodyDecode, "bad yaml".to_string());
    assert_eq!(e.message(), "bad yaml");
    let e = ParseError::create(ParseErrorKind::EmptyContent, String::new());
    assert_eq!(e.message(), "empty content");
}

#[test]
fn counter_issues_each_id_once() {
    let mut c = RequestCounter::new();
    assert!(c.has_next());
    assert_eq!(c.next_id(), 0);
    assert_eq!(c.next_id(), 1);
    assert_eq!(c.next_id(), 2);
}

#[test]
fn compile_refused_document_is_body_decode() {
    let mut counter = RequestCounter::new();
    let refused = Some(Err("did not find expected node".to_string()));
    let err = Request::parse("GET /x\nbody: [".to_string(), None, refused, &mut counter)
        .unwrap_err();
    assert_eq!(err.kind, ParseErrorKind::BodyDecode);
    assert_eq!(err.detail, "did not find expected node");
    assert_eq!(err.message(), "did not find expected node");
    let refused = Some(Err("unused".to_string()));
    let req = Request::parse("GET /x".to_string(), None, refused, &mut counter).unwrap();
    assert_eq!(req.id, 0);
    assert!(req.param.body.is_none());
}

struct Gen(u64);

impl Gen {
    fn next(&mut self) -> usize {
        self.0 = self.0.wrapping_mul(6364136223846793005).wrapping_add(1442695040888963407);
        (self.0 >> 33) as usize
    }

    fn text(&mut self, alphabet: &[char], max: usize) -> String {
        let n = self.next() % (max + 1);
        (0..n).map(|_| alphabet[self.next() % alphabet.len()]).collect()
    }
}

fn first_line(s: &str) -> (Option<&str>, &str) {
    let s = s.trim();
    match s.find('\n') {
        Some(i) => {
            let line = &s[..i];
            if line.starts_with('#') {
                first_line(&s[i + 1..])
            } else {
                (Some(line), &s[i + 1..])
            }
        }
        None => {
            if s.is_empty() || s.starts_with('#') {
                (None, "")
            } else {
                (Some(s), "")
            }
        }
    }
}

#[test]
fn header_line_on_many_texts() {
    let alphabet = ['#', '\n', ' ', 'G', '/', '\n', '\t', '#', 'x'];
    let mut g = Gen(1);
    for _ in 0..5000 {
        let s = g.text(&alphabet, 14);
        assert_eq!(get_method_url_line(&s), first_line(&s), "{:?}", s);
    }
}

#[test]
fn method_and_url_on_many_lines() {
    let alphabet = [' ', 'G', '/', ' ', 'x', '\u{e9}'];
    let mut g = Gen(2);
    for _ in 0..5000 {
        let s = g.text(&alphabet, 10);
        let t = s.trim();
        let expected = t.find(' ').map(|i| (&t[..i], t[i + 1..].trim()));
        assert_eq!(parse_method_url(&s), expected, "{:?}", s);
    }
}

#[test]
fn substitute_without_variables_on_many_texts() {
    let alphabet = ['$', '{', '}', 'A', '_', '1', ' ', '$'];
    let mut g = Gen(4);
    let env = map(&[("ZZ", "never used")]);
    for _ in 0..3000 {
        let s = g.text(&alphabet, 10);
        let resolves = s.contains("ZZ");
        if !resolves {
            assert_eq!(substitute(&s, &env), s);
        }
    }
}

#[test]
fn substitute_resolves_every_reference() {
    let alphabet = ['$', '{', '}', 'A', 'B', ' ', '$', '-'];
    let mut g = Gen(6);
    let env = map(&[("A", "<a>"), ("B", "<b>"), ("AB", "<ab>")]);
    for _ in 0..3000 {
        let s = g.text(&alphabet, 10);
        let out = substitute(&s, &env);
        let bytes = s.as_bytes();
        let mut expected = String::new();
        let mut i = 0;
        while i < bytes.len() {
            let rest = &s[i..];
            let name_len = |t: &str| t.bytes().take_while(|b| b.is_ascii_alphanumeric() || *b == b'_').count();
            if rest.starts_with("${") {
                let n = name_len(&rest[2..]);
                if n > 0 && rest[2 + n..].starts_with('}') {
                    let name = &rest[2..2 + n];
                    match env.get(name) {
                        Some(v) => expected.push_str(v),
                        None => expected.push_str(&rest[..n + 3]),
                    }
                    i += n + 3;
                } else {
                    expected.push_str(&rest[..2 + n]);
                    i += 2 + n;
                }
            } else if rest.starts_with('$') && name_len(&rest[1..]) > 0 {
                let n = name_len(&rest[1..]);
                match env.get(&rest[1..1 + n]) {
                    Some(v) => expected.push_str(v),
                    None => expected.push_str(&rest[..1 + n]),
                }
                i += 1 + n;
            } else {
                expected.push(bytes[i] as char);
                i += 1;
            }
        }
        assert_eq!(out, expected, "{:?}", s);
    }
}
