use put::request::{Request, RequestParam, Response};
use put::request_store::{
    delete, find, find_name, make_default_title, rename, row_precedes, select, update,
    RequestStore, Row, StoredRecord, Table, LIMIT,
};

fn request(method: &str, url: &str, raw: &str) -> Request {
    Request {
        id: 0,
        method: method.to_string(),
        url: url.to_string(),
        param: RequestParam::default(),
        base_url: None,
        raw: raw.to_string(),
    }
}

fn response(body: &str) -> Response {
    Response { body: body.to_string(), header: String::new(), time: 0 }
}

fn record(group: &str, method: &str, url: &str, title: &str) -> StoredRecord {
    StoredRecord {
        group_id: group.to_string(),
        method: method.to_string(),
        url: url.to_string(),
        request_raw: format!("{} {}", method, url),
        response_body: String::new(),
        title: title.to_string(),
    }
}

fn shown(store: &RequestStore) -> Vec<(String, String, String)> {
    store
        .get_store()
        .iter()
        .map(|r| (r.method.clone(), r.url.clone(), r.title.clone()))
        .collect()
}

fn entry(m: &str, u: &str, t: &str) -> (String, String, String) {
    (m.to_string(), u.to_string(), t.to_string())
}

#[test]
fn put_then_find_returns_what_was_stored() {
    let mut store = RequestStore::new();
    let written = store.put(&request("GET", "/a", "GET /a\nquery: {}"), &response("body-a"));
    assert_eq!(written.group_id, "");
    assert_eq!(written.title, "");
    assert_eq!(
        store.find("GET", "/a"),
        Some(("GET /a\nquery: {}".to_string(), "body-a".to_string()))
    );
    assert_eq!(store.find("POST", "/a"), None);
    assert_eq!(store.find("GET", "/b"), None);
}

#[test]
fn put_twice_keeps_one_row_and_the_title() {
    let mut store = RequestStore::new();
    store.put(&request("GET", "/a", "first"), &response("one"));
    assert_eq!(store.rename(0, "My title"), Some(()));
    store.put(&request("GET", "/a", "second"), &response("two"));
    let written = store.put(&request("GET", "/a", "third"), &response("three"));
    assert_eq!(written.title, "My title");
    assert_eq!(store.table().len(), 1);
    assert_eq!(store.find("GET", "/a"), Some(("third".to_string(), "three".to_string())));
    assert_eq!(find_name(store.table(), "", "GET", "/a"), Some("My title".to_string()));
    assert_eq!(shown(&store), vec![entry("GET", "/a", "My title")]);
}

#[test]
fn delete_then_put_adds_the_entry_at_the_front() {
    let mut store = RequestStore::new();
    store.put(&request("GET", "/a", "a"), &response("1"));
    store.put(&request("GET", "/b", "b"), &response("2"));
    store.put(&request("GET", "/c", "c"), &response("3"));
    assert_eq!(
        shown(&store),
        vec![
            entry("GET", "/c", "GET /c"),
            entry("GET", "/b", "GET /b"),
            entry("GET", "/a", "GET /a")
        ]
    );
    assert_eq!(store.delete(2), Some(()));
    assert_eq!(store.find("GET", "/a"), None);
    assert_eq!(store.get_store().len(), 2);
    store.put(&request("GET", "/a", "a2"), &response("4"));
    assert_eq!(
        shown(&store),
        vec![
            entry("GET", "/a", "GET /a"),
            entry("GET", "/c", "GET /c"),
            entry("GET", "/b", "GET /b")
        ]
    );
    assert_eq!(store.find("GET", "/a"), Some(("a2".to_string(), "4".to_string())));
}

#[test]
fn put_of_a_shown_request_keeps_the_list() {
    let mut store = RequestStore::new();
    store.put(&request("GET", "/a", "a"), &response("1"));
    store.put(&request("GET", "/b", "b"), &response("2"));
    store.put(&request("GET", "/a", "a2"), &response("3"));
    assert_eq!(shown(&store), vec![entry("GET", "/b", "GET /b"), entry("GET", "/a", "GET /a")]);
}

#[test]
fn promote_moves_entry_to_front() {
    let mut store = RequestStore::new();
    store.put(&request("GET", "/a", "a"), &response("1"));
    store.put(&request("GET", "/b", "b"), &response("2"));
    store.put(&request("GET", "/c", "c"), &response("3"));
    store.rename(2, "first one");
    store.select_set_top("GET", "/a");
    assert_eq!(
        shown(&store),
        vec![
            entry("GET", "/a", "first one"),
            entry("GET", "/c", "GET /c"),
            entry("GET", "/b", "GET /b")
        ]
    );
    store.select_set_top("GET", "/nowhere");
    store.select_set_top("GET", "/a");
    assert_eq!(store.get_store()[0].url, "/a");
    assert_eq!(store.get_store().len(), 3);
    assert_eq!(store.table().len(), 3);
}

#[test]
fn rename_with_empty_name_shows_default_title() {
    let mut store = RequestStore::new();
    store.put(&request("GET", "/a", "a"), &response("1"));
    assert_eq!(store.rename(0, "named"), Some(()));
    assert_eq!(shown(&store), vec![entry("GET", "/a", "named")]);
    assert_eq!(store.rename(0, ""), Some(()));
    assert_eq!(shown(&store), vec![entry("GET", "/a", "GET /a")]);
    assert_eq!(find_name(store.table(), "", "GET", "/a"), Some(String::new()));
    assert_eq!(store.rename(1, "x"), None);
    assert_eq!(store.delete(1), None);
    assert_eq!(store.get_store().len(), 1);
}

#[test]
fn load_sorts_by_url_and_scopes_by_group() {
    let mut table = Table::new();
    table.store(record("g", "GET", "/b", ""));
    table.store(record("g", "POST", "/a", "create"));
    table.store(record("h", "GET", "/0", ""));
    table.store(record("g", "GET", "/a", ""));
    table.store(record("", "GET", "/z", ""));
    let mut store = RequestStore::with_table(table);
    store.load(Some("g"), None);
    assert_eq!(store.group_id(), "g");
    assert_eq!(
        shown(&store),
        vec![
            entry("GET", "/a", "GET /a"),
            entry("POST", "/a", "create"),
            entry("GET", "/b", "GET /b")
        ]
    );
    store.load(None, Some(""));
    assert_eq!(store.group_id(), "");
    assert_eq!(shown(&store), vec![entry("GET", "/z", "GET /z")]);
    store.load(Some("none"), None);
    assert!(store.get_store().is_empty());
    assert_eq!(store.table().len(), 5);
}

#[test]
fn load_filters_on_url_or_title() {
    let mut table = Table::new();
    table.store(record("g", "GET", "/users", ""));
    table.store(record("g", "GET", "/orders", "list users orders"));
    table.store(record("g", "GET", "/items", "things"));
    table.store(record("g", "USERS", "/x", ""));
    let rows = select(&table, "g", Some("users"));
    let got: Vec<(&str, &str)> = rows.iter().map(|r| (r.url.as_str(), r.title.as_str())).collect();
    assert_eq!(got, vec![("/orders", "list users orders"), ("/users", "")]);
    assert_eq!(select(&table, "g", Some("Users")).len(), 0);
    assert_eq!(select(&table, "g", Some("")).len(), 4);
    assert_eq!(select(&table, "g", None).len(), 4);
    assert_eq!(select(&table, "g", Some("/")).len(), 4);
}

#[test]
fn put_into_filtered_view_adds_entry() {
    let mut table = Table::new();
    table.store(record("", "GET", "/users", "people"));
    table.store(record("", "GET", "/items", ""));
    let mut store = RequestStore::with_table(table);
    store.load(None, Some("items"));
    assert_eq!(shown(&store), vec![entry("GET", "/items", "GET /items")]);
    let written = store.put(&request("GET", "/users", "r"), &response("b"));
    assert_eq!(written.title, "people");
    assert_eq!(
        shown(&store),
        vec![entry("GET", "/users", "GET /users"), entry("GET", "/items", "GET /items")]
    );
    assert_eq!(store.table().len(), 2);
}

#[test]
fn listing_is_capped() {
    let mut table = Table::new();
    for i in 0..(LIMIT + 50) {
        table.store(record("g", "GET", &format!("/{:04}", LIMIT + 49 - i), ""));
    }
    let rows = select(&table, "g", None);
    assert_eq!(rows.len(), LIMIT);
    assert_eq!(LIMIT, 200);
    assert_eq!(rows[0].url, "/0000");
    assert_eq!(rows[199].url, "/0199");
    for i in 1..rows.len() {
        assert!(rows[i - 1].url < rows[i].url);
    }
}

#[test]
fn relation_operations() {
    let mut table = Table::new();
    let r = request("GET", "/a", "raw");
    let rec = update(&mut table, &r, "body", "g");
    assert_eq!((rec.group_id.as_str(), rec.title.as_str()), ("g", ""));
    update(&mut table, &r, "body", "h");
    assert_eq!(table.len(), 2);
    rename(&mut table, "g", "GET", "/a", "t");
    rename(&mut table, "x", "GET", "/a", "t");
    assert_eq!(find_name(&table, "g", "GET", "/a"), Some("t".to_string()));
    assert_eq!(find_name(&table, "h", "GET", "/a"), Some(String::new()));
    assert_eq!(find_name(&table, "x", "GET", "/a"), None);
    let rec = update(&mut table, &r, "body2", "g");
    assert_eq!(rec.title, "t");
    assert_eq!(find(&table, "g", "GET", "/a"), Some(("raw".to_string(), "body2".to_string())));
    delete(&mut table, "g", "GET", "/a");
    delete(&mut table, "g", "GET", "/a");
    assert_eq!(find(&table, "g", "GET", "/a"), None);
    assert_eq!(table.len(), 1);
    assert_eq!(table.record_at(0).group_id, "h");
    assert_eq!(table.position("h", "GET", "/a"), 0);
    assert_eq!(table.position("g", "GET", "/a"), 1);
}

#[test]
fn rows_are_ordered_by_url_then_method() {
    let row = |m: &str, u: &str| Row { method: m.to_string(), url: u.to_string(), title: String::new() };
    assert!(row_precedes(&row("GET", "/a"), &row("GET", "/b")));
    assert!(row_precedes(&row("POST", "/a"), &row("GET", "/b")));
    assert!(row_precedes(&row("GET", "/a"), &row("POST", "/a")));
    assert!(!row_precedes(&row("GET", "/a"), &row("GET", "/a")));
    assert!(row_precedes(&row("GET", "/a"), &row("GET", "/a/")));
    assert!(row_precedes(&row("GET", ""), &row("GET", "/")));
    assert!(!row_precedes(&row("GET", "/b"), &row("GET", "/a")));
    assert!(row_precedes(&row("GET", "/Z"), &row("GET", "/a")));
    assert!(row_precedes(&row("GET", "/z"), &row("GET", "/\u{e9}")));
}

#[test]
fn default_title_is_method_and_url() {
    assert_eq!(make_default_title("GET", "/a b"), "GET /a b");
    assert_eq!(make_default_title("", ""), " ");
}

struct Gen(u64);

impl Gen {
    fn next(&mut self) -> usize {
        self.0 = self.0.wrapping_mul(6364136223846793005).wrapping_add(1442695040888963407);
        (self.0 >> 33) as usize
    }

    fn text(&mut self, alphabet: &[char], max: usize) -> String {
        let n = self.next() % (max + 1);
        (0..n).map(|_| alphabet[self.next() % alphabet.len()]).collect()
    }
}

#[test]
fn listing_on_many_relations() {
    let alphabet = ['a', 'b', '/', '\u{e9}'];
    let mut g = Gen(9);
    for round in 0..60 {
        let mut table = Table::new();
        let mut kept: Vec<StoredRecord> = Vec::new();
        let count = if round % 10 == 0 { 400 } else { g.next() % 30 };
        for _ in 0..count {
            let rec = record(
                ["g", "h"][g.next() % 2],
                ["GET", "POST", "PUT"][g.next() % 3],
                &g.text(&alphabet, if round % 10 == 0 { 6 } else { 3 }),
                &g.text(&alphabet, 3),
            );
            kept.retain(|r| {
                !(r.group_id == rec.group_id && r.method == rec.method && r.url == rec.url)
            });
            kept.push(rec.clone());
            table.store(rec);
        }
        assert_eq!(table.len(), kept.len());
        let filter = g.text(&alphabet, 2);
        let mut expected: Vec<(String, String, String)> = kept
            .iter()
            .filter(|r| r.group_id == "g")
            .filter(|r| filter.is_empty() || r.url.contains(&filter) || r.title.contains(&filter))
            .map(|r| (r.url.clone(), r.method.clone(), r.title.clone()))
            .collect();
        expected.sort();
        expected.truncate(LIMIT);
        let got: Vec<(String, String, String)> = select(&table, "g", Some(&filter))
            .into_iter()
            .map(|r| (r.url, r.method, r.title))
            .collect();
        assert_eq!(got, expected);
    }
}
