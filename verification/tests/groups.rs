use put::config::{
    check_group, default_group, get_group_with_default, is_group_id_unique, read_group_fallback,
    Group,
};
use put::fields::StrMap;
use put::session::Pending;

fn group(id: &str) -> Group {
    Group { id: id.to_string(), name: format!("name of {}", id), base_url: None, env: None }
}

#[test]
fn default_group_is_appended() {
    let out = get_group_with_default(None);
    assert_eq!(out.len(), 1);
    assert_eq!(out[0].id, "");
    assert_eq!(out[0].name, "\u{9ed8}\u{8ba4}\u{5206}\u{7ec4}");
    assert!(out[0].base_url.is_none() && out[0].env.is_none());
    let out = get_group_with_default(Some(vec![group("a"), group("b")]));
    let ids: Vec<&str> = out.iter().map(|g| g.id.as_str()).collect();
    assert_eq!(ids, vec!["a", "b", ""]);
    assert_eq!(default_group().id, "");
}

#[test]
fn group_document_falls_back() {
    assert_eq!(read_group_fallback(Some("[1]".to_string()), "[]"), "[1]");
    assert_eq!(read_group_fallback(None, "[]"), "[]");
}

#[test]
fn group_ids_must_be_unique_and_not_empty() {
    assert!(is_group_id_unique(&vec![]));
    assert!(is_group_id_unique(&vec![group("a"), group("b"), group("")]));
    assert!(!is_group_id_unique(&vec![group("a"), group("b"), group("a")]));
    assert_eq!(check_group(&vec![group("a"), group("b")]), None);
    assert_eq!(check_group(&vec![]), None);
    assert_eq!(
        check_group(&vec![group("a"), group("a")]),
        Some("id\u{4e0d}\u{80fd}\u{91cd}\u{590d}")
    );
    assert_eq!(
        check_group(&vec![group("a"), group("")]),
        Some("id\u{4e0d}\u{80fd}\u{4e3a}\u{7a7a}")
    );
    assert_eq!(
        check_group(&vec![group(""), group("")]),
        Some("id\u{4e0d}\u{80fd}\u{91cd}\u{590d}")
    );
}

#[test]
fn string_map_keeps_first_insertion_order() {
    let mut m = StrMap::new();
    assert!(m.is_empty());
    m.insert("b".to_string(), "1".to_string());
    m.insert("a".to_string(), "2".to_string());
    m.insert("b".to_string(), "3".to_string());
    assert_eq!(m.len(), 2);
    assert_eq!((m.key_at(0).as_str(), m.value_at(0).as_str()), ("b", "3"));
    assert_eq!((m.key_at(1).as_str(), m.value_at(1).as_str()), ("a", "2"));
    assert_eq!(m.get("a").map(|s| s.as_str()), Some("2"));
    assert_eq!(m.get("c"), None);
    assert!(m.contains_key("b") && !m.contains_key("B"));
    assert_eq!(m.position("a"), 1);
    assert_eq!(m.position("zz"), 2);
    let copy = m.duplicate();
    assert_eq!(copy.len(), 2);
    assert_eq!(copy.get("b").map(|s| s.as_str()), Some("3"));
}

#[test]
fn only_the_awaited_result_is_live() {
    let mut p = Pending::new();
    assert_eq!(p.current(), None);
    assert!(!p.settle(0));
    p.begin(1);
    p.begin(2);
    assert!(!p.settle(1));
    assert_eq!(p.current(), Some(2));
    assert!(p.settle(2));
    assert!(!p.settle(2));
    p.begin(3);
    p.cancel();
    assert!(!p.settle(3));
    assert_eq!(p.current(), None);
}

#[test]
fn group_is_found_by_id() {
    let groups = get_group_with_default(Some(vec![group("a"), group("b"), group("a")]));
    assert_eq!(put::config::find_group(&groups, "a"), Some(0));
    assert_eq!(put::config::find_group(&groups, "b"), Some(1));
    assert_eq!(put::config::find_group(&groups, ""), Some(3));
    assert_eq!(put::config::find_group(&groups, "c"), None);
}

#[test]
fn active_group_falls_back_to_the_first() {
    let groups = get_group_with_default(Some(vec![group("a"), group("b")]));
    assert_eq!(put::config::active_group(&groups, Some("b")), 1);
    assert_eq!(put::config::active_group(&groups, Some("")), 2);
    assert_eq!(put::config::active_group(&groups, Some("gone")), 0);
    assert_eq!(put::config::active_group(&groups, None), 0);
}
