use pkgm::catalog::{cache_entries, entry_from, reply_entries};
use pkgm::index::RepoIndex;
use pkgm::json::{find_member, object_of, string_member_of, string_of, JsonNode};
use pkgm::pkgutil::PkgUtil;
use pkgm::query::RepoError;

const CACHE: &str = r#"{"packages": {
    "nginx": {"version": "1.24.0", "url": "https://r/nginx.tar.gz", "checksum": "abc",
              "description": "Fast HTTP server", "dependencies": {"openssl": ">=1.1", "bad": 3}},
    "curl": {"version": "8.0.0", "description": "transfer tool"},
    "weird": {"version": 5, "url": "https://r/weird.tar.gz"}
}}"#;

#[test]
fn json_node_reads_one_level() {
    match JsonNode::parse(r#"{"b": [1, 2], "a": "x"}"#) {
        Some(JsonNode::Object(ms)) => {
            assert_eq!(ms, vec![("a".to_string(), "\"x\"".to_string()), ("b".to_string(), "[1,2]".to_string())]);
        }
        other => panic!("unexpected: {:?}", other),
    }
    assert!(matches!(JsonNode::parse("12.5"), Some(JsonNode::Number(n)) if n == "12.5"));
    assert!(matches!(JsonNode::parse("null"), Some(JsonNode::Null)));
    assert!(JsonNode::parse("{nope").is_none());
    assert_eq!(string_of("\"hi\""), Some("hi".to_string()));
    assert_eq!(string_of("7"), None);
    let ms = object_of(r#"{"k": "v"}"#).unwrap();
    assert_eq!(find_member(&ms, "k"), Some(&"\"v\"".to_string()));
    assert_eq!(find_member(&ms, "z"), None);
    assert_eq!(string_member_of(r#"{"k": "v", "n": 1}"#, "k"), Some("v".to_string()));
    assert_eq!(string_member_of(r#"{"k": "v", "n": 1}"#, "n"), None);
    assert_eq!(string_member_of("[1]", "k"), None);
}

#[test]
fn entries_read_from_json() {
    let e = entry_from("nginx", r#"{"version": "1.0", "dependencies": {"a": "*", "b": 2}, "url": null}"#);
    assert_eq!(e.name, "nginx");
    assert_eq!(e.version, Some("1.0".to_string()));
    assert_eq!(e.url, None);
    assert_eq!(e.dependencies, vec![("a".to_string(), "*".to_string())]);
    let es = cache_entries(CACHE).unwrap();
    assert_eq!(es.iter().map(|e| e.name.as_str()).collect::<Vec<_>>(), vec!["curl", "nginx", "weird"]);
    assert_eq!(es[2].version, None);
    assert!(cache_entries(r#"{"curl": {}}"#).is_none());
    assert_eq!(reply_entries(r#"{"curl": {"version": "1"}}"#).unwrap().len(), 1);
    assert_eq!(reply_entries(r#"{"packages": {"a": {}, "b": {}}}"#).unwrap().len(), 2);
    assert!(reply_entries(r#"{"packages": 3}"#).is_none());
    assert!(reply_entries("[1]").is_none());
}

#[test]
fn merge_reply_and_cache() {
    let mut ix = RepoIndex::new();
    assert_eq!(ix.merge_reply(r#"{"a": {"version": "1.0.0"}}"#), Some(1));
    assert_eq!(ix.merge_reply(r#"{"packages": {"a": {"version": "2.0.0"}, "b": {}}}"#), Some(2));
    assert_eq!(ix.merge_reply("not json"), None);
    assert_eq!(ix.merge_reply("[]"), Some(0));
    assert_eq!(ix.len(), 2);
    assert_eq!(ix.get("a").unwrap().version, Some("2.0.0".to_string()));
    let c = RepoIndex::from_cache(CACHE).unwrap();
    assert_eq!(c.len(), 3);
    assert_eq!(c.get("nginx").unwrap().dependencies, vec![("openssl".to_string(), ">=1.1".to_string())]);
    assert!(RepoIndex::from_cache("{}").is_none());
}

#[test]
fn resolve_from_cache() {
    assert_eq!(
        PkgUtil::resolve_package_in(CACHE, "nginx").unwrap(),
        ("1.24.0".to_string(), "https://r/nginx.tar.gz".to_string(), Some("abc".to_string()))
    );
    assert!(matches!(PkgUtil::resolve_package_in(CACHE, "curl"), Err(RepoError::UrlMissing { .. })));
    assert!(matches!(PkgUtil::resolve_package_in(CACHE, "weird"), Err(RepoError::VersionMissing { .. })));
    assert!(matches!(PkgUtil::resolve_package_in(CACHE, "zsh"), Err(RepoError::PackageNotFound { .. })));
    assert!(matches!(PkgUtil::resolve_package_in("{}", "zsh"), Err(RepoError::InvalidCache)));
    assert!(matches!(PkgUtil::resolve_package_in("nope", "zsh"), Err(RepoError::InvalidCache)));
}

#[test]
fn search_from_cache() {
    let rows = PkgUtil::search_in(CACHE, "HTTP").unwrap();
    assert_eq!(rows, vec![("nginx".to_string(), "1.24.0".to_string(), "Fast HTTP server".to_string())]);
    let rows = PkgUtil::search_in(CACHE, "weird").unwrap();
    assert_eq!(rows, vec![("weird".to_string(), "0.0.1".to_string(), "".to_string())]);
    assert_eq!(PkgUtil::search_in("{}", "x"), Some(vec![]));
    assert_eq!(PkgUtil::search_in("{", "x"), None);
}
