use pkgm::index::{IndexEntry, RepoIndex};
use pkgm::pkgutil::PkgUtil;
use pkgm::query::RepoError;
use pkgm::resolver::{resolve_dependencies, ResolveError};
use pkgm::version::{normalize_constraint, Constraint, PkgVersion};
use pkgm::fileset::FileSet;
use pkgm::metadata::InstalledPkg;

fn entry(name: &str, version: Option<&str>, deps: &[(&str, &str)]) -> IndexEntry {
    IndexEntry {
        name: name.to_string(),
        version: version.map(|s| s.to_string()),
        url: Some(format!("https://repo/{}.tar.gz", name)),
        checksum: None,
        description: Some(format!("the {} package", name)),
        dependencies: deps.iter().map(|(a, b)| (a.to_string(), b.to_string())).collect(),
    }
}

fn index(entries: Vec<IndexEntry>) -> RepoIndex {
    let mut ix = RepoIndex::new();
    ix.merge(entries);
    ix
}

fn names(r: &[(String, PkgVersion)]) -> Vec<String> {
    r.iter().map(|(n, _)| n.clone()).collect()
}

#[test]
fn constraint_normalization() {
    assert_eq!(normalize_constraint(" 1.2.3 "), "=1.2.3");
    assert_eq!(normalize_constraint("1.2.*"), "=1.2.x");
    assert_eq!(normalize_constraint("*"), "x");
    assert_eq!(normalize_constraint(">=1.1"), ">=1.1");
    assert_eq!(normalize_constraint("~1.2.3"), "~1.2.3");
}

#[test]
fn constraint_semantics() {
    let v = |s: &str| PkgVersion::parse(s).unwrap();
    let c = |s: &str| Constraint::parse(&normalize_constraint(s)).unwrap();
    assert!(c("1.2.3").matches(&v("1.2.3")));
    assert!(!c("1.2.3").matches(&v("1.2.4")));
    assert!(c(">=1.1").matches(&v("3.0.0")));
    assert!(!c(">=1.1").matches(&v("1.0.9")));
    assert!(c("<=2.0").matches(&v("2.0.0")));
    assert!(!c("<=2.0").matches(&v("2.1.0")));
    assert!(c("~1.2.3").matches(&v("1.2.9")));
    assert!(!c("~1.2.3").matches(&v("1.3.0")));
    assert!(c("1.2.*").matches(&v("1.2.7")));
    assert!(!c("1.2.*").matches(&v("1.3.0")));
    assert!(c("1.*").matches(&v("1.9.0")));
    assert!(c("*").matches(&v("0.1.0")));
    assert!(Constraint::parse(&normalize_constraint("@@")).is_none());
    assert!(PkgVersion::parse("1.0").is_none());
    let p = PkgVersion::parse("1.2.3-beta.1+build5").unwrap();
    assert_eq!((p.major(), p.minor(), p.patch()), (1, 2, 3));
    assert_eq!(p.pre(), "beta.1");
    assert_eq!(p.build(), "build5");
}

#[test]
fn resolves_in_dependency_order() {
    let ix = index(vec![
        entry("nginx", Some("1.24.0"), &[("openssl", ">=1.1"), ("libc", "2.31.*")]),
        entry("openssl", Some("1.1.1"), &[("libc", ">=2.0")]),
        entry("libc", Some("2.31.0"), &[]),
        entry("unrelated", Some("0.1.0"), &[]),
    ]);
    let r = resolve_dependencies(&ix, "nginx", "1.24.0").unwrap();
    assert_eq!(names(&r), vec!["libc", "openssl", "nginx"]);
    assert_eq!(r[2].1.major(), 1);
}

#[test]
fn shared_dependency_resolved_once() {
    let ix = index(vec![
        entry("app", Some("1.0.0"), &[("a", "*"), ("b", "*")]),
        entry("a", Some("1.0.0"), &[("base", "1.0.0")]),
        entry("b", Some("1.0.0"), &[("base", "1.0.0")]),
        entry("base", Some("1.0.0"), &[]),
    ]);
    let r = resolve_dependencies(&ix, "app", "1.0.0").unwrap();
    assert_eq!(names(&r), vec!["base", "a", "b", "app"]);
}

#[test]
fn resolve_errors() {
    let ix = index(vec![
        entry("a", Some("1.0.0"), &[("b", "*")]),
        entry("b", Some("1.0.0"), &[("a", "*")]),
        entry("c", Some("1.0.0"), &[("d", ">=2")]),
        entry("d", Some("1.5.0"), &[]),
        entry("e", Some("1.0.0"), &[("d", "!!")]),
        entry("f", Some("not-a-version"), &[]),
        entry("g", Some("1.0.0"), &[("missing", "*")]),
    ]);
    assert!(matches!(resolve_dependencies(&ix, "a", "1.0.0"), Err(ResolveError::CircularDependency { .. })));
    assert!(matches!(resolve_dependencies(&ix, "c", "1.0.0"), Err(ResolveError::Unsatisfied { .. })));
    assert!(matches!(resolve_dependencies(&ix, "e", "1.0.0"), Err(ResolveError::InvalidConstraint { .. })));
    assert!(matches!(resolve_dependencies(&ix, "f", "1.0.0"), Err(ResolveError::BadVersion { .. })));
    assert!(matches!(resolve_dependencies(&ix, "g", "1.0.0"), Err(ResolveError::Unsatisfied { .. })));
    assert!(matches!(resolve_dependencies(&ix, "zzz", "1.0.0"), Err(ResolveError::NotFound { .. })));
    assert!(matches!(resolve_dependencies(&ix, "d", "1.0.0"), Err(ResolveError::VersionMismatch { .. })));
    assert!(matches!(resolve_dependencies(&ix, "d", "x.y"), Err(ResolveError::InvalidVersion { .. })));
}

#[test]
fn merge_later_entry_wins() {
    let mut ix = RepoIndex::new();
    assert_eq!(ix.merge(vec![entry("a", Some("1.0.0"), &[]), entry("b", Some("1.0.0"), &[])]), 2);
    assert_eq!(ix.merge(vec![entry("a", Some("2.0.0"), &[])]), 1);
    assert_eq!(ix.len(), 2);
    assert_eq!(ix.get("a").unwrap().version.as_deref(), Some("2.0.0"));
}

#[test]
fn resolve_package_lookup() {
    let mut e = entry("a", Some("1.0.0"), &[]);
    e.checksum = Some("abc".to_string());
    let mut no_url = entry("b", Some("1.0.0"), &[]);
    no_url.url = None;
    let ix = index(vec![e, no_url, entry("c", None, &[])]);
    let (v, u, c) = PkgUtil::resolve_package(&ix, "a").unwrap();
    assert_eq!((v.as_str(), u.as_str(), c.as_deref()), ("1.0.0", "https://repo/a.tar.gz", Some("abc")));
    assert!(matches!(PkgUtil::resolve_package(&ix, "b"), Err(RepoError::UrlMissing { .. })));
    assert!(matches!(PkgUtil::resolve_package(&ix, "c"), Err(RepoError::VersionMissing { .. })));
    assert!(matches!(PkgUtil::resolve_package(&ix, "d"), Err(RepoError::PackageNotFound { .. })));
}

#[test]
fn search_ignores_case() {
    let mut plain = entry("NGINX-extras", None, &[]);
    plain.description = None;
    let ix = index(vec![entry("nginx", Some("1.24"), &[]), entry("apache", Some("2.4"), &[]), plain]);
    let rows = PkgUtil::search(&ix, "NgInX");
    assert_eq!(rows, vec![
        ("nginx".to_string(), "1.24".to_string(), "the nginx package".to_string()),
        ("NGINX-extras".to_string(), "0.0.1".to_string(), "".to_string()),
    ]);
    assert!(PkgUtil::search(&ix, "zzz").is_empty());
}

#[test]
fn updates_listed() {
    let mut u = PkgUtil::new("/".to_string());
    for (n, v) in [("a", "1.0.0"), ("b", "2.0.0"), ("c", "1.0.0")] {
        u.db_add_package(InstalledPkg {
            name: n.to_string(),
            version: v.to_string(),
            description: None,
            files: FileSet::new(),
            checksum: None,
        });
    }
    let ix = index(vec![entry("a", Some("1.1.0"), &[]), entry("b", Some("2.0.0"), &[])]);
    assert_eq!(u.check_updates(&ix), vec![("a".to_string(), "1.0.0".to_string(), "1.1.0".to_string())]);
}

#[test]
fn search_with_lowered_names() {
    let ix = index(vec![entry("Alpha", Some("1.0"), &[]), entry("beta", Some("2.0"), &[])]);
    let names = vec!["alpha".to_string(), "beta".to_string()];
    let descriptions = vec![Some("first letter".to_string()), None];
    let rows = PkgUtil::search_lowered(ix.entry_list(), &names, &descriptions, "alp");
    assert_eq!(rows, vec![("Alpha".to_string(), "1.0".to_string(), "the Alpha package".to_string())]);
    assert_eq!(PkgUtil::search_lowered(ix.entry_list(), &names, &descriptions, "").len(), 2);
    assert!(PkgUtil::search_lowered(ix.entry_list(), &names, &descriptions, "ALP").is_empty());
    let rows = PkgUtil::search_lowered(ix.entry_list(), &names, &descriptions, "letter");
    assert_eq!(rows, vec![("Alpha".to_string(), "1.0".to_string(), "the Alpha package".to_string())]);
}

#[test]
fn search_matches_descriptions() {
    let mut plain = entry("tools", None, &[]);
    plain.description = None;
    let mut web = entry("nginx", Some("1.24"), &[]);
    web.description = Some("Fast HTTP Server".to_string());
    let ix = index(vec![web, entry("apache", Some("2.4"), &[]), plain]);
    assert_eq!(PkgUtil::search(&ix, "http server"), vec![
        ("nginx".to_string(), "1.24".to_string(), "Fast HTTP Server".to_string()),
    ]);
    assert_eq!(PkgUtil::search(&ix, "PACKAGE"), vec![
        ("apache".to_string(), "2.4".to_string(), "the apache package".to_string()),
    ]);
    assert_eq!(PkgUtil::search(&ix, "too").len(), 1);
}

#[test]
fn first_failure_met_is_reported() {
    let ix = index(vec![
        entry("top", Some("1.0.0"), &[("ok", "*"), ("loop", "*"), ("bad", "!!")]),
        entry("ok", Some("1.0.0"), &[]),
        entry("loop", Some("1.0.0"), &[("top", "*")]),
        entry("bad", Some("1.0.0"), &[]),
    ]);
    match resolve_dependencies(&ix, "top", "1.0.0") {
        Err(ResolveError::CircularDependency { name }) => assert_eq!(name, "top"),
        other => panic!("unexpected: {:?}", other),
    }
    let ix = index(vec![
        entry("top", Some("1.0.0"), &[("bad", "!!"), ("missing", "*")]),
        entry("bad", Some("1.0.0"), &[]),
    ]);
    match resolve_dependencies(&ix, "top", "1.0.0") {
        Err(ResolveError::InvalidConstraint { name, dependency, constraint }) => {
            assert_eq!((name.as_str(), dependency.as_str(), constraint.as_str()), ("top", "bad", "!!"))
        }
        other => panic!("unexpected: {:?}", other),
    }
}
