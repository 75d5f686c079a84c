use pkgm::layout::{join_path, package_file_name, Database};
use pkgm::metadata::parse_package_name;
use pkgm::pkgutil::PkgUtil;
use std::path::Path;

fn v(list: &[&str]) -> Vec<String> {
    list.iter().map(|s| s.to_string()).collect()
}

#[test]
fn repo_list_parsing() {
    let content = "  https://a.example/ \n\nhttp://b.local//\r\n   \nc";
    assert_eq!(PkgUtil::repo_list(content), v(&["https://a.example", "http://b.local", "c"]));
    assert!(PkgUtil::repo_list("").is_empty());
}

#[test]
fn repo_add_and_remove() {
    let (list, changed) = PkgUtil::repo_add(v(&["a"]), " b/ ");
    assert!(changed);
    assert_eq!(list, v(&["a", "b"]));
    let (list, changed) = PkgUtil::repo_add(list, "b");
    assert!(!changed);
    assert_eq!(list, v(&["a", "b"]));
    let list = PkgUtil::repo_remove(v(&["a", "b", "a"]), "a/");
    assert_eq!(list, v(&["b"]));
}

#[test]
fn repo_file_roundtrip() {
    let list = v(&["https://a", "http://b/x"]);
    let text = PkgUtil::render_repo_list(&list);
    assert_eq!(text, "https://a\nhttp://b/x");
    assert_eq!(PkgUtil::repo_list(&text), list);
}

#[test]
fn add_then_remove_undoes() {
    let start = v(&["a", "b"]);
    let (added, _) = PkgUtil::repo_add(start.clone(), "c");
    assert_eq!(PkgUtil::repo_remove(added, "c"), PkgUtil::repo_remove(start, "c"));
}

#[test]
fn index_url() {
    assert_eq!(PkgUtil::index_url("https://repo.example.com"), "https://repo.example.com/index.json");
}

#[test]
fn join_agrees_with_std_path() {
    let cases = [("/", "var/lib"), ("/root", "etc"), ("root/", "x"), ("", "rel"), ("/a", "/abs"), ("a//", "b")];
    for (b, r) in cases.iter() {
        let std = Path::new(b).join(r).to_string_lossy().to_string();
        assert_eq!(join_path(b, r), std, "{:?} {:?}", b, r);
    }
}

#[test]
fn layout_paths() {
    let u = PkgUtil::new("/mnt/sys".to_string());
    assert_eq!(u.db_path(), "/mnt/sys/var/lib/pkgm/pkgdb.json");
    assert_eq!(u.db_lock_path(), "/mnt/sys/var/lib/pkgm/pkgdb.lock");
    assert_eq!(u.repo_path(), "/mnt/sys/etc/pkgm/repo.txt");
    assert_eq!(u.repo_cache_path(), "/mnt/sys/var/cache/pkgm/repo.json");
    assert_eq!(u.cache_dir(), "/mnt/sys/var/cache/pkgm");
    assert_eq!(u.ldconfig_path(), "/mnt/sys/usr/bin/ldconfig");
    assert_eq!(u.download_package("nginx", "1.24"), "/mnt/sys/var/cache/pkgm/packages/nginx-1.24.tar.gz");
    let d = Database::new("/srv");
    assert_eq!(d.db_path, "/srv/db/pkgdb");
    assert_eq!(Database::lock_path("/srv"), "/srv/db/pkgdb.lock");
}

#[test]
fn cached_name_reads_back() {
    let f = package_file_name("openssl", "1.1");
    assert_eq!(f, "openssl-1.1.tar.gz");
    assert_eq!(parse_package_name(&f), ("openssl".to_string(), "1.1".to_string()));
}
