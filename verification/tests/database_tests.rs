use pkgm::fileset::FileSet;
use pkgm::metadata::InstalledPkg;
use pkgm::pkgadd::{InstallError, PkgAdd};
use pkgm::pkgrm::{PkgRm, RemoveError};
use pkgm::pkgutil::PkgUtil;
use std::collections::BTreeSet;

fn files(list: &[&str]) -> FileSet {
    FileSet::from_vec(list.iter().map(|s| s.to_string()).collect())
}

fn pkg(name: &str, version: &str, list: &[&str]) -> InstalledPkg {
    InstalledPkg {
        name: name.to_string(),
        version: version.to_string(),
        description: None,
        files: files(list),
        checksum: None,
    }
}

#[test]
fn fileset_orders_like_btreeset() {
    let input = ["usr/bin/b", "usr", "usr/bin", "a", "usr/bin/a", "a", "Z", "é", "usr/bin/b"];
    let ours = files(&input).to_vec();
    let std: Vec<String> = input.iter().map(|s| s.to_string()).collect::<BTreeSet<_>>().into_iter().collect();
    assert_eq!(ours, std);
    let mut desc = std.clone();
    desc.reverse();
    assert_eq!(files(&input).to_vec_descending(), desc);
}

#[test]
fn fileset_insert_remove_contains() {
    let mut s = FileSet::new();
    assert!(s.insert("b".to_string()));
    assert!(s.insert("a".to_string()));
    assert!(!s.insert("b".to_string()));
    assert!(s.contains("a"));
    assert!(!s.contains("c"));
    assert!(s.remove("a"));
    assert!(!s.remove("a"));
    assert_eq!(s.to_vec(), vec!["b".to_string()]);
    assert_eq!(s.len(), 1);
}

#[test]
fn fileset_set_operations() {
    let a = files(&["1", "2", "3", "4"]);
    let b = files(&["2", "4", "6"]);
    assert_eq!(a.difference(&b).to_vec(), vec!["1", "3"]);
    assert_eq!(a.intersection(&b).to_vec(), vec!["2", "4"]);
    let mut c = a.duplicate();
    c.extend(&b);
    assert_eq!(c.to_vec(), vec!["1", "2", "3", "4", "6"]);
}

#[test]
fn add_then_find() {
    let mut u = PkgUtil::new("/".to_string());
    assert!(!u.db_find_package("nginx"));
    u.db_add_package(pkg("nginx", "1.0", &["usr/bin/nginx"]));
    assert!(u.db_find_package("nginx"));
    assert_eq!(u.db_get_package("nginx").unwrap().version, "1.0");
    u.db_add_package(pkg("nginx", "2.0", &["usr/bin/nginx"]));
    assert_eq!(u.packages().len(), 1);
    assert_eq!(u.db_get_package("nginx").unwrap().version, "2.0");
}

#[test]
fn remove_keeps_shared_files_and_orders_children_first() {
    let mut u = PkgUtil::new("/".to_string());
    u.db_add_package(pkg("a", "1", &["usr", "usr/lib", "usr/lib/liba.so", "usr/share/a"]));
    u.db_add_package(pkg("b", "1", &["usr", "usr/lib", "usr/lib/libb.so"]));
    let removed = u.db_remove_package("a");
    assert_eq!(removed, vec!["usr/share/a".to_string(), "usr/lib/liba.so".to_string()]);
    assert!(!u.db_find_package("a"));
    assert!(u.db_find_package("b"));
    assert!(u.db_remove_package("missing").is_empty());
    let removed_b = u.db_remove_package("b");
    assert_eq!(removed_b, vec!["usr/lib/libb.so", "usr/lib", "usr"]);
}

#[test]
fn add_then_remove_restores() {
    let mut u = PkgUtil::new("/".to_string());
    u.db_add_package(pkg("a", "1", &["x"]));
    u.db_add_package(pkg("b", "1", &["y"]));
    u.db_remove_package("b");
    assert_eq!(u.packages().len(), 1);
    assert_eq!(u.packages()[0].name, "a");
}

#[test]
fn conflicts_with_other_packages_and_disk() {
    let mut u = PkgUtil::new("/".to_string());
    u.db_add_package(pkg("a", "1", &["etc/a.conf", "usr/bin/tool"]));
    u.db_add_package(pkg("b", "1", &["usr/bin/b"]));
    let incoming = files(&["usr/bin/tool", "usr/bin/b", "usr/bin/new", "etc/own"]);
    let on_disk = files(&["usr/bin/new", "etc/own"]);
    // Installing "a" again: its own files never conflict.
    let c = u.db_find_conflicts("a", &incoming, &on_disk);
    assert_eq!(c.to_vec(), vec!["etc/own", "usr/bin/b", "usr/bin/new"]);
    // Installing "c": files of a and b conflict too.
    let c = u.db_find_conflicts("c", &incoming, &FileSet::new());
    assert_eq!(c.to_vec(), vec!["usr/bin/b", "usr/bin/tool"]);
}

#[test]
fn dry_run_flag() {
    let mut u = PkgUtil::new("/tmp/root".to_string());
    assert!(!u.dry_run());
    u.set_dry_run(true);
    assert!(u.dry_run());
    assert_eq!(u.root(), "/tmp/root");
}

#[test]
fn install_checks() {
    let mut add = PkgAdd::new("/".to_string());
    add.util.db_add_package(pkg("a", "1", &["x"]));
    let none = FileSet::new();
    let some = files(&["x"]);
    assert!(matches!(PkgAdd::check_install(&add.util, "a", false, false, &none), Err(InstallError::AlreadyInstalled { .. })));
    assert!(matches!(PkgAdd::check_install(&add.util, "b", true, false, &none), Err(InstallError::NotInstalled { .. })));
    assert!(matches!(PkgAdd::check_install(&add.util, "b", false, false, &some), Err(InstallError::Conflicts { .. })));
    assert!(PkgAdd::check_install(&add.util, "b", false, true, &some).is_ok());
    assert!(PkgAdd::check_install(&add.util, "a", true, false, &none).is_ok());
}

#[test]
fn remove_package_requires_installed() {
    let mut rm = PkgRm::new("/".to_string());
    assert!(matches!(rm.remove_package("x"), Err(RemoveError::NotInstalled { .. })));
    rm.util.db_add_package(pkg("x", "1", &["f"]));
    assert_eq!(rm.remove_package("x").unwrap(), vec!["f".to_string()]);
    assert!(!rm.util.db_find_package("x"));
}

#[test]
fn install_record_transition() {
    let mut u = PkgUtil::new("/".to_string());
    u.db_add_package(pkg("a", "1", &["usr", "usr/bin/a", "etc/a.conf"]));
    u.db_add_package(pkg("b", "1", &["usr", "usr/bin/b"]));
    let removed = u.db_install_package(pkg("c", "1", &["usr/bin/c"]), false);
    assert!(removed.is_empty());
    let removed = u.db_install_package(pkg("a", "2", &["usr/bin/a2"]), true);
    assert_eq!(removed, vec!["usr/bin/a", "etc/a.conf"]);
    assert_eq!(u.db_get_package("a").unwrap().version, "2");
    let order: Vec<&str> = u.packages().iter().map(|p| p.name.as_str()).collect();
    assert_eq!(order, vec!["b", "c", "a"]);
    u.db_add_package(pkg("b", "2", &[]));
    let order: Vec<&str> = u.packages().iter().map(|p| p.name.as_str()).collect();
    assert_eq!(order, vec!["b", "c", "a"]);
}
