use pkgm::metadata::PkgMetadata;
use pkgm::pkginfo::{OwnerPattern, PkgInfoUtil};
use pkgm::pkgutil::PkgUtil;
use pkgm::fileset::FileSet;
use pkgm::metadata::InstalledPkg;

#[test]
fn entry_predicates() {
    assert!(PkgUtil::is_metadata_entry("metadata.json"));
    assert!(!PkgUtil::is_metadata_entry("./metadata.json"));
    assert!(PkgUtil::entry_path_is_safe("usr/bin/x"));
    assert!(PkgUtil::entry_path_is_safe("./usr/..x"));
    assert!(!PkgUtil::entry_path_is_safe("/etc/passwd"));
    assert!(!PkgUtil::entry_path_is_safe("usr/../../etc"));
    assert!(!PkgUtil::entry_path_is_safe(".."));
    assert!(PkgUtil::is_nested_archive("inner.tar.gz"));
    assert!(PkgUtil::is_nested_archive("inner.tgz"));
    assert!(!PkgUtil::is_nested_archive("inner.tar"));
}

#[test]
fn remove_path_trims() {
    assert_eq!(PkgUtil::remove_path("./usr/bin/x"), Some("usr/bin/x".to_string()));
    assert_eq!(PkgUtil::remove_path("/etc/a"), Some("etc/a".to_string()));
    assert_eq!(PkgUtil::remove_path("./"), None);
    assert_eq!(PkgUtil::remove_path(""), None);
}

#[test]
fn pkg_open_with_and_without_metadata() {
    let entries = vec!["usr/bin/x".to_string(), "metadata.json".to_string(), "etc/x.conf".to_string()];
    let (meta, files) = PkgUtil::pkg_open("/tmp/x-2.0.tar.gz", &entries, None);
    assert_eq!(meta.name, "x");
    assert_eq!(meta.version, "2.0");
    assert_eq!(meta.description, Some("auto".to_string()));
    assert_eq!(files.to_vec(), vec!["etc/x.conf", "usr/bin/x"]);
    let given = PkgMetadata { name: "y".to_string(), version: "3".to_string(), description: None };
    let (meta, _) = PkgUtil::pkg_open("/tmp/x-2.0.tar.gz", &entries, Some(given));
    assert_eq!(meta.name, "y");
}

#[test]
fn owners_by_regex() {
    let mut u = PkgUtil::new("/".to_string());
    u.db_add_package(InstalledPkg {
        name: "coreutils".to_string(),
        version: "9".to_string(),
        description: None,
        files: FileSet::from_vec(vec!["usr/bin/ls".to_string(), "usr/share/doc".to_string()]),
        checksum: None,
    });
    u.db_add_package(InstalledPkg {
        name: "vim".to_string(),
        version: "9".to_string(),
        description: None,
        files: FileSet::from_vec(vec!["usr/bin/vim".to_string()]),
        checksum: None,
    });
    let p = OwnerPattern::new("^/usr/bin/.*").unwrap();
    let (rows, width) = PkgInfoUtil::find_owners(&u, &p);
    assert_eq!(rows, vec![
        ("coreutils".to_string(), "usr/bin/ls".to_string()),
        ("vim".to_string(), "usr/bin/vim".to_string()),
    ]);
    assert_eq!(width, 9);
    let p = OwnerPattern::new("doc$").unwrap();
    let (rows, width) = PkgInfoUtil::find_owners(&u, &p);
    assert_eq!(rows.len(), 1);
    assert_eq!(width, 9);
    let p = OwnerPattern::new("nothing").unwrap();
    let (rows, width) = PkgInfoUtil::find_owners(&u, &p);
    assert!(rows.is_empty());
    assert_eq!(width, 7);
    assert!(OwnerPattern::new("foo(bar").is_none());
}

#[test]
fn owner_column_width_counts_bytes() {
    assert_eq!(PkgInfoUtil::owner_column_width(&vec![]), 7);
    let rows = vec![
        ("ab".to_string(), "f".to_string()),
        ("longer-name".to_string(), "g".to_string()),
        ("ééééé".to_string(), "h".to_string()),
    ];
    assert_eq!(PkgInfoUtil::owner_column_width(&rows), 11);
    let rows = vec![("éééééééééé".to_string(), "x".to_string())];
    assert_eq!(PkgInfoUtil::owner_column_width(&rows), 20);
}
