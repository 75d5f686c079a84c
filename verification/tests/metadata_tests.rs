use pkgm::metadata::{parse_package_name, file_name_of};
use pkgm::text::{trim, is_space, split, join, trim_end_char, str_eq};
use std::path::Path;

fn pn(s: &str) -> (String, String) {
    parse_package_name(s)
}

#[test]
fn parse_name_and_version() {
    assert_eq!(pn("nginx-1.24.tar.gz"), ("nginx".to_string(), "1.24".to_string()));
    assert_eq!(pn("/var/cache/nginx-1.24.tgz"), ("nginx".to_string(), "1.24".to_string()));
    assert_eq!(pn("lib-foo-2.0.tar.gz"), ("lib-foo".to_string(), "2.0".to_string()));
}

#[test]
fn parse_name_without_version_defaults() {
    assert_eq!(pn("nginx.tar.gz"), ("nginx".to_string(), "0.0.1".to_string()));
    assert_eq!(pn("plain"), ("plain".to_string(), "0.0.1".to_string()));
    assert_eq!(pn(""), ("".to_string(), "0.0.1".to_string()));
}

#[test]
fn parse_name_other_suffix_kept() {
    assert_eq!(pn("pkg-1.0.zip"), ("pkg".to_string(), "1.0.zip".to_string()));
    assert_eq!(pn("dir/sub/pkg-3.tar.gz/"), ("pkg".to_string(), "3".to_string()));
}

#[test]
fn parse_name_edge_paths() {
    assert_eq!(pn(".."), ("..".to_string(), "0.0.1".to_string()));
    assert_eq!(pn("/"), ("/".to_string(), "0.0.1".to_string()));
    assert_eq!(pn("a/./"), ("a".to_string(), "0.0.1".to_string()));
}

#[test]
fn file_name_agrees_with_std_path() {
    let cases = [
        "", "/", ".", "..", "a", "a/", "a/b", "a//b", "a/./", "./a", "a/..", "/x/y.tar.gz",
        "x/.", "x/./.", "//", "./", "a/b/../c", ".hidden", "a/.hidden/", "é/ü",
    ];
    for c in cases.iter() {
        let ours = file_name_of(c);
        let std = Path::new(c).file_name().and_then(|n| n.to_str()).map(|n| n.to_string());
        assert_eq!(ours, std, "path {:?}", c);
    }
}

#[test]
fn whitespace_agrees_with_std() {
    for code in 0u32..0x11_0000 {
        if let Some(c) = char::from_u32(code) {
            assert_eq!(is_space(c), c.is_whitespace(), "char {:x}", code);
        }
    }
}

#[test]
fn trim_agrees_with_std() {
    let cases = ["", "  a ", "\t\nx y\r\n", "\u{3000}z\u{a0}", "no", "   "];
    for c in cases.iter() {
        assert_eq!(trim(c), c.trim().to_string());
    }
}

#[test]
fn split_and_join() {
    let parts = split("a\nb\n\nc", '\n');
    assert_eq!(parts, vec!["a", "b", "", "c"]);
    assert_eq!(split("", '\n'), vec![""]);
    assert_eq!(join(&parts, "\n"), "a\nb\n\nc");
    assert_eq!(join(&Vec::new(), "\n"), "");
    assert_eq!(trim_end_char("http://x///", '/'), "http://x");
    assert!(str_eq("abc", "abc"));
    assert!(!str_eq("abc", "abd"));
}

#[test]
fn archive_names_read_back() {
    for ext in [".tar.gz", ".tgz"] {
        for dir in ["", "/var/cache", "some/dir-1.0", "./x.tgz"] {
            let file = if dir.is_empty() {
                format!("my-pkg-2.0.1{}", ext)
            } else {
                format!("{}/my-pkg-2.0.1{}", dir, ext)
            };
            assert_eq!(pn(&file), ("my-pkg".to_string(), "2.0.1".to_string()), "{}", file);
        }
    }
}
