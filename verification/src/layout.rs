use vstd::prelude::*;

use crate::pkgutil::PkgUtil;
use crate::text::{chars_of, concat};

verus! {

/// `rel` resolved against `base` as `Path::join` does on Unix: an absolute
/// `rel` replaces `base`; otherwise a `/` is put between them unless `base`
/// is empty or already ends with one.
pub open spec fn join_path_spec(base: Seq<char>, rel: Seq<char>) -> Seq<char> {
    if rel.len() > 0 && rel[0] == '/' {
        rel
    } else if base.len() == 0 || base.last() == '/' {
        base + rel
    } else {
        base + seq!['/'] + rel
    }
}

/// File name under which a downloaded package is cached:
/// `name-version.tar.gz`.
pub open spec fn package_file_name_spec(name: Seq<char>, version: Seq<char>) -> Seq<char> {
    name + seq!['-'] + version + crate::metadata::tar_gz_suffix()
}

/// `rel` resolved against `base` (`Path::join` on Unix).
pub fn join_path(base: &str, rel: &str) -> (r: String)
    ensures
        r@ == join_path_spec(base@, rel@),
{
    let b = chars_of(base);
    let r = chars_of(rel);
    if r.len() > 0 && r[0] == '/' {
        crate::text::copy_str(rel)
    } else if b.len() == 0 || b[b.len() - 1] == '/' {
        concat(base, rel)
    } else {
        let with_sep = concat(base, "/");
        proof {
            reveal_strlit("/");
        }
        assert(with_sep@ =~= base@ + seq!['/']);
        concat(with_sep.as_str(), rel)
    }
}

/// File name under which a downloaded package is cached.
pub fn package_file_name(name: &str, version: &str) -> (r: String)
    ensures
        r@ == package_file_name_spec(name@, version@),
{
    let a = concat(name, "-");
    let b = concat(a.as_str(), version);
    let c = concat(b.as_str(), ".tar.gz");
    proof {
        reveal_strlit("-");
        reveal_strlit(".tar.gz");
    }
    assert(c@ =~= package_file_name_spec(name@, version@));
    c
}

/// Where the package database of a root lives.
pub struct Database {
    pub db_path: String,
}

impl Database {
    /// The database of `root`: the file `db/pkgdb` under it.
    pub fn new(root: &str) -> (d: Database)
        ensures
            d.db_path@ == join_path_spec(join_path_spec(root@, "db"@), "pkgdb"@),
    {
        let dir = join_path(root, "db");
        Database { db_path: join_path(dir.as_str(), "pkgdb") }
    }

    /// The lock file that guards the database of `root`: `db/pkgdb.lock`.
    pub fn lock_path(root: &str) -> (p: String)
        ensures
            p@ == join_path_spec(join_path_spec(root@, "db"@), "pkgdb.lock"@),
    {
        let dir = join_path(root, "db");
        join_path(dir.as_str(), "pkgdb.lock")
    }
}

impl PkgUtil {
    /// The package database file: `var/lib/pkgm/pkgdb.json` under the root.
    pub fn db_path(&self) -> (p: String)
        ensures
            p@ == join_path_spec(self.root_spec(), "var/lib/pkgm/pkgdb.json"@),
    {
        join_path(self.root().as_str(), "var/lib/pkgm/pkgdb.json")
    }

    /// The database lock file: `var/lib/pkgm/pkgdb.lock` under the root.
    pub fn db_lock_path(&self) -> (p: String)
        ensures
            p@ == join_path_spec(self.root_spec(), "var/lib/pkgm/pkgdb.lock"@),
    {
        join_path(self.root().as_str(), "var/lib/pkgm/pkgdb.lock")
    }

    /// The repository list: `etc/pkgm/repo.txt` under the root.
    pub fn repo_path(&self) -> (p: String)
        ensures
            p@ == join_path_spec(self.root_spec(), "etc/pkgm/repo.txt"@),
    {
        join_path(self.root().as_str(), "etc/pkgm/repo.txt")
    }

    /// The cached combined repository index: `var/cache/pkgm/repo.json`.
    pub fn repo_cache_path(&self) -> (p: String)
        ensures
            p@ == join_path_spec(self.root_spec(), "var/cache/pkgm/repo.json"@),
    {
        join_path(self.root().as_str(), "var/cache/pkgm/repo.json")
    }

    /// The cache directory: `var/cache/pkgm` under the root.
    pub fn cache_dir(&self) -> (p: String)
        ensures
            p@ == join_path_spec(self.root_spec(), "var/cache/pkgm"@),
    {
        join_path(self.root().as_str(), "var/cache/pkgm")
    }

    /// The directory of downloaded packages: `packages` in the cache.
    pub fn package_cache_dir(&self) -> (p: String)
        ensures
            p@ == join_path_spec(join_path_spec(self.root_spec(), "var/cache/pkgm"@), "packages"@),
    {
        let c = self.cache_dir();
        join_path(c.as_str(), "packages")
    }

    /// Where the package `name` at `version` is downloaded to (and looked up
    /// before downloading): `name-version.tar.gz` in the package cache.
    pub fn download_package(&self, name: &str, version: &str) -> (p: String)
        ensures
            p@ == join_path_spec(
                join_path_spec(join_path_spec(self.root_spec(), "var/cache/pkgm"@), "packages"@),
                package_file_name_spec(name@, version@),
            ),
    {
        let dir = self.package_cache_dir();
        let f = package_file_name(name, version);
        join_path(dir.as_str(), f.as_str())
    }

    /// The `ldconfig` program of the root: `usr/bin/ldconfig` under it.
    pub fn ldconfig_path(&self) -> (p: String)
        ensures
            p@ == join_path_spec(self.root_spec(), "usr/bin/ldconfig"@),
    {
        join_path(self.root().as_str(), "usr/bin/ldconfig")
    }
}

/// The file name under which a package is cached reads back as the
/// package's name and version, provided neither holds a `/` and the version
/// holds no `-`.
pub proof fn law_package_file_name_roundtrip(name: Seq<char>, version: Seq<char>)
    requires
        !name.contains('/'),
        !version.contains('/'),
        !version.contains('-'),
    ensures
        crate::metadata::parse_package_name_spec(package_file_name_spec(name, version)) == (name, version),
{
    crate::metadata::law_parse_package_name_roundtrip(Seq::empty(), name, version, crate::metadata::tar_gz_suffix());
    assert(package_file_name_spec(name, version) =~= name + seq!['-'] + version + crate::metadata::tar_gz_suffix());
}

} // verus!
