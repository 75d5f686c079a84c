use vstd::prelude::*;

use crate::fileset::{FileSet, views_of};
use crate::metadata::{PkgMetadata, file_name_spec, parse_package_name, parse_package_name_spec};
use crate::pkgutil::PkgUtil;
use crate::text::{chars_of, copy_str, range_equals, split, split_spec, str_eq, trim_start_dots_slashes, trim_start_dots_slashes_spec, substring};

verus! {

/// Name of the archive entry that holds a package's metadata.
pub open spec fn metadata_entry_name() -> Seq<char> {
    seq!['m', 'e', 't', 'a', 'd', 'a', 't', 'a', '.', 'j', 's', 'o', 'n']
}

/// Whether an archive entry path may be unpacked: it is relative and has no
/// `..` component.
pub open spec fn entry_path_safe_spec(p: Seq<char>) -> bool {
    &&& !(p.len() > 0 && p[0] == '/')
    &&& !split_spec(p, '/').contains(seq!['.', '.'])
}

/// Whether an archive entry is itself a package archive (`.tar.gz` or
/// `.tgz`), to be unpacked in turn.
pub open spec fn is_nested_archive_spec(p: Seq<char>) -> bool {
    crate::text::ends_with_spec(p, crate::metadata::tar_gz_suffix())
        || crate::text::ends_with_spec(p, crate::metadata::tgz_suffix())
}

/// The file name of the archive at `path`, or nothing.
pub open spec fn archive_file_name_spec(path: Seq<char>) -> Seq<char> {
    match file_name_spec(path) {
        Some(n) => n,
        None => Seq::empty(),
    }
}

/// The files an archive installs: every entry but the metadata entry.
pub open spec fn package_files_spec(entries: Seq<Seq<char>>) -> Set<Seq<char>> {
    entries.to_set().remove(metadata_entry_name())
}

impl PkgUtil {
    /// Whether `path` names the metadata entry of a package archive.
    pub fn is_metadata_entry(path: &str) -> (r: bool)
        ensures
            r == (path@ == metadata_entry_name()),
    {
        let r = str_eq(path, "metadata.json");
        proof {
            reveal_strlit("metadata.json");
        }
        assert("metadata.json"@ =~= metadata_entry_name());
        r
    }

    /// Whether an archive entry path may be unpacked under the root: it is
    /// not absolute and no component of it is `..`.
    pub fn entry_path_is_safe(path: &str) -> (r: bool)
        ensures
            r == entry_path_safe_spec(path@),
    {
        let v = chars_of(path);
        if v.len() > 0 && v[0] == '/' {
            return false;
        }
        let parts = split(path, '/');
        let dotdot: Vec<char> = vec!['.', '.'];
        let n = parts.len();
        let mut i: usize = 0;
        while i < n
            invariant
                n == parts@.len(),
                views_of(parts@) == split_spec(path@, '/'),
                i <= n,
                dotdot@ == seq!['.', '.'],
                forall|k: int| 0 <= k < i ==> views_of(parts@)[k] != seq!['.', '.'],
            decreases n - i,
        {
            let c = chars_of(parts[i].as_str());
            assert(c@.subrange(0, c@.len() as int) =~= c@);
            if range_equals(&c, 0, c.len(), &dotdot) {
                assert(views_of(parts@)[i as int] == seq!['.', '.']);
                return false;
            }
            i = i + 1;
        }
        true
    }

    /// Whether an archive entry is itself a package archive.
    pub fn is_nested_archive(path: &str) -> (r: bool)
        ensures
            r == is_nested_archive_spec(path@),
    {
        let v = chars_of(path);
        let targz: Vec<char> = vec!['.', 't', 'a', 'r', '.', 'g', 'z'];
        let tgz: Vec<char> = vec!['.', 't', 'g', 'z'];
        assert(targz@ =~= crate::metadata::tar_gz_suffix());
        assert(tgz@ =~= crate::metadata::tgz_suffix());
        assert(v@.subrange(0, v@.len() as int) =~= v@);
        crate::text::range_ends_with(&v, 0, v.len(), &targz) || crate::text::range_ends_with(&v, 0, v.len(), &tgz)
    }

    /// The path, relative to the root, at which a recorded file is removed:
    /// leading `.` and `/` dropped; nothing when that leaves it empty.
    pub fn remove_path(file: &str) -> (r: Option<String>)
        ensures
            match r {
                Some(t) => t@ == trim_start_dots_slashes_spec(file@) && t@.len() > 0,
                None => trim_start_dots_slashes_spec(file@).len() == 0,
            },
    {
        let t = trim_start_dots_slashes(file);
        if t.unicode_len() == 0 {
            None
        } else {
            Some(t)
        }
    }

    /// What an opened archive holds: its metadata (the metadata entry's, or
    /// when it has none, name and version read from the archive's file name
    /// with description `auto`) and the files it installs (every entry but
    /// the metadata entry).
    pub fn pkg_open(archive_path: &str, entries: &Vec<String>, meta: Option<PkgMetadata>) -> (r: (PkgMetadata, FileSet))
        ensures
            r.1.wf(),
            r.1.set() == package_files_spec(views_of(entries@)),
            match meta {
                Some(m) => r.0 == m,
                None => {
                    let nv = parse_package_name_spec(archive_file_name_spec(archive_path@));
                    &&& r.0.name@ == nv.0
                    &&& r.0.version@ == nv.1
                    &&& r.0.description matches Some(d) && d@ == seq!['a', 'u', 't', 'o']
                },
            },
    {
        let mut files = FileSet::new();
        let n = entries.len();
        let mut i: usize = 0;
        let ghost vs = views_of(entries@);
        while i < n
            invariant
                n == entries@.len(),
                vs == views_of(entries@),
                i <= n,
                files.wf(),
                files.set() == vs.subrange(0, i as int).to_set().remove(metadata_entry_name()),
            decreases n - i,
        {
            let ghost prev = files.set();
            let is_meta = PkgUtil::is_metadata_entry(entries[i].as_str());
            if !is_meta {
                let e = entries[i].clone();
                assert(e@ == vs[i as int]);
                files.insert(e);
                assert(files.set() == prev.insert(vs[i as int]));
            } else {
                assert(vs[i as int] == metadata_entry_name());
            }
            proof {
                assert(vs[i as int] == entries@[i as int]@);
                assert(vs.subrange(0, i + 1) =~= vs.subrange(0, i as int).push(vs[i as int]));
                assert forall|x: Seq<char>| vs.subrange(0, i as int).push(vs[i as int]).contains(x) <==> (vs.subrange(0, i as int).contains(x) || x == vs[i as int]) by {
                    crate::fileset::lemma_push_contains(vs.subrange(0, i as int), vs[i as int], x);
                }
                assert forall|x: Seq<char>| files.set().contains(x) <==> vs.subrange(0, i + 1).to_set().remove(metadata_entry_name()).contains(x) by {
                    assert(vs.subrange(0, i + 1).to_set().contains(x) <==> vs.subrange(0, i + 1).contains(x));
                    assert(vs.subrange(0, i as int).to_set().contains(x) <==> vs.subrange(0, i as int).contains(x));
                }
                assert(files.set() =~= vs.subrange(0, i + 1).to_set().remove(metadata_entry_name()));
            }
            i = i + 1;
        }
        assert(vs.subrange(0, n as int) =~= vs);
        let meta = match meta {
            Some(m) => m,
            None => {
                let v = chars_of(archive_path);
                let fname = match crate::metadata::file_name_of(archive_path) {
                    Some(f) => f,
                    None => String::new(),
                };
                let (name, version) = parse_package_name(fname.as_str());
                let description = copy_str("auto");
                proof {
                    reveal_strlit("auto");
                }
                assert(description@ =~= seq!['a', 'u', 't', 'o']);
                PkgMetadata { name, version, description: Some(description) }
            },
        };
        (meta, files)
    }
}


/// The files an opened archive installs are exactly its entry paths other
/// than `metadata.json`.
pub proof fn law_package_files(entries: Seq<Seq<char>>)
    ensures
        forall|p: Seq<char>|
            #[trigger] package_files_spec(entries).contains(p) <==> (entries.contains(p) && p != seq![
                'm',
                'e',
                't',
                'a',
                'd',
                'a',
                't',
                'a',
                '.',
                'j',
                's',
                'o',
                'n',
            ]),
{
}

} // verus!
