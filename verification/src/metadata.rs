use vstd::prelude::*;

use crate::fileset::FileSet;
use crate::text::{chars_of, ends_with_spec, lemma_rfind_bounds, range_ends_with, range_equals, rfind_in, rfind_spec, substring};

verus! {

/// What a package archive says about itself.
#[derive(Debug)]
pub struct PkgMetadata {
    pub name: String,
    pub version: String,
    pub description: Option<String>,
}

/// A package recorded in the database: its metadata and the files it owns.
#[derive(Debug)]
pub struct InstalledPkg {
    pub name: String,
    pub version: String,
    pub description: Option<String>,
    pub files: FileSet,
    pub checksum: Option<String>,
}

impl crate::keyed::Keyed for InstalledPkg {
    open spec fn key(&self) -> Seq<char> {
        self.name@
    }
}

impl InstalledPkg {
    /// Well-formed: the file set is ordered.
    pub open spec fn wf(&self) -> bool {
        self.files.wf()
    }
}

/// Suffix of gzip-compressed tar archives.
pub open spec fn tar_gz_suffix() -> Seq<char> {
    seq!['.', 't', 'a', 'r', '.', 'g', 'z']
}

/// Short suffix of gzip-compressed tar archives.
pub open spec fn tgz_suffix() -> Seq<char> {
    seq!['.', 't', 'g', 'z']
}

/// Version given to a package whose file name carries none.
pub open spec fn default_version() -> Seq<char> {
    seq!['0', '.', '0', '.', '1']
}

/// The last path segment of `s` that is neither empty nor `.`, if any
/// (how a Unix path's final component is found: repeated and trailing
/// separators and `.` segments do not count).
pub open spec fn last_segment(s: Seq<char>) -> Option<Seq<char>>
    decreases s.len(),
{
    let i = rfind_spec(s, '/');
    let seg = s.subrange(i + 1, s.len() as int);
    if seg.len() == 0 || seg == seq!['.'] {
        if i < 0 {
            None
        } else {
            proof {
                lemma_rfind_bounds(s, '/');
            }
            last_segment(s.subrange(0, i))
        }
    } else {
        Some(seg)
    }
}

/// The file name of a Unix path (`Path::file_name`): its final component,
/// unless that is `..` or there is none.
pub open spec fn file_name_spec(s: Seq<char>) -> Option<Seq<char>> {
    match last_segment(s) {
        Some(seg) => if seg == seq!['.', '.'] {
            None
        } else {
            Some(seg)
        },
        None => None,
    }
}

/// The archive name without its directory, or the whole text when it has no
/// file name.
pub open spec fn package_file_spec(filename: Seq<char>) -> Seq<char> {
    match file_name_spec(filename) {
        Some(n) => n,
        None => filename,
    }
}

/// The archive name without `.tar.gz` or, failing that, `.tgz`.
pub open spec fn package_stem_spec(filename: Seq<char>) -> Seq<char> {
    let f = package_file_spec(filename);
    if ends_with_spec(f, tar_gz_suffix()) {
        f.subrange(0, f.len() - 7)
    } else if ends_with_spec(f, tgz_suffix()) {
        f.subrange(0, f.len() - 4)
    } else {
        f
    }
}

/// Name and version read from `name-version.tar.gz`: the stem is split at its
/// last `-`; without one, the whole stem is the name and the version is `0.0.1`.
pub open spec fn parse_package_name_spec(filename: Seq<char>) -> (Seq<char>, Seq<char>) {
    let stem = package_stem_spec(filename);
    let i = rfind_spec(stem, '-');
    if i >= 0 {
        (stem.subrange(0, i), stem.subrange(i + 1, stem.len() as int))
    } else {
        (stem, default_version())
    }
}

/// The range `[start, end)` of `v` that is the file name of the path `v`.
fn file_name_range(v: &Vec<char>) -> (r: Option<(usize, usize)>)
    ensures
        match r {
            Some((a, b)) => a <= b <= v@.len() && file_name_spec(v@) == Some(
                v@.subrange(a as int, b as int),
            ),
            None => file_name_spec(v@) is None,
        },
{
    let dot: Vec<char> = vec!['.'];
    let dotdot: Vec<char> = vec!['.', '.'];
    let mut end: usize = v.len();
    assert(v@.subrange(0, end as int) =~= v@);
    loop
        invariant
            end <= v@.len(),
            dot@ == seq!['.'],
            dotdot@ == seq!['.', '.'],
            last_segment(v@) == last_segment(v@.subrange(0, end as int)),
        decreases end,
    {
        let ghost s = v@.subrange(0, end as int);
        let found = rfind_in(v, 0, end, '/');
        proof {
            lemma_rfind_bounds(s, '/');
        }
        let start: usize = match found {
            Some(i) => i + 1,
            None => 0,
        };
        assert(s.subrange(rfind_spec(s, '/') + 1, s.len() as int) =~= v@.subrange(start as int, end as int));
        if start == end || range_equals(v, start, end, &dot) {
            match found {
                None => {
                    return None;
                },
                Some(i) => {
                    assert(s.subrange(0, i as int) =~= v@.subrange(0, i as int));
                    end = i;
                },
            }
        } else {
            if range_equals(v, start, end, &dotdot) {
                return None;
            }
            return Some((start, end));
        }
    }
}

/// The file name of the path `path`, if it has one (`Path::file_name`).
pub fn file_name_of(path: &str) -> (r: Option<String>)
    ensures
        match r {
            Some(n) => file_name_spec(path@) == Some(n@),
            None => file_name_spec(path@) is None,
        },
{
    let v = chars_of(path);
    match file_name_range(&v) {
        Some((a, b)) => Some(substring(path, a, b)),
        None => None,
    }
}

/// Name and version of a package archive called `name-version.tar.gz`
/// (or `.tgz`), read from its file name; a name without `-` gets version
/// `0.0.1`.
pub fn parse_package_name(filename: &str) -> (r: (String, String))
    ensures
        (r.0@, r.1@) == parse_package_name_spec(filename@),
{
    let v = chars_of(filename);
    let (fs, fe) = match file_name_range(&v) {
        Some((a, b)) => (a, b),
        None => (0, v.len()),
    };
    let ghost f = package_file_spec(filename@);
    assert(f =~= v@.subrange(fs as int, fe as int));
    let targz: Vec<char> = vec!['.', 't', 'a', 'r', '.', 'g', 'z'];
    let tgz: Vec<char> = vec!['.', 't', 'g', 'z'];
    assert(targz@ =~= tar_gz_suffix());
    assert(tgz@ =~= tgz_suffix());
    let se: usize = if range_ends_with(&v, fs, fe, &targz) {
        fe - 7
    } else if range_ends_with(&v, fs, fe, &tgz) {
        fe - 4
    } else {
        fe
    };
    let ghost stem = package_stem_spec(filename@);
    assert(stem =~= v@.subrange(fs as int, se as int));
    match rfind_in(&v, fs, se, '-') {
        Some(i) => {
            let name = substring(filename, fs, fs + i);
            let version = substring(filename, fs + i + 1, se);
            assert(name@ =~= stem.subrange(0, i as int));
            assert(version@ =~= stem.subrange(i + 1, stem.len() as int));
            (name, version)
        },
        None => {
            let name = substring(filename, fs, se);
            let version = crate::text::copy_str("0.0.1");
            proof {
                reveal_strlit("0.0.1");
            }
            assert(version@ =~= default_version());
            (name, version)
        },
    }
}


/// The file name of a package archive, `name-version` followed by `.tar.gz`
/// or `.tgz`, with or without a directory in front, reads back as the
/// package's name and version, provided the name holds no `/` and the
/// version neither `/` nor `-`.
pub proof fn law_parse_package_name_roundtrip(dir: Seq<char>, name: Seq<char>, version: Seq<char>, ext: Seq<char>)
    requires
        !name.contains('/'),
        !version.contains('/'),
        !version.contains('-'),
        ext == tar_gz_suffix() || ext == tgz_suffix(),
    ensures
        parse_package_name_spec(name + seq!['-'] + version + ext) == (name, version),
        parse_package_name_spec(dir + seq!['/'] + (name + seq!['-'] + version + ext)) == (name, version),
{
    let stem = name + seq!['-'] + version;
    let f = stem + ext;
    assert(!f.contains('/')) by {
        if f.contains('/') {
            let k = choose|k: int| 0 <= k < f.len() && f[k] == '/';
            if k < name.len() {
                assert(name[k] == '/');
            } else if k == name.len() {
            } else if k < stem.len() {
                assert(version[k - name.len() - 1] == '/');
            } else {
                assert(ext[k - stem.len()] == '/');
            }
        }
    }
    assert(f.len() >= 5);
    // The file name of `f` alone.
    lemma_rfind_bounds(f, '/');
    if rfind_spec(f, '/') >= 0 {
        assert(f[rfind_spec(f, '/')] == '/');
    }
    assert(f.subrange(0, f.len() as int) =~= f);
    assert(f != seq!['.']);
    assert(f != seq!['.', '.']);
    assert(last_segment(f) == Some(f));
    assert(file_name_spec(f) == Some(f));
    // The file name of `f` in a directory.
    let p = dir + seq!['/'] + f;
    crate::text::lemma_rfind_concat(dir, '/', f);
    assert(last_segment(p) == Some(f));
    assert(file_name_spec(p) == Some(f));
    // The stem.
    if ext == tar_gz_suffix() {
        assert(f.subrange(f.len() - 7, f.len() as int) =~= tar_gz_suffix());
        assert(f.subrange(0, f.len() - 7) =~= stem);
    } else {
        if f.len() >= 7 {
            assert(f.subrange(f.len() - 7, f.len() as int)[3] == '.');
            assert(tar_gz_suffix()[3] == 'r');
        }
        assert(!ends_with_spec(f, tar_gz_suffix()));
        assert(f.subrange(f.len() - 4, f.len() as int) =~= tgz_suffix());
        assert(f.subrange(0, f.len() - 4) =~= stem);
    }
    assert(package_stem_spec(f) == stem);
    assert(package_stem_spec(p) == stem);
    crate::text::lemma_rfind_concat(name, '-', version);
}

} // verus!
