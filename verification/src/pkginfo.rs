use vstd::prelude::*;

use crate::fileset::views_of;
use crate::metadata::InstalledPkg;
use crate::pkgutil::PkgUtil;
use crate::text::{concat, copy_str};

verus! {

#[verifier::external_type_specification]
#[verifier::external_body]
pub struct ExRegex(regex::Regex);

/// Whether `regex::Regex::new` accepts `pattern`.
pub uninterp spec fn regex_valid(pattern: Seq<char>) -> bool;

/// What `regex::Regex::is_match` answers for the regex compiled from
/// `pattern` and `haystack`.
pub uninterp spec fn regex_is_match(pattern: Seq<char>, haystack: Seq<char>) -> bool;

/// A compiled regular expression, with its text.
#[derive(Debug)]
pub struct OwnerPattern {
    text: String,
    raw: regex::Regex,
}

/// Calls `regex::Regex::new`; it succeeds exactly when
/// `regex_valid(pattern)`, and the result keeps `pattern`.
#[verifier::external_body]
fn regex_new(pattern: &str) -> (r: Option<OwnerPattern>)
    ensures
        r is Some == regex_valid(pattern@),
        r matches Some(p) ==> p.text_spec() == pattern@,
{
    match regex::Regex::new(pattern) {
        Ok(raw) => Some(OwnerPattern { text: pattern.to_string(), raw }),
        Err(_) => None,
    }
}

/// Calls `regex::Regex::is_match` on the regex compiled from the pattern's
/// text.
#[verifier::external_body]
fn regex_matches(p: &OwnerPattern, haystack: &str) -> (r: bool)
    ensures
        r == regex_is_match(p.text_spec(), haystack@),
{
    p.raw.is_match(haystack)
}

impl OwnerPattern {
    /// The pattern's text.
    pub closed spec fn text_spec(&self) -> Seq<char> {
        self.text@
    }

    /// Compiles `pattern`; `None` when it is not a valid regular expression.
    pub fn new(pattern: &str) -> (r: Option<OwnerPattern>)
        ensures
            r is Some == regex_valid(pattern@),
            r matches Some(p) ==> p.text_spec() == pattern@,
    {
        regex_new(pattern)
    }

    /// The pattern's text.
    pub fn text(&self) -> (r: &String)
        ensures
            r@ == self.text_spec(),
    {
        &self.text
    }
}

/// The files of one package, given in ascending order, whose absolute path
/// (`/` followed by the recorded path) matches `pattern`, paired with the
/// package's name.
pub open spec fn owned_matches(name: Seq<char>, files: Seq<Seq<char>>, pattern: Seq<char>) -> Seq<(Seq<char>, Seq<char>)> {
    files.filter(|f: Seq<char>| regex_is_match(pattern, seq!['/'] + f)).map_values(|f: Seq<char>| (name, f))
}

/// The owners of the files whose absolute path matches `pattern`: package
/// and file, package by package in database order.
pub open spec fn owner_rows(entries: Seq<InstalledPkg>, pattern: Seq<char>) -> Seq<(Seq<char>, Seq<char>)>
    decreases entries.len(),
{
    if entries.len() == 0 {
        Seq::empty()
    } else {
        owner_rows(entries.drop_last(), pattern) + owned_matches(
            entries.last().name@,
            entries.last().files@,
            pattern,
        )
    }
}


proof fn lemma_owned_matches(name: Seq<char>, files: Seq<Seq<char>>, pattern: Seq<char>)
    ensures
        forall|j: int|
            0 <= j < files.len() && regex_is_match(pattern, seq!['/'] + files[j]) ==> owned_matches(
                name,
                files,
                pattern,
            ).contains((name, #[trigger] files[j])),
        forall|x: (Seq<char>, Seq<char>)| #[trigger] owned_matches(name, files, pattern).contains(x) ==> x.0 == name
            && files.contains(x.1) && regex_is_match(pattern, seq!['/'] + x.1),
{
    let mf = |f: Seq<char>| regex_is_match(pattern, seq!['/'] + f);
    let pair = |f: Seq<char>| (name, f);
    let fl = files.filter(mf);
    assert forall|j: int|
        0 <= j < files.len() && regex_is_match(pattern, seq!['/'] + files[j]) implies owned_matches(
            name,
            files,
            pattern,
        ).contains((name, #[trigger] files[j])) by {
        assert(mf(files[j]));
        files.lemma_filter_contains(mf, j);
        let k = choose|k: int| 0 <= k < fl.len() && fl[k] == files[j];
        assert(fl.map_values(pair)[k] == pair(files[j]));
    }
    assert forall|x: (Seq<char>, Seq<char>)| #[trigger] owned_matches(name, files, pattern).contains(x) implies x.0
        == name && files.contains(x.1) && regex_is_match(pattern, seq!['/'] + x.1) by {
        let mv = fl.map_values(pair);
        let k = choose|k: int| 0 <= k < mv.len() && mv[k] == x;
        files.lemma_filter_pred(mf, k);
        assert(fl.contains(fl[k]));
        files.lemma_filter_contains_rev(mf, fl[k]);
    }
}

/// The owner query reports every installed file whose absolute path (`/`
/// followed by the recorded path) matches the pattern, paired with the
/// package that owns it; and it reports nothing else.
pub proof fn law_owners_found(entries: Seq<InstalledPkg>, pattern: Seq<char>)
    ensures
        forall|i: int, f: Seq<char>|
            0 <= i < entries.len() && #[trigger] entries[i].files@.contains(f) && regex_is_match(
                pattern,
                seq!['/'] + f,
            ) ==> owner_rows(entries, pattern).contains((entries[i].name@, f)),
        forall|x: (Seq<char>, Seq<char>)| #[trigger] owner_rows(entries, pattern).contains(x) ==> exists|i: int|
            0 <= i < entries.len() && entries[i].name@ == x.0 && entries[i].files@.contains(x.1) && regex_is_match(
                pattern,
                seq!['/'] + x.1,
            ),
    decreases entries.len(),
{
    if entries.len() > 0 {
        let d = entries.drop_last();
        let last = entries.last();
        law_owners_found(d, pattern);
        lemma_owned_matches(last.name@, last.files@, pattern);
        let rest = owner_rows(d, pattern);
        let mine = owned_matches(last.name@, last.files@, pattern);
        assert(owner_rows(entries, pattern) == rest + mine);
        assert forall|i: int, f: Seq<char>|
            0 <= i < entries.len() && #[trigger] entries[i].files@.contains(f) && regex_is_match(pattern, seq!['/'] + f)
                implies owner_rows(entries, pattern).contains((entries[i].name@, f)) by {
            if i < entries.len() - 1 {
                assert(d[i] == entries[i]);
                assert(d[i].files@.contains(f));
                assert(rest.contains((d[i].name@, f)));
                let k = choose|k: int| 0 <= k < rest.len() && rest[k] == (d[i].name@, f);
                assert((rest + mine)[k] == rest[k]);
            } else {
                let j = choose|j: int| 0 <= j < last.files@.len() && last.files@[j] == f;
                assert(mine.contains((last.name@, last.files@[j])));
                let k = choose|k: int| 0 <= k < mine.len() && mine[k] == (last.name@, f);
                assert((rest + mine)[rest.len() + k] == mine[k]);
            }
        }
        assert forall|x: (Seq<char>, Seq<char>)| #[trigger] owner_rows(entries, pattern).contains(x) implies exists|i: int|
            0 <= i < entries.len() && entries[i].name@ == x.0 && entries[i].files@.contains(x.1) && regex_is_match(
                pattern,
                seq!['/'] + x.1,
            ) by {
            let k = choose|k: int| 0 <= k < (rest + mine).len() && (rest + mine)[k] == x;
            if k < rest.len() {
                assert(rest[k] == x);
                assert(rest.contains(x));
                let i = choose|i: int|
                    0 <= i < d.len() && d[i].name@ == x.0 && d[i].files@.contains(x.1) && regex_is_match(
                        pattern,
                        seq!['/'] + x.1,
                    );
                assert(d[i] == entries[i]);
            } else {
                assert(mine[k - rest.len()] == x);
                assert(mine.contains(x));
                assert(entries[entries.len() - 1] == last);
            }
        }
    }
}

/// The column width for the package names of `rows`: the byte length of the
/// longest name, and at least that of the heading `Package`.
pub open spec fn owner_width(rows: Seq<(Seq<char>, Seq<char>)>) -> nat
    decreases rows.len(),
{
    if rows.len() == 0 {
        7
    } else {
        let w = owner_width(rows.drop_last());
        let l = (vstd::utf8::encode_utf8(rows.last().0).len() as usize) as nat;
        if l > w {
            l
        } else {
            w
        }
    }
}

/// The views of rows of two strings.
pub open spec fn pairs_view(v: Seq<(String, String)>) -> Seq<(Seq<char>, Seq<char>)> {
    v.map_values(|r: (String, String)| (r.0@, r.1@))
}

/// Reports on installed packages and package archives.
pub struct PkgInfoUtil {
    pub util: PkgUtil,
}

impl PkgInfoUtil {
    /// A reporter for `root`, with an empty database.
    pub fn new(root: String) -> (r: PkgInfoUtil)
        ensures
            r.util.wf(),
            r.util.db() == Map::<Seq<char>, InstalledPkg>::empty(),
            r.util.root_spec() == root@,
    {
        PkgInfoUtil { util: PkgUtil::new(root) }
    }

    /// The installed files whose absolute path matches `pattern`, with the
    /// package that owns each, and the width of the package column.
    pub fn find_owners(util: &PkgUtil, pattern: &OwnerPattern) -> (r: (Vec<(String, String)>, usize))
        requires
            util.wf(),
        ensures
            pairs_view(r.0@) == owner_rows(util.entries(), pattern.text_spec()),
            r.1 == owner_width(owner_rows(util.entries(), pattern.text_spec())),
    {
        let list = util.packages();
        let ghost es = list@;
        let ghost pat = pattern.text_spec();
        let mut out: Vec<(String, String)> = Vec::new();
        let n = list.len();
        let mut k: usize = 0;
        assert(pairs_view(out@) =~= owner_rows(es.subrange(0, 0), pat)) by {
            assert(es.subrange(0, 0).len() == 0);
        }
        while k < n
            invariant
                n == es.len(),
                es == list@,
                es == util.entries(),
                util.wf(),
                pat == pattern.text_spec(),
                k <= n,
                pairs_view(out@) == owner_rows(es.subrange(0, k as int), pat),
            decreases n - k,
        {
            let p = &list[k];
            let ghost base = pairs_view(out@);
            let ghost fs = p.files@;
            let ghost mf = |f: Seq<char>| regex_is_match(pat, seq!['/'] + f);
            let ghost pair = |f: Seq<char>| (p.name@, f);
            let nf = p.files.len();
            let mut j: usize = 0;
            assert(fs.subrange(0, 0).filter(mf).map_values(pair) =~= Seq::empty()) by {
                reveal(Seq::filter);
            }
            assert(base + fs.subrange(0, 0).filter(mf).map_values(pair) =~= base);
            while j < nf
                invariant
                    nf == fs.len(),
                    fs == p.files@,
                    pat == pattern.text_spec(),
                    mf == (|f: Seq<char>| regex_is_match(pat, seq!['/'] + f)),
                    pair == (|f: Seq<char>| (p.name@, f)),
                    j <= nf,
                    pairs_view(out@) == base + fs.subrange(0, j as int).filter(mf).map_values(pair),
                decreases nf - j,
            {
                let f = p.files.get(j);
                let abs = concat("/", f.as_str());
                proof {
                    reveal_strlit("/");
                }
                assert(abs@ =~= seq!['/'] + fs[j as int]);
                let hit = regex_matches(pattern, abs.as_str());
                let ghost prev = pairs_view(out@);
                if hit {
                    out.push((copy_str(p.name.as_str()), copy_str(f.as_str())));
                    assert(pairs_view(out@) =~= prev.push((p.name@, fs[j as int])));
                }
                proof {
                    reveal(Seq::filter);
                    let sub = fs.subrange(0, j + 1);
                    assert(sub.drop_last() =~= fs.subrange(0, j as int));
                    assert(sub.last() == fs[j as int]);
                    assert(mf(fs[j as int]) == hit);
                    if hit {
                        assert(sub.filter(mf) == fs.subrange(0, j as int).filter(mf).push(fs[j as int]));
                        assert(sub.filter(mf).map_values(pair) =~= fs.subrange(0, j as int).filter(mf).map_values(pair).push(pair(fs[j as int])));
                        assert(base + sub.filter(mf).map_values(pair) =~= (base + fs.subrange(0, j as int).filter(mf).map_values(pair)).push(pair(fs[j as int])));
                    } else {
                        assert(sub.filter(mf) == fs.subrange(0, j as int).filter(mf));
                    }
                }
                j = j + 1;
            }
            proof {
                let sub = es.subrange(0, k + 1);
                assert(sub.drop_last() =~= es.subrange(0, k as int));
                assert(sub.last() == *p);
                assert(fs.subrange(0, nf as int) =~= fs);
                assert(owned_matches(p.name@, fs, pat) == fs.filter(mf).map_values(pair));
            }
            k = k + 1;
        }
        assert(es.subrange(0, n as int) =~= es);
        let width = Self::owner_column_width(&out);
        (out, width)
    }

    /// The width of the package column for `rows`: the byte length of the
    /// longest package name, and at least that of the heading `Package`.
    pub fn owner_column_width(rows: &Vec<(String, String)>) -> (w: usize)
        ensures
            w == owner_width(pairs_view(rows@)),
    {
        let ghost pv = pairs_view(rows@);
        let mut width: usize = 7;
        let n = rows.len();
        let mut k: usize = 0;
        assert(pv.subrange(0, 0) =~= Seq::<(Seq<char>, Seq<char>)>::empty());
        while k < n
            invariant
                n == rows@.len(),
                pv == pairs_view(rows@),
                k <= n,
                width == owner_width(pv.subrange(0, k as int)),
            decreases n - k,
        {
            let l = rows[k].0.as_str().len();
            assert(l as nat == (vstd::utf8::encode_utf8(pv[k as int].0).len() as usize) as nat);
            proof {
                let sub = pv.subrange(0, k + 1);
                assert(sub.drop_last() =~= pv.subrange(0, k as int));
                assert(sub.last() == pv[k as int]);
            }
            if l > width {
                width = l;
            }
            k = k + 1;
        }
        assert(pv.subrange(0, n as int) =~= pv);
        width
    }
}

} // verus!
