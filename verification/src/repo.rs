use vstd::prelude::*;

use crate::fileset::views_of;
use crate::pkgutil::PkgUtil;
use crate::text::{concat, join, join_spec, split, split_spec, trim, trim_end_char, trim_end_char_spec, trim_spec};

verus! {

/// A repository address as stored: surrounding white space and trailing `/`
/// removed.
pub open spec fn normalize_url_spec(u: Seq<char>) -> Seq<char> {
    trim_end_char_spec(trim_spec(u), '/')
}

/// Whether a repository address is non-empty.
pub open spec fn is_nonempty(l: Seq<char>) -> bool {
    l.len() > 0
}

/// The repositories listed in the text of the repository file: one per
/// line, each normalized, blank lines skipped.
pub open spec fn parse_repo_list_spec(content: Seq<char>) -> Seq<Seq<char>> {
    split_spec(content, '\n').map_values(|l: Seq<char>| normalize_url_spec(l)).filter(|l: Seq<char>| is_nonempty(l))
}

/// The text of the repository file for a list of repositories.
pub open spec fn repo_file_spec(repos: Seq<Seq<char>>) -> Seq<char> {
    join_spec(repos, seq!['\n'])
}

/// The list after adding `url`, and whether it changed: the normalized
/// address is appended unless already present.
pub open spec fn repo_add_spec(repos: Seq<Seq<char>>, url: Seq<char>) -> (Seq<Seq<char>>, bool) {
    let t = normalize_url_spec(url);
    if repos.contains(t) {
        (repos, false)
    } else {
        (repos.push(t), true)
    }
}

/// The list after removing `url`: every entry equal to the normalized
/// address is dropped, the others keep their order.
pub open spec fn repo_remove_spec(repos: Seq<Seq<char>>, url: Seq<char>) -> Seq<Seq<char>> {
    let t = normalize_url_spec(url);
    repos.filter(|r: Seq<char>| r != t)
}

/// Address of a repository's index.
pub open spec fn index_url_spec(repo: Seq<char>) -> Seq<char> {
    repo + seq!['/', 'i', 'n', 'd', 'e', 'x', '.', 'j', 's', 'o', 'n']
}

impl PkgUtil {
    /// A repository address as stored: surrounding white space and trailing
    /// `/` removed.
    pub fn normalize_repo_url(url: &str) -> (r: String)
        ensures
            r@ == normalize_url_spec(url@),
    {
        let t = trim(url);
        trim_end_char(t.as_str(), '/')
    }

    /// The repositories listed in the text of the repository file.
    pub fn repo_list(content: &str) -> (r: Vec<String>)
        ensures
            views_of(r@) == parse_repo_list_spec(content@),
    {
        let lines = split(content, '\n');
        let ghost segs = views_of(lines@);
        let ghost f = |l: Seq<char>| normalize_url_spec(l);
        let ghost p = |l: Seq<char>| is_nonempty(l);
        let mut out: Vec<String> = Vec::new();
        let n = lines.len();
        let mut k: usize = 0;
        assert(segs.subrange(0, 0).map_values(f).filter(p) =~= Seq::<Seq<char>>::empty()) by {
            assert(segs.subrange(0, 0).map_values(f) =~= Seq::<Seq<char>>::empty());
        }
        assert(views_of(out@) =~= Seq::<Seq<char>>::empty());
        while k < n
            invariant
                n == lines@.len(),
                segs == views_of(lines@),
                segs == split_spec(content@, '\n'),
                f == (|l: Seq<char>| normalize_url_spec(l)),
                p == (|l: Seq<char>| is_nonempty(l)),
                k <= n,
                views_of(out@) == segs.subrange(0, k as int).map_values(f).filter(p),
            decreases n - k,
        {
            let ghost prev = out@;
            let t = PkgUtil::normalize_repo_url(lines[k].as_str());
            let keep = t.unicode_len() > 0;
            if keep {
                out.push(t);
            }
            proof {
                reveal(Seq::filter);
                assert(segs[k as int] == lines@[k as int]@);
                assert(f(segs[k as int]) == t@);
                let mk = segs.subrange(0, k + 1).map_values(f);
                assert(segs.subrange(0, k + 1).map_values(f) =~= segs.subrange(0, k as int).map_values(f).push(t@));
                assert(mk.drop_last() =~= segs.subrange(0, k as int).map_values(f));
                assert(mk.last() == t@);
                if keep {
                    assert(views_of(out@) =~= views_of(prev).push(t@));
                }
            }
            k = k + 1;
        }
        assert(segs.subrange(0, n as int) =~= segs);
        out
    }

    /// The text of the repository file: the repositories, one per line.
    pub fn render_repo_list(repos: &Vec<String>) -> (r: String)
        ensures
            r@ == repo_file_spec(views_of(repos@)),
    {
        let r = join(repos, "\n");
        proof {
            reveal_strlit("\n");
        }
        assert("\n"@ =~= seq!['\n']);
        r
    }

    /// Adds repository `url` to the list unless it is already there; says
    /// whether the list changed.
    pub fn repo_add(repos: Vec<String>, url: &str) -> (r: (Vec<String>, bool))
        ensures
            (views_of(r.0@), r.1) == repo_add_spec(views_of(repos@), url@),
    {
        let t = PkgUtil::normalize_repo_url(url);
        let n = repos.len();
        let mut i: usize = 0;
        while i < n
            invariant
                n == repos@.len(),
                t@ == normalize_url_spec(url@),
                i <= n,
                forall|k: int| 0 <= k < i ==> views_of(repos@)[k] != t@,
            decreases n - i,
        {
            if crate::text::str_eq(repos[i].as_str(), t.as_str()) {
                assert(views_of(repos@)[i as int] == t@);
                assert(views_of(repos@).contains(t@));
                return (repos, false);
            }
            i = i + 1;
        }
        assert(!views_of(repos@).contains(t@));
        let mut repos = repos;
        let ghost before = repos@;
        repos.push(t);
        assert(views_of(repos@) =~= views_of(before).push(t@));
        (repos, true)
    }

    /// Removes repository `url` from the list.
    pub fn repo_remove(repos: Vec<String>, url: &str) -> (r: Vec<String>)
        ensures
            views_of(r@) == repo_remove_spec(views_of(repos@), url@),
    {
        let t = PkgUtil::normalize_repo_url(url);
        let ghost vs = views_of(repos@);
        let ghost p = |r: Seq<char>| r != t@;
        let mut out: Vec<String> = Vec::new();
        let n = repos.len();
        let mut k: usize = 0;
        assert(vs.subrange(0, 0).filter(p) =~= Seq::<Seq<char>>::empty());
        assert(views_of(out@) =~= Seq::<Seq<char>>::empty());
        while k < n
            invariant
                n == repos@.len(),
                vs == views_of(repos@),
                t@ == normalize_url_spec(url@),
                p == (|r: Seq<char>| r != t@),
                k <= n,
                views_of(out@) == vs.subrange(0, k as int).filter(p),
            decreases n - k,
        {
            let ghost prev = out@;
            proof {
                reveal(Seq::filter);
            }
            assert(vs[k as int] == repos@[k as int]@);
            let same = crate::text::str_eq(repos[k].as_str(), t.as_str());
            if !same {
                out.push(repos[k].clone());
                assert(views_of(out@) =~= views_of(prev).push(vs[k as int]));
            }
            assert(vs.subrange(0, k + 1).drop_last() =~= vs.subrange(0, k as int));
            k = k + 1;
        }
        assert(vs.subrange(0, n as int) =~= vs);
        assert(p == (|r: Seq<char>| r != normalize_url_spec(url@)));
        out
    }

    /// Address of a repository's index: the repository address followed by
    /// `/index.json`.
    pub fn index_url(repo: &str) -> (r: String)
        ensures
            r@ == index_url_spec(repo@),
    {
        let r = concat(repo, "/index.json");
        proof {
            reveal_strlit("/index.json");
        }
        assert(r@ =~= index_url_spec(repo@));
        r
    }
}

proof fn lemma_filter_all(s: Seq<Seq<char>>, p: spec_fn(Seq<char>) -> bool)
    requires
        forall|i: int| 0 <= i < s.len() ==> p(#[trigger] s[i]),
    ensures
        s.filter(p) == s,
    decreases s.len(),
{
    reveal(Seq::filter);
    if s.len() > 0 {
        lemma_filter_all(s.drop_last(), p);
        assert(p(s[s.len() - 1]));
        assert(s.drop_last().push(s.last()) =~= s);
    }
}

/// Writing a list of stored addresses (each already normalized, non-empty
/// and on one line) to the repository file and reading the file back gives
/// the same list.
pub proof fn law_repo_file_roundtrip(repos: Seq<Seq<char>>)
    requires
        forall|i: int| 0 <= i < repos.len() ==> normalize_url_spec(#[trigger] repos[i]) == repos[i]
            && repos[i].len() > 0 && !repos[i].contains('\n'),
    ensures
        parse_repo_list_spec(repo_file_spec(repos)) == repos,
{
    let f = |l: Seq<char>| normalize_url_spec(l);
    let p = |l: Seq<char>| is_nonempty(l);
    if repos.len() == 0 {
        let e = Seq::<char>::empty();
        assert(repo_file_spec(repos) == e);
        crate::text::lemma_split_none(e, '\n');
        assert(normalize_url_spec(e) =~= e);
        assert(seq![e].map_values(f) =~= seq![e]);
        reveal_with_fuel(Seq::filter, 2);
        assert(seq![e].drop_last() =~= Seq::<Seq<char>>::empty());
        assert(seq![e].filter(p) =~= Seq::<Seq<char>>::empty());
        assert(repos =~= Seq::<Seq<char>>::empty());
    } else {
        crate::text::lemma_split_join(repos, '\n');
        assert(repos.map_values(f) =~= repos);
        lemma_filter_all(repos, p);
    }
}

/// Adding a repository puts its normalized address in the list, keeps every
/// address already there, and changes the list exactly when the address was
/// missing.
pub proof fn law_repo_add_contains(repos: Seq<Seq<char>>, url: Seq<char>)
    ensures
        repo_add_spec(repos, url).0.contains(normalize_url_spec(url)),
        repo_add_spec(repos, url).1 == !repos.contains(normalize_url_spec(url)),
        forall|x: Seq<char>| repos.contains(x) ==> repo_add_spec(repos, url).0.contains(x),
{
    let t = normalize_url_spec(url);
    if !repos.contains(t) {
        assert(repos.push(t)[repos.len() as int] == t);
        assert forall|x: Seq<char>| repos.contains(x) implies repos.push(t).contains(x) by {
            let k = choose|k: int| 0 <= k < repos.len() && repos[k] == x;
            assert(repos.push(t)[k] == x);
        }
    }
}

/// Removing a repository leaves no entry with its normalized address and
/// keeps every other address.
pub proof fn law_repo_remove_drops(repos: Seq<Seq<char>>, url: Seq<char>)
    ensures
        !repo_remove_spec(repos, url).contains(normalize_url_spec(url)),
        forall|x: Seq<char>| repos.contains(x) && x != normalize_url_spec(url) ==> repo_remove_spec(repos, url).contains(x),
{
    let t = normalize_url_spec(url);
    let p = |r: Seq<char>| r != t;
    let out = repos.filter(p);
    if out.contains(t) {
        let k = choose|k: int| 0 <= k < out.len() && out[k] == t;
        repos.lemma_filter_pred(p, k);
    }
    assert forall|x: Seq<char>| repos.contains(x) && x != t implies out.contains(x) by {
        let k = choose|k: int| 0 <= k < repos.len() && repos[k] == x;
        repos.lemma_filter_contains(p, k);
    }
}

/// Removing a repository just added leaves the list as removing it from the
/// list before the addition would: the addition is undone.
pub proof fn law_repo_add_then_remove(repos: Seq<Seq<char>>, url: Seq<char>)
    ensures
        repo_remove_spec(repo_add_spec(repos, url).0, url) == repo_remove_spec(repos, url),
{
    let t = normalize_url_spec(url);
    if !repos.contains(t) {
        reveal(Seq::filter);
        let p = |r: Seq<char>| r != t;
        assert(repos.push(t).drop_last() =~= repos);
        assert(repos.push(t).filter(p) == repos.filter(p));
    }
}

} // verus!
