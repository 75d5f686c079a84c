use vstd::prelude::*;

use crate::index::{IndexEntry, RepoIndex, insert_all};
use crate::json::{JsonNode, find_member, json_node, json_object, json_string, member, object_of, string_member, string_member_of, string_members, string_members_of};
use crate::pkgutil::PkgUtil;
use crate::query::{RepoError, entry_item, item_search, rows_view};
use crate::text::copy_str;

verus! {

/// The views of pairs of strings.
pub open spec fn members_view(v: Seq<(String, String)>) -> Seq<(Seq<char>, Seq<char>)> {
    v.map_values(|m: (String, String)| (m.0@, m.1@))
}

/// The view of an optional string.
pub open spec fn opt_text(o: Option<String>) -> Option<Seq<char>> {
    match o {
        Some(s) => Some(s@),
        None => None,
    }
}

/// The dependencies an index entry's JSON text lists: the members of its
/// `dependencies` object whose value is a string (the constraint), in
/// order; none when there is no such object.
pub open spec fn dependencies_member(text: Seq<char>) -> Seq<(Seq<char>, Seq<char>)> {
    match json_object(text) {
        Some(ms) => match member(ms, "dependencies"@) {
            Some(d) => match json_object(d) {
                Some(ds) => string_members(ds),
                None => Seq::empty(),
            },
            None => Seq::empty(),
        },
        None => Seq::empty(),
    }
}

/// Whether `e` is the package `name` as the JSON text `text` describes it:
/// `version`, `url`, `checksum` and `description` when they are strings,
/// and the dependencies.
pub open spec fn entry_read(e: IndexEntry, name: Seq<char>, text: Seq<char>) -> bool {
    &&& e.name@ == name
    &&& opt_text(e.version) == string_member(text, "version"@)
    &&& opt_text(e.url) == string_member(text, "url"@)
    &&& opt_text(e.checksum) == string_member(text, "checksum"@)
    &&& opt_text(e.description) == string_member(text, "description"@)
    &&& members_view(e.dependencies@) == dependencies_member(text)
}

/// Whether `es` are the packages of the members `ms` (name and JSON text),
/// one for one and in order.
pub open spec fn entries_read(es: Seq<IndexEntry>, ms: Seq<(Seq<char>, Seq<char>)>) -> bool {
    &&& es.len() == ms.len()
    &&& forall|i: int| 0 <= i < es.len() ==> entry_read(#[trigger] es[i], ms[i].0, ms[i].1)
}

/// The packages of a repository's index reply: the members of its
/// `packages` object when it has that member (nothing when that is not an
/// object), otherwise the members of the reply itself; nothing when the
/// reply is not a JSON object.
pub open spec fn reply_packages(text: Seq<char>) -> Option<Seq<(Seq<char>, Seq<char>)>> {
    match json_object(text) {
        Some(ms) => match member(ms, "packages"@) {
            Some(p) => json_object(p),
            None => Some(ms),
        },
        None => None,
    }
}

/// The packages of the cached combined index: the members of its
/// `packages` object; nothing when the cache is not a JSON object with such
/// a member.
pub open spec fn cache_packages(text: Seq<char>) -> Option<Seq<(Seq<char>, Seq<char>)>> {
    match json_object(text) {
        Some(ms) => match member(ms, "packages"@) {
            Some(p) => json_object(p),
            None => None,
        },
        None => None,
    }
}

/// What a search shows of a package given as a member (name and JSON text).
pub open spec fn member_item(m: (Seq<char>, Seq<char>)) -> (Seq<char>, Option<Seq<char>>, Option<Seq<char>>) {
    (m.0, string_member(m.1, "version"@), string_member(m.1, "description"@))
}

/// The version, address and checksum the cache gives package `name`, or
/// why it gives none.
pub open spec fn cache_resolve_spec(cache: Seq<char>, name: Seq<char>) -> Result<(Seq<char>, Seq<char>, Option<Seq<char>>), RepoError> {
    match cache_packages(cache) {
        None => Err(RepoError::InvalidCache),
        Some(ps) => match member(ps, name) {
            None => Err(RepoError::PackageNotFound { name: arbitrary() }),
            Some(t) => match string_member(t, "version"@) {
                None => Err(RepoError::VersionMissing { name: arbitrary() }),
                Some(v) => match string_member(t, "url"@) {
                    None => Err(RepoError::UrlMissing { name: arbitrary() }),
                    Some(u) => Ok((v, u, string_member(t, "checksum"@))),
                },
            },
        },
    }
}


proof fn lemma_string_members_filter(ds: Seq<(Seq<char>, Seq<char>)>)
    ensures
        string_members(ds) == ds.filter(|m: (Seq<char>, Seq<char>)| json_string(m.1) is Some).map_values(
            |m: (Seq<char>, Seq<char>)| (m.0, json_string(m.1)->0),
        ),
    decreases ds.len(),
{
    let p = |m: (Seq<char>, Seq<char>)| json_string(m.1) is Some;
    let f = |m: (Seq<char>, Seq<char>)| (m.0, json_string(m.1)->0);
    reveal(Seq::filter);
    if ds.len() > 0 {
        lemma_string_members_filter(ds.drop_last());
        if p(ds.last()) {
            assert(ds.filter(p) == ds.drop_last().filter(p).push(ds.last()));
            assert(ds.filter(p).map_values(f) =~= ds.drop_last().filter(p).map_values(f).push(f(ds.last())));
        } else {
            assert(ds.filter(p) == ds.drop_last().filter(p));
        }
    } else {
        assert(ds.filter(p).map_values(f) =~= Seq::empty());
    }
}

/// The dependencies of an entry read from JSON are the members of its
/// `dependencies` object `ds` whose value is a JSON string, every one of
/// them, in the object's order, each with that string as its constraint,
/// and nothing else.
pub proof fn law_entry_dependencies(
    e: IndexEntry,
    name: Seq<char>,
    text: Seq<char>,
    ms: Seq<(Seq<char>, Seq<char>)>,
    d: Seq<char>,
    ds: Seq<(Seq<char>, Seq<char>)>,
)
    requires
        entry_read(e, name, text),
        json_object(text) == Some(ms),
        member(ms, "dependencies"@) == Some(d),
        json_object(d) == Some(ds),
    ensures
        members_view(e.dependencies@) == ds.filter(|m: (Seq<char>, Seq<char>)| json_string(m.1) is Some).map_values(
            |m: (Seq<char>, Seq<char>)| (m.0, json_string(m.1)->0),
        ),
        forall|j: int|
            0 <= j < ds.len() && (#[trigger] json_string(ds[j].1)) is Some ==> members_view(e.dependencies@).contains(
                (ds[j].0, json_string(ds[j].1)->0),
            ),
        forall|x: (Seq<char>, Seq<char>)| #[trigger] members_view(e.dependencies@).contains(x) ==> exists|j: int|
            0 <= j < ds.len() && ds[j].0 == x.0 && json_string(ds[j].1) == Some(x.1),
{
    let p = |m: (Seq<char>, Seq<char>)| json_string(m.1) is Some;
    let f = |m: (Seq<char>, Seq<char>)| (m.0, json_string(m.1)->0);
    lemma_string_members_filter(ds);
    let fl = ds.filter(p);
    assert(members_view(e.dependencies@) == fl.map_values(f));
    assert forall|j: int| 0 <= j < ds.len() && (#[trigger] json_string(ds[j].1)) is Some implies members_view(
        e.dependencies@,
    ).contains((ds[j].0, json_string(ds[j].1)->0)) by {
        assert(p(ds[j]));
        ds.lemma_filter_contains(p, j);
        let k = choose|k: int| 0 <= k < fl.len() && fl[k] == ds[j];
        assert(fl.map_values(f)[k] == f(ds[j]));
    }
    assert forall|x: (Seq<char>, Seq<char>)| #[trigger] members_view(e.dependencies@).contains(x) implies exists|j: int|
        0 <= j < ds.len() && ds[j].0 == x.0 && json_string(ds[j].1) == Some(x.1) by {
        let mv = fl.map_values(f);
        let k = choose|k: int| 0 <= k < mv.len() && mv[k] == x;
        ds.lemma_filter_pred(p, k);
        assert(fl.contains(fl[k]));
        ds.lemma_filter_contains_rev(p, fl[k]);
        let j = choose|j: int| 0 <= j < ds.len() && ds[j] == fl[k];
    }
}

/// An entry whose JSON text has no `dependencies` object has no
/// dependencies.
pub proof fn law_entry_without_dependencies(e: IndexEntry, name: Seq<char>, text: Seq<char>)
    requires
        entry_read(e, name, text),
        match json_object(text) {
            Some(ms) => match member(ms, "dependencies"@) {
                Some(d) => json_object(d) is None,
                None => true,
            },
            None => true,
        },
    ensures
        e.dependencies@.len() == 0,
{
    assert(members_view(e.dependencies@).len() == 0);
}

/// The package `name` as the JSON text `text` describes it.
pub fn entry_from(name: &str, text: &str) -> (e: IndexEntry)
    ensures
        entry_read(e, name@, text@),
{
    let dependencies = match object_of(text) {
        Some(ms) => match find_member(&ms, "dependencies") {
            Some(d) => match object_of(d.as_str()) {
                Some(ds) => string_members_of(&ds),
                None => Vec::new(),
            },
            None => Vec::new(),
        },
        None => Vec::new(),
    };
    assert(members_view(dependencies@) =~= dependencies_member(text@));
    IndexEntry {
        name: copy_str(name),
        version: string_member_of(text, "version"),
        url: string_member_of(text, "url"),
        checksum: string_member_of(text, "checksum"),
        description: string_member_of(text, "description"),
        dependencies,
    }
}

/// The packages of the members `members` (name and JSON text), in order.
pub fn entries_from(members: &Vec<(String, String)>) -> (r: Vec<IndexEntry>)
    ensures
        entries_read(r@, members_view(members@)),
{
    let ghost ms = members_view(members@);
    let mut out: Vec<IndexEntry> = Vec::new();
    let n = members.len();
    let mut i: usize = 0;
    while i < n
        invariant
            n == members@.len(),
            ms == members_view(members@),
            i <= n,
            out@.len() == i,
            forall|k: int| 0 <= k < i ==> entry_read(#[trigger] out@[k], ms[k].0, ms[k].1),
        decreases n - i,
    {
        let e = entry_from(members[i].0.as_str(), members[i].1.as_str());
        assert(ms[i as int] == (members@[i as int].0@, members@[i as int].1@));
        out.push(e);
        i = i + 1;
    }
    out
}

/// The packages of a repository's index reply, or `None` when the reply is
/// not a JSON object.
pub fn reply_entries(reply: &str) -> (r: Option<Vec<IndexEntry>>)
    ensures
        match reply_packages(reply@) {
            Some(ps) => r matches Some(es) && entries_read(es@, ps),
            None => r is None,
        },
{
    match object_of(reply) {
        Some(ms) => match find_member(&ms, "packages") {
            Some(p) => match object_of(p.as_str()) {
                Some(ps) => Some(entries_from(&ps)),
                None => None,
            },
            None => Some(entries_from(&ms)),
        },
        None => None,
    }
}

/// The packages of the cached combined index, or `None` when it is not a
/// JSON object with a `packages` object.
pub fn cache_entries(cache: &str) -> (r: Option<Vec<IndexEntry>>)
    ensures
        match cache_packages(cache@) {
            Some(ps) => r matches Some(es) && entries_read(es@, ps),
            None => r is None,
        },
{
    match object_of(cache) {
        Some(ms) => match find_member(&ms, "packages") {
            Some(p) => match object_of(p.as_str()) {
                Some(ps) => Some(entries_from(&ps)),
                None => None,
            },
            None => None,
        },
        None => None,
    }
}

impl RepoIndex {
    /// Adds the packages of one repository's index reply, a later entry
    /// replacing an earlier one of the same name, and returns how many were
    /// read; `None`, with the index unchanged, when the reply is not JSON.
    /// A reply that is JSON but not an object adds nothing.
    pub fn merge_reply(&mut self, reply: &str) -> (r: Option<usize>)
        requires
            old(self).wf(),
        ensures
            final(self).wf(),
            json_node(reply@) is None ==> r is None && final(self).map() == old(self).map(),
            json_node(reply@) is Some && reply_packages(reply@) is None ==> r == Some(0usize)
                && final(self).map() == old(self).map(),
            reply_packages(reply@) matches Some(ps) ==> (r == Some(ps.len() as usize) && exists|es: Seq<IndexEntry>|
                entries_read(es, ps) && final(self).map() == #[trigger] insert_all(old(self).map(), es)),
    {
        match JsonNode::parse(reply) {
            None => {
                assert(json_object(reply@) is None);
                return None;
            },
            Some(_) => {},
        }
        match reply_entries(reply) {
            Some(es) => {
                let ghost v = es@;
                let n = self.merge(es);
                assert(insert_all(old(self).map(), v) == self.map());
                Some(n)
            },
            None => Some(0),
        }
    }

    /// The cached combined index: its packages in order, a later entry
    /// replacing an earlier one of the same name; `None` when the cache is
    /// not a JSON object with a `packages` object.
    pub fn from_cache(cache: &str) -> (r: Option<RepoIndex>)
        ensures
            r is Some == cache_packages(cache@) is Some,
            r matches Some(ix) ==> (ix.wf() && exists|es: Seq<IndexEntry>|
                entries_read(es, cache_packages(cache@)->0) && ix.map() == #[trigger] insert_all(
                    Map::empty(),
                    es,
                )),
    {
        match cache_entries(cache) {
            Some(es) => {
                let ghost v = es@;
                let mut ix = RepoIndex::new();
                ix.merge(es);
                assert(insert_all(Map::empty(), v) == ix.map());
                Some(ix)
            },
            None => None,
        }
    }
}

impl PkgUtil {
    /// The version, download address and checksum (if any) the cached index
    /// `cache` gives package `name`.
    pub fn resolve_package_in(cache: &str, name: &str) -> (r: Result<(String, String, Option<String>), RepoError>)
        ensures
            match (r, cache_resolve_spec(cache@, name@)) {
                (Ok(t), Ok(u)) => t.0@ == u.0 && t.1@ == u.1 && opt_text(t.2) == u.2,
                (Err(RepoError::InvalidCache), Err(RepoError::InvalidCache)) => true,
                (Err(RepoError::PackageNotFound { name: n }), Err(RepoError::PackageNotFound { .. })) => n@ == name@,
                (Err(RepoError::VersionMissing { name: n }), Err(RepoError::VersionMissing { .. })) => n@ == name@,
                (Err(RepoError::UrlMissing { name: n }), Err(RepoError::UrlMissing { .. })) => n@ == name@,
                _ => false,
            },
    {
        let ps = match object_of(cache) {
            Some(ms) => match find_member(&ms, "packages") {
                Some(p) => match object_of(p.as_str()) {
                    Some(ps) => ps,
                    None => {
                        return Err(RepoError::InvalidCache);
                    },
                },
                None => {
                    return Err(RepoError::InvalidCache);
                },
            },
            None => {
                return Err(RepoError::InvalidCache);
            },
        };
        let t = match find_member(&ps, name) {
            Some(t) => t,
            None => {
                return Err(RepoError::PackageNotFound { name: copy_str(name) });
            },
        };
        let version = match string_member_of(t.as_str(), "version") {
            Some(v) => v,
            None => {
                return Err(RepoError::VersionMissing { name: copy_str(name) });
            },
        };
        let url = match string_member_of(t.as_str(), "url") {
            Some(u) => u,
            None => {
                return Err(RepoError::UrlMissing { name: copy_str(name) });
            },
        };
        Ok((version, url, string_member_of(t.as_str(), "checksum")))
    }

    /// The packages of the cached index `cache` whose name or description
    /// contains `query`, ignoring case: name, version and description of
    /// each, in index order.  Nothing is found in a cache without a
    /// `packages` object; `None` when the cache is not JSON.
    pub fn search_in(cache: &str, query: &str) -> (r: Option<Vec<(String, String, String)>>)
        ensures
            json_node(cache@) is None ==> r is None,
            json_node(cache@) is Some && cache_packages(cache@) is None ==> (r matches Some(rows) && rows@.len() == 0),
            cache_packages(cache@) matches Some(ps) ==> (r matches Some(rows) && rows_view(rows@) == item_search(
                ps.map_values(|m: (Seq<char>, Seq<char>)| member_item(m)),
                query@,
            )),
    {
        match JsonNode::parse(cache) {
            None => {
                assert(json_object(cache@) is None);
                return None;
            },
            Some(_) => {},
        }
        match cache_entries(cache) {
            Some(es) => {
                let rows = PkgUtil::search_entries(&es, query);
                proof {
                    let ps = cache_packages(cache@)->0;
                    assert(es@.map_values(|e: IndexEntry| entry_item(e)) =~= ps.map_values(
                        |m: (Seq<char>, Seq<char>)| member_item(m),
                    )) by {
                        assert forall|i: int| 0 <= i < es@.len() implies entry_read(#[trigger] es@[i], ps[i].0, ps[i].1) by {}
                    }
                }
                Some(rows)
            },
            None => Some(Vec::new()),
        }
    }
}

} // verus!
