use vstd::prelude::*;

use crate::fileset::views_of;
use crate::index::{IndexEntry, RepoIndex};
use crate::metadata::{InstalledPkg, default_version};
use crate::pkgutil::PkgUtil;
use crate::text::{chars_of, contains_chars, contains_spec, copy_str, str_eq};

verus! {

/// What `str::to_lowercase` makes of `s` (Unicode lowercase mapping).
pub uninterp spec fn lowercase(s: Seq<char>) -> Seq<char>;

/// Calls `str::to_lowercase`.
#[verifier::external_body]
fn to_lowercase(s: &str) -> (r: String)
    ensures
        r@ == lowercase(s@),
{
    s.to_lowercase()
}

/// Why a package could not be looked up in the repository index.
#[derive(Debug)]
pub enum RepoError {
    /// No repository offers a package of this name.
    PackageNotFound { name: String },
    /// The index gives the package no version.
    VersionMissing { name: String },
    /// The index gives the package no download address.
    UrlMissing { name: String },
    /// The cached index is not JSON, or has no `packages` object.
    InvalidCache,
}

/// The version, download address and checksum the index gives package
/// `name`, or why there are none.
pub open spec fn resolve_package_spec(m: Map<Seq<char>, IndexEntry>, name: Seq<char>) -> Result<(Seq<char>, Seq<char>, Option<Seq<char>>), RepoError> {
    if !m.contains_key(name) {
        Err(RepoError::PackageNotFound { name: arbitrary() })
    } else if m[name].version is None {
        Err(RepoError::VersionMissing { name: arbitrary() })
    } else if m[name].url is None {
        Err(RepoError::UrlMissing { name: arbitrary() })
    } else {
        Ok((m[name].version->0@, m[name].url->0@, match m[name].checksum {
            Some(c) => Some(c@),
            None => None,
        }))
    }
}

/// The version the index offers for package `name`, when it can be
/// downloaded (it has both a version and an address).
pub open spec fn latest_version(m: Map<Seq<char>, IndexEntry>, name: Seq<char>) -> Option<Seq<char>> {
    if m.contains_key(name) && m[name].version is Some && m[name].url is Some {
        Some(m[name].version->0@)
    } else {
        None
    }
}

/// Whether a package matches a lowercased query `q`, given its lowercased
/// name and its lowercased description, if it has one: the name or the
/// description contains the query.
pub open spec fn text_hit(name: Seq<char>, description: Option<Seq<char>>, q: Seq<char>) -> bool {
    contains_spec(name, q) || (description matches Some(d) && contains_spec(d, q))
}

/// What a search looks at in a package: name, version and description.
pub open spec fn entry_item(e: IndexEntry) -> (Seq<char>, Option<Seq<char>>, Option<Seq<char>>) {
    (e.name@, match e.version {
        Some(v) => Some(v@),
        None => None,
    }, match e.description {
        Some(d) => Some(d@),
        None => None,
    })
}

/// The description of a package, lowercased.
pub open spec fn lowered_description(item: (Seq<char>, Option<Seq<char>>, Option<Seq<char>>)) -> Option<Seq<char>> {
    match item.2 {
        Some(d) => Some(lowercase(d)),
        None => None,
    }
}

/// Whether a package matches a search: its name or its description
/// contains the query, all lowercased.
pub open spec fn search_hit(item: (Seq<char>, Option<Seq<char>>, Option<Seq<char>>), query: Seq<char>) -> bool {
    text_hit(lowercase(item.0), lowered_description(item), lowercase(query))
}

/// The row a search shows for a package: name, version (`0.0.1` when the
/// index gives none), description (empty when none).
pub open spec fn search_row(item: (Seq<char>, Option<Seq<char>>, Option<Seq<char>>)) -> (Seq<char>, Seq<char>, Seq<char>) {
    (item.0, match item.1 {
        Some(v) => v,
        None => default_version(),
    }, match item.2 {
        Some(d) => d,
        None => Seq::empty(),
    })
}

/// The rows of a search over packages, in order.
pub open spec fn item_search(items: Seq<(Seq<char>, Option<Seq<char>>, Option<Seq<char>>)>, query: Seq<char>) -> Seq<(Seq<char>, Seq<char>, Seq<char>)>
    decreases items.len(),
{
    if items.len() == 0 {
        Seq::empty()
    } else {
        let rest = item_search(items.drop_last(), query);
        if search_hit(items.last(), query) {
            rest.push(search_row(items.last()))
        } else {
            rest
        }
    }
}

/// The rows of a search over index entries, in order.
pub open spec fn search_spec(entries: Seq<IndexEntry>, query: Seq<char>) -> Seq<(Seq<char>, Seq<char>, Seq<char>)> {
    item_search(entries.map_values(|e: IndexEntry| entry_item(e)), query)
}

/// Whether an installed package has a newer version in the index.
pub open spec fn has_update(m: Map<Seq<char>, IndexEntry>, p: InstalledPkg) -> bool {
    latest_version(m, p.name@) is Some && latest_version(m, p.name@)->0 != p.version@
}

/// The row the update check shows: name, installed version, offered version.
pub open spec fn update_row(m: Map<Seq<char>, IndexEntry>, p: InstalledPkg) -> (Seq<char>, Seq<char>, Seq<char>) {
    (p.name@, p.version@, latest_version(m, p.name@)->0)
}

/// The rows of the update check, in database order.
pub open spec fn check_updates_spec(entries: Seq<InstalledPkg>, m: Map<Seq<char>, IndexEntry>) -> Seq<(Seq<char>, Seq<char>, Seq<char>)> {
    entries.filter(|p: InstalledPkg| has_update(m, p)).map_values(|p: InstalledPkg| update_row(m, p))
}

/// The views of rows of three strings.
pub open spec fn rows_view(v: Seq<(String, String, String)>) -> Seq<(Seq<char>, Seq<char>, Seq<char>)> {
    v.map_values(|r: (String, String, String)| (r.0@, r.1@, r.2@))
}

/// A copy of an optional string.
pub fn copy_opt(o: &Option<String>) -> (r: Option<String>)
    ensures
        match o {
            Some(s) => r matches Some(t) && t@ == s@,
            None => r is None,
        },
{
    match o {
        Some(s) => Some(copy_str(s.as_str())),
        None => None,
    }
}

/// The views of optional strings.
pub open spec fn opt_views(v: Seq<Option<String>>) -> Seq<Option<Seq<char>>> {
    v.map_values(|o: Option<String>| match o {
        Some(t) => Some(t@),
        None => None,
    })
}

/// The rows of a search over `entries` whose lowercased names are `names`
/// and lowercased descriptions `descriptions`, for the lowercased query `q`.
pub open spec fn lowered_rows(
    entries: Seq<IndexEntry>,
    names: Seq<Seq<char>>,
    descriptions: Seq<Option<Seq<char>>>,
    q: Seq<char>,
) -> Seq<(Seq<char>, Seq<char>, Seq<char>)>
    decreases entries.len(),
{
    if entries.len() == 0 {
        Seq::empty()
    } else {
        let rest = lowered_rows(entries.drop_last(), names.drop_last(), descriptions.drop_last(), q);
        if text_hit(names[entries.len() - 1], descriptions[entries.len() - 1], q) {
            rest.push(search_row(entry_item(entries.last())))
        } else {
            rest
        }
    }
}

/// Searching with the lowercased names, descriptions and query is searching
/// ignoring case.
proof fn lemma_search_lowered(es: Seq<IndexEntry>, names: Seq<Seq<char>>, descriptions: Seq<Option<Seq<char>>>, query: Seq<char>)
    requires
        names.len() == es.len(),
        descriptions.len() == es.len(),
        forall|i: int| 0 <= i < es.len() ==> #[trigger] names[i] == lowercase(es[i].name@),
        forall|i: int| 0 <= i < es.len() ==> #[trigger] descriptions[i] == lowered_description(entry_item(es[i])),
    ensures
        lowered_rows(es, names, descriptions, lowercase(query)) == search_spec(es, query),
    decreases es.len(),
{
    if es.len() > 0 {
        let d = es.drop_last();
        assert forall|i: int| 0 <= i < d.len() implies #[trigger] names.drop_last()[i] == lowercase(d[i].name@) by {
            assert(names[i] == lowercase(es[i].name@));
        }
        assert forall|i: int| 0 <= i < d.len() implies #[trigger] descriptions.drop_last()[i] == lowered_description(entry_item(d[i])) by {
            assert(descriptions[i] == lowered_description(entry_item(es[i])));
        }
        lemma_search_lowered(d, names.drop_last(), descriptions.drop_last(), query);
        assert(names[es.len() - 1] == lowercase(es.last().name@));
        assert(descriptions[es.len() - 1] == lowered_description(entry_item(es.last())));
        let items = es.map_values(|e: IndexEntry| entry_item(e));
        assert(items.drop_last() =~= d.map_values(|e: IndexEntry| entry_item(e)));
        assert(items.last() == entry_item(es.last()));
    }
}


/// The row a search shows for an index entry: its name, its version (`0.0.1`
/// when it has none) and its description (empty when it has none).
pub open spec fn shown_row(e: IndexEntry) -> (Seq<char>, Seq<char>, Seq<char>) {
    (e.name@, match e.version {
        Some(v) => v@,
        None => default_version(),
    }, match e.description {
        Some(d) => d@,
        None => Seq::empty(),
    })
}

proof fn lemma_item_search_contains(items: Seq<(Seq<char>, Option<Seq<char>>, Option<Seq<char>>)>, q: Seq<char>, i: int)
    requires
        0 <= i < items.len(),
        search_hit(items[i], q),
    ensures
        item_search(items, q).contains(search_row(items[i])),
    decreases items.len(),
{
    let rest = item_search(items.drop_last(), q);
    let full = item_search(items, q);
    if i == items.len() - 1 {
        assert(full[rest.len() as int] == search_row(items[i]));
    } else {
        lemma_item_search_contains(items.drop_last(), q, i);
        assert(items.drop_last()[i] == items[i]);
        let k = choose|k: int| 0 <= k < rest.len() && rest[k] == search_row(items[i]);
        assert(full[k] == rest[k]);
    }
}

proof fn lemma_item_search_from(
    items: Seq<(Seq<char>, Option<Seq<char>>, Option<Seq<char>>)>,
    q: Seq<char>,
    row: (Seq<char>, Seq<char>, Seq<char>),
)
    requires
        item_search(items, q).contains(row),
    ensures
        exists|i: int| 0 <= i < items.len() && search_hit(items[i], q) && search_row(items[i]) == row,
    decreases items.len(),
{
    if items.len() > 0 {
        let rest = item_search(items.drop_last(), q);
        let full = item_search(items, q);
        let k = choose|k: int| 0 <= k < full.len() && full[k] == row;
        if search_hit(items.last(), q) && k == rest.len() {
            assert(search_row(items[items.len() - 1]) == row);
        } else {
            assert(rest[k] == row);
            lemma_item_search_from(items.drop_last(), q, row);
            let i = choose|i: int| 0 <= i < items.drop_last().len() && search_hit(items.drop_last()[i], q) && search_row(items.drop_last()[i]) == row;
            assert(items.drop_last()[i] == items[i]);
        }
    }
}

/// A search shows every entry whose name, or whose description, contains the
/// query as a run of characters, both lowercased; and it shows nothing else:
/// each row is the row of such an entry.
pub proof fn law_search_finds_substrings(entries: Seq<IndexEntry>, query: Seq<char>)
    ensures
        forall|i: int|
            0 <= i < entries.len() && (contains_spec(lowercase(entries[i].name@), lowercase(query)) || (
            entries[i].description matches Some(d) && contains_spec(lowercase(d@), lowercase(query))))
                ==> search_spec(entries, query).contains(#[trigger] shown_row(entries[i])),
        forall|row: (Seq<char>, Seq<char>, Seq<char>)| #[trigger] search_spec(entries, query).contains(row) ==> exists|i: int|
            0 <= i < entries.len() && row == shown_row(entries[i]) && (contains_spec(
                lowercase(entries[i].name@),
                lowercase(query),
            ) || (entries[i].description matches Some(d) && contains_spec(lowercase(d@), lowercase(query)))),
{
    let items = entries.map_values(|e: IndexEntry| entry_item(e));
    assert forall|i: int|
        0 <= i < entries.len() && (contains_spec(lowercase(entries[i].name@), lowercase(query)) || (
        entries[i].description matches Some(d) && contains_spec(lowercase(d@), lowercase(query))))
            implies search_spec(entries, query).contains(#[trigger] shown_row(entries[i])) by {
        assert(items[i] == entry_item(entries[i]));
        lemma_item_search_contains(items, query, i);
    }
    assert forall|row: (Seq<char>, Seq<char>, Seq<char>)| #[trigger] search_spec(entries, query).contains(row) implies exists|i: int|
        0 <= i < entries.len() && row == shown_row(entries[i]) && (contains_spec(
            lowercase(entries[i].name@),
            lowercase(query),
        ) || (entries[i].description matches Some(d) && contains_spec(lowercase(d@), lowercase(query)))) by {
        lemma_item_search_from(items, query, row);
        let i = choose|i: int| 0 <= i < items.len() && search_hit(items[i], query) && search_row(items[i]) == row;
        assert(items[i] == entry_item(entries[i]));
    }
}

proof fn lemma_lowered_rows_contains(
    es: Seq<IndexEntry>,
    names: Seq<Seq<char>>,
    descriptions: Seq<Option<Seq<char>>>,
    q: Seq<char>,
    i: int,
)
    requires
        names.len() == es.len(),
        descriptions.len() == es.len(),
        0 <= i < es.len(),
        contains_spec(names[i], q) || (descriptions[i] matches Some(d) && contains_spec(d, q)),
    ensures
        lowered_rows(es, names, descriptions, q).contains(shown_row(es[i])),
    decreases es.len(),
{
    let rest = lowered_rows(es.drop_last(), names.drop_last(), descriptions.drop_last(), q);
    let full = lowered_rows(es, names, descriptions, q);
    if i == es.len() - 1 {
        assert(full[rest.len() as int] == shown_row(es[i]));
    } else {
        assert(es.drop_last()[i] == es[i]);
        assert(names.drop_last()[i] == names[i]);
        assert(descriptions.drop_last()[i] == descriptions[i]);
        lemma_lowered_rows_contains(es.drop_last(), names.drop_last(), descriptions.drop_last(), q, i);
        let k = choose|k: int| 0 <= k < rest.len() && rest[k] == shown_row(es[i]);
        assert(full[k] == rest[k]);
    }
}

proof fn lemma_lowered_rows_from(
    es: Seq<IndexEntry>,
    names: Seq<Seq<char>>,
    descriptions: Seq<Option<Seq<char>>>,
    q: Seq<char>,
    row: (Seq<char>, Seq<char>, Seq<char>),
)
    requires
        names.len() == es.len(),
        descriptions.len() == es.len(),
        lowered_rows(es, names, descriptions, q).contains(row),
    ensures
        exists|i: int|
            0 <= i < es.len() && row == shown_row(es[i]) && (contains_spec(names[i], q) || (
            descriptions[i] matches Some(d) && contains_spec(d, q))),
    decreases es.len(),
{
    if es.len() > 0 {
        let rest = lowered_rows(es.drop_last(), names.drop_last(), descriptions.drop_last(), q);
        let full = lowered_rows(es, names, descriptions, q);
        let n = es.len() - 1;
        let k = choose|k: int| 0 <= k < full.len() && full[k] == row;
        if text_hit(names[n], descriptions[n], q) && k == rest.len() {
            assert(shown_row(es[n]) == row);
        } else {
            assert(rest[k] == row);
            lemma_lowered_rows_from(es.drop_last(), names.drop_last(), descriptions.drop_last(), q, row);
            let i = choose|i: int|
                0 <= i < es.drop_last().len() && row == shown_row(es.drop_last()[i]) && (contains_spec(
                    names.drop_last()[i],
                    q,
                ) || (descriptions.drop_last()[i] matches Some(d) && contains_spec(d, q)));
            assert(es.drop_last()[i] == es[i]);
            assert(names.drop_last()[i] == names[i]);
            assert(descriptions.drop_last()[i] == descriptions[i]);
        }
    } else {
        assert(lowered_rows(es, names, descriptions, q).len() == 0);
    }
}

/// Given lowercased names, descriptions and query, a search shows every
/// entry whose name, or whose description, contains the query as a run of
/// characters anywhere, and nothing else.
pub proof fn law_search_lowered_finds_substrings(
    entries: Seq<IndexEntry>,
    names: Seq<Seq<char>>,
    descriptions: Seq<Option<Seq<char>>>,
    q: Seq<char>,
)
    requires
        names.len() == entries.len(),
        descriptions.len() == entries.len(),
    ensures
        forall|i: int|
            0 <= i < entries.len() && (contains_spec(names[i], q) || (descriptions[i] matches Some(d)
                && contains_spec(d, q))) ==> lowered_rows(entries, names, descriptions, q).contains(
                #[trigger] shown_row(entries[i]),
            ),
        forall|row: (Seq<char>, Seq<char>, Seq<char>)|
            #[trigger] lowered_rows(entries, names, descriptions, q).contains(row) ==> exists|i: int|
                0 <= i < entries.len() && row == shown_row(entries[i]) && (contains_spec(names[i], q) || (
                descriptions[i] matches Some(d) && contains_spec(d, q))),
{
    assert forall|i: int|
        0 <= i < entries.len() && (contains_spec(names[i], q) || (descriptions[i] matches Some(d) && contains_spec(
            d,
            q,
        ))) implies lowered_rows(entries, names, descriptions, q).contains(#[trigger] shown_row(entries[i])) by {
        lemma_lowered_rows_contains(entries, names, descriptions, q, i);
    }
    assert forall|row: (Seq<char>, Seq<char>, Seq<char>)|
        #[trigger] lowered_rows(entries, names, descriptions, q).contains(row) implies exists|i: int|
            0 <= i < entries.len() && row == shown_row(entries[i]) && (contains_spec(names[i], q) || (
            descriptions[i] matches Some(d) && contains_spec(d, q))) by {
        lemma_lowered_rows_from(entries, names, descriptions, q, row);
    }
}

/// The update check lists every installed package for which the index
/// offers a version, with a download address, other than the installed
/// one: its name, the installed and the offered version.  Every row it
/// lists is such a package.
pub proof fn law_updates_listed(entries: Seq<InstalledPkg>, m: Map<Seq<char>, IndexEntry>)
    ensures
        forall|i: int|
            0 <= i < entries.len() && m.contains_key(entries[i].name@) && m[entries[i].name@].version is Some
                && m[entries[i].name@].url is Some && m[entries[i].name@].version->0@ != entries[i].version@
                ==> check_updates_spec(entries, m).contains(
                (entries[i].name@, entries[i].version@, #[trigger] m[entries[i].name@].version->0@),
            ),
        forall|row: (Seq<char>, Seq<char>, Seq<char>)| #[trigger] check_updates_spec(entries, m).contains(row) ==> exists|i: int|
            0 <= i < entries.len() && m.contains_key(entries[i].name@) && m[entries[i].name@].version is Some
                && m[entries[i].name@].url is Some && m[entries[i].name@].version->0@ != entries[i].version@
                && row == (entries[i].name@, entries[i].version@, m[entries[i].name@].version->0@),
{
    let upd = |p: InstalledPkg| has_update(m, p);
    let row_of = |p: InstalledPkg| update_row(m, p);
    let f = entries.filter(upd);
    assert forall|i: int|
        0 <= i < entries.len() && m.contains_key(entries[i].name@) && m[entries[i].name@].version is Some
            && m[entries[i].name@].url is Some && m[entries[i].name@].version->0@ != entries[i].version@
            implies check_updates_spec(entries, m).contains(
            (entries[i].name@, entries[i].version@, #[trigger] m[entries[i].name@].version->0@),
        ) by {
        assert(upd(entries[i]));
        entries.lemma_filter_contains(upd, i);
        let j = choose|j: int| 0 <= j < f.len() && f[j] == entries[i];
        assert(f.map_values(row_of)[j] == row_of(entries[i]));
    }
    assert forall|row: (Seq<char>, Seq<char>, Seq<char>)| #[trigger] check_updates_spec(entries, m).contains(row) implies exists|i: int|
        0 <= i < entries.len() && m.contains_key(entries[i].name@) && m[entries[i].name@].version is Some
            && m[entries[i].name@].url is Some && m[entries[i].name@].version->0@ != entries[i].version@
            && row == (entries[i].name@, entries[i].version@, m[entries[i].name@].version->0@) by {
        let mapped = f.map_values(row_of);
        let j = choose|j: int| 0 <= j < mapped.len() && mapped[j] == row;
        entries.lemma_filter_pred(upd, j);
        assert(f.contains(f[j]));
        entries.lemma_filter_contains_rev(upd, f[j]);
        let i = choose|i: int| 0 <= i < entries.len() && entries[i] == f[j];
    }
}


/// A package resolves exactly when the index has it with a version and a
/// download address, and then to that version, address and checksum;
/// a package the index lacks is reported as not found.
pub proof fn law_resolve_package(m: Map<Seq<char>, IndexEntry>, name: Seq<char>)
    ensures
        resolve_package_spec(m, name) is Ok <==> (m.contains_key(name) && m[name].version is Some
            && m[name].url is Some),
        resolve_package_spec(m, name) matches Ok(t) ==> t.0 == m[name].version->0@ && t.1 == m[name].url->0@ && t.2
            == match m[name].checksum {
            Some(c) => Some(c@),
            None => None,
        },
        !m.contains_key(name) ==> resolve_package_spec(m, name) matches Err(RepoError::PackageNotFound { .. }),
{
}

impl PkgUtil {
    /// The version, download address and checksum (if any) the repository
    /// index gives package `name`.
    pub fn resolve_package(index: &RepoIndex, name: &str) -> (r: Result<(String, String, Option<String>), RepoError>)
        requires
            index.wf(),
        ensures
            match (r, resolve_package_spec(index.map(), name@)) {
                (Ok(t), Ok(u)) => t.0@ == u.0 && t.1@ == u.1 && match (t.2, u.2) {
                    (Some(a), Some(b)) => a@ == b,
                    (None, None) => true,
                    _ => false,
                },
                (Err(RepoError::PackageNotFound { name: n }), Err(RepoError::PackageNotFound { .. })) => n@ == name@,
                (Err(RepoError::VersionMissing { name: n }), Err(RepoError::VersionMissing { .. })) => n@ == name@,
                (Err(RepoError::UrlMissing { name: n }), Err(RepoError::UrlMissing { .. })) => n@ == name@,
                _ => false,
            },
    {
        match index.get(name) {
            None => Err(RepoError::PackageNotFound { name: copy_str(name) }),
            Some(e) => match &e.version {
                None => Err(RepoError::VersionMissing { name: copy_str(name) }),
                Some(v) => match &e.url {
                    None => Err(RepoError::UrlMissing { name: copy_str(name) }),
                    Some(u) => Ok((copy_str(v.as_str()), copy_str(u.as_str()), copy_opt(&e.checksum))),
                },
            },
        }
    }

    /// The packages of the index whose name or description contains
    /// `query`, ignoring case: name, version and description of each, in
    /// index order.
    pub fn search(index: &RepoIndex, query: &str) -> (r: Vec<(String, String, String)>)
        ensures
            rows_view(r@) == search_spec(index.entries(), query@),
    {
        Self::search_entries(index.entry_list(), query)
    }

    /// The entries of `list` whose name or description contains `query`,
    /// ignoring case: name, version and description of each, in order.
    pub fn search_entries(list: &Vec<IndexEntry>, query: &str) -> (r: Vec<(String, String, String)>)
        ensures
            rows_view(r@) == search_spec(list@, query@),
    {
        let q = to_lowercase(query);
        let mut names: Vec<String> = Vec::new();
        let mut descriptions: Vec<Option<String>> = Vec::new();
        let n = list.len();
        let mut k: usize = 0;
        while k < n
            invariant
                n == list@.len(),
                k <= n,
                names@.len() == k,
                descriptions@.len() == k,
                forall|i: int| 0 <= i < k ==> (#[trigger] names@[i])@ == lowercase(list@[i].name@),
                forall|i: int| 0 <= i < k ==> (#[trigger] opt_views(descriptions@)[i]) == lowered_description(entry_item(list@[i])),
            decreases n - k,
        {
            let ghost before = descriptions@;
            names.push(to_lowercase(list[k].name.as_str()));
            let d = match &list[k].description {
                Some(t) => Some(to_lowercase(t.as_str())),
                None => None,
            };
            descriptions.push(d);
            assert(descriptions@ == before.push(d));
            assert forall|i: int| 0 <= i < k + 1 implies (#[trigger] opt_views(descriptions@)[i]) == lowered_description(entry_item(list@[i])) by {
                if i < k {
                    assert(descriptions@[i] == before[i]);
                    assert(opt_views(before)[i] == lowered_description(entry_item(list@[i])));
                }
            }
            k = k + 1;
        }
        proof {
            lemma_search_lowered(list@, views_of(names@), opt_views(descriptions@), query@);
        }
        Self::search_lowered(list, &names, &descriptions, q.as_str())
    }

    /// The rows of a search given, for each entry `i` of `list`, its
    /// lowercased name `names[i]` and lowercased description
    /// `descriptions[i]` (if it has one), and the lowercased query: name,
    /// version and description of each entry whose name or description
    /// contains the query, in order.
    pub fn search_lowered(
        list: &Vec<IndexEntry>,
        names: &Vec<String>,
        descriptions: &Vec<Option<String>>,
        lowered_query: &str,
    ) -> (r: Vec<(String, String, String)>)
        requires
            names@.len() == list@.len(),
            descriptions@.len() == list@.len(),
        ensures
            rows_view(r@) == lowered_rows(
                list@,
                views_of(names@),
                opt_views(descriptions@),
                lowered_query@,
            ),
    {
        let qv = chars_of(lowered_query);
        let ghost es = list@;
        let ghost lv = views_of(names@);
        let ghost dv = opt_views(descriptions@);
        let mut out: Vec<(String, String, String)> = Vec::new();
        let n = list.len();
        let mut k: usize = 0;
        assert(rows_view(out@) =~= lowered_rows(es.subrange(0, 0), lv.subrange(0, 0), dv.subrange(0, 0), lowered_query@));
        while k < n
            invariant
                n == es.len(),
                n == names@.len(),
                n == descriptions@.len(),
                es == list@,
                lv == views_of(names@),
                dv == opt_views(descriptions@),
                qv@ == lowered_query@,
                k <= n,
                rows_view(out@) == lowered_rows(
                    es.subrange(0, k as int),
                    lv.subrange(0, k as int),
                    dv.subrange(0, k as int),
                    lowered_query@,
                ),
            decreases n - k,
        {
            let e = &list[k];
            let lname = chars_of(names[k].as_str());
            assert(lname@ == lv[k as int]);
            let desc_hit = match &descriptions[k] {
                Some(t) => {
                    let ld = chars_of(t.as_str());
                    contains_chars(&ld, &qv)
                },
                None => false,
            };
            let is_hit = contains_chars(&lname, &qv) || desc_hit;
            assert(is_hit == text_hit(lv[k as int], dv[k as int], lowered_query@));
            let ghost prev = out@;
            if is_hit {
                let version = match &e.version {
                    Some(v) => copy_str(v.as_str()),
                    None => {
                        let d = copy_str("0.0.1");
                        proof {
                            reveal_strlit("0.0.1");
                        }
                        assert(d@ =~= default_version());
                        d
                    },
                };
                let desc = match &e.description {
                    Some(d) => copy_str(d.as_str()),
                    None => String::new(),
                };
                out.push((copy_str(e.name.as_str()), version, desc));
                assert(rows_view(out@) =~= rows_view(prev).push(search_row(entry_item(*e))));
            }
            proof {
                let se = es.subrange(0, k + 1);
                let sl = lv.subrange(0, k + 1);
                let sd = dv.subrange(0, k + 1);
                assert(se.drop_last() =~= es.subrange(0, k as int));
                assert(sl.drop_last() =~= lv.subrange(0, k as int));
                assert(sd.drop_last() =~= dv.subrange(0, k as int));
                assert(se.last() == *e);
                assert(sl[se.len() - 1] == lv[k as int]);
                assert(sd[se.len() - 1] == dv[k as int]);
            }
            k = k + 1;
        }
        assert(es.subrange(0, n as int) =~= es);
        assert(lv.subrange(0, n as int) =~= lv);
        assert(dv.subrange(0, n as int) =~= dv);
        out
    }

    /// The installed packages for which the index offers another version
    /// than the installed one: name, installed and offered version, in
    /// database order.  Packages the index cannot resolve are skipped.
    pub fn check_updates(&self, index: &RepoIndex) -> (r: Vec<(String, String, String)>)
        requires
            index.wf(),
        ensures
            rows_view(r@) == check_updates_spec(self.entries(), index.map()),
    {
        let list = self.packages();
        let ghost es = list@;
        let ghost m = index.map();
        let ghost upd = |p: InstalledPkg| has_update(m, p);
        let ghost row = |p: InstalledPkg| update_row(m, p);
        let mut out: Vec<(String, String, String)> = Vec::new();
        let n = list.len();
        let mut k: usize = 0;
        assert(es.subrange(0, 0).filter(upd).map_values(row) =~= Seq::empty()) by {
            reveal(Seq::filter);
        }
        assert(rows_view(out@) =~= Seq::empty());
        while k < n
            invariant
                n == es.len(),
                es == list@,
                es == self.entries(),
                index.wf(),
                m == index.map(),
                upd == (|p: InstalledPkg| has_update(m, p)),
                row == (|p: InstalledPkg| update_row(m, p)),
                k <= n,
                rows_view(out@) == es.subrange(0, k as int).filter(upd).map_values(row),
            decreases n - k,
        {
            let p = &list[k];
            let ghost prev = out@;
            let mut newer = false;
            match PkgUtil::resolve_package(index, p.name.as_str()) {
                Ok((latest, _url, _sum)) => {
                    assert(latest_version(m, p.name@) == Some(latest@));
                    if !str_eq(p.version.as_str(), latest.as_str()) {
                        newer = true;
                        out.push((copy_str(p.name.as_str()), copy_str(p.version.as_str()), latest));
                        assert(rows_view(out@) =~= rows_view(prev).push(update_row(m, *p)));
                    }
                },
                Err(_) => {
                    assert(latest_version(m, p.name@) is None);
                },
            }
            proof {
                reveal(Seq::filter);
                let sub = es.subrange(0, k + 1);
                assert(sub.drop_last() =~= es.subrange(0, k as int));
                assert(sub.last() == *p);
                assert(upd(*p) == newer);
                if newer {
                    assert(sub.filter(upd) == es.subrange(0, k as int).filter(upd).push(*p));
                    assert(sub.filter(upd).map_values(row) =~= es.subrange(0, k as int).filter(upd).map_values(row).push(row(*p)));
                } else {
                    assert(sub.filter(upd) == es.subrange(0, k as int).filter(upd));
                }
            }
            k = k + 1;
        }
        assert(es.subrange(0, n as int) =~= es);
        out
    }
}

} // verus!
