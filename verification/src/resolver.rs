use vstd::prelude::*;

use crate::fileset::views_of;
use crate::index::{IndexEntry, RepoIndex};
use crate::keyed::{Keyed, has_key, key_map};
use crate::text::{copy_str, str_eq};
use crate::version::{Constraint, PkgVersion, normalize_constraint, normalize_constraint_spec, semver_matches, semver_req_valid, semver_version};

verus! {

/// The version the index offers for package `n`, parsed; `None` when the
/// index has no such package, gives it no version, or gives one that is not
/// a semantic version.
pub open spec fn index_version(m: Map<Seq<char>, IndexEntry>, n: Seq<char>) -> Option<(u64, u64, u64, Seq<char>, Seq<char>)> {
    if m.contains_key(n) && m[n].version is Some {
        semver_version(m[n].version->0@)
    } else {
        None
    }
}

/// The dependencies the index lists for `n`: name and constraint.
pub open spec fn deps_of(m: Map<Seq<char>, IndexEntry>, n: Seq<char>) -> Seq<(Seq<char>, Seq<char>)> {
    if m.contains_key(n) {
        m[n].dependencies@.map_values(|d: (String, String)| (d.0@, d.1@))
    } else {
        Seq::empty()
    }
}

/// Whether `a` lists `b` as a dependency.
pub open spec fn depends_on(m: Map<Seq<char>, IndexEntry>, a: Seq<char>, b: Seq<char>) -> bool {
    exists|k: int| 0 <= k < deps_of(m, a).len() && (#[trigger] deps_of(m, a)[k]).0 == b
}

/// Whether `p` is a chain of packages each listing the next as a dependency.
pub open spec fn is_dep_path(m: Map<Seq<char>, IndexEntry>, p: Seq<Seq<char>>) -> bool {
    &&& p.len() >= 1
    &&& forall|i: int| 0 <= i < p.len() - 1 ==> depends_on(m, #[trigger] p[i], p[i + 1])
}

/// Whether `n` is reached from `root` by following dependencies.
pub open spec fn reachable(m: Map<Seq<char>, IndexEntry>, root: Seq<char>, n: Seq<char>) -> bool {
    exists|p: Seq<Seq<char>>| #[trigger] is_dep_path(m, p) && p[0] == root && p.last() == n
}

/// Whether some package occurs twice in `p`.
pub open spec fn has_repeat(p: Seq<Seq<char>>) -> bool {
    exists|i: int, j: int| 0 <= i < j < p.len() && #[trigger] p[i] == #[trigger] p[j]
}

/// Whether the dependency on `d` with constraint `c` is met: the constraint
/// is valid and the version the index offers for `d` satisfies it.
pub open spec fn dep_satisfied(m: Map<Seq<char>, IndexEntry>, d: Seq<char>, c: Seq<char>) -> bool {
    &&& semver_req_valid(normalize_constraint_spec(c))
    &&& index_version(m, d) is Some
    &&& semver_matches(normalize_constraint_spec(c), index_version(m, d)->0)
}

/// Whether package `n` can be installed as far as it alone goes: the index
/// gives it a version and every dependency it lists is met.
pub open spec fn node_ok(m: Map<Seq<char>, IndexEntry>, n: Seq<char>) -> bool {
    &&& index_version(m, n) is Some
    &&& forall|k: int| 0 <= k < deps_of(m, n).len() ==> dep_satisfied(m, (#[trigger] deps_of(m, n)[k]).0, deps_of(m, n)[k].1)
}

/// Whether `root` at version `rv` can be installed with its dependencies:
/// the index offers `root` at exactly `rv`, every package reached from it is
/// installable, and no chain of dependencies from it comes back to a package
/// already on the chain.
pub open spec fn resolvable(m: Map<Seq<char>, IndexEntry>, root: Seq<char>, rv: (u64, u64, u64, Seq<char>, Seq<char>)) -> bool {
    &&& index_version(m, root) == Some(rv)
    &&& forall|p: Seq<Seq<char>>| #[trigger] is_dep_path(m, p) && p[0] == root ==> node_ok(m, p.last()) && !has_repeat(p)
}

/// Whether `n` occurs as a name in `s`.
pub open spec fn listed(s: Seq<(Seq<char>, (u64, u64, u64, Seq<char>, Seq<char>))>, n: Seq<char>) -> bool {
    exists|j: int| 0 <= j < s.len() && (#[trigger] s[j]).0 == n
}

/// No name occurs twice in `s`.
pub open spec fn order_distinct(s: Seq<(Seq<char>, (u64, u64, u64, Seq<char>, Seq<char>))>) -> bool {
    forall|i: int, j: int| 0 <= i < j < s.len() ==> (#[trigger] s[i]).0 != (#[trigger] s[j]).0
}

/// Each package of `s` is at the version the index offers, is installable,
/// and is reached from `root`.
pub open spec fn order_entries_ok(m: Map<Seq<char>, IndexEntry>, root: Seq<char>, s: Seq<(Seq<char>, (u64, u64, u64, Seq<char>, Seq<char>))>) -> bool {
    forall|i: int| 0 <= i < s.len() ==> {
        &&& index_version(m, (#[trigger] s[i]).0) == Some(s[i].1)
        &&& node_ok(m, s[i].0)
        &&& reachable(m, root, s[i].0)
    }
}

/// Whether `n` is among the first `i` names of `s`.
pub open spec fn listed_before(s: Seq<(Seq<char>, (u64, u64, u64, Seq<char>, Seq<char>))>, i: int, n: Seq<char>) -> bool {
    exists|j: int| 0 <= j < i && (#[trigger] s[j]).0 == n
}

/// Every dependency of the `i`-th package of `s` comes before it.
pub open spec fn deps_before(m: Map<Seq<char>, IndexEntry>, s: Seq<(Seq<char>, (u64, u64, u64, Seq<char>, Seq<char>))>, i: int) -> bool {
    forall|k: int| 0 <= k < deps_of(m, s[i].0).len() ==> #[trigger] listed_before(s, i, deps_of(m, s[i].0)[k].0)
}

/// Each package of `s` comes after all of its dependencies.
pub open spec fn order_topological(m: Map<Seq<char>, IndexEntry>, s: Seq<(Seq<char>, (u64, u64, u64, Seq<char>, Seq<char>))>) -> bool {
    forall|i: int| 0 <= i < s.len() ==> #[trigger] deps_before(m, s, i)
}

/// `s` is an installation order for packages reached from `root`: no name
/// twice, each package at the version the index offers and installable, each
/// reached from `root`, and each after all of its dependencies.
pub open spec fn install_order(m: Map<Seq<char>, IndexEntry>, root: Seq<char>, s: Seq<(Seq<char>, (u64, u64, u64, Seq<char>, Seq<char>))>) -> bool {
    &&& order_distinct(s)
    &&& order_entries_ok(m, root, s)
    &&& order_topological(m, s)
}

/// The position of `n` in `s`.
pub open spec fn position_of(s: Seq<(Seq<char>, (u64, u64, u64, Seq<char>, Seq<char>))>, n: Seq<char>) -> int {
    choose|j: int| 0 <= j < s.len() && (#[trigger] s[j]).0 == n
}

/// Along a dependency chain from a package of an installation order, every
/// package is in the order, each before the one that depends on it.
pub proof fn lemma_path_in_order(
    m: Map<Seq<char>, IndexEntry>,
    root: Seq<char>,
    s: Seq<(Seq<char>, (u64, u64, u64, Seq<char>, Seq<char>))>,
    p: Seq<Seq<char>>,
)
    requires
        install_order(m, root, s),
        is_dep_path(m, p),
        listed(s, p[0]),
    ensures
        forall|i: int| 0 <= i < p.len() ==> listed(s, #[trigger] p[i]),
        forall|i: int, k: int| 0 <= i < k < p.len() ==> position_of(s, #[trigger] p[k]) < position_of(s, #[trigger] p[i]),
    decreases p.len(),
{
    if p.len() > 1 {
        let q = p.drop_last();
        assert forall|i: int| 0 <= i < q.len() - 1 implies depends_on(m, #[trigger] q[i], q[i + 1]) by {
            assert(depends_on(m, p[i], p[i + 1]));
        }
        lemma_path_in_order(m, root, s, q);
        let a = p[p.len() - 2];
        let b = p.last();
        assert(q[q.len() - 1] == a);
        assert(listed(s, a));
        let ia = position_of(s, a);
        assert(depends_on(m, a, b));
        let k = choose|k: int| 0 <= k < deps_of(m, a).len() && (#[trigger] deps_of(m, a)[k]).0 == b;
        assert(s[ia].0 == a);
        assert(deps_before(m, s, ia));
        assert(listed_before(s, ia, deps_of(m, s[ia].0)[k].0));
        let jb = choose|j: int| 0 <= j < ia && (#[trigger] s[j]).0 == deps_of(m, s[ia].0)[k].0;
        assert(s[jb].0 == b);
        assert(listed(s, b));
        let ib = position_of(s, b);
        if ib != jb {
            if ib < jb {
                assert(s[ib].0 != s[jb].0);
            } else {
                assert(s[jb].0 != s[ib].0);
            }
        }
        assert forall|i: int| 0 <= i < p.len() implies listed(s, #[trigger] p[i]) by {
            if i < p.len() - 1 {
                assert(q[i] == p[i]);
                assert(listed(s, q[i]));
            }
        }
        assert forall|i: int, k2: int| 0 <= i < k2 < p.len() implies position_of(s, #[trigger] p[k2]) < position_of(s, #[trigger] p[i]) by {
            if k2 < p.len() - 1 {
                assert(q[i] == p[i] && q[k2] == p[k2]);
                assert(position_of(s, q[k2]) < position_of(s, q[i]));
            } else if i < p.len() - 2 {
                assert(q[i] == p[i] && q[q.len() - 1] == a);
                assert(position_of(s, q[q.len() - 1]) < position_of(s, q[i]));
            }
        }
    } else {
        assert forall|i: int| 0 <= i < p.len() implies listed(s, #[trigger] p[i]) by {}
    }
}

/// An installation order that contains `root`, at the requested version,
/// shows that `root` is resolvable, and contains every package reached from
/// `root`.
pub proof fn lemma_order_complete(
    m: Map<Seq<char>, IndexEntry>,
    root: Seq<char>,
    rv: (u64, u64, u64, Seq<char>, Seq<char>),
    s: Seq<(Seq<char>, (u64, u64, u64, Seq<char>, Seq<char>))>,
)
    requires
        install_order(m, root, s),
        listed(s, root),
        index_version(m, root) == Some(rv),
    ensures
        resolvable(m, root, rv),
        forall|n: Seq<char>| reachable(m, root, n) ==> listed(s, n),
{
    assert forall|p: Seq<Seq<char>>| #[trigger] is_dep_path(m, p) && p[0] == root implies node_ok(m, p.last()) && !has_repeat(p) by {
        lemma_path_in_order(m, root, s, p);
        assert(listed(s, p[p.len() - 1]));
        let j = position_of(s, p.last());
        assert(s[j].0 == p.last());
        if has_repeat(p) {
            let (a, b) = choose|a: int, b: int| 0 <= a < b < p.len() && #[trigger] p[a] == #[trigger] p[b];
            assert(position_of(s, p[b]) < position_of(s, p[a]));
        }
    }
    assert forall|n: Seq<char>| reachable(m, root, n) implies listed(s, n) by {
        let p = choose|p: Seq<Seq<char>>| #[trigger] is_dep_path(m, p) && p[0] == root && p.last() == n;
        lemma_path_in_order(m, root, s, p);
        assert(listed(s, p[p.len() - 1]));
    }
}

/// Why a package could not be resolved.
#[derive(Debug)]
pub enum ResolveError {
    /// The requested version of the root package is not a semantic version.
    InvalidVersion { text: String },
    /// The index has no package of this name.
    NotFound { name: String },
    /// The index gives this package no version, or one that is not a
    /// semantic version.
    BadVersion { name: String },
    /// The index offers the root package at another version than requested.
    VersionMismatch { name: String },
    /// The package is already resolved at another version than the one
    /// now requested for it.
    VersionConflict { name: String },
    /// A chain of dependencies comes back to this package.
    CircularDependency { name: String },
    /// The constraint `name` puts on `dependency` is not valid.
    InvalidConstraint { name: String, dependency: String, constraint: String },
    /// No version of `dependency` that the index offers meets the constraint.
    Unsatisfied { name: String, dependency: String, constraint: String },
}

/// Whether the index lists `(d, c)` among the dependencies of `n`.
pub open spec fn lists_dep(m: Map<Seq<char>, IndexEntry>, n: Seq<char>, d: Seq<char>, c: Seq<char>) -> bool {
    exists|k: int| 0 <= k < deps_of(m, n).len() && #[trigger] deps_of(m, n)[k] == (d, c)
}

/// What an error shows about the index, the root and the requested version.
pub open spec fn error_shows(m: Map<Seq<char>, IndexEntry>, root: Seq<char>, rv: Option<(u64, u64, u64, Seq<char>, Seq<char>)>, e: ResolveError) -> bool {
    match e {
        ResolveError::InvalidVersion { text } => rv is None,
        ResolveError::NotFound { name } => reachable(m, root, name@) && !m.contains_key(name@),
        ResolveError::BadVersion { name } => reachable(m, root, name@) && m.contains_key(name@)
            && index_version(m, name@) is None,
        ResolveError::VersionMismatch { name } => name@ == root && index_version(m, root) is Some
            && index_version(m, root) != rv,
        ResolveError::VersionConflict { name } => name@ == root && index_version(m, root) is Some
            && index_version(m, root) != rv,
        ResolveError::CircularDependency { name } => exists|p: Seq<Seq<char>>|
            #[trigger] is_dep_path(m, p) && p[0] == root && p.last() == name@ && has_repeat(p),
        ResolveError::InvalidConstraint { name, dependency, constraint } => reachable(m, root, name@)
            && lists_dep(m, name@, dependency@, constraint@)
            && !semver_req_valid(normalize_constraint_spec(constraint@)),
        ResolveError::Unsatisfied { name, dependency, constraint } => reachable(m, root, name@)
            && lists_dep(m, name@, dependency@, constraint@)
            && semver_req_valid(normalize_constraint_spec(constraint@))
            && !dep_satisfied(m, dependency@, constraint@),
    }
}

/// Every error that can be shown rules out a resolution.
pub proof fn lemma_error_not_resolvable(
    m: Map<Seq<char>, IndexEntry>,
    root: Seq<char>,
    rv: Option<(u64, u64, u64, Seq<char>, Seq<char>)>,
    e: ResolveError,
)
    requires
        error_shows(m, root, rv, e),
    ensures
        !(rv is Some && resolvable(m, root, rv->0)),
{
    if rv is Some && resolvable(m, root, rv->0) {
        match e {
            ResolveError::InvalidVersion { text } => {},
            ResolveError::NotFound { name } => {
                let p = choose|p: Seq<Seq<char>>| #[trigger] is_dep_path(m, p) && p[0] == root && p.last() == name@;
            },
            ResolveError::BadVersion { name } => {
                let p = choose|p: Seq<Seq<char>>| #[trigger] is_dep_path(m, p) && p[0] == root && p.last() == name@;
            },
            ResolveError::VersionMismatch { name } => {},
            ResolveError::VersionConflict { name } => {},
            ResolveError::CircularDependency { name } => {
                let p = choose|p: Seq<Seq<char>>| #[trigger] is_dep_path(m, p) && p[0] == root && p.last() == name@ && has_repeat(p);
            },
            ResolveError::InvalidConstraint { name, dependency, constraint } => {
                let p = choose|p: Seq<Seq<char>>| #[trigger] is_dep_path(m, p) && p[0] == root && p.last() == name@;
                let k = choose|k: int| 0 <= k < deps_of(m, name@).len() && #[trigger] deps_of(m, name@)[k] == (dependency@, constraint@);
                assert(node_ok(m, p.last()));
                assert(dep_satisfied(m, deps_of(m, name@)[k].0, deps_of(m, name@)[k].1));
            },
            ResolveError::Unsatisfied { name, dependency, constraint } => {
                let p = choose|p: Seq<Seq<char>>| #[trigger] is_dep_path(m, p) && p[0] == root && p.last() == name@;
                let k = choose|k: int| 0 <= k < deps_of(m, name@).len() && #[trigger] deps_of(m, name@)[k] == (dependency@, constraint@);
                assert(node_ok(m, p.last()));
                assert(dep_satisfied(m, deps_of(m, name@)[k].0, deps_of(m, name@)[k].1));
            },
        }
    }
}

/// The names and version parts of a resolution.
pub open spec fn order_view(v: Seq<(String, PkgVersion)>) -> Seq<(Seq<char>, (u64, u64, u64, Seq<char>, Seq<char>))> {
    v.map_values(|x: (String, PkgVersion)| (x.0@, x.1.parts()))
}

/// A chain of distinct indexed packages is no longer than the index.
proof fn lemma_path_len_bound(entries: Seq<IndexEntry>, path: Seq<Seq<char>>)
    requires
        !has_repeat(path),
        forall|i: int| 0 <= i < path.len() ==> has_key(entries, #[trigger] path[i]),
    ensures
        path.len() <= entries.len(),
{
    let keys = entries.map_values(|e: IndexEntry| e.key());
    assert(path.no_duplicates()) by {
        assert forall|i: int, j: int| 0 <= i < path.len() && 0 <= j < path.len() && i != j implies path[i] != path[j] by {
            if i < j {
                assert(!(path[i] == path[j]));
            } else {
                assert(!(path[j] == path[i]));
            }
        }
    }
    path.unique_seq_to_set();
    keys.lemma_cardinality_of_set();
    assert forall|x: Seq<char>| path.to_set().contains(x) implies keys.to_set().contains(x) by {
        let i = choose|i: int| 0 <= i < path.len() && path[i] == x;
        assert(has_key(entries, path[i]));
        let k = choose|k: int| 0 <= k < entries.len() && (#[trigger] entries[k]).key() == x;
        assert(keys[k] == x);
    }
    vstd::set_lib::lemma_len_subset(path.to_set(), keys.to_set());
}

/// Which check of a resolution failed, without the names it concerns.
pub enum FailureKind {
    InvalidVersion,
    NotFound,
    BadVersion,
    VersionMismatch,
    VersionConflict,
    CircularDependency,
    InvalidConstraint,
    Unsatisfied,
}

/// A resolution error as plain values: which check failed, and the package,
/// dependency and constraint (or requested version text) it names; the
/// parts an error does not carry are empty.
pub open spec fn failure_of(e: ResolveError) -> (FailureKind, Seq<char>, Seq<char>, Seq<char>) {
    match e {
        ResolveError::InvalidVersion { text } => (FailureKind::InvalidVersion, text@, Seq::empty(), Seq::empty()),
        ResolveError::NotFound { name } => (FailureKind::NotFound, name@, Seq::empty(), Seq::empty()),
        ResolveError::BadVersion { name } => (FailureKind::BadVersion, name@, Seq::empty(), Seq::empty()),
        ResolveError::VersionMismatch { name } => (FailureKind::VersionMismatch, name@, Seq::empty(), Seq::empty()),
        ResolveError::VersionConflict { name } => (FailureKind::VersionConflict, name@, Seq::empty(), Seq::empty()),
        ResolveError::CircularDependency { name } => (FailureKind::CircularDependency, name@, Seq::empty(), Seq::empty()),
        ResolveError::InvalidConstraint { name, dependency, constraint } => (
            FailureKind::InvalidConstraint,
            name@,
            dependency@,
            constraint@,
        ),
        ResolveError::Unsatisfied { name, dependency, constraint } => (
            FailureKind::Unsatisfied,
            name@,
            dependency@,
            constraint@,
        ),
    }
}

/// The outcome of resolving `name` at version `parts` depth first, when
/// `path` is the chain of packages being resolved and `done` the packages
/// already resolved, in order.  The checks come in this order: `name` on the
/// chain (a cycle); `name` already resolved (fine at the same version, a
/// conflict at another); `name` missing from the index, without a semantic
/// version there, or offered at another version.  Then its dependencies are
/// resolved one after the other in the order the index lists them, and
/// `name` is appended last.  `bound` limits the length of the chain; a chain
/// of distinct packages of the index never reaches a bound equal to the
/// number of entries.
pub open spec fn visit(
    m: Map<Seq<char>, IndexEntry>,
    bound: int,
    path: Seq<Seq<char>>,
    name: Seq<char>,
    parts: (u64, u64, u64, Seq<char>, Seq<char>),
    done: Seq<(Seq<char>, (u64, u64, u64, Seq<char>, Seq<char>))>,
) -> Result<Seq<(Seq<char>, (u64, u64, u64, Seq<char>, Seq<char>))>, (FailureKind, Seq<char>, Seq<char>, Seq<char>)>
    decreases bound - path.len(), 0int, 0int,
{
    if path.contains(name) {
        Err((FailureKind::CircularDependency, name, Seq::empty(), Seq::empty()))
    } else if listed(done, name) {
        if done[position_of(done, name)].1 == parts {
            Ok(done)
        } else {
            Err((FailureKind::VersionConflict, name, Seq::empty(), Seq::empty()))
        }
    } else if !m.contains_key(name) {
        Err((FailureKind::NotFound, name, Seq::empty(), Seq::empty()))
    } else if index_version(m, name) is None {
        Err((FailureKind::BadVersion, name, Seq::empty(), Seq::empty()))
    } else if index_version(m, name) != Some(parts) {
        Err((FailureKind::VersionMismatch, name, Seq::empty(), Seq::empty()))
    } else if path.len() + 1 > bound {
        Ok(done)
    } else {
        match visit_deps(m, bound, path.push(name), name, 0, done) {
            Ok(d) => Ok(d.push((name, parts))),
            Err(f) => Err(f),
        }
    }
}

/// The outcome of resolving the dependencies of `name` from the `k`-th on,
/// in index order, with `path` the chain ending in `name` and `done` the
/// packages already resolved: each constraint must be valid and met by the
/// version the index offers, and each dependency is resolved at that
/// version.
pub open spec fn visit_deps(
    m: Map<Seq<char>, IndexEntry>,
    bound: int,
    path: Seq<Seq<char>>,
    name: Seq<char>,
    k: int,
    done: Seq<(Seq<char>, (u64, u64, u64, Seq<char>, Seq<char>))>,
) -> Result<Seq<(Seq<char>, (u64, u64, u64, Seq<char>, Seq<char>))>, (FailureKind, Seq<char>, Seq<char>, Seq<char>)>
    decreases bound - path.len(), 1int, deps_of(m, name).len() - k,
{
    if k < 0 || k >= deps_of(m, name).len() {
        Ok(done)
    } else {
        let d = deps_of(m, name)[k].0;
        let c = deps_of(m, name)[k].1;
        if !semver_req_valid(normalize_constraint_spec(c)) {
            Err((FailureKind::InvalidConstraint, name, d, c))
        } else if !dep_satisfied(m, d, c) {
            Err((FailureKind::Unsatisfied, name, d, c))
        } else {
            match visit(m, bound, path, d, index_version(m, d)->0, done) {
                Ok(next) => visit_deps(m, bound, path, name, k + 1, next),
                Err(f) => Err(f),
            }
        }
    }
}

/// The outcome of resolving `root` at the version written `version` against
/// the index `m` of `bound` entries: the packages to install, in order, or
/// the check that failed first.
pub open spec fn resolution(
    m: Map<Seq<char>, IndexEntry>,
    bound: int,
    root: Seq<char>,
    version: Seq<char>,
) -> Result<Seq<(Seq<char>, (u64, u64, u64, Seq<char>, Seq<char>))>, (FailureKind, Seq<char>, Seq<char>, Seq<char>)> {
    match semver_version(version) {
        None => Err((FailureKind::InvalidVersion, version, Seq::empty(), Seq::empty())),
        Some(rv) => visit(m, bound, Seq::empty(), root, rv, Seq::empty()),
    }
}

/// Whether `name` is among the visited names.
fn visited_contains(visited: &Vec<String>, name: &str) -> (r: bool)
    ensures
        r == views_of(visited@).contains(name@),
{
    let n = visited.len();
    let mut i: usize = 0;
    while i < n
        invariant
            n == visited@.len(),
            i <= n,
            forall|k: int| 0 <= k < i ==> views_of(visited@)[k] != name@,
        decreases n - i,
    {
        if str_eq(visited[i].as_str(), name) {
            assert(views_of(visited@)[i as int] == name@);
            return true;
        }
        i = i + 1;
    }
    false
}

/// Where `name` is among the resolved names, if it is.
fn resolved_position(resolved: &Vec<(String, PkgVersion)>, name: &str) -> (r: Option<usize>)
    ensures
        match r {
            Some(i) => i < resolved@.len() && order_view(resolved@)[i as int].0 == name@,
            None => !listed(order_view(resolved@), name@),
        },
{
    let n = resolved.len();
    let mut i: usize = 0;
    while i < n
        invariant
            n == resolved@.len(),
            i <= n,
            forall|k: int| 0 <= k < i ==> order_view(resolved@)[k].0 != name@,
        decreases n - i,
    {
        if str_eq(resolved[i].0.as_str(), name) {
            assert(order_view(resolved@)[i as int].0 == name@);
            return Some(i);
        }
        i = i + 1;
    }
    None
}

/// The state in which `name` at version `parts` is visited: `path` is the
/// chain of packages being resolved (from `root`, without repeats) and ends
/// with a package that depends on `name`; the root itself is visited at the
/// requested version `rv`.
pub open spec fn visit_ok(
    m: Map<Seq<char>, IndexEntry>,
    root: Seq<char>,
    rv: (u64, u64, u64, Seq<char>, Seq<char>),
    path: Seq<Seq<char>>,
    name: Seq<char>,
    parts: (u64, u64, u64, Seq<char>, Seq<char>),
) -> bool {
    &&& !has_repeat(path)
    &&& if path.len() == 0 {
        name == root && parts == rv
    } else {
        &&& is_dep_path(m, path)
        &&& path[0] == root
        &&& depends_on(m, path.last(), name)
        &&& index_version(m, name) == Some(parts)
    }
}

/// No resolved package is on the chain being resolved.
pub open spec fn off_path(s: Seq<(Seq<char>, (u64, u64, u64, Seq<char>, Seq<char>))>, path: Seq<Seq<char>>) -> bool {
    forall|i: int| 0 <= i < s.len() ==> !path.contains(#[trigger] s[i].0)
}

/// Whether `a` is a prefix of `b`.
pub open spec fn is_prefix<A>(a: Seq<A>, b: Seq<A>) -> bool {
    a.len() <= b.len() && b.subrange(0, a.len() as int) == a
}

proof fn lemma_listed_prefix(
    a: Seq<(Seq<char>, (u64, u64, u64, Seq<char>, Seq<char>))>,
    b: Seq<(Seq<char>, (u64, u64, u64, Seq<char>, Seq<char>))>,
    n: Seq<char>,
)
    requires
        is_prefix(a, b),
        listed(a, n),
    ensures
        listed(b, n),
{
    let j = choose|j: int| 0 <= j < a.len() && (#[trigger] a[j]).0 == n;
    assert(b.subrange(0, a.len() as int)[j] == b[j]);
}

/// A chain of dependencies that ends in a package that depends on `name`,
/// extended by `name`.
proof fn lemma_extend_path(m: Map<Seq<char>, IndexEntry>, root: Seq<char>, path: Seq<Seq<char>>, name: Seq<char>)
    requires
        path.len() == 0 ==> name == root,
        path.len() > 0 ==> is_dep_path(m, path) && path[0] == root && depends_on(m, path.last(), name),
    ensures
        is_dep_path(m, path.push(name)),
        path.push(name)[0] == root,
        path.push(name).last() == name,
        reachable(m, root, name),
        forall|i: int| 0 <= i < path.len() ==> m.contains_key(#[trigger] path[i]),
{
    let q = path.push(name);
    assert forall|i: int| 0 <= i < q.len() - 1 implies depends_on(m, #[trigger] q[i], q[i + 1]) by {
        if i < path.len() - 1 {
            assert(depends_on(m, path[i], path[i + 1]));
        } else {
            assert(q[i] == path.last());
        }
    }
    assert(is_dep_path(m, q));
    assert forall|i: int| 0 <= i < path.len() implies m.contains_key(#[trigger] path[i]) by {
        let b = if i < path.len() - 1 { path[i + 1] } else { name };
        assert(depends_on(m, q[i], q[i + 1]));
        assert(q[i] == path[i]);
        let k = choose|k: int| 0 <= k < deps_of(m, path[i]).len() && (#[trigger] deps_of(m, path[i])[k]).0 == q[i + 1];
    }
}

/// Appending a package that is installable, reached from the root, new to
/// the order, and whose dependencies are all in the order keeps it an
/// installation order.
proof fn lemma_append_resolved(
    m: Map<Seq<char>, IndexEntry>,
    root: Seq<char>,
    before: Seq<(Seq<char>, (u64, u64, u64, Seq<char>, Seq<char>))>,
    name: Seq<char>,
    parts: (u64, u64, u64, Seq<char>, Seq<char>),
)
    requires
        install_order(m, root, before),
        !listed(before, name),
        index_version(m, name) == Some(parts),
        reachable(m, root, name),
        forall|kk: int| 0 <= kk < deps_of(m, name).len() ==> dep_satisfied(m, (#[trigger] deps_of(m, name)[kk]).0, deps_of(m, name)[kk].1)
            && listed(before, deps_of(m, name)[kk].0),
    ensures
        install_order(m, root, before.push((name, parts))),
{
    lemma_append_distinct(before, name, parts);
    lemma_append_entries(m, root, before, name, parts);
    lemma_append_topological(m, before, name, parts);
}

proof fn lemma_append_distinct(
    before: Seq<(Seq<char>, (u64, u64, u64, Seq<char>, Seq<char>))>,
    name: Seq<char>,
    parts: (u64, u64, u64, Seq<char>, Seq<char>),
)
    requires
        order_distinct(before),
        !listed(before, name),
    ensures
        order_distinct(before.push((name, parts))),
{
    let after = before.push((name, parts));
    assert forall|i: int, j: int| 0 <= i < j < after.len() implies (#[trigger] after[i]).0 != (#[trigger] after[j]).0 by {
        if j == before.len() {
            assert(after[i] == before[i]);
            if before[i].0 == name {
                assert(listed(before, name));
            }
        } else {
            assert(after[i] == before[i] && after[j] == before[j]);
        }
    }
}

proof fn lemma_append_entries(
    m: Map<Seq<char>, IndexEntry>,
    root: Seq<char>,
    before: Seq<(Seq<char>, (u64, u64, u64, Seq<char>, Seq<char>))>,
    name: Seq<char>,
    parts: (u64, u64, u64, Seq<char>, Seq<char>),
)
    requires
        order_entries_ok(m, root, before),
        index_version(m, name) == Some(parts),
        reachable(m, root, name),
        forall|kk: int| 0 <= kk < deps_of(m, name).len() ==> dep_satisfied(m, (#[trigger] deps_of(m, name)[kk]).0, deps_of(m, name)[kk].1),
    ensures
        order_entries_ok(m, root, before.push((name, parts))),
{
    let after = before.push((name, parts));
    assert(node_ok(m, name));
    assert forall|i: int| 0 <= i < after.len() implies {
        &&& index_version(m, (#[trigger] after[i]).0) == Some(after[i].1)
        &&& node_ok(m, after[i].0)
        &&& reachable(m, root, after[i].0)
    } by {
        if i < before.len() {
            assert(after[i] == before[i]);
        }
    }
}

proof fn lemma_append_topological(
    m: Map<Seq<char>, IndexEntry>,
    before: Seq<(Seq<char>, (u64, u64, u64, Seq<char>, Seq<char>))>,
    name: Seq<char>,
    parts: (u64, u64, u64, Seq<char>, Seq<char>),
)
    requires
        order_topological(m, before),
        forall|kk: int| 0 <= kk < deps_of(m, name).len() ==> listed(before, (#[trigger] deps_of(m, name)[kk]).0),
    ensures
        order_topological(m, before.push((name, parts))),
{
    let after = before.push((name, parts));
    assert forall|i: int| 0 <= i < after.len() implies #[trigger] deps_before(m, after, i) by {
        assert forall|k: int| 0 <= k < deps_of(m, after[i].0).len() implies #[trigger] listed_before(after, i, deps_of(m, after[i].0)[k].0) by {
            let d = deps_of(m, after[i].0)[k];
            if i < before.len() {
                assert(after[i] == before[i]);
                assert(deps_before(m, before, i));
                assert(deps_of(m, before[i].0)[k] == d);
                assert(listed_before(before, i, deps_of(m, before[i].0)[k].0));
                let j = choose|j: int| 0 <= j < i && (#[trigger] before[j]).0 == d.0;
                assert(after[j] == before[j]);
            } else {
                assert(after[i].0 == name);
                assert(listed(before, d.0));
                let j = choose|j: int| 0 <= j < before.len() && (#[trigger] before[j]).0 == d.0;
                assert(after[j] == before[j]);
            }
        }
        assert(deps_before(m, after, i));
    }
}

/// Resolves `name` at `version` and, first, everything it depends on,
/// appending each newly resolved package to `resolved` after its
/// dependencies; `visited` holds the chain of packages being resolved.
#[verifier::rlimit(60)]
fn resolve_rec(
    index: &RepoIndex,
    name: &str,
    version: PkgVersion,
    resolved: &mut Vec<(String, PkgVersion)>,
    visited: &mut Vec<String>,
    Ghost(root): Ghost<Seq<char>>,
    Ghost(rv): Ghost<(u64, u64, u64, Seq<char>, Seq<char>)>,
) -> (r: Result<(), ResolveError>)
    requires
        index.wf(),
        visit_ok(index.map(), root, rv, views_of(old(visited)@), name@, version.parts()),
        install_order(index.map(), root, order_view(old(resolved)@)),
        off_path(order_view(old(resolved)@), views_of(old(visited)@)),
    ensures
        r is Ok ==> {
            &&& views_of(final(visited)@) == views_of(old(visited)@)
            &&& install_order(index.map(), root, order_view(final(resolved)@))
            &&& is_prefix(order_view(old(resolved)@), order_view(final(resolved)@))
            &&& listed(order_view(final(resolved)@), name@)
            &&& off_path(order_view(final(resolved)@), views_of(old(visited)@))
            &&& order_view(final(resolved)@).contains((name@, version.parts()))
            &&& !listed(order_view(old(resolved)@), name@) ==> order_view(final(resolved)@).last() == (name@, version.parts())
        },
        r matches Err(e) ==> error_shows(index.map(), root, Some(rv), e),
        r is Ok ==> visit(index.map(), index.entries().len() as int, views_of(old(visited)@), name@, version.parts(),
            order_view(old(resolved)@)) == Ok::<_, (FailureKind, Seq<char>, Seq<char>, Seq<char>)>(order_view(final(resolved)@)),
        r matches Err(e) ==> visit(index.map(), index.entries().len() as int, views_of(old(visited)@), name@,
            version.parts(), order_view(old(resolved)@)) == Err::<Seq<(Seq<char>, (u64, u64, u64, Seq<char>, Seq<char>))>, _>(failure_of(e)),
        views_of(old(visited)@).contains(name@) ==> {
            &&& r matches Err(ResolveError::CircularDependency { name: n }) && n@ == name@
            &&& final(resolved)@ == old(resolved)@
            &&& final(visited)@ == old(visited)@
        },
        !views_of(old(visited)@).contains(name@) && (exists|j: int|
            0 <= j < old(resolved)@.len() && (#[trigger] order_view(old(resolved)@)[j]).0 == name@
                && order_view(old(resolved)@)[j].1 != version.parts()) ==> {
            &&& r matches Err(ResolveError::VersionConflict { name: n }) && n@ == name@
            &&& final(resolved)@ == old(resolved)@
            &&& final(visited)@ == old(visited)@
        },
    decreases index.entries().len() - views_of(old(visited)@).len(),
{
    let ghost m = index.map();
    let ghost path = views_of(visited@);
    let ghost r0 = order_view(resolved@);
    proof {
        lemma_extend_path(m, root, path, name@);
    }
    if visited_contains(visited, name) {
        proof {
            let q = path.push(name@);
            let j = choose|j: int| 0 <= j < path.len() && path[j] == name@;
            assert(q[j] == q[q.len() - 1]);
            assert(has_repeat(q));
        }
        return Err(ResolveError::CircularDependency { name: copy_str(name) });
    }
    match resolved_position(resolved, name) {
        Some(i) => {
            proof {
                assert forall|j: int| 0 <= j < r0.len() && #[trigger] r0[j].0 == name@ implies j == i by {
                    if j < i {
                        assert(r0[j].0 != r0[i as int].0);
                    } else if i < j {
                        assert(r0[i as int].0 != r0[j].0);
                    }
                }
                assert(listed(r0, name@));
                assert(position_of(r0, name@) == i);
            }
            if !resolved[i].1.same_as(&version) {
                proof {
                    assert(r0[i as int].1 != version.parts());
                    assert(index_version(m, r0[i as int].0) == Some(r0[i as int].1));
                    assert(path.len() == 0);
                }
                return Err(ResolveError::VersionConflict { name: copy_str(name) });
            }
            proof {
                assert(r0[i as int] == (name@, version.parts()));
            }
            assert(is_prefix(r0, order_view(resolved@))) by {
                assert(order_view(resolved@).subrange(0, r0.len() as int) =~= r0);
            }
            return Ok(());
        },
        None => {},
    }
    visited.push(copy_str(name));
    let ghost path1 = views_of(visited@);
    assert(path1 =~= path.push(name@));
    assert(!has_repeat(path1)) by {
        if has_repeat(path1) {
            let (a, b) = choose|a: int, b: int| 0 <= a < b < path1.len() && #[trigger] path1[a] == #[trigger] path1[b];
            if b == path.len() {
                assert(path.contains(name@)) by {
                    assert(path[a] == name@);
                }
            } else {
                assert(path[a] == path[b]);
            }
        }
    }
    let entry = match index.get(name) {
        Some(e) => e,
        None => {
            return Err(ResolveError::NotFound { name: copy_str(name) });
        },
    };
    let pkg_ver = match &entry.version {
        Some(t) => match PkgVersion::parse(t.as_str()) {
            Some(v) => v,
            None => {
                return Err(ResolveError::BadVersion { name: copy_str(name) });
            },
        },
        None => {
            return Err(ResolveError::BadVersion { name: copy_str(name) });
        },
    };
    assert(index_version(m, name@) == Some(pkg_ver.parts()));
    if !pkg_ver.same_as(&version) {
        return Err(ResolveError::VersionMismatch { name: copy_str(name) });
    }
    proof {
        lemma_path_len_bound(index.entries(), path1);
    }
    let nd = entry.dependencies.len();
    let ghost deps = deps_of(m, name@);
    assert(deps.len() == nd);
    let mut k: usize = 0;
    assert(order_view(resolved@).subrange(0, r0.len() as int) =~= r0);
    assert(index_version(m, name@) == Some(version.parts()));
    assert(visit(m, index.entries().len() as int, path, name@, version.parts(), r0) == (match visit_deps(m, index.entries().len() as int, path1, name@, 0, r0) {
        Ok(d) => Ok(d.push((name@, version.parts()))),
        Err(f) => Err(f),
    }));
    while k < nd
        invariant
            index.wf(),
            r0 == order_view(old(resolved)@),
            index_version(m, name@) == Some(version.parts()),
            visit(m, index.entries().len() as int, path, name@, version.parts(), r0) == (match visit_deps(m, index.entries().len() as int, path1, name@, 0, r0) {
                Ok(d) => Ok(d.push((name@, version.parts()))),
                Err(f) => Err(f),
            }),
            visit_deps(m, index.entries().len() as int, path1, name@, 0, r0) == visit_deps(m, index.entries().len() as int, path1, name@, k as int, order_view(resolved@)),
            path == views_of(old(visited)@),
            !path.contains(name@),
            !listed(order_view(old(resolved)@), name@),
            m == index.map(),
            m.contains_key(name@),
            *entry == m[name@],
            deps == deps_of(m, name@),
            nd == deps.len(),
            k <= nd,
            views_of(visited@) == path1,
            path1 == path.push(name@),
            !has_repeat(path1),
            is_dep_path(m, path1),
            path1[0] == root,
            path1.len() <= index.entries().len(),
            index.entries().len() - path1.len() < index.entries().len() - path.len(),
            reachable(m, root, name@),
            install_order(m, root, order_view(resolved@)),
            is_prefix(r0, order_view(resolved@)),
            off_path(order_view(resolved@), path1),
            forall|kk: int| 0 <= kk < k ==> dep_satisfied(m, (#[trigger] deps[kk]).0, deps[kk].1)
                && listed(order_view(resolved@), deps[kk].0),
        decreases nd - k,
    {
        let dep_name = &entry.dependencies[k].0;
        let dep_constraint = &entry.dependencies[k].1;
        assert(deps[k as int] == (dep_name@, dep_constraint@));
        let normalized = normalize_constraint(dep_constraint.as_str());
        let req = match Constraint::parse(normalized.as_str()) {
            Some(q) => q,
            None => {
                assert(lists_dep(m, name@, dep_name@, dep_constraint@));
                let err = ResolveError::InvalidConstraint {
                    name: copy_str(name),
                    dependency: copy_str(dep_name.as_str()),
                    constraint: copy_str(dep_constraint.as_str()),
                };
                assert(visit_deps(m, index.entries().len() as int, path1, name@, k as int, order_view(resolved@)) == Err::<
                    Seq<(Seq<char>, (u64, u64, u64, Seq<char>, Seq<char>))>,
                    _,
                >(failure_of(err)));
                return Err(err);
            },
        };
        let candidate = match index.get(dep_name.as_str()) {
            Some(e) => match &e.version {
                Some(t) => PkgVersion::parse(t.as_str()),
                None => None,
            },
            None => None,
        };
        assert(match candidate {
            Some(v) => index_version(m, dep_name@) == Some(v.parts()),
            None => index_version(m, dep_name@) is None,
        });
        let best = match candidate {
            Some(v) => {
                if req.matches(&v) {
                    v
                } else {
                    assert(lists_dep(m, name@, dep_name@, dep_constraint@));
                    let err = ResolveError::Unsatisfied {
                        name: copy_str(name),
                        dependency: copy_str(dep_name.as_str()),
                        constraint: copy_str(dep_constraint.as_str()),
                    };
                    assert(visit_deps(m, index.entries().len() as int, path1, name@, k as int, order_view(resolved@)) == Err::<
                        Seq<(Seq<char>, (u64, u64, u64, Seq<char>, Seq<char>))>,
                        _,
                    >(failure_of(err)));
                    return Err(err);
                }
            },
            None => {
                assert(lists_dep(m, name@, dep_name@, dep_constraint@));
                let err = ResolveError::Unsatisfied {
                    name: copy_str(name),
                    dependency: copy_str(dep_name.as_str()),
                    constraint: copy_str(dep_constraint.as_str()),
                };
                assert(visit_deps(m, index.entries().len() as int, path1, name@, k as int, order_view(resolved@)) == Err::<
                    Seq<(Seq<char>, (u64, u64, u64, Seq<char>, Seq<char>))>,
                    _,
                >(failure_of(err)));
                return Err(err);
            },
        };
        assert(dep_satisfied(m, deps[k as int].0, deps[k as int].1));
        assert(depends_on(m, path1.last(), dep_name@)) by {
            assert(deps_of(m, name@)[k as int].0 == dep_name@);
        }
        let ghost before = order_view(resolved@);
        let ghost bp = best.parts();
        assert(index_version(m, dep_name@) == Some(bp));
        match resolve_rec(index, dep_name.as_str(), best, resolved, visited, Ghost(root), Ghost(rv)) {
            Ok(()) => {},
            Err(e) => {
                assert(visit_deps(m, index.entries().len() as int, path1, name@, k as int, before) == Err::<
                    Seq<(Seq<char>, (u64, u64, u64, Seq<char>, Seq<char>))>,
                    _,
                >(failure_of(e)));
                return Err(e);
            },
        }
        proof {
            let after = order_view(resolved@);
            assert(visit_deps(m, index.entries().len() as int, path1, name@, k as int, before) == visit_deps(
                m,
                index.entries().len() as int,
                path1,
                name@,
                k + 1,
                after,
            ));
            assert(is_prefix(r0, after)) by {
                assert(after.subrange(0, r0.len() as int) =~= before.subrange(0, r0.len() as int));
            }
            assert forall|kk: int| 0 <= kk < k + 1 implies dep_satisfied(m, (#[trigger] deps[kk]).0, deps[kk].1)
                && listed(after, deps[kk].0) by {
                if kk < k {
                    lemma_listed_prefix(before, after, deps[kk].0);
                }
            }
        }
        k = k + 1;
    }
    let ghost before = order_view(resolved@);
    assert(visit_deps(m, index.entries().len() as int, path1, name@, nd as int, before) == Ok::<
        _,
        (FailureKind, Seq<char>, Seq<char>, Seq<char>),
    >(before));
    assert(!listed(before, name@)) by {
        if listed(before, name@) {
            let j = choose|j: int| 0 <= j < before.len() && (#[trigger] before[j]).0 == name@;
            assert(path1[path1.len() - 1] == name@);
        }
    }
    let ghost entry_parts = version.parts();
    assert(entry_parts == version.parts());
    resolved.push((copy_str(name), version));
    let ghost after = order_view(resolved@);
    assert(after =~= before.push((name@, entry_parts)));
    proof {
        assert forall|kk: int| 0 <= kk < deps_of(m, name@).len() implies dep_satisfied(m, (#[trigger] deps_of(m, name@)[kk]).0, deps_of(m, name@)[kk].1) && listed(before, deps_of(m, name@)[kk].0) by {
            assert(deps[kk] == deps_of(m, name@)[kk]);
        }
        lemma_append_resolved(m, root, before, name@, entry_parts);
        assert(is_prefix(r0, after)) by {
            assert(after.subrange(0, r0.len() as int) =~= before.subrange(0, r0.len() as int));
        }
        assert(listed(after, name@)) by {
            assert(after[before.len() as int].0 == name@);
        }
    }
    let ghost vis_before = visited@;
    visited.pop();
    proof {
        assert(views_of(visited@) =~= views_of(vis_before).drop_last());
        assert(views_of(visited@) =~= path);
        assert forall|i: int| 0 <= i < after.len() implies !path.contains(#[trigger] after[i].0) by {
            if i < before.len() {
                assert(after[i] == before[i]);
                if path.contains(before[i].0) {
                    let j = choose|j: int| 0 <= j < path.len() && path[j] == before[i].0;
                    assert(path1[j] == path[j]);
                }
            } else {
                assert(after[i].0 == name@);
            }
        }
    }
    Ok(())
}

/// Resolves the dependencies of package `root_name` at version
/// `root_version` against `index`.  On success the result holds every package
/// reached from the root, each once, at the version the index offers, each
/// after all of its dependencies, and the root last: an order in which they
/// can be installed.  It fails exactly when the root cannot be resolved, and
/// the error names a package that shows why.
pub fn resolve_dependencies(index: &RepoIndex, root_name: &str, root_version: &str) -> (r: Result<Vec<(String, PkgVersion)>, ResolveError>)
    requires
        index.wf(),
    ensures
        r is Ok <==> (semver_version(root_version@) is Some && resolvable(
            index.map(),
            root_name@,
            semver_version(root_version@)->0,
        )),
        r matches Ok(res) ==> {
            &&& install_order(index.map(), root_name@, order_view(res@))
            &&& order_view(res@).len() > 0
            &&& order_view(res@).last() == (root_name@, semver_version(root_version@)->0)
            &&& forall|n: Seq<char>| reachable(index.map(), root_name@, n) <==> listed(order_view(res@), n)
        },
        r matches Err(e) ==> error_shows(index.map(), root_name@, semver_version(root_version@), e),
        semver_version(root_version@) is None ==> (r matches Err(ResolveError::InvalidVersion { text })
            && text@ == root_version@),
        match resolution(index.map(), index.entries().len() as int, root_name@, root_version@) {
            Ok(s) => r matches Ok(res) && order_view(res@) == s,
            Err(f) => r matches Err(e) && failure_of(e) == f,
        },
{
    let ghost m = index.map();
    let root_ver = match PkgVersion::parse(root_version) {
        Some(v) => v,
        None => {
            return Err(ResolveError::InvalidVersion { text: copy_str(root_version) });
        },
    };
    let ghost rv = root_ver.parts();
    let mut resolved: Vec<(String, PkgVersion)> = Vec::new();
    let mut visited: Vec<String> = Vec::new();
    assert(views_of(visited@) =~= Seq::<Seq<char>>::empty());
    assert(order_view(resolved@) =~= Seq::empty());
    match resolve_rec(index, root_name, root_ver, &mut resolved, &mut visited, Ghost(root_name@), Ghost(rv)) {
        Ok(()) => {
            proof {
                let s = order_view(resolved@);
                assert(!listed(Seq::<(Seq<char>, (u64, u64, u64, Seq<char>, Seq<char>))>::empty(), root_name@));
                assert(s.last() == (root_name@, rv));
                assert(index_version(m, s[s.len() - 1].0) == Some(s[s.len() - 1].1));
                lemma_order_complete(m, root_name@, rv, s);
                assert forall|n: Seq<char>| reachable(m, root_name@, n) <==> listed(s, n) by {
                    if listed(s, n) {
                        let j = choose|j: int| 0 <= j < s.len() && (#[trigger] s[j]).0 == n;
                        assert(reachable(m, root_name@, s[j].0));
                    }
                }
            }
            Ok(resolved)
        },
        Err(e) => {
            proof {
                lemma_error_not_resolvable(m, root_name@, Some(rv), e);
            }
            Err(e)
        },
    }
}

} // verus!
