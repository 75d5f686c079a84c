use vstd::prelude::*;

use crate::fileset::{FileSet, views_of};
use crate::order::{chars_lt, strictly_sorted};
use crate::keyed::{Keyed, distinct_keys, has_key, key_map, lemma_key_map_at, lemma_key_map_push, lemma_key_map_update, lemma_key_map_remove};
use crate::metadata::InstalledPkg;

verus! {

/// Files owned by some package other than `name`.
pub open spec fn files_of_others(db: Map<Seq<char>, InstalledPkg>, name: Seq<char>) -> Set<Seq<char>> {
    Set::new(
        |f: Seq<char>|
            exists|n: Seq<char>|
                n != name && #[trigger] db.contains_key(n) && db[n].files.set().contains(f),
    )
}

/// Files owned by package `name`, if it is installed.
pub open spec fn files_of(db: Map<Seq<char>, InstalledPkg>, name: Seq<char>) -> Set<Seq<char>> {
    if db.contains_key(name) {
        db[name].files.set()
    } else {
        Set::empty()
    }
}

/// The files of `files` that package `name` may not take over: those
/// owned by another package or present on disk, unless `name` owns them.
pub open spec fn conflicts_spec(
    db: Map<Seq<char>, InstalledPkg>,
    name: Seq<char>,
    files: Set<Seq<char>>,
    on_disk: Set<Seq<char>>,
) -> Set<Seq<char>> {
    files.intersect(files_of_others(db, name).union(on_disk)).difference(files_of(db, name))
}

/// Files of any record in `s`.
pub open spec fn files_of_entries(s: Seq<InstalledPkg>) -> Set<Seq<char>> {
    Set::new(|f: Seq<char>| exists|i: int| 0 <= i < s.len() && (#[trigger] s[i]).files.set().contains(f))
}

pub proof fn lemma_files_after_remove(s: Seq<InstalledPkg>, i: int)
    requires
        distinct_keys(s),
        0 <= i < s.len(),
    ensures
        files_of_entries(s.remove(i)) == files_of_others(key_map(s), s[i].name@),
{
    let t = s.remove(i);
    let name = s[i].name@;
    assert forall|f: Seq<char>| files_of_entries(t).contains(f) <==> files_of_others(key_map(s), name).contains(f) by {
        if files_of_entries(t).contains(f) {
            let k = choose|k: int| 0 <= k < t.len() && (#[trigger] t[k]).files.set().contains(f);
            let k2 = if k < i { k } else { k + 1 };
            assert(t[k] == s[k2]);
            lemma_key_map_at(s, k2);
            if k2 < i {
                assert(s[k2].key() != s[i].key());
            } else {
                assert(s[i].key() != s[k2].key());
            }
            assert(key_map(s).contains_key(s[k2].name@));
        }
        if files_of_others(key_map(s), name).contains(f) {
            let n = choose|n: Seq<char>| n != name && #[trigger] key_map(s).contains_key(n) && key_map(s)[n].files.set().contains(f);
            let k = choose|k: int| 0 <= k < s.len() && (#[trigger] s[k]).key() == n;
            lemma_key_map_at(s, k);
            if k < i {
                assert(t[k] == s[k]);
            } else {
                assert(k != i);
                assert(t[k - 1] == s[k]);
            }
        }
    }
    assert(files_of_entries(t) =~= files_of_others(key_map(s), name));
}

/// Files of any record in `s` whose name is not `name`.
pub open spec fn files_of_entries_except(s: Seq<InstalledPkg>, name: Seq<char>) -> Set<Seq<char>> {
    Set::new(
        |f: Seq<char>|
            exists|i: int|
                0 <= i < s.len() && (#[trigger] s[i]).name@ != name && s[i].files.set().contains(f),
    )
}

pub proof fn lemma_files_except(s: Seq<InstalledPkg>, name: Seq<char>)
    requires
        distinct_keys(s),
    ensures
        files_of_entries_except(s, name) == files_of_others(key_map(s), name),
{
    assert forall|f: Seq<char>| files_of_entries_except(s, name).contains(f) <==> files_of_others(key_map(s), name).contains(f) by {
        if files_of_entries_except(s, name).contains(f) {
            let k = choose|k: int| 0 <= k < s.len() && (#[trigger] s[k]).name@ != name && s[k].files.set().contains(f);
            lemma_key_map_at(s, k);
            assert(key_map(s).contains_key(s[k].name@));
        }
        if files_of_others(key_map(s), name).contains(f) {
            let n = choose|n: Seq<char>| n != name && #[trigger] key_map(s).contains_key(n) && key_map(s)[n].files.set().contains(f);
            let k = choose|k: int| 0 <= k < s.len() && (#[trigger] s[k]).name@ == n;
            lemma_key_map_at(s, k);
        }
    }
    assert(files_of_entries_except(s, name) =~= files_of_others(key_map(s), name));
}

/// The package database and the settings that apply to it.
pub struct PkgUtil {
    packages: Vec<InstalledPkg>,
    root: String,
    dry_run: bool,
}

impl PkgUtil {
    /// The root directory the database manages.
    pub closed spec fn root_spec(&self) -> Seq<char> {
        self.root@
    }

    /// Whether operations are only to be reported, not performed.
    pub closed spec fn dry_run_spec(&self) -> bool {
        self.dry_run
    }

    /// The root directory the database manages.
    pub fn root(&self) -> (r: &String)
        ensures
            r@ == self.root_spec(),
    {
        &self.root
    }

    /// Whether operations are only to be reported, not performed.
    pub fn dry_run(&self) -> (r: bool)
        ensures
            r == self.dry_run_spec(),
    {
        self.dry_run
    }

    /// The records, in the order in which they were first added.
    pub closed spec fn entries(&self) -> Seq<InstalledPkg> {
        self.packages@
    }

    /// The installed packages by name.
    pub open spec fn db(&self) -> Map<Seq<char>, InstalledPkg> {
        key_map(self.entries())
    }

    /// Well-formed: one record per name, each with an ordered file set.
    pub open spec fn wf(&self) -> bool {
        &&& distinct_keys(self.entries())
        &&& forall|i: int| 0 <= i < self.entries().len() ==> (#[trigger] self.entries()[i]).wf()
    }

    /// An empty database rooted at `root`, not in dry-run mode.
    pub fn new(root: String) -> (u: PkgUtil)
        ensures
            u.wf(),
            u.entries() == Seq::<InstalledPkg>::empty(),
            u.db() == Map::<Seq<char>, InstalledPkg>::empty(),
            u.root_spec() == root@,
            !u.dry_run_spec(),
    {
        let u = PkgUtil { packages: Vec::new(), root, dry_run: false };
        assert(u.db() =~= Map::<Seq<char>, InstalledPkg>::empty());
        u
    }

    /// Turns dry-run mode on or off.
    pub fn set_dry_run(&mut self, dry: bool)
        ensures
            final(self).dry_run_spec() == dry,
            final(self).root_spec() == old(self).root_spec(),
            final(self).entries() == old(self).entries(),
    {
        self.dry_run = dry;
    }

    /// The records, in the order in which they were first added.
    pub fn packages(&self) -> (p: &Vec<InstalledPkg>)
        ensures
            p@ == self.entries(),
    {
        &self.packages
    }

    /// Position of the record called `name`.
    fn position(&self, name: &str) -> (r: Option<usize>)
        requires
            self.wf(),
        ensures
            match r {
                Some(i) => i < self.entries().len() && self.entries()[i as int].name@ == name@,
                None => !has_key(self.entries(), name@),
            },
    {
        let n = self.packages.len();
        let mut i: usize = 0;
        while i < n
            invariant
                n == self.entries().len(),
                i <= n,
                forall|k: int| 0 <= k < i ==> (#[trigger] self.entries()[k]).name@ != name@,
            decreases n - i,
        {
            if crate::text::str_eq(self.packages[i].name.as_str(), name) {
                return Some(i);
            }
            i = i + 1;
        }
        None
    }

    /// Whether a package called `name` is installed.
    pub fn db_find_package(&self, name: &str) -> (found: bool)
        requires
            self.wf(),
        ensures
            found == self.db().contains_key(name@),
    {
        self.position(name).is_some()
    }

    /// The record of the package called `name`, if installed.
    pub fn db_get_package(&self, name: &str) -> (r: Option<&InstalledPkg>)
        requires
            self.wf(),
        ensures
            match r {
                Some(p) => self.db().contains_key(name@) && *p == self.db()[name@],
                None => !self.db().contains_key(name@),
            },
    {
        match self.position(name) {
            Some(i) => {
                proof {
                    lemma_key_map_at(self.entries(), i as int);
                }
                Some(&self.packages[i])
            },
            None => None,
        }
    }

    /// Records `pkg`, replacing any record of the same name.
    pub fn db_add_package(&mut self, pkg: InstalledPkg)
        requires
            old(self).wf(),
            pkg.wf(),
        ensures
            final(self).wf(),
            final(self).db() == old(self).db().insert(pkg.name@, pkg),
            final(self).root_spec() == old(self).root_spec(),
            final(self).dry_run_spec() == old(self).dry_run_spec(),
            has_key(old(self).entries(), pkg.name@) ==> exists|i: int|
                0 <= i < old(self).entries().len() && (#[trigger] old(self).entries()[i]).name@ == pkg.name@
                    && final(self).entries() == old(self).entries().update(i, pkg),
            !has_key(old(self).entries(), pkg.name@) ==> final(self).entries() == old(self).entries().push(pkg),
    {
        let ghost s = self.entries();
        let ghost p = pkg;
        match self.position(pkg.name.as_str()) {
            Some(i) => {
                proof {
                    lemma_key_map_update(s, i as int, p);
                }
                self.packages.set(i, pkg);
                assert(self.entries() == s.update(i as int, p));
            },
            None => {
                proof {
                    lemma_key_map_push(s, p);
                }
                self.packages.push(pkg);
                assert(self.entries() == s.push(p));
            },
        }
        assert forall|i: int| 0 <= i < self.entries().len() implies (#[trigger] self.entries()[i]).wf() by {
            if self.entries()[i] != p {
                assert(s.contains(self.entries()[i]));
            }
        }
    }

    /// Forgets the package called `name` and returns the files to delete from
    /// disk: those it owned that no other package owns, last path first (so
    /// that a directory comes after everything inside it).  Nothing is
    /// returned when no such package is installed.
    pub fn db_remove_package(&mut self, name: &str) -> (removed: Vec<String>)
        requires
            old(self).wf(),
        ensures
            final(self).wf(),
            final(self).db() == old(self).db().remove(name@),
            final(self).root_spec() == old(self).root_spec(),
            final(self).dry_run_spec() == old(self).dry_run_spec(),
            has_key(old(self).entries(), name@) ==> exists|i: int|
                0 <= i < old(self).entries().len() && (#[trigger] old(self).entries()[i]).name@ == name@
                    && final(self).entries() == old(self).entries().remove(i),
            !has_key(old(self).entries(), name@) ==> final(self).entries() == old(self).entries(),
            views_of(removed@).to_set() == files_of(old(self).db(), name@).difference(
                files_of_others(old(self).db(), name@),
            ),
            strictly_sorted(views_of(removed@).reverse()),
    {
        let ghost s = self.entries();
        match self.position(name) {
            None => {
                assert(!old(self).db().contains_key(name@));
                assert(self.db().remove(name@) =~= self.db());
                let v: Vec<String> = Vec::new();
                assert(views_of(v@) =~= Seq::<Seq<char>>::empty());
                assert(views_of(v@).to_set() =~= Set::<Seq<char>>::empty());
                assert(files_of(old(self).db(), name@) =~= Set::<Seq<char>>::empty());
                assert(files_of(old(self).db(), name@).difference(
                    files_of_others(old(self).db(), name@)) =~= Set::<Seq<char>>::empty());
                v
            },
            Some(i) => {
                proof {
                    lemma_key_map_remove(s, i as int);
                    lemma_files_after_remove(s, i as int);
                    lemma_key_map_at(s, i as int);
                }
                let pkg = self.packages.remove(i);
                assert(self.entries() == s.remove(i as int));
                let ghost rest = self.entries();
                assert(pkg == s[i as int]);
                assert(pkg.wf());
                let mut files = pkg.files;
                let n = self.packages.len();
                let mut k: usize = 0;
                assert(files.set() =~= pkg.files.set().difference(
                    files_of_entries(rest.subrange(0, 0))));
                while k < n
                    invariant
                        n == rest.len(),
                        rest == self.entries(),
                        k <= n,
                        files.wf(),
                        forall|j: int| 0 <= j < rest.len() ==> (#[trigger] rest[j]).wf(),
                        files.set() == pkg.files.set().difference(
                            files_of_entries(rest.subrange(0, k as int))),
                    decreases n - k,
                {
                    let ghost prev = files.set();
                    assert(rest[k as int].wf());
                    files = files.difference(&self.packages[k].files);
                    assert forall|f: Seq<char>| files_of_entries(rest.subrange(0, k + 1)).contains(f) <==> (
                        files_of_entries(rest.subrange(0, k as int)).contains(f) || rest[k as int].files.set().contains(f)) by {
                        let a = rest.subrange(0, k + 1);
                        let b = rest.subrange(0, k as int);
                        if files_of_entries(a).contains(f) {
                            let j = choose|j: int| 0 <= j < a.len() && (#[trigger] a[j]).files.set().contains(f);
                            if j < k {
                                assert(b[j] == a[j]);
                            }
                        }
                        if files_of_entries(b).contains(f) {
                            let j = choose|j: int| 0 <= j < b.len() && (#[trigger] b[j]).files.set().contains(f);
                            assert(a[j] == b[j]);
                        }
                        if rest[k as int].files.set().contains(f) {
                            assert(a[k as int] == rest[k as int]);
                        }
                    }
                    assert(files.set() =~= pkg.files.set().difference(
                        files_of_entries(rest.subrange(0, k + 1))));
                    k = k + 1;
                }
                assert(rest.subrange(0, n as int) =~= rest);
                let v = files.to_vec_descending();
                proof {
                    assert(views_of(v@).reverse() =~= files@);
                    assert(views_of(v@).to_set() =~= files.set()) by {
                        crate::fileset::lemma_reverse_same_set(files@);
                    }
                    assert(files_of(old(self).db(), name@) == pkg.files.set());
                }
                v
            },
        }
    }

    /// Records the installation of `pkg`: on an upgrade the old record of
    /// the same name is forgotten first, and the files to delete from disk
    /// are returned as `db_remove_package` returns them (nothing otherwise);
    /// then `pkg` is recorded.
    pub fn db_install_package(&mut self, pkg: InstalledPkg, upgrade: bool) -> (removed: Vec<String>)
        requires
            old(self).wf(),
            pkg.wf(),
        ensures
            final(self).wf(),
            final(self).db() == (if upgrade {
                old(self).db().remove(pkg.name@)
            } else {
                old(self).db()
            }).insert(pkg.name@, pkg),
            final(self).root_spec() == old(self).root_spec(),
            final(self).dry_run_spec() == old(self).dry_run_spec(),
            upgrade ==> views_of(removed@).to_set() == files_of(old(self).db(), pkg.name@).difference(
                files_of_others(old(self).db(), pkg.name@),
            ),
            upgrade ==> strictly_sorted(views_of(removed@).reverse()),
            !upgrade ==> removed@.len() == 0,
    {
        let removed = if upgrade {
            self.db_remove_package(pkg.name.as_str())
        } else {
            Vec::new()
        };
        self.db_add_package(pkg);
        removed
    }

    /// The files of `files` that package `name` may not take over: those
    /// owned by another installed package and those already present on disk
    /// (`on_disk` lists which of the paths exist), except files that `name`
    /// itself owns.
    pub fn db_find_conflicts(&self, name: &str, files: &FileSet, on_disk: &FileSet) -> (conflicts: FileSet)
        requires
            self.wf(),
            files.wf(),
            on_disk.wf(),
        ensures
            conflicts.wf(),
            conflicts.set() == conflicts_spec(self.db(), name@, files.set(), on_disk.set()),
    {
        let ghost s = self.entries();
        let mut conflicts = FileSet::new();
        let n = self.packages.len();
        let mut k: usize = 0;
        while k < n
            invariant
                n == s.len(),
                s == self.entries(),
                self.wf(),
                files.wf(),
                k <= n,
                conflicts.wf(),
                conflicts.set() == files.set().intersect(
                    files_of_entries_except(s.subrange(0, k as int), name@)),
            decreases n - k,
        {
            let ghost prev = conflicts.set();
            let entry = &self.packages[k];
            assert(s[k as int].wf());
            let same = crate::text::str_eq(entry.name.as_str(), name);
            if !same {
                let shared = files.intersection(&entry.files);
                conflicts.extend(&shared);
            }
            assert forall|f: Seq<char>| files_of_entries_except(s.subrange(0, k + 1), name@).contains(f) <==> (
                files_of_entries_except(s.subrange(0, k as int), name@).contains(f) || (s[k as int].name@ != name@ && s[k as int].files.set().contains(f))) by {
                let a = s.subrange(0, k + 1);
                let b = s.subrange(0, k as int);
                if files_of_entries_except(a, name@).contains(f) {
                    let j = choose|j: int| 0 <= j < a.len() && (#[trigger] a[j]).name@ != name@ && a[j].files.set().contains(f);
                    if j < k {
                        assert(b[j] == a[j]);
                    }
                }
                if files_of_entries_except(b, name@).contains(f) {
                    let j = choose|j: int| 0 <= j < b.len() && (#[trigger] b[j]).name@ != name@ && b[j].files.set().contains(f);
                    assert(a[j] == b[j]);
                }
                if s[k as int].name@ != name@ && s[k as int].files.set().contains(f) {
                    assert(a[k as int] == s[k as int]);
                }
            }
            assert(conflicts.set() =~= files.set().intersect(
                files_of_entries_except(s.subrange(0, k + 1), name@)));
            k = k + 1;
        }
        assert(s.subrange(0, n as int) =~= s);
        proof {
            lemma_files_except(s, name@);
        }
        let present = files.intersection(on_disk);
        conflicts.extend(&present);
        let ghost before_own = conflicts.set();
        match self.db_get_package(name) {
            Some(owned) => {
                assert(owned.wf()) by {
                    let i = choose|i: int| 0 <= i < s.len() && (#[trigger] s[i]).name@ == name@;
                    lemma_key_map_at(s, i);
                }
                conflicts = conflicts.difference(&owned.files);
            },
            None => {
                assert(before_own.difference(files_of(self.db(), name@)) =~= before_own);
            },
        }
        assert(conflicts.set() =~= files.set().intersect(
            files_of_others(self.db(), name@).union(on_disk.set()),
        ).difference(files_of(self.db(), name@)));
        conflicts
    }
}

/// A recorded package is found by its name, with the record as added.
pub proof fn law_add_then_find(db: Map<Seq<char>, InstalledPkg>, pkg: InstalledPkg)
    ensures
        db.insert(pkg.name@, pkg).contains_key(pkg.name@),
        db.insert(pkg.name@, pkg)[pkg.name@] == pkg,
        forall|n: Seq<char>| n != pkg.name@ ==> (db.insert(pkg.name@, pkg).contains_key(n) == db.contains_key(n)),
{
}

/// A removed package is no longer found; the others stay as they were.
pub proof fn law_remove_then_absent(db: Map<Seq<char>, InstalledPkg>, name: Seq<char>)
    ensures
        !db.remove(name).contains_key(name),
        forall|n: Seq<char>| n != name && db.contains_key(n) ==> db.remove(name).contains_key(n) && db.remove(name)[n] == db[n],
{
}

/// Removing a package that was just added to a database without it gives
/// back the database as it was.
pub proof fn law_add_then_remove(db: Map<Seq<char>, InstalledPkg>, pkg: InstalledPkg)
    requires
        !db.contains_key(pkg.name@),
    ensures
        db.insert(pkg.name@, pkg).remove(pkg.name@) == db,
{
    assert(db.insert(pkg.name@, pkg).remove(pkg.name@) =~= db);
}

/// Removal never deletes a file that another installed package owns, and it
/// deletes every file that only the removed package owned.
pub proof fn law_removal_keeps_shared_files(db: Map<Seq<char>, InstalledPkg>, name: Seq<char>, f: Seq<char>)
    ensures
        files_of(db, name).difference(files_of_others(db, name)).contains(f) <==> (
            db.contains_key(name) && db[name].files.set().contains(f) && forall|n: Seq<char>|
                n != name && #[trigger] db.contains_key(n) ==> !db[n].files.set().contains(f)),
{
}

/// Conflicts are files of the package being installed, never files it
/// already owns; every file of it that another package owns, or that is on
/// disk, is a conflict unless the package owns it.
pub proof fn law_conflicts(
    db: Map<Seq<char>, InstalledPkg>,
    name: Seq<char>,
    files: Set<Seq<char>>,
    on_disk: Set<Seq<char>>,
    f: Seq<char>,
)
    ensures
        conflicts_spec(db, name, files, on_disk).contains(f) ==> files.contains(f) && !files_of(db, name).contains(f),
        files.contains(f) && !files_of(db, name).contains(f) && (on_disk.contains(f) || exists|n: Seq<char>|
            n != name && #[trigger] db.contains_key(n) && db[n].files.set().contains(f))
            ==> conflicts_spec(db, name, files, on_disk).contains(f),
{
}

pub proof fn lemma_proper_prefix_lt(a: Seq<char>, b: Seq<char>)
    requires
        crate::text::starts_with_spec(b, a),
        a != b,
    ensures
        chars_lt(a, b),
    decreases a.len(),
{
    if a.len() == 0 {
        assert(b.len() > 0) by {
            if b.len() == 0 {
                assert(a =~= b);
            }
        }
    } else {
        assert(b.subrange(0, a.len() as int)[0] == b[0]);
        assert(b.len() >= 1);
        assert(a.drop_first() != b.drop_first()) by {
            if a.drop_first() == b.drop_first() {
                assert(a.drop_first().len() == b.drop_first().len());
                assert(a.len() == b.len());
                assert(a =~= b) by {
                    assert forall|k: int| 0 <= k < a.len() implies a[k] == b[k] by {
                        if k > 0 {
                            assert(a.drop_first()[k - 1] == b.drop_first()[k - 1]);
                        } else {
                            assert(b.subrange(0, a.len() as int)[0] == b[0]);
                        }
                    }
                }
            }
        }
        assert(b.drop_first().subrange(0, a.drop_first().len() as int) =~= a.drop_first()) by {
            assert forall|k: int| 0 <= k < a.len() - 1 implies b.drop_first()[k] == a.drop_first()[k] by {
                assert(b.subrange(0, a.len() as int)[k + 1] == a[k + 1]);
            }
        }
        lemma_proper_prefix_lt(a.drop_first(), b.drop_first());
    }
}

/// In the order in which removal deletes files (descending), anything whose
/// path extends another path, such as a file inside a directory, comes
/// before that path.
pub proof fn law_removal_order(s: Seq<Seq<char>>, i: int, j: int)
    requires
        strictly_sorted(s.reverse()),
        0 <= i < s.len(),
        0 <= j < s.len(),
        crate::text::starts_with_spec(s[j], s[i]),
        s[i] != s[j],
    ensures
        j < i,
{
    lemma_proper_prefix_lt(s[i], s[j]);
    let r = s.reverse();
    let n = s.len() as int;
    assert(r[n - 1 - i] == s[i]);
    assert(r[n - 1 - j] == s[j]);
    if j > i {
        assert(chars_lt(r[n - 1 - j], r[n - 1 - i]));
        crate::order::lemma_lt_asymmetric(s[i], s[j]);
    }
}

} // verus!
