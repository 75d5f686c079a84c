use vstd::prelude::*;

use crate::keyed::{Keyed, distinct_keys, has_key, key_map, lemma_key_map_at, lemma_key_map_push, lemma_key_map_update};

verus! {

/// One package as a repository index describes it.  A field the index does
/// not give (or gives as something other than text) is `None`.
#[derive(Debug)]
pub struct IndexEntry {
    pub name: String,
    pub version: Option<String>,
    pub url: Option<String>,
    pub checksum: Option<String>,
    pub description: Option<String>,
    /// Dependencies: package name and version constraint, in index order.
    pub dependencies: Vec<(String, String)>,
}

impl Keyed for IndexEntry {
    open spec fn key(&self) -> Seq<char> {
        self.name@
    }
}

/// The combined index of all configured repositories: at most one entry
/// per package name.
#[derive(Debug)]
pub struct RepoIndex {
    entries: Vec<IndexEntry>,
}

/// The index that results from adding `s` to `m` in order, a later entry
/// replacing an earlier one of the same name.
pub open spec fn insert_all(m: Map<Seq<char>, IndexEntry>, s: Seq<IndexEntry>) -> Map<Seq<char>, IndexEntry>
    decreases s.len(),
{
    if s.len() == 0 {
        m
    } else {
        insert_all(m, s.drop_last()).insert(s.last().name@, s.last())
    }
}

impl RepoIndex {
    /// The entries, in the order in which their names were first added.
    pub closed spec fn entries(&self) -> Seq<IndexEntry> {
        self.entries@
    }

    /// The entries by package name.
    pub open spec fn map(&self) -> Map<Seq<char>, IndexEntry> {
        key_map(self.entries())
    }

    /// Well-formed: one entry per name.
    pub open spec fn wf(&self) -> bool {
        distinct_keys(self.entries())
    }

    /// An empty index.
    pub fn new() -> (r: RepoIndex)
        ensures
            r.wf(),
            r.entries() == Seq::<IndexEntry>::empty(),
            r.map() == Map::<Seq<char>, IndexEntry>::empty(),
    {
        let r = RepoIndex { entries: Vec::new() };
        assert(r.map() =~= Map::<Seq<char>, IndexEntry>::empty());
        r
    }

    /// Number of entries.
    pub fn len(&self) -> (n: usize)
        ensures
            n == self.entries().len(),
    {
        self.entries.len()
    }

    /// The entries, in order.
    pub fn entry_list(&self) -> (v: &Vec<IndexEntry>)
        ensures
            v@ == self.entries(),
    {
        &self.entries
    }

    /// Position of the entry called `name`.
    fn position(&self, name: &str) -> (r: Option<usize>)
        ensures
            match r {
                Some(i) => i < self.entries().len() && self.entries()[i as int].name@ == name@,
                None => !has_key(self.entries(), name@),
            },
    {
        let n = self.entries.len();
        let mut i: usize = 0;
        while i < n
            invariant
                n == self.entries().len(),
                i <= n,
                forall|k: int| 0 <= k < i ==> (#[trigger] self.entries()[k]).name@ != name@,
            decreases n - i,
        {
            if crate::text::str_eq(self.entries[i].name.as_str(), name) {
                return Some(i);
            }
            i = i + 1;
        }
        None
    }

    /// The entry called `name`, if any.
    pub fn get(&self, name: &str) -> (r: Option<&IndexEntry>)
        requires
            self.wf(),
        ensures
            match r {
                Some(e) => self.map().contains_key(name@) && *e == self.map()[name@],
                None => !self.map().contains_key(name@),
            },
    {
        match self.position(name) {
            Some(i) => {
                proof {
                    lemma_key_map_at(self.entries(), i as int);
                }
                Some(&self.entries[i])
            },
            None => None,
        }
    }

    /// Adds `entry`, replacing any entry of the same name.
    pub fn insert(&mut self, entry: IndexEntry)
        requires
            old(self).wf(),
        ensures
            final(self).wf(),
            final(self).map() == old(self).map().insert(entry.name@, entry),
            has_key(old(self).entries(), entry.name@) ==> exists|i: int|
                0 <= i < old(self).entries().len() && (#[trigger] old(self).entries()[i]).name@ == entry.name@
                    && final(self).entries() == old(self).entries().update(i, entry),
            !has_key(old(self).entries(), entry.name@) ==> final(self).entries() == old(self).entries().push(entry),
    {
        let ghost s = self.entries();
        let ghost e = entry;
        match self.position(entry.name.as_str()) {
            Some(i) => {
                proof {
                    lemma_key_map_update(s, i as int, e);
                }
                self.entries.set(i, entry);
                assert(self.entries() == s.update(i as int, e));
            },
            None => {
                proof {
                    lemma_key_map_push(s, e);
                }
                self.entries.push(entry);
                assert(self.entries() == s.push(e));
            },
        }
    }

    /// Adds the entries of one repository's index in order, a later entry
    /// replacing an earlier one of the same name; returns how many entries
    /// were read.
    pub fn merge(&mut self, entries: Vec<IndexEntry>) -> (count: usize)
        requires
            old(self).wf(),
        ensures
            final(self).wf(),
            final(self).map() == insert_all(old(self).map(), entries@),
            count == entries@.len(),
    {
        let ghost start = self.map();
        let ghost all = entries@;
        let count = entries.len();
        let mut rest = entries;
        assert(all.subrange(0, 0) =~= Seq::<IndexEntry>::empty());
        assert(rest@ =~= all.subrange(0, all.len() as int));
        while rest.len() > 0
            invariant
                count == all.len(),
                rest@.len() <= count,
                rest@ == all.subrange(count - rest@.len(), count as int),
                self.wf(),
                self.map() == insert_all(start, all.subrange(0, count - rest@.len())),
            decreases rest@.len(),
        {
            let k: usize = count - rest.len();
            let e = rest.remove(0);
            assert(e == all[k as int]);
            self.insert(e);
            assert(all.subrange(0, k + 1).drop_last() =~= all.subrange(0, k as int));
            assert(rest@ =~= all.subrange(count - rest@.len(), count as int));
        }
        assert(all.subrange(0, count as int) =~= all);
        count
    }
}


/// Adding entries in order keeps what was there under other names and lets
/// the last entry of each name win: a name is present afterwards exactly
/// when it was before or some entry carries it, and an entry that no later
/// entry overrides is what its name maps to.
pub proof fn law_insert_all_last_wins(m: Map<Seq<char>, IndexEntry>, s: Seq<IndexEntry>)
    ensures
        forall|n: Seq<char>|
            #[trigger] insert_all(m, s).contains_key(n) <==> (m.contains_key(n) || exists|i: int|
                0 <= i < s.len() && s[i].name@ == n),
        forall|i: int|
            0 <= i < s.len() && (forall|j: int| i < j < s.len() ==> s[j].name@ != s[i].name@) ==> #[trigger] insert_all(
                m,
                s,
            )[s[i].name@] == s[i],
        forall|n: Seq<char>|
            m.contains_key(n) && (forall|j: int| 0 <= j < s.len() ==> s[j].name@ != n) ==> #[trigger] insert_all(m, s)[n]
                == m[n],
    decreases s.len(),
{
    if s.len() > 0 {
        let d = s.drop_last();
        law_insert_all_last_wins(m, d);
        let l = s.last();
        assert(insert_all(m, s) == insert_all(m, d).insert(l.name@, l));
        assert forall|n: Seq<char>|
            #[trigger] insert_all(m, s).contains_key(n) <==> (m.contains_key(n) || exists|i: int|
                0 <= i < s.len() && s[i].name@ == n) by {
            assert(insert_all(m, d).contains_key(n) <==> (m.contains_key(n) || exists|i: int|
                0 <= i < d.len() && d[i].name@ == n));
            if n == l.name@ {
                assert(s[s.len() - 1].name@ == n);
            }
            if exists|i: int| 0 <= i < s.len() && s[i].name@ == n {
                let i = choose|i: int| 0 <= i < s.len() && s[i].name@ == n;
                if i < s.len() - 1 {
                    assert(d[i] == s[i]);
                }
            }
            if exists|i: int| 0 <= i < d.len() && d[i].name@ == n {
                let i = choose|i: int| 0 <= i < d.len() && d[i].name@ == n;
                assert(s[i] == d[i]);
            }
        }
        assert forall|i: int|
            0 <= i < s.len() && (forall|j: int| i < j < s.len() ==> s[j].name@ != s[i].name@) implies #[trigger] insert_all(
                m,
                s,
            )[s[i].name@] == s[i] by {
            if i < s.len() - 1 {
                assert(d[i] == s[i]);
                assert(insert_all(m, d)[d[i].name@] == d[i]) by {
                    assert forall|j: int| i < j < d.len() implies d[j].name@ != d[i].name@ by {
                        assert(d[j] == s[j]);
                    }
                }
                assert(s.last().name@ != s[i].name@) by {
                    assert(s[s.len() - 1] == s.last());
                }
            }
        }
        assert forall|n: Seq<char>|
            m.contains_key(n) && (forall|j: int| 0 <= j < s.len() ==> s[j].name@ != n) implies #[trigger] insert_all(m, s)[n]
                == m[n] by {
            assert(s[s.len() - 1].name@ != n);
            assert forall|j: int| 0 <= j < d.len() implies d[j].name@ != n by {
                assert(d[j] == s[j]);
            }
        }
    }
}

} // verus!
