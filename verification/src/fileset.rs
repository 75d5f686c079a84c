use vstd::prelude::*;

use crate::order::{chars_lt, compare_chars, strictly_sorted, lemma_lt_irreflexive};
use crate::text::chars_of;

verus! {

/// The views of a sequence of strings.
pub open spec fn views_of(items: Seq<String>) -> Seq<Seq<char>> {
    items.map_values(|s: String| s@)
}

pub proof fn lemma_push_contains<A>(s: Seq<A>, a: A, x: A)
    ensures
        s.push(a).contains(x) <==> (s.contains(x) || x == a),
{
    if s.push(a).contains(x) && x != a {
        let k = choose|k: int| 0 <= k < s.len() + 1 && #[trigger] s.push(a)[k] == x;
        assert(s[k] == x);
    }
    if s.contains(x) {
        let k = choose|k: int| 0 <= k < s.len() && #[trigger] s[k] == x;
        assert(s.push(a)[k] == x);
    }
    if x == a {
        assert(s.push(a)[s.len() as int] == x);
    }
}

pub proof fn lemma_reverse_same_set<A>(s: Seq<A>)
    ensures
        s.reverse().to_set() == s.to_set(),
{
    assert forall|x: A| s.reverse().contains(x) <==> s.contains(x) by {
        if s.reverse().contains(x) {
            let k = choose|k: int| 0 <= k < s.len() && #[trigger] s.reverse()[k] == x;
            assert(s[s.len() - 1 - k] == x);
        }
        if s.contains(x) {
            let k = choose|k: int| 0 <= k < s.len() && #[trigger] s[k] == x;
            assert(s.reverse()[s.len() - 1 - k] == x);
        }
    }
    assert(s.reverse().to_set() =~= s.to_set());
}

/// An ordered set of paths: every path at most once, in ascending
/// lexicographic order (the order in which `BTreeSet<String>` keeps them).
#[derive(Debug)]
pub struct FileSet {
    items: Vec<String>,
}

impl View for FileSet {
    type V = Seq<Seq<char>>;

    /// The paths, in ascending order.
    closed spec fn view(&self) -> Seq<Seq<char>> {
        views_of(self.items@)
    }
}

impl FileSet {
    /// Well-formed: the paths are in strictly ascending order, so none repeats.
    pub open spec fn wf(&self) -> bool {
        strictly_sorted(self@)
    }

    /// The paths as a set.
    pub open spec fn set(self) -> Set<Seq<char>> {
        self@.to_set()
    }

    /// The empty set.
    pub fn new() -> (s: FileSet)
        ensures
            s@ == Seq::<Seq<char>>::empty(),
            s.wf(),
    {
        let s = FileSet { items: Vec::new() };
        assert(views_of(s.items@) =~= Seq::<Seq<char>>::empty());
        s
    }

    /// Number of paths.
    pub fn len(&self) -> (n: usize)
        ensures
            n == self@.len(),
    {
        self.items.len()
    }

    /// The `i`-th path in ascending order.
    pub fn get(&self, i: usize) -> (p: &String)
        requires
            i < self@.len(),
        ensures
            p@ == self@[i as int],
    {
        &self.items[i]
    }

    /// Where `key` stands among the paths: the number of paths before it, and
    /// whether it is present at that position.
    fn locate(&self, key: &Vec<char>) -> (r: (bool, usize))
        requires
            self.wf(),
        ensures
            r.1 <= self@.len(),
            forall|i: int| 0 <= i < r.1 ==> chars_lt(#[trigger] self@[i], key@),
            r.0 ==> r.1 < self@.len() && self@[r.1 as int] == key@,
            !r.0 ==> forall|i: int| r.1 <= i < self@.len() ==> chars_lt(key@, #[trigger] self@[i]),
            r.0 ==> forall|i: int| r.1 < i < self@.len() ==> chars_lt(key@, #[trigger] self@[i]),
    {
        let ghost v = self@;
        let mut lo: usize = 0;
        let mut hi: usize = self.items.len();
        while lo < hi
            invariant
                v == self@,
                v == views_of(self.items@),
                strictly_sorted(v),
                lo <= hi <= v.len(),
                forall|i: int| 0 <= i < lo ==> chars_lt(#[trigger] v[i], key@),
                forall|i: int| hi <= i < v.len() ==> chars_lt(key@, #[trigger] v[i]),
            decreases hi - lo,
        {
            let mid = lo + (hi - lo) / 2;
            let m = chars_of(self.items[mid].as_str());
            assert(m@ == v[mid as int]);
            let c = compare_chars(&m, key);
            if c == 0 {
                assert forall|i: int| mid < i < v.len() implies chars_lt(key@, #[trigger] v[i]) by {
                    assert(chars_lt(v[mid as int], v[i]));
                }
                return (true, mid);
            } else if c < 0 {
                assert forall|i: int| 0 <= i < mid + 1 implies chars_lt(#[trigger] v[i], key@) by {
                    if i < mid {
                        assert(chars_lt(v[i], v[mid as int]));
                        crate::order::lemma_lt_transitive(v[i], v[mid as int], key@);
                    }
                }
                lo = mid + 1;
            } else {
                assert forall|i: int| mid <= i < v.len() implies chars_lt(key@, #[trigger] v[i]) by {
                    if i > mid {
                        assert(chars_lt(v[mid as int], v[i]));
                        crate::order::lemma_lt_transitive(key@, v[mid as int], v[i]);
                    }
                }
                hi = mid;
            }
        }
        (false, lo)
    }

    /// Whether `path` is in the set.
    pub fn contains(&self, path: &str) -> (r: bool)
        requires
            self.wf(),
        ensures
            r == self@.contains(path@),
    {
        let key = chars_of(path);
        let (found, pos) = self.locate(&key);
        if !found {
            assert forall|i: int| 0 <= i < self@.len() implies self@[i] != path@ by {
                if i >= pos {
                    assert(chars_lt(key@, self@[i]));
                } else {
                    assert(chars_lt(self@[i], key@));
                }
                lemma_lt_irreflexive(key@);
            }
        }
        found
    }

    /// Adds `path`; returns whether it was new.
    pub fn insert(&mut self, path: String) -> (added: bool)
        requires
            old(self).wf(),
        ensures
            final(self).wf(),
            added == !old(self)@.contains(path@),
            final(self).set() == old(self).set().insert(path@),
    {
        let key = chars_of(path.as_str());
        let (found, pos) = self.locate(&key);
        if found {
            proof {
                assert(self@.to_set().insert(path@) =~= self@.to_set());
            }
            return false;
        }
        let ghost old_items = self.items@;
        let ghost old_v = self@;
        assert forall|i: int| 0 <= i < old_v.len() implies old_v[i] != path@ by {
            if i >= pos {
                assert(chars_lt(key@, old_v[i]));
            } else {
                assert(chars_lt(old_v[i], key@));
            }
            lemma_lt_irreflexive(key@);
        }
        let mut items: Vec<String> = Vec::new();
        std::mem::swap(&mut items, &mut self.items);
        items.insert(pos, path);
        let ghost nv = views_of(items@);
        assert(nv =~= old_v.insert(pos as int, key@));
        assert forall|i: int, j: int| 0 <= i < j < nv.len() implies chars_lt(
            #[trigger] nv[i],
            #[trigger] nv[j],
        ) by {
            if j < pos {
            } else if j == pos {
            } else if i < pos {
                assert(nv[j] == old_v[j - 1]);
                crate::order::lemma_lt_transitive(nv[i], key@, nv[j]);
            } else if i == pos {
                assert(nv[j] == old_v[j - 1]);
            } else {
                assert(nv[i] == old_v[i - 1]);
                assert(nv[j] == old_v[j - 1]);
            }
        }
        self.items = items;
        proof {
            assert(self@ == old_v.insert(pos as int, key@));
            assert(self@.to_set() =~= old_v.to_set().insert(path@)) by {
                assert forall|x: Seq<char>| self@.to_set().contains(x) implies old_v.to_set().insert(path@).contains(x) by {
                    let k = choose|k: int| 0 <= k < self@.len() && self@[k] == x;
                    if k < pos {
                        assert(old_v[k] == x);
                    } else if k > pos {
                        assert(old_v[k - 1] == x);
                    }
                }
                assert forall|x: Seq<char>| old_v.to_set().insert(path@).contains(x) implies self@.to_set().contains(x) by {
                    if x == path@ {
                        assert(self@[pos as int] == x);
                    } else {
                        let k = choose|k: int| 0 <= k < old_v.len() && old_v[k] == x;
                        if k < pos {
                            assert(self@[k] == x);
                        } else {
                            assert(self@[k + 1] == x);
                        }
                    }
                }
            }
        }
        true
    }

    /// Appends a path that comes after every path already present.
    fn push_back(&mut self, path: String)
        requires
            old(self).wf(),
            forall|i: int| 0 <= i < old(self)@.len() ==> chars_lt(#[trigger] old(self)@[i], path@),
        ensures
            final(self).wf(),
            final(self)@ == old(self)@.push(path@),
    {
        let ghost old_v = self@;
        self.items.push(path);
        assert(self@ =~= old_v.push(path@));
    }

    /// Removes `path`; returns whether it was present.
    pub fn remove(&mut self, path: &str) -> (removed: bool)
        requires
            old(self).wf(),
        ensures
            final(self).wf(),
            removed == old(self)@.contains(path@),
            final(self).set() == old(self).set().remove(path@),
    {
        let key = chars_of(path);
        let (found, pos) = self.locate(&key);
        let ghost old_v = self@;
        if !found {
            assert forall|i: int| 0 <= i < old_v.len() implies old_v[i] != path@ by {
                if i >= pos {
                    assert(chars_lt(key@, old_v[i]));
                } else {
                    assert(chars_lt(old_v[i], key@));
                }
                lemma_lt_irreflexive(key@);
            }
            assert(old_v.to_set().remove(path@) =~= old_v.to_set());
            return false;
        }
        let mut items: Vec<String> = Vec::new();
        std::mem::swap(&mut items, &mut self.items);
        let _ = items.remove(pos);
        self.items = items;
        assert(self@ =~= old_v.remove(pos as int));
        proof {
            assert forall|i: int| 0 <= i < old_v.len() && i != pos implies old_v[i] != path@ by {
                if i > pos {
                    assert(chars_lt(key@, old_v[i]));
                } else {
                    assert(chars_lt(old_v[i], key@));
                }
                lemma_lt_irreflexive(key@);
            }
            assert forall|x: Seq<char>| self@.to_set().contains(x) <==> old_v.to_set().remove(path@).contains(x) by {
                if self@.to_set().contains(x) {
                    let k = choose|k: int| 0 <= k < self@.len() && self@[k] == x;
                    if k < pos {
                        assert(old_v[k] == x);
                    } else {
                        assert(old_v[k + 1] == x);
                    }
                }
                if old_v.to_set().remove(path@).contains(x) {
                    let k = choose|k: int| 0 <= k < old_v.len() && old_v[k] == x;
                    if k < pos {
                        assert(self@[k] == x);
                    } else {
                        assert(self@[k - 1] == x);
                    }
                }
            }
            assert(self@.to_set() =~= old_v.to_set().remove(path@));
        }
        true
    }

    /// The paths of `self` whose presence in `other` is `keep`, in ascending order.
    fn select(&self, other: &FileSet, keep: bool) -> (r: FileSet)
        requires
            self.wf(),
            other.wf(),
        ensures
            r.wf(),
            forall|x: Seq<char>| r@.contains(x) <==> (self@.contains(x) && other@.contains(x) == keep),
    {
        let mut r = FileSet::new();
        let n = self.items.len();
        let mut i: usize = 0;
        while i < n
            invariant
                n == self@.len(),
                i <= n,
                self.wf(),
                other.wf(),
                r.wf(),
                forall|x: Seq<char>| r@.contains(x) <==> (
                    self@.subrange(0, i as int).contains(x) && other@.contains(x) == keep),
                forall|k: int, j: int| 0 <= k < r@.len() && i <= j < n ==> chars_lt(#[trigger] r@[k], #[trigger] self@[j]),
            decreases n - i,
        {
            let p = &self.items[i];
            let present = other.contains(p.as_str());
            let ghost before = r@;
            let ghost x_i = self@[i as int];
            assert(p@ == x_i);
            if present == keep {
                let q = p.clone();
                r.push_back(q);
                assert(r@ == before.push(x_i));
            }
            assert(self@.subrange(0, i + 1) =~= self@.subrange(0, i as int).push(x_i));
            let ghost pre = self@.subrange(0, i as int);
            assert(!before.contains(x_i)) by {
                if before.contains(x_i) {
                    let k = choose|k: int| 0 <= k < before.len() && #[trigger] before[k] == x_i;
                    assert(chars_lt(before[k], self@[i as int]));
                    lemma_lt_irreflexive(x_i);
                }
            }
            assert forall|x: Seq<char>| r@.contains(x) <==> (
                self@.subrange(0, i + 1).contains(x) && other@.contains(x) == keep) by {
                assert(self@.subrange(0, i + 1) =~= pre.push(x_i));
                lemma_push_contains(pre, x_i, x);
                lemma_push_contains(before, x_i, x);
                assert(before.contains(x) <==> (pre.contains(x) && other@.contains(x) == keep));
            }
            assert forall|k: int, j: int| 0 <= k < r@.len() && i + 1 <= j < n implies chars_lt(#[trigger] r@[k], #[trigger] self@[j]) by {
                if k < before.len() {
                    assert(r@[k] == before[k]);
                } else {
                    assert(r@[k] == x_i);
                }
            }
            i = i + 1;
        }
        assert(self@.subrange(0, n as int) =~= self@);
        r
    }

    /// The paths of `self` that are not in `other`, in ascending order.
    pub fn difference(&self, other: &FileSet) -> (r: FileSet)
        requires
            self.wf(),
            other.wf(),
        ensures
            r.wf(),
            r.set() == self.set().difference(other.set()),
    {
        let r = self.select(other, false);
        assert(r.set() =~= self.set().difference(other.set()));
        r
    }

    /// The paths that are in both `self` and `other`, in ascending order.
    pub fn intersection(&self, other: &FileSet) -> (r: FileSet)
        requires
            self.wf(),
            other.wf(),
        ensures
            r.wf(),
            r.set() == self.set().intersect(other.set()),
    {
        let r = self.select(other, true);
        assert(r.set() =~= self.set().intersect(other.set()));
        r
    }

    /// Adds every path of `other`.
    pub fn extend(&mut self, other: &FileSet)
        requires
            old(self).wf(),
            other.wf(),
        ensures
            final(self).wf(),
            final(self).set() == old(self).set().union(other.set()),
    {
        let ghost start = self.set();
        let n = other.items.len();
        let mut i: usize = 0;
        while i < n
            invariant
                n == other@.len(),
                i <= n,
                self.wf(),
                self.set() == start.union(other@.subrange(0, i as int).to_set()),
            decreases n - i,
        {
            let ghost prev = self.set();
            let p = other.items[i].clone();
            assert(p@ == other@[i as int]);
            self.insert(p);
            assert(other@.subrange(0, i + 1).to_set() =~= other@.subrange(0, i as int).to_set().insert(other@[i as int])) by {
                assert(other@.subrange(0, i + 1) =~= other@.subrange(0, i as int).push(other@[i as int]));
                assert forall|x: Seq<char>| other@.subrange(0, i + 1).to_set().contains(x) <==> other@.subrange(0, i as int).to_set().insert(other@[i as int]).contains(x) by {
                    assert(other@.subrange(0, i + 1).contains(x) <==> other@.subrange(0, i as int).push(other@[i as int]).contains(x));
                    lemma_push_contains(other@.subrange(0, i as int), other@[i as int], x);
                }
                assert forall|x: Seq<char>| other@.subrange(0, i as int).push(other@[i as int]).contains(x) <==> (other@.subrange(0, i as int).contains(x) || x == other@[i as int]) by {
                    lemma_push_contains(other@.subrange(0, i as int), other@[i as int], x);
                }
            }
            assert(self.set() =~= start.union(other@.subrange(0, i + 1).to_set()));
            i = i + 1;
        }
        assert(other@.subrange(0, n as int) =~= other@);
    }

    /// Builds the set of the given paths.
    pub fn from_vec(paths: Vec<String>) -> (r: FileSet)
        ensures
            r.wf(),
            r.set() == views_of(paths@).to_set(),
    {
        let mut r = FileSet::new();
        let n = paths.len();
        let mut i: usize = 0;
        while i < n
            invariant
                n == paths@.len(),
                i <= n,
                r.wf(),
                r.set() == views_of(paths@).subrange(0, i as int).to_set(),
            decreases n - i,
        {
            let ghost vs = views_of(paths@);
            let ghost prev = r.set();
            let p = paths[i].clone();
            assert(p@ == vs[i as int]);
            r.insert(p);
            assert(r.set() == prev.insert(vs[i as int]));
            assert(vs.subrange(0, i + 1) =~= vs.subrange(0, i as int).push(vs[i as int]));
            assert forall|x: Seq<char>| r.set().contains(x) <==> vs.subrange(0, i + 1).contains(x) by {
                lemma_push_contains(vs.subrange(0, i as int), vs[i as int], x);
            }
            assert(r.set() =~= vs.subrange(0, i + 1).to_set());
            i = i + 1;
        }
        assert(views_of(paths@).subrange(0, n as int) =~= views_of(paths@));
        r
    }

    /// The paths in ascending order.
    pub fn to_vec(&self) -> (v: Vec<String>)
        ensures
            views_of(v@) == self@,
    {
        let mut v: Vec<String> = Vec::new();
        let n = self.items.len();
        let mut i: usize = 0;
        while i < n
            invariant
                n == self@.len(),
                i <= n,
                views_of(v@) == self@.subrange(0, i as int),
            decreases n - i,
        {
            let c = self.items[i].clone();
            let ghost old_v = v@;
            v.push(c);
            assert(views_of(v@) =~= views_of(old_v).push(c@));
            assert(views_of(v@) =~= self@.subrange(0, i + 1));
            i = i + 1;
        }
        assert(self@.subrange(0, n as int) =~= self@);
        v
    }

    /// The paths in descending order.
    pub fn to_vec_descending(&self) -> (v: Vec<String>)
        ensures
            views_of(v@) == self@.reverse(),
    {
        let mut v: Vec<String> = Vec::new();
        let n = self.items.len();
        let mut i: usize = n;
        while i > 0
            invariant
                n == self@.len(),
                i <= n,
                views_of(v@) == self@.subrange(i as int, n as int).reverse(),
            decreases i,
        {
            let c = self.items[i - 1].clone();
            let ghost old_v = v@;
            v.push(c);
            assert(views_of(v@) =~= views_of(old_v).push(c@));
            assert(views_of(v@) =~= self@.subrange(i - 1, n as int).reverse());
            i = i - 1;
        }
        assert(self@.subrange(0, n as int) =~= self@);
        v
    }

    /// A copy of the set.
    pub fn duplicate(&self) -> (r: FileSet)
        ensures
            r@ == self@,
    {
        FileSet { items: self.to_vec() }
    }
}

} // verus!
