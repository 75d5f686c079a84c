use vstd::prelude::*;

verus! {

/// Items identified by a name.
pub trait Keyed {
    /// The name that identifies the item.
    spec fn key(&self) -> Seq<char>;
}

/// Whether no two items share a key.
pub open spec fn distinct_keys<T: Keyed>(s: Seq<T>) -> bool {
    forall|i: int, j: int| 0 <= i < j < s.len() ==> (#[trigger] s[i]).key() != (#[trigger] s[j]).key()
}

/// Whether some item has key `name`.
pub open spec fn has_key<T: Keyed>(s: Seq<T>, name: Seq<char>) -> bool {
    exists|i: int| 0 <= i < s.len() && (#[trigger] s[i]).key() == name
}

/// The items as a map from key to item.
pub open spec fn key_map<T: Keyed>(s: Seq<T>) -> Map<Seq<char>, T> {
    Map::new(
        |n: Seq<char>| has_key(s, n),
        |n: Seq<char>| s[choose|i: int| 0 <= i < s.len() && (#[trigger] s[i]).key() == n],
    )
}

pub proof fn lemma_key_map_at<T: Keyed>(s: Seq<T>, i: int)
    requires
        distinct_keys(s),
        0 <= i < s.len(),
    ensures
        key_map(s).contains_key(s[i].key()),
        key_map(s)[s[i].key()] == s[i],
{
    let n = s[i].key();
    assert(has_key(s, n));
    let j = choose|j: int| 0 <= j < s.len() && (#[trigger] s[j]).key() == n;
    if j != i {
        if j < i {
            assert(s[j].key() != s[i].key());
        } else {
            assert(s[i].key() != s[j].key());
        }
    }
}

pub proof fn lemma_key_map_push<T: Keyed>(s: Seq<T>, p: T)
    requires
        distinct_keys(s),
        !has_key(s, p.key()),
    ensures
        distinct_keys(s.push(p)),
        key_map(s.push(p)) == key_map(s).insert(p.key(), p),
{
    let t = s.push(p);
    assert forall|i: int, j: int| 0 <= i < j < t.len() implies (#[trigger] t[i]).key() != (#[trigger] t[j]).key() by {
        if j == s.len() {
            assert(t[i] == s[i]);
        } else {
            assert(t[i] == s[i] && t[j] == s[j]);
        }
    }
    assert forall|n: Seq<char>| has_key(t, n) <==> (has_key(s, n) || n == p.key()) by {
        if has_key(t, n) && n != p.key() {
            let i = choose|i: int| 0 <= i < t.len() && (#[trigger] t[i]).key() == n;
            assert(s[i] == t[i]);
        }
        if has_key(s, n) {
            let i = choose|i: int| 0 <= i < s.len() && (#[trigger] s[i]).key() == n;
            assert(t[i] == s[i]);
        }
        if n == p.key() {
            assert(t[s.len() as int] == p);
        }
    }
    assert forall|n: Seq<char>| #[trigger] key_map(t).contains_key(n) implies key_map(t)[n] == key_map(s).insert(p.key(), p)[n] by {
        let i = choose|i: int| 0 <= i < t.len() && (#[trigger] t[i]).key() == n;
        lemma_key_map_at(t, i);
        if i < s.len() {
            assert(t[i] == s[i]);
            lemma_key_map_at(s, i);
        }
    }
    assert(key_map(t) =~= key_map(s).insert(p.key(), p));
}

pub proof fn lemma_key_map_update<T: Keyed>(s: Seq<T>, i: int, p: T)
    requires
        distinct_keys(s),
        0 <= i < s.len(),
        s[i].key() == p.key(),
    ensures
        distinct_keys(s.update(i, p)),
        key_map(s.update(i, p)) == key_map(s).insert(p.key(), p),
{
    let t = s.update(i, p);
    assert forall|a: int, b: int| 0 <= a < b < t.len() implies (#[trigger] t[a]).key() != (#[trigger] t[b]).key() by {
        assert(t[a].key() == s[a].key());
        assert(t[b].key() == s[b].key());
    }
    assert forall|n: Seq<char>| has_key(t, n) <==> has_key(s, n) by {
        if has_key(t, n) {
            let k = choose|k: int| 0 <= k < t.len() && (#[trigger] t[k]).key() == n;
            assert(s[k].key() == t[k].key());
        }
        if has_key(s, n) {
            let k = choose|k: int| 0 <= k < s.len() && (#[trigger] s[k]).key() == n;
            assert(s[k].key() == t[k].key());
        }
    }
    assert forall|n: Seq<char>| #[trigger] key_map(t).contains_key(n) implies key_map(t)[n] == key_map(s).insert(p.key(), p)[n] by {
        let k = choose|k: int| 0 <= k < t.len() && (#[trigger] t[k]).key() == n;
        lemma_key_map_at(t, k);
        if k != i {
            assert(t[k] == s[k]);
            lemma_key_map_at(s, k);
        }
    }
    assert(key_map(s).insert(p.key(), p).dom() =~= key_map(s).dom()) by {
        lemma_key_map_at(s, i);
    }
    assert(key_map(t) =~= key_map(s).insert(p.key(), p));
}

pub proof fn lemma_key_map_remove<T: Keyed>(s: Seq<T>, i: int)
    requires
        distinct_keys(s),
        0 <= i < s.len(),
    ensures
        distinct_keys(s.remove(i)),
        key_map(s.remove(i)) == key_map(s).remove(s[i].key()),
{
    let t = s.remove(i);
    let name = s[i].key();
    assert forall|a: int, b: int| 0 <= a < b < t.len() implies (#[trigger] t[a]).key() != (#[trigger] t[b]).key() by {
        let a2 = if a < i { a } else { a + 1 };
        let b2 = if b < i { b } else { b + 1 };
        assert(t[a] == s[a2] && t[b] == s[b2]);
    }
    assert forall|n: Seq<char>| has_key(t, n) <==> (has_key(s, n) && n != name) by {
        if has_key(t, n) {
            let k = choose|k: int| 0 <= k < t.len() && (#[trigger] t[k]).key() == n;
            let k2 = if k < i { k } else { k + 1 };
            assert(t[k] == s[k2]);
            if k2 < i {
                assert(s[k2].key() != s[i].key());
            } else {
                assert(s[i].key() != s[k2].key());
            }
        }
        if has_key(s, n) && n != name {
            let k = choose|k: int| 0 <= k < s.len() && (#[trigger] s[k]).key() == n;
            if k < i {
                assert(t[k] == s[k]);
            } else {
                assert(t[k - 1] == s[k]);
            }
        }
    }
    assert forall|n: Seq<char>| #[trigger] key_map(t).contains_key(n) implies key_map(t)[n] == key_map(s)[n] by {
        let k = choose|k: int| 0 <= k < t.len() && (#[trigger] t[k]).key() == n;
        let k2 = if k < i { k } else { k + 1 };
        assert(t[k] == s[k2]);
        lemma_key_map_at(t, k);
        lemma_key_map_at(s, k2);
    }
    assert(key_map(t) =~= key_map(s).remove(name));
}


} // verus!
