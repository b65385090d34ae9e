//! Association lists: sequences of key/value pairs read as finite maps.

use vstd::prelude::*;

verus! {

/// The map that a sequence of pairs describes; a later pair overrides an
/// earlier one with the same key.
pub open spec fn assoc_map<K, V>(s: Seq<(K, V)>) -> Map<K, V>
    decreases s.len(),
{
    if s.len() == 0 {
        Map::empty()
    } else {
        assoc_map(s.drop_last()).insert(s.last().0, s.last().1)
    }
}

/// No key occurs twice.
pub open spec fn keys_unique<K, V>(s: Seq<(K, V)>) -> bool {
    forall|i: int, j: int| 0 <= i < s.len() && 0 <= j < s.len() && i != j ==> s[i].0 != s[j].0
}

/// Whether `k` occurs as a key.
pub open spec fn has_key<K, V>(s: Seq<(K, V)>, k: K) -> bool {
    exists|i: int| 0 <= i < s.len() && s[i].0 == k
}

/// The map's domain is the set of keys that occur, and it is finite.
pub proof fn lemma_assoc_dom<K, V>(s: Seq<(K, V)>)
    ensures
        forall|k: K| #[trigger] assoc_map(s).contains_key(k) <==> has_key(s, k),
        assoc_map(s).dom().finite(),
    decreases s.len(),
{
    if s.len() > 0 {
        let t = s.drop_last();
        lemma_assoc_dom(t);
        assert forall|k: K| #[trigger] assoc_map(s).contains_key(k) <==> has_key(s, k) by {
            if has_key(s, k) && k != s.last().0 {
                let i = choose|i: int| 0 <= i < s.len() && s[i].0 == k;
                assert(t[i].0 == k);
            }
            if has_key(t, k) {
                let i = choose|i: int| 0 <= i < t.len() && t[i].0 == k;
                assert(s[i].0 == k);
            }
            if k == s.last().0 {
                assert(s[s.len() - 1].0 == k);
            }
        }
    }
}

/// A key that occurs is mapped to the value paired with it.
pub proof fn lemma_assoc_index<K, V>(s: Seq<(K, V)>, i: int)
    requires
        keys_unique(s),
        0 <= i < s.len(),
    ensures
        assoc_map(s).contains_key(s[i].0),
        assoc_map(s)[s[i].0] == s[i].1,
    decreases s.len(),
{
    if i < s.len() - 1 {
        let t = s.drop_last();
        assert(keys_unique(t));
        lemma_assoc_index(t, i);
        assert(s[i].0 != s[s.len() - 1].0);
    }
}

/// Replacing the value at a position is inserting that key with the new value.
pub proof fn lemma_assoc_update<K, V>(s: Seq<(K, V)>, i: int, v: V)
    requires
        keys_unique(s),
        0 <= i < s.len(),
    ensures
        keys_unique(s.update(i, (s[i].0, v))),
        assoc_map(s.update(i, (s[i].0, v))) =~= assoc_map(s).insert(s[i].0, v),
    decreases s.len(),
{
    let u = s.update(i, (s[i].0, v));
    assert(keys_unique(u)) by {
        assert forall|a: int, b: int| 0 <= a < u.len() && 0 <= b < u.len() && a != b implies u[a].0 != u[b].0 by {
            assert(u[a].0 == s[a].0);
            assert(u[b].0 == s[b].0);
        }
    }
    if i == s.len() - 1 {
        assert(u.drop_last() =~= s.drop_last());
    } else {
        let t = s.drop_last();
        assert(keys_unique(t));
        lemma_assoc_update(t, i, v);
        assert(u.drop_last() =~= t.update(i, (t[i].0, v)));
        assert(s[i].0 != s.last().0);
    }
}

/// Appending a pair whose key does not occur yet inserts it.
pub proof fn lemma_assoc_push<K, V>(s: Seq<(K, V)>, k: K, v: V)
    requires
        keys_unique(s),
        !has_key(s, k),
    ensures
        keys_unique(s.push((k, v))),
        assoc_map(s.push((k, v))) == assoc_map(s).insert(k, v),
{
    let u = s.push((k, v));
    assert(u.drop_last() =~= s);
    assert forall|a: int, b: int| 0 <= a < u.len() && 0 <= b < u.len() && a != b implies u[a].0 != u[b].0 by {
        if a == s.len() {
            assert(s[b].0 == u[b].0);
        } else if b == s.len() {
            assert(s[a].0 == u[a].0);
        }
    }
}

/// Removing the pair at a position removes its key.
pub proof fn lemma_assoc_remove<K, V>(s: Seq<(K, V)>, i: int)
    requires
        keys_unique(s),
        0 <= i < s.len(),
    ensures
        keys_unique(s.remove(i)),
        assoc_map(s.remove(i)) =~= assoc_map(s).remove(s[i].0),
    decreases s.len(),
{
    let u = s.remove(i);
    assert(keys_unique(u)) by {
        assert forall|a: int, b: int| 0 <= a < u.len() && 0 <= b < u.len() && a != b implies u[a].0 != u[b].0 by {
            let sa = if a < i { a } else { a + 1 };
            let sb = if b < i { b } else { b + 1 };
            assert(u[a] == s[sa]);
            assert(u[b] == s[sb]);
        }
    }
    if i == s.len() - 1 {
        assert(u =~= s.drop_last());
        lemma_assoc_dom(u);
        assert(!has_key(u, s[i].0)) by {
            if has_key(u, s[i].0) {
                let j = choose|j: int| 0 <= j < u.len() && u[j].0 == s[i].0;
                assert(u[j] == s[j]);
            }
        }
    } else {
        let t = s.drop_last();
        assert(keys_unique(t));
        lemma_assoc_remove(t, i);
        assert(u.drop_last() =~= t.remove(i));
        assert(s[i].0 != s.last().0);
    }
}

/// With unique keys, the map has as many entries as the sequence.
pub proof fn lemma_assoc_len<K, V>(s: Seq<(K, V)>)
    requires
        keys_unique(s),
    ensures
        assoc_map(s).len() == s.len(),
    decreases s.len(),
{
    if s.len() > 0 {
        let t = s.drop_last();
        assert(keys_unique(t));
        lemma_assoc_len(t);
        lemma_assoc_dom(t);
        assert(!has_key(t, s.last().0)) by {
            if has_key(t, s.last().0) {
                let j = choose|j: int| 0 <= j < t.len() && t[j].0 == s.last().0;
                assert(s[j].0 == s[s.len() - 1].0);
            }
        }
    }
}

} // verus!

verus! {

/// The position of the pair whose key is `key`, if there is one.
pub fn find_key<V>(v: &Vec<(String, V)>, key: &str) -> (r: Option<usize>)
    ensures
        match r {
            Some(i) => i < v.len() && v@[i as int].0@ == key@,
            None => forall|i: int| 0 <= i < v.len() ==> v@[i].0@ != key@,
        },
{
    let k = key.to_string();
    let mut i: usize = 0;
    while i < v.len()
        invariant
            i <= v.len(),
            k@ == key@,
            forall|j: int| 0 <= j < i ==> v@[j].0@ != key@,
        decreases v.len() - i,
    {
        if v[i].0 == k {
            return Some(i);
        }
        i = i + 1;
    }
    None
}

} // verus!
