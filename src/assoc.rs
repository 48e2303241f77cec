//! Association lists keyed by strings, viewed as maps.
//!
//! The field store keeps its entries in vectors of `(key, value)` pairs
//! with no key repeated; these definitions give such a vector its meaning
//! as a map from the key's characters to the value's view.
use vstd::prelude::*;

verus! {

/// Some entry of `s` has key `k`.
pub open spec fn has_key<V>(s: Seq<(String, V)>, k: Seq<char>) -> bool {
    exists|i: int| 0 <= i < s.len() && (#[trigger] s[i]).0@ == k
}

/// No key occurs twice in `s`.
pub open spec fn keys_unique<V>(s: Seq<(String, V)>) -> bool {
    forall|i: int, j: int|
        0 <= i < s.len() && 0 <= j < s.len() && i != j ==> (#[trigger] s[i]).0@ != (#[trigger] s[j]).0@
}

/// The map that the entries of `s` stand for.
pub open spec fn assoc_view<V: View>(s: Seq<(String, V)>) -> Map<Seq<char>, V::V> {
    Map::new(
        |k: Seq<char>| has_key(s, k),
        |k: Seq<char>| s[choose|i: int| 0 <= i < s.len() && (#[trigger] s[i]).0@ == k].1@,
    )
}

/// Each entry of a duplicate-free list is found in its map.
pub proof fn lemma_view_at<V: View>(s: Seq<(String, V)>, j: int)
    requires
        keys_unique(s),
        0 <= j < s.len(),
    ensures
        assoc_view(s).contains_key(s[j].0@),
        assoc_view(s)[s[j].0@] == s[j].1@,
{
    let k = s[j].0@;
    assert(has_key(s, k));
    let i = choose|i: int| 0 <= i < s.len() && (#[trigger] s[i]).0@ == k;
    assert(i == j);
}

/// A duplicate-free list stands for `m` when each of its entries is in `m`
/// and each key of `m` has an entry.
pub proof fn lemma_view_char<V: View>(s: Seq<(String, V)>, m: Map<Seq<char>, V::V>)
    requires
        keys_unique(s),
        forall|i: int| 0 <= i < s.len() ==> m.contains_key((#[trigger] s[i]).0@) && m[s[i].0@] == s[i].1@,
        forall|k: Seq<char>| m.contains_key(k) ==> has_key(s, k),
    ensures
        assoc_view(s) == m,
{
    assert forall|k: Seq<char>| #[trigger] assoc_view(s).contains_key(k) implies m.contains_key(k)
        && assoc_view(s)[k] == m[k] by {
        let i = choose|i: int| 0 <= i < s.len() && (#[trigger] s[i]).0@ == k;
        lemma_view_at(s, i);
    }
    assert(assoc_view(s) =~= m);
}

/// The empty list stands for the empty map.
pub proof fn lemma_view_empty<V: View>(s: Seq<(String, V)>)
    requires
        s.len() == 0,
    ensures
        keys_unique(s),
        assoc_view(s) == Map::<Seq<char>, V::V>::empty(),
{
    assert(assoc_view(s) =~= Map::<Seq<char>, V::V>::empty());
}

/// Appending an entry with a new key adds that key to the map.
pub proof fn lemma_view_push<V: View>(s: Seq<(String, V)>, e: (String, V))
    requires
        keys_unique(s),
        !has_key(s, e.0@),
    ensures
        keys_unique(s.push(e)),
        assoc_view(s.push(e)) == assoc_view(s).insert(e.0@, e.1@),
{
    let t = s.push(e);
    assert forall|i: int, j: int|
        0 <= i < t.len() && 0 <= j < t.len() && i != j implies (#[trigger] t[i]).0@ != (#[trigger] t[j]).0@ by {
        if i < s.len() && j < s.len() {
            assert(t[i] == s[i] && t[j] == s[j]);
        } else if i < s.len() {
            assert(t[i] == s[i]);
        } else {
            assert(t[j] == s[j]);
        }
    }
    let m = assoc_view(s).insert(e.0@, e.1@);
    assert forall|i: int| 0 <= i < t.len() implies m.contains_key((#[trigger] t[i]).0@) && m[t[i].0@]
        == t[i].1@ by {
        if i < s.len() {
            assert(t[i] == s[i]);
            lemma_view_at(s, i);
        }
    }
    assert forall|k: Seq<char>| m.contains_key(k) implies has_key(t, k) by {
        if k == e.0@ {
            assert(t[s.len() as int] == e);
        } else {
            let i = choose|i: int| 0 <= i < s.len() && (#[trigger] s[i]).0@ == k;
            assert(t[i] == s[i]);
        }
    }
    lemma_view_char(t, m);
}

/// Replacing the value of an entry replaces the value of its key.
pub proof fn lemma_view_update<V: View>(s: Seq<(String, V)>, j: int, e: (String, V))
    requires
        keys_unique(s),
        0 <= j < s.len(),
        e.0@ == s[j].0@,
    ensures
        keys_unique(s.update(j, e)),
        assoc_view(s.update(j, e)) == assoc_view(s).insert(e.0@, e.1@),
{
    let t = s.update(j, e);
    assert forall|i: int, l: int|
        0 <= i < t.len() && 0 <= l < t.len() && i != l implies (#[trigger] t[i]).0@ != (#[trigger] t[l]).0@ by {
        assert(t[i].0@ == s[i].0@ && t[l].0@ == s[l].0@);
    }
    let m = assoc_view(s).insert(e.0@, e.1@);
    assert forall|i: int| 0 <= i < t.len() implies m.contains_key((#[trigger] t[i]).0@) && m[t[i].0@]
        == t[i].1@ by {
        if i != j {
            lemma_view_at(s, i);
        }
    }
    assert forall|k: Seq<char>| m.contains_key(k) implies has_key(t, k) by {
        if k == e.0@ {
            assert(t[j] == e);
        } else {
            let i = choose|i: int| 0 <= i < s.len() && (#[trigger] s[i]).0@ == k;
            assert(t[i] == s[i]);
        }
    }
    lemma_view_char(t, m);
}

/// Removing an entry removes its key.
pub proof fn lemma_view_remove<V: View>(s: Seq<(String, V)>, j: int)
    requires
        keys_unique(s),
        0 <= j < s.len(),
    ensures
        keys_unique(s.remove(j)),
        assoc_view(s.remove(j)) == assoc_view(s).remove(s[j].0@),
{
    let t = s.remove(j);
    assert forall|i: int| 0 <= i < t.len() implies #[trigger] t[i] == (if i < j {
        s[i]
    } else {
        s[i + 1]
    }) by {}
    assert forall|i: int, l: int|
        0 <= i < t.len() && 0 <= l < t.len() && i != l implies (#[trigger] t[i]).0@ != (#[trigger] t[l]).0@ by {
        let a = if i < j { i } else { i + 1 };
        let b = if l < j { l } else { l + 1 };
        assert(t[i] == s[a] && t[l] == s[b]);
    }
    let m = assoc_view(s).remove(s[j].0@);
    assert forall|i: int| 0 <= i < t.len() implies m.contains_key((#[trigger] t[i]).0@) && m[t[i].0@]
        == t[i].1@ by {
        let a = if i < j { i } else { i + 1 };
        assert(t[i] == s[a]);
        lemma_view_at(s, a);
    }
    assert forall|k: Seq<char>| m.contains_key(k) implies has_key(t, k) by {
        let a = choose|i: int| 0 <= i < s.len() && (#[trigger] s[i]).0@ == k;
        assert(a != j);
        let i = if a < j { a } else { a - 1 };
        assert(t[i] == s[a]);
    }
    lemma_view_char(t, m);
}

/// A duplicate-free list has as many keys as entries.
pub proof fn lemma_assoc_len<V: View>(s: Seq<(String, V)>)
    requires
        keys_unique(s),
    ensures
        assoc_view(s).dom().finite(),
        assoc_view(s).dom().len() == s.len(),
    decreases s.len(),
{
    if s.len() == 0 {
        lemma_view_empty(s);
    } else {
        let t = s.drop_last();
        let e = s.last();
        assert(keys_unique(t)) by {
            assert forall|i: int, j: int|
                0 <= i < t.len() && 0 <= j < t.len() && i != j implies (#[trigger] t[i]).0@
                != (#[trigger] t[j]).0@ by {
                assert(t[i] == s[i] && t[j] == s[j]);
            }
        }
        assert(!has_key(t, e.0@)) by {
            if has_key(t, e.0@) {
                let i = choose|i: int| 0 <= i < t.len() && (#[trigger] t[i]).0@ == e.0@;
                assert(t[i] == s[i]);
            }
        }
        lemma_assoc_len(t);
        lemma_view_push(t, e);
        assert(t.push(e) =~= s);
    }
}

/// The position of the entry with key `k`, if there is one.
pub fn find_key<V>(v: &Vec<(String, V)>, k: &String) -> (r: Option<usize>)
    ensures
        match r {
            Some(i) => i < v@.len() && v@[i as int].0@ == k@,
            None => !has_key(v@, k@),
        },
{
    let mut i: usize = 0;
    while i < v.len()
        invariant
            0 <= i <= v@.len(),
            forall|j: int| 0 <= j < i ==> (#[trigger] v@[j]).0@ != k@,
        decreases v@.len() - i,
    {
        if v[i].0 == *k {
            return Some(i);
        }
        i = i + 1;
    }
    None
}

} // verus!
