//! Association lists with unique keys.
//!
//! The manager stores each of its tables as a `Vec` of key/value pairs so
//! that insertion order stays observable and deterministic.  The spec
//! functions here give such a list its mathematical reading: a `Map` from
//! keys to values, plus the key sequence in insertion order.

use vstd::prelude::*;

use crate::ids::WebViewId;

verus! {

/// The keys of an association list, in order.
pub open spec fn keys_of<K, V>(s: Seq<(K, V)>) -> Seq<K> {
    s.map_values(|p: (K, V)| p.0)
}

/// No key occurs twice.
pub open spec fn uniq_keys<K, V>(s: Seq<(K, V)>) -> bool {
    forall|i: int, j: int| 0 <= i < j < s.len() ==> (#[trigger] s[i]).0 != (#[trigger] s[j]).0
}

/// Some entry carries this key.
pub open spec fn has_key<K, V>(s: Seq<(K, V)>, k: K) -> bool {
    exists|i: int| 0 <= i < s.len() && (#[trigger] s[i]).0 == k
}

/// The position of the entry carrying this key (meaningful when the key
/// occurs, unambiguous when keys are unique).
pub open spec fn key_index<K, V>(s: Seq<(K, V)>, k: K) -> int {
    choose|i: int| 0 <= i < s.len() && (#[trigger] s[i]).0 == k
}

/// The value stored under this key.
pub open spec fn value_of<K, V>(s: Seq<(K, V)>, k: K) -> V {
    s[key_index(s, k)].1
}

/// The map an association list denotes.
pub open spec fn as_map<K, V>(s: Seq<(K, V)>) -> Map<K, V> {
    Map::new(|k: K| has_key(s, k), |k: K| value_of(s, k))
}

/// With unique keys, an entry's position determines `key_index` and
/// `value_of` for its key.
pub proof fn lemma_entry_determines<K, V>(s: Seq<(K, V)>, i: int)
    requires
        uniq_keys(s),
        0 <= i < s.len(),
    ensures
        has_key(s, s[i].0),
        key_index(s, s[i].0) == i,
        value_of(s, s[i].0) == s[i].1,
        as_map(s)[s[i].0] == s[i].1,
{
    assert(has_key(s, s[i].0));
    let j = key_index(s, s[i].0);
    assert(0 <= j < s.len() && s[j].0 == s[i].0);
    if i < j {
        assert(s[i].0 != s[j].0);
    } else if j < i {
        assert(s[j].0 != s[i].0);
    }
}

/// A key occurs exactly when it stands in the key sequence.
pub proof fn lemma_has_key_in_keys<K, V>(s: Seq<(K, V)>, k: K)
    ensures
        has_key(s, k) <==> keys_of(s).contains(k),
{
    if has_key(s, k) {
        let i = choose|i: int| 0 <= i < s.len() && (#[trigger] s[i]).0 == k;
        assert(keys_of(s)[i] == k);
    }
    if keys_of(s).contains(k) {
        let i = choose|i: int| 0 <= i < keys_of(s).len() && keys_of(s)[i] == k;
        assert(s[i].0 == k);
    }
}

/// Appending a fresh key extends the map by that binding and keeps the
/// keys unique.
pub proof fn lemma_push<K, V>(s: Seq<(K, V)>, k: K, v: V)
    requires
        uniq_keys(s),
        !has_key(s, k),
    ensures
        uniq_keys(s.push((k, v))),
        keys_of(s.push((k, v))) == keys_of(s).push(k),
        as_map(s.push((k, v))) == as_map(s).insert(k, v),
{
    let t = s.push((k, v));
    assert forall|i: int, j: int| 0 <= i < j < t.len() implies (#[trigger] t[i]).0 != (#[trigger] t[j]).0 by {
        if j < s.len() {
            assert(s[i] == t[i] && s[j] == t[j]);
        } else {
            assert(t[j].0 == k);
            assert(t[i] == s[i]);
            assert(has_key(s, s[i].0));
        }
    }
    assert(keys_of(t) =~= keys_of(s).push(k));
    assert forall|k2: K| #[trigger] has_key(t, k2) implies as_map(t)[k2] == as_map(s).insert(k, v)[k2] && as_map(s).insert(k, v).contains_key(k2) by {
        let i = choose|i: int| 0 <= i < t.len() && (#[trigger] t[i]).0 == k2;
        lemma_entry_determines(t, i);
        if i < s.len() {
            assert(s[i] == t[i]);
            lemma_entry_determines(s, i);
        }
    }
    assert forall|k2: K| #[trigger] as_map(s).insert(k, v).contains_key(k2) implies has_key(t, k2) by {
        if k2 == k {
            assert(t[s.len() as int].0 == k);
        } else {
            let i = choose|i: int| 0 <= i < s.len() && (#[trigger] s[i]).0 == k2;
            assert(t[i].0 == k2);
        }
    }
    assert(as_map(t) =~= as_map(s).insert(k, v));
}

/// Removing the entry at a key's position removes that binding and keeps
/// the keys unique.
pub proof fn lemma_remove<K, V>(s: Seq<(K, V)>, i: int)
    requires
        uniq_keys(s),
        0 <= i < s.len(),
    ensures
        uniq_keys(s.remove(i)),
        keys_of(s.remove(i)) == keys_of(s).remove(i),
        as_map(s.remove(i)) == as_map(s).remove(s[i].0),
{
    let t = s.remove(i);
    assert forall|a: int, b: int| 0 <= a < b < t.len() implies (#[trigger] t[a]).0 != (#[trigger] t[b]).0 by {
        let a0: int = if a < i { a } else { a + 1 };
        let b0: int = if b < i { b } else { b + 1 };
        assert(t[a] == s[a0] && t[b] == s[b0]);
    }
    assert(keys_of(t) =~= keys_of(s).remove(i));
    assert forall|k2: K| #[trigger] has_key(t, k2) implies as_map(s).remove(s[i].0).contains_key(k2) && as_map(t)[k2] == as_map(s).remove(s[i].0)[k2] by {
        let a = choose|a: int| 0 <= a < t.len() && (#[trigger] t[a]).0 == k2;
        let a0: int = if a < i { a } else { a + 1 };
        assert(t[a] == s[a0]);
        lemma_entry_determines(t, a);
        lemma_entry_determines(s, a0);
        lemma_entry_determines(s, i);
    }
    assert forall|k2: K| #[trigger] as_map(s).remove(s[i].0).contains_key(k2) implies has_key(t, k2) by {
        let a = choose|a: int| 0 <= a < s.len() && (#[trigger] s[a]).0 == k2;
        assert(a != i);
        if a < i {
            assert(t[a].0 == k2);
        } else {
            assert(t[a - 1] == s[a]);
        }
    }
    assert(as_map(t) =~= as_map(s).remove(s[i].0));
}

/// Replacing the value at a key's position rewrites that binding alone.
pub proof fn lemma_update<K, V>(s: Seq<(K, V)>, i: int, v: V)
    requires
        uniq_keys(s),
        0 <= i < s.len(),
    ensures
        uniq_keys(s.update(i, (s[i].0, v))),
        keys_of(s.update(i, (s[i].0, v))) == keys_of(s),
        as_map(s.update(i, (s[i].0, v))) == as_map(s).insert(s[i].0, v),
{
    let t = s.update(i, (s[i].0, v));
    assert forall|a: int, b: int| 0 <= a < b < t.len() implies (#[trigger] t[a]).0 != (#[trigger] t[b]).0 by {
        assert(t[a].0 == s[a].0 && t[b].0 == s[b].0);
    }
    assert(keys_of(t) =~= keys_of(s));
    assert forall|k2: K| #[trigger] has_key(t, k2) implies as_map(s).insert(s[i].0, v).contains_key(k2) && as_map(t)[k2] == as_map(s).insert(s[i].0, v)[k2] by {
        let a = choose|a: int| 0 <= a < t.len() && (#[trigger] t[a]).0 == k2;
        lemma_entry_determines(t, a);
        lemma_entry_determines(s, a);
    }
    assert forall|k2: K| #[trigger] as_map(s).insert(s[i].0, v).contains_key(k2) implies has_key(t, k2) by {
        let a = choose|a: int| 0 <= a < s.len() && (#[trigger] s[a]).0 == k2;
        assert(t[a].0 == k2);
    }
    assert(as_map(t) =~= as_map(s).insert(s[i].0, v));
}

/// Finds the entry carrying a webview key.
pub(crate) fn find_webview_key<V>(s: &Vec<(WebViewId, V)>, k: WebViewId) -> (r: Option<usize>)
    ensures
        match r {
            Some(i) => 0 <= i < s@.len() && s@[i as int].0 == k,
            None => !has_key(s@, k),
        },
{
    let mut i: usize = 0;
    while i < s.len()
        invariant
            0 <= i <= s@.len(),
            forall|j: int| 0 <= j < i ==> (#[trigger] s@[j]).0 != k,
        decreases s@.len() - i,
    {
        if s[i].0 == k {
            return Some(i);
        }
        i += 1;
    }
    None
}

/// Finds the entry carrying a numeric key.
pub(crate) fn find_u64_key<V>(s: &Vec<(u64, V)>, k: u64) -> (r: Option<usize>)
    ensures
        match r {
            Some(i) => 0 <= i < s@.len() && s@[i as int].0 == k,
            None => !has_key(s@, k),
        },
{
    let mut i: usize = 0;
    while i < s.len()
        invariant
            0 <= i <= s@.len(),
            forall|j: int| 0 <= j < i ==> (#[trigger] s@[j]).0 != k,
        decreases s@.len() - i,
    {
        if s[i].0 == k {
            return Some(i);
        }
        i += 1;
    }
    None
}

/// Borrows the value of one key/value pair mutably.
pub(crate) fn pair_value_mut<K, V>(p: &mut (K, V)) -> (r: &mut V)
    ensures
        *r == old(p).1,
        *final(p) == (old(p).0, *final(r)),
{
    &mut p.1
}

/// Borrows one element of a vector mutably.
pub(crate) fn vec_index_mut<T>(v: &mut Vec<T>, i: usize) -> (element: &mut T)
    requires
        0 <= i < old(v).len(),
    ensures
        *element == old(v)@[i as int],
        final(v)@ == old(v)@.update(i as int, *final(element)),
{
    &mut v[i]
}

} // verus!
