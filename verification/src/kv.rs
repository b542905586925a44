//! A small key/value association list keyed by strings. It models the
//! persisted cache entries and the per-currency node index: binding a key
//! replaces the first entry with that key or appends a new one, and lookup
//! returns the first binding.

use vstd::prelude::*;

verus! {

/// The first value bound to `key`, scanning from the front.
pub open spec fn assoc_find<K, A>(s: Seq<(K, A)>, key: K) -> Option<A>
    decreases s.len(),
{
    if s.len() == 0 {
        None
    } else if s[0].0 == key {
        Some(s[0].1)
    } else {
        assoc_find(s.drop_first(), key)
    }
}

pub open spec fn assoc_has<K, A>(s: Seq<(K, A)>, key: K) -> bool {
    assoc_find(s, key) is Some
}

/// Index of the first entry bound to `key`.
pub open spec fn assoc_idx<K, A>(s: Seq<(K, A)>, key: K) -> int
    decreases s.len(),
{
    if s.len() == 0 {
        0
    } else if s[0].0 == key {
        0
    } else {
        1 + assoc_idx(s.drop_first(), key)
    }
}

/// The sequence after binding `key` to `value`: replaces the first entry
/// with that key, or appends a new one.
pub open spec fn assoc_set<K, A>(s: Seq<(K, A)>, key: K, value: A) -> Seq<(K, A)> {
    if assoc_has(s, key) {
        s.update(assoc_idx(s, key), (key, value))
    } else {
        s.push((key, value))
    }
}

/// A matching entry at position `i`, with none before it, is the one that
/// `assoc_find` returns.
pub proof fn lemma_assoc_find_at<K, A>(s: Seq<(K, A)>, key: K, i: int)
    requires
        0 <= i < s.len(),
        s[i].0 == key,
        forall|j: int| 0 <= j < i ==> s[j].0 != key,
    ensures
        assoc_find(s, key) == Some(s[i].1),
        assoc_idx(s, key) == i,
    decreases i,
{
    if i > 0 {
        lemma_assoc_find_at(s.drop_first(), key, i - 1);
    }
}

/// Without a matching entry the lookup misses.
pub proof fn lemma_assoc_find_absent<K, A>(s: Seq<(K, A)>, key: K)
    requires
        forall|j: int| 0 <= j < s.len() ==> s[j].0 != key,
    ensures
        assoc_find(s, key) is None,
    decreases s.len(),
{
    if s.len() > 0 {
        lemma_assoc_find_absent(s.drop_first(), key);
    }
}

/// A lookup that misses names no entry: no entry carries the key.
pub proof fn lemma_assoc_none_no_match<K, A>(s: Seq<(K, A)>, key: K)
    requires
        assoc_find(s, key) is None,
    ensures
        forall|j: int| 0 <= j < s.len() ==> s[j].0 != key,
    decreases s.len(),
{
    if s.len() > 0 {
        lemma_assoc_none_no_match(s.drop_first(), key);
        assert forall|j: int| 0 <= j < s.len() implies s[j].0 != key by {
            if j > 0 {
                assert(s.drop_first()[j - 1] == s[j]);
            }
        }
    }
}

/// A lookup that finds something names a matching entry.
pub proof fn lemma_assoc_find_some<K, A>(s: Seq<(K, A)>, key: K)
    requires
        assoc_has(s, key),
    ensures
        0 <= assoc_idx(s, key) < s.len(),
        s[assoc_idx(s, key)].0 == key,
        assoc_find(s, key) == Some(s[assoc_idx(s, key)].1),
    decreases s.len(),
{
    if s.len() > 0 && s[0].0 != key {
        lemma_assoc_find_some(s.drop_first(), key);
    }
}

/// After binding `key`, looking `key` up yields the new value and every
/// other key is unaffected.
pub proof fn lemma_assoc_set_find<K, A>(s: Seq<(K, A)>, key: K, value: A, other: K)
    ensures
        assoc_find(assoc_set(s, key, value), key) == Some(value),
        other != key ==> assoc_find(assoc_set(s, key, value), other) == assoc_find(s, other),
    decreases s.len(),
{
    let t = assoc_set(s, key, value);
    lemma_assoc_set_find_inner(s, key, value, other);
    assert(assoc_find(t, key) =~= Some(value));
    if other != key {
        assert(assoc_find(t, other) =~= assoc_find(s, other));
    }
}

#[verifier::rlimit(60)]
proof fn lemma_assoc_set_find_inner<K, A>(s: Seq<(K, A)>, key: K, value: A, other: K)
    ensures
        assoc_find(assoc_set(s, key, value), key) =~= Some(value),
        other != key ==> assoc_find(assoc_set(s, key, value), other) =~= assoc_find(s, other),
    decreases s.len(),
{
    let t = assoc_set(s, key, value);
    if s.len() == 0 {
        assert(t =~= seq![(key, value)]);
        if other != key {
            assert(t.drop_first() =~= Seq::<(K, A)>::empty());
            assert(assoc_find(t.drop_first(), other) is None);
            assert(t[0].0 == key);
            assert(assoc_find(t, other) is None);
        }
    } else {
        if s[0].0 == key {
            assert(assoc_has(s, key));
            assert(assoc_idx(s, key) == 0);
            assert(t == s.update(0, (key, value)));
            assert(t[0] == (key, value));
            if other != key {
                assert(t.drop_first() =~= s.drop_first());
            }
            assert(assoc_find(t, key) =~= Some(value));
            if other != key {
                assert(assoc_find(t, other) =~= assoc_find(s, other));
            }
        } else {
            lemma_assoc_set_find_inner(s.drop_first(), key, value, other);
            if assoc_has(s, key) {
                assert(assoc_idx(s, key) == 1 + assoc_idx(s.drop_first(), key));
                lemma_assoc_find_some(s.drop_first(), key);
                assert(t == s.update(assoc_idx(s, key), (key, value)));
                assert(t[0] == s[0]);
                assert(t.drop_first() =~= assoc_set(s.drop_first(), key, value));
            assert(assoc_find(t, key) =~= Some(value));
            if other != key {
                assert(assoc_find(t, other) =~= assoc_find(s, other));
            }
            } else {
                assert(t == s.push((key, value)));
                assert(t[0] == s[0]);
                assert(t.drop_first() =~= s.drop_first().push((key, value)));
                assert(t.drop_first() =~= assoc_set(s.drop_first(), key, value));
            assert(assoc_find(t, key) =~= Some(value));
            if other != key {
                assert(assoc_find(t, other) =~= assoc_find(s, other));
            }
            }
        }
    }
}

/// View of an executable association list: each key as its character
/// sequence, each value as its own view.
pub open spec fn kv_view<V: View>(s: Seq<(String, V)>) -> Seq<(Seq<char>, V::V)> {
    s.map_values(|p: (String, V)| (p.0@, p.1@))
}

/// Looks the first binding of `key` up.
pub fn kv_get<'a, V: View>(entries: &'a Vec<(String, V)>, key: &String) -> (r: Option<&'a V>)
    ensures
        match r {
            Some(v) => assoc_find(kv_view(entries@), key@) == Some(v@),
            None => assoc_find(kv_view(entries@), key@) is None,
        },
{
    let mut i: usize = 0;
    while i < entries.len()
        invariant
            i <= entries@.len(),
            forall|j: int| 0 <= j < i ==> kv_view(entries@)[j].0 != key@,
        decreases entries@.len() - i,
    {
        let e = &entries[i];
        if e.0 == *key {
            proof {
                assert(kv_view(entries@)[i as int].0 == key@);
                lemma_assoc_find_at(kv_view(entries@), key@, i as int);
            }
            return Some(&e.1);
        }
        i += 1;
    }
    proof {
        lemma_assoc_find_absent(kv_view(entries@), key@);
    }
    None
}

/// Binds `key` to `value`: replaces the first entry with that key, or
/// appends a new one.
pub(crate) fn kv_find_index<V: View>(entries: &Vec<(String, V)>, key: &String) -> (r: Option<usize>)
    ensures
        match r {
            Some(i) => {
                &&& i < entries@.len()
                &&& assoc_has(kv_view(entries@), key@)
                &&& assoc_idx(kv_view(entries@), key@) == i as int
            },
            None => !assoc_has(kv_view(entries@), key@),
        },
{
    let mut i: usize = 0;
    while i < entries.len()
        invariant
            i <= entries@.len(),
            forall|j: int| 0 <= j < i ==> kv_view(entries@)[j].0 != key@,
        decreases entries@.len() - i,
    {
        let e = &entries[i];
        if e.0 == *key {
            proof {
                assert(kv_view(entries@)[i as int].0 == key@);
                lemma_assoc_find_at(kv_view(entries@), key@, i as int);
            }
            return Some(i);
        }
        i += 1;
    }
    proof {
        lemma_assoc_find_absent(kv_view(entries@), key@);
    }
    None
}

/// Binds `key` to `value`: replaces the first entry with that key, or
/// appends a new one.
pub fn kv_set<V: View>(entries: &mut Vec<(String, V)>, key: String, value: V)
    ensures
        kv_view(final(entries)@) == assoc_set(kv_view(old(entries)@), key@, value@),
{
    match kv_find_index(entries, &key) {
        Some(i) => {
            entries[i] = (key, value);
            proof {
                assert(kv_view(entries@) =~= assoc_set(kv_view(old(entries)@), key@, value@));
            }
        },
        None => {
            entries.push((key, value));
            proof {
                assert(kv_view(entries@) =~= assoc_set(kv_view(old(entries)@), key@, value@));
            }
        },
    }
}

} // verus!
