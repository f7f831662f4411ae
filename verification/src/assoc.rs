//! Association lists: a map kept as a sequence of key and value, where the
//! first entry of a key is the one that counts.

use vstd::prelude::*;

verus! {

/// The value of the first entry with the given key.
pub open spec fn lookup<K, V>(entries: Seq<(K, V)>, key: K) -> Option<V>
    decreases entries.len(),
{
    if entries.len() == 0 {
        None
    } else if entries[0].0 == key {
        Some(entries[0].1)
    } else {
        lookup(entries.drop_first(), key)
    }
}

/// `i` is the first entry with the given key.
pub open spec fn first_at<K, V>(entries: Seq<(K, V)>, key: K, i: int) -> bool {
    &&& 0 <= i < entries.len()
    &&& entries[i].0 == key
    &&& forall|j: int| 0 <= j < i ==> (#[trigger] entries[j]).0 != key
}

/// No entry has the given key.
pub open spec fn absent<K, V>(entries: Seq<(K, V)>, key: K) -> bool {
    forall|j: int| 0 <= j < entries.len() ==> (#[trigger] entries[j]).0 != key
}

pub proof fn lemma_lookup_first<K, V>(entries: Seq<(K, V)>, key: K, i: int)
    requires
        first_at(entries, key, i),
    ensures
        lookup(entries, key) == Some(entries[i].1),
    decreases i,
{
    if i > 0 {
        let t = entries.drop_first();
        assert(entries[0].0 != key);
        assert forall|j: int| 0 <= j < i - 1 implies (#[trigger] t[j]).0 != key by {
            assert(t[j] == entries[j + 1]);
        }
        assert(t[i - 1] == entries[i]);
        lemma_lookup_first(t, key, i - 1);
    }
}

pub proof fn lemma_lookup_absent<K, V>(entries: Seq<(K, V)>, key: K)
    requires
        absent(entries, key),
    ensures
        lookup(entries, key) is None,
    decreases entries.len(),
{
    if entries.len() > 0 {
        let t = entries.drop_first();
        assert(entries[0].0 != key);
        assert forall|j: int| 0 <= j < t.len() implies (#[trigger] t[j]).0 != key by {
            assert(t[j] == entries[j + 1]);
        }
        lemma_lookup_absent(t, key);
    }
}

/// A key that is looked up with success has a first entry.
pub proof fn lemma_lookup_some<K, V>(entries: Seq<(K, V)>, key: K)
    requires
        lookup(entries, key) is Some,
    ensures
        exists|i: int| first_at(entries, key, i) && lookup(entries, key) == Some(entries[i].1),
    decreases entries.len(),
{
    if entries[0].0 == key {
        assert(first_at(entries, key, 0));
    } else {
        let t = entries.drop_first();
        lemma_lookup_some(t, key);
        let i = choose|i: int| first_at(t, key, i) && lookup(t, key) == Some(t[i].1);
        assert(entries[i + 1] == t[i]);
        assert forall|j: int| 0 <= j < i + 1 implies (#[trigger] entries[j]).0 != key by {
            if j > 0 {
                assert(entries[j] == t[j - 1]);
            }
        }
        assert(first_at(entries, key, i + 1));
    }
}

/// Replacing the value of the first entry of a key changes the value of
/// that key and of no other.
pub proof fn lemma_lookup_update<K, V>(entries: Seq<(K, V)>, key: K, i: int, v: V, other: K)
    requires
        first_at(entries, key, i),
    ensures
        lookup(entries.update(i, (key, v)), other) == if other == key {
            Some(v)
        } else {
            lookup(entries, other)
        },
    decreases i,
{
    let u = entries.update(i, (key, v));
    if i == 0 {
        assert(u.drop_first() == entries.drop_first());
    } else {
        let t = entries.drop_first();
        assert forall|j: int| 0 <= j < i - 1 implies (#[trigger] t[j]).0 != key by {
            assert(t[j] == entries[j + 1]);
        }
        assert(t[i - 1] == entries[i]);
        lemma_lookup_update(t, key, i - 1, v, other);
        assert(u.drop_first() == t.update(i - 1, (key, v)));
        assert(u[0] == entries[0]);
    }
}

/// Adding an entry for a key that has none gives that key its value and
/// changes no other.
pub proof fn lemma_lookup_push<K, V>(entries: Seq<(K, V)>, key: K, v: V, other: K)
    requires
        absent(entries, key),
    ensures
        lookup(entries.push((key, v)), other) == if other == key {
            Some(v)
        } else {
            lookup(entries, other)
        },
    decreases entries.len(),
{
    let p = entries.push((key, v));
    if entries.len() == 0 {
        assert(p.drop_first() == Seq::<(K, V)>::empty());
        assert(p[0] == (key, v));
        assert(lookup(p.drop_first(), other) is None);
        assert(lookup(entries, other) is None);
    } else {
        let t = entries.drop_first();
        assert forall|j: int| 0 <= j < t.len() implies (#[trigger] t[j]).0 != key by {
            assert(t[j] == entries[j + 1]);
        }
        lemma_lookup_push(t, key, v, other);
        assert(p.drop_first() == t.push((key, v)));
        assert(p[0] == entries[0]);
        assert(entries[0].0 != key);
    }
}

/// No key occurs twice.
pub open spec fn distinct_keys<K, V>(entries: Seq<(K, V)>) -> bool {
    forall|i: int, j: int|
        0 <= i < j < entries.len() ==> (#[trigger] entries[i]).0 != (#[trigger] entries[j]).0
}

/// A key that is looked up without success has no entry.
pub proof fn lemma_lookup_none<K, V>(entries: Seq<(K, V)>, key: K)
    requires
        lookup(entries, key) is None,
    ensures
        absent(entries, key),
    decreases entries.len(),
{
    if entries.len() > 0 {
        let t = entries.drop_first();
        lemma_lookup_none(t, key);
        assert forall|j: int| 0 <= j < entries.len() implies (#[trigger] entries[j]).0 != key by {
            if j > 0 {
                assert(t[j - 1] == entries[j]);
            }
        }
    }
}

/// Without one of its entries a list of distinct keys has distinct keys,
/// gives the key of that entry no value, and every other key its value.
pub proof fn lemma_lookup_remove<K, V>(entries: Seq<(K, V)>, i: int, other: K)
    requires
        distinct_keys(entries),
        0 <= i < entries.len(),
    ensures
        distinct_keys(entries.remove(i)),
        lookup(entries.remove(i), other) == if other == entries[i].0 {
            None
        } else {
            lookup(entries, other)
        },
{
    let rest = entries.remove(i);
    assert forall|x: int, y: int| 0 <= x < y < rest.len() implies (#[trigger] rest[x]).0 != (
    #[trigger] rest[y]).0 by {
        let a = if x < i {
            x
        } else {
            x + 1
        };
        let b = if y < i {
            y
        } else {
            y + 1
        };
        assert(rest[x] == entries[a] && rest[y] == entries[b]);
    }
    if other == entries[i].0 {
        assert forall|j: int| 0 <= j < rest.len() implies (#[trigger] rest[j]).0 != other by {
            let a = if j < i {
                j
            } else {
                j + 1
            };
            assert(rest[j] == entries[a]);
            if a < i {
                assert(entries[a].0 != entries[i].0);
            } else {
                assert(entries[i].0 != entries[a].0);
            }
        }
        lemma_lookup_absent(rest, other);
    } else if lookup(entries, other) is Some {
        lemma_lookup_some(entries, other);
        let j = choose|j: int|
            first_at(entries, other, j) && lookup(entries, other) == Some(entries[j].1);
        let at = if j < i {
            j
        } else {
            j - 1
        };
        assert(rest[at] == entries[j]);
        assert forall|x: int| 0 <= x < at implies (#[trigger] rest[x]).0 != other by {
            let a = if x < i {
                x
            } else {
                x + 1
            };
            assert(rest[x] == entries[a]);
        }
        lemma_lookup_first(rest, other, at);
    } else {
        lemma_lookup_none(entries, other);
        assert forall|x: int| 0 <= x < rest.len() implies (#[trigger] rest[x]).0 != other by {
            let a = if x < i {
                x
            } else {
                x + 1
            };
            assert(rest[x] == entries[a]);
        }
        lemma_lookup_absent(rest, other);
    }
}

/// A list of distinct keys keeps distinct keys when the value of an entry
/// changes.
pub proof fn lemma_distinct_update<K, V>(entries: Seq<(K, V)>, i: int, v: V)
    requires
        distinct_keys(entries),
        0 <= i < entries.len(),
    ensures
        distinct_keys(entries.update(i, (entries[i].0, v))),
{
    let next = entries.update(i, (entries[i].0, v));
    assert forall|x: int, y: int| 0 <= x < y < next.len() implies (#[trigger] next[x]).0 != (
    #[trigger] next[y]).0 by {
        assert(next[x].0 == entries[x].0 && next[y].0 == entries[y].0);
    }
}

/// A list of distinct keys keeps distinct keys when a key that it lacks is
/// added at its end.
pub proof fn lemma_distinct_push<K, V>(entries: Seq<(K, V)>, key: K, v: V)
    requires
        distinct_keys(entries),
        absent(entries, key),
    ensures
        distinct_keys(entries.push((key, v))),
{
    let next = entries.push((key, v));
    assert forall|x: int, y: int| 0 <= x < y < next.len() implies (#[trigger] next[x]).0 != (
    #[trigger] next[y]).0 by {
        assert(next[x] == entries[x]);
        if y < entries.len() {
            assert(next[y] == entries[y]);
        }
    }
}

} // verus!
