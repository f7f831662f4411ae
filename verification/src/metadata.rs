//! Metadata as a map: the entries of a list of pairs in the order of their
//! keys, each key once.
//!
//! A list of pairs stands for the map in which a later pair replaces an
//! earlier one of the same key. Records hold the entries of that map in
//! the byte order of their keys, so that equal maps are written as equal
//! bytes.

use crate::ranking::{
    bytes_before, lemma_bytes_le_antisymmetric, lemma_bytes_le_total, lemma_bytes_le_transitive,
};
use crate::region::bytes_le;
use crate::text::str_eq;
use crate::types::pairs;
use vstd::prelude::*;
use vstd::utf8::{decode_utf8, encode_utf8, encode_utf8_decode_utf8};

verus! {

/// A pair of a key and a value.
pub type Entry = (Seq<char>, Seq<char>);

/// Key `a` comes before key `b` in byte order and is not `b`.
pub open spec fn key_before(a: Seq<char>, b: Seq<char>) -> bool {
    a != b && bytes_le(encode_utf8(a), encode_utf8(b))
}

/// The keys strictly ascend in byte order; so no key occurs twice.
pub open spec fn keys_ascend(s: Seq<Entry>) -> bool {
    forall|i: int, j: int| 0 <= i < j < s.len() ==> key_before(#[trigger] s[i].0, #[trigger] s[j].0)
}

/// The value that a list of pairs gives a key: that of the last pair with
/// the key.
pub open spec fn value_of(s: Seq<Entry>, key: Seq<char>) -> Option<Seq<char>>
    decreases s.len(),
{
    if s.len() == 0 {
        None
    } else if s.last().0 == key {
        Some(s.last().1)
    } else {
        value_of(s.drop_last(), key)
    }
}

/// Two lists of pairs stand for the same map.
pub open spec fn same_map(a: Seq<Entry>, b: Seq<Entry>) -> bool {
    forall|k: Seq<char>| value_of(a, k) == value_of(b, k)
}

/// An ordered list with one more entry: the entry takes the place of the
/// one with its key, or else stands where its key belongs.
pub open spec fn entered(s: Seq<Entry>, key: Seq<char>, value: Seq<char>) -> Seq<Entry>
    decreases s.len(),
{
    if s.len() == 0 {
        seq![(key, value)]
    } else if s.last().0 == key {
        s.drop_last().push((key, value))
    } else if bytes_le(encode_utf8(s.last().0), encode_utf8(key)) {
        s.push((key, value))
    } else {
        entered(s.drop_last(), key, value).push(s.last())
    }
}

/// The entries of the map of a list of pairs, in the byte order of their
/// keys.
pub open spec fn in_key_order(s: Seq<Entry>) -> Seq<Entry>
    decreases s.len(),
{
    if s.len() == 0 {
        Seq::empty()
    } else {
        entered(in_key_order(s.drop_last()), s.last().0, s.last().1)
    }
}

/// Keys with the same bytes are the same key.
pub proof fn lemma_key_bytes(a: Seq<char>, b: Seq<char>)
    requires
        encode_utf8(a) == encode_utf8(b),
    ensures
        a == b,
{
    encode_utf8_decode_utf8(a);
    encode_utf8_decode_utf8(b);
    assert(decode_utf8(encode_utf8(a)) == a);
    assert(decode_utf8(encode_utf8(b)) == b);
}

/// The order of keys is transitive.
pub proof fn lemma_key_before_transitive(a: Seq<char>, b: Seq<char>, c: Seq<char>)
    requires
        key_before(a, b),
        key_before(b, c),
    ensures
        key_before(a, c),
{
    lemma_bytes_le_transitive(encode_utf8(a), encode_utf8(b), encode_utf8(c));
    if a == c {
        lemma_bytes_le_antisymmetric(encode_utf8(a), encode_utf8(b));
        lemma_key_bytes(a, b);
    }
}

/// Of two different keys one comes before the other.
pub proof fn lemma_key_before_total(a: Seq<char>, b: Seq<char>)
    requires
        a != b,
    ensures
        key_before(a, b) || key_before(b, a),
{
    lemma_bytes_le_total(encode_utf8(a), encode_utf8(b));
}

/// Every key of an ordered list with one more entry is a key of the list
/// or the new key.
proof fn lemma_entered_keys(s: Seq<Entry>, key: Seq<char>, value: Seq<char>, i: int)
    requires
        0 <= i < entered(s, key, value).len(),
    ensures
        entered(s, key, value)[i].0 == key || exists|j: int|
            0 <= j < s.len() && (#[trigger] s[j]).0 == entered(s, key, value)[i].0,
    decreases s.len(),
{
    let e = entered(s, key, value);
    if s.len() == 0 {
    } else if s.last().0 == key {
        if i < s.len() - 1 {
            assert(s[i].0 == e[i].0);
        }
    } else if bytes_le(encode_utf8(s.last().0), encode_utf8(key)) {
        if i < s.len() {
            assert(s[i].0 == e[i].0);
        }
    } else {
        let inner = entered(s.drop_last(), key, value);
        if i < inner.len() {
            lemma_entered_keys(s.drop_last(), key, value, i);
            if e[i].0 != key {
                let j = choose|j: int|
                    0 <= j < s.drop_last().len() && (#[trigger] s.drop_last()[j]).0 == inner[i].0;
                assert(s[j].0 == e[i].0);
            }
        } else {
            assert(s[s.len() - 1].0 == e[i].0);
        }
    }
}

/// An ordered list stays ordered when an entry enters.
pub proof fn lemma_entered_ascends(s: Seq<Entry>, key: Seq<char>, value: Seq<char>)
    requires
        keys_ascend(s),
    ensures
        keys_ascend(entered(s, key, value)),
    decreases s.len(),
{
    let e = entered(s, key, value);
    if s.len() == 0 {
    } else if s.last().0 == key {
        assert forall|i: int, j: int| 0 <= i < j < e.len() implies key_before(
            #[trigger] e[i].0,
            #[trigger] e[j].0,
        ) by {
            assert(e[i].0 == s[i].0 && e[j].0 == s[j].0);
        }
    } else if bytes_le(encode_utf8(s.last().0), encode_utf8(key)) {
        assert forall|i: int, j: int| 0 <= i < j < e.len() implies key_before(
            #[trigger] e[i].0,
            #[trigger] e[j].0,
        ) by {
            if j < s.len() {
                assert(e[i].0 == s[i].0 && e[j].0 == s[j].0);
            } else {
                assert(e[i].0 == s[i].0);
                assert(key_before(s.last().0, key));
                if i < s.len() - 1 {
                    assert(key_before(s[i].0, s[s.len() - 1].0));
                    lemma_key_before_transitive(s[i].0, s.last().0, key);
                }
            }
        }
    } else {
        let front = s.drop_last();
        let inner = entered(front, key, value);
        assert(keys_ascend(front)) by {
            assert forall|i: int, j: int| 0 <= i < j < front.len() implies key_before(
                #[trigger] front[i].0,
                #[trigger] front[j].0,
            ) by {
                assert(front[i].0 == s[i].0 && front[j].0 == s[j].0);
            }
        }
        lemma_entered_ascends(front, key, value);
        lemma_key_before_total(s.last().0, key);
        assert(key_before(key, s.last().0));
        assert forall|i: int, j: int| 0 <= i < j < e.len() implies key_before(
            #[trigger] e[i].0,
            #[trigger] e[j].0,
        ) by {
            if j < inner.len() {
                assert(e[i].0 == inner[i].0 && e[j].0 == inner[j].0);
            } else {
                assert(e[i].0 == inner[i].0);
                lemma_entered_keys(front, key, value, i);
                if inner[i].0 != key {
                    let x = choose|x: int|
                        0 <= x < front.len() && (#[trigger] front[x]).0 == inner[i].0;
                    assert(key_before(s[x].0, s[s.len() - 1].0));
                }
            }
        }
    }
}

/// The entries in key order have strictly ascending keys.
pub proof fn lemma_in_key_order_ascends(s: Seq<Entry>)
    ensures
        keys_ascend(in_key_order(s)),
    decreases s.len(),
{
    if s.len() > 0 {
        lemma_in_key_order_ascends(s.drop_last());
        lemma_entered_ascends(in_key_order(s.drop_last()), s.last().0, s.last().1);
    }
}

/// A list whose keys strictly ascend is in key order already: ordering is
/// idempotent.
pub proof fn lemma_ordered_stays(s: Seq<Entry>)
    requires
        keys_ascend(s),
    ensures
        in_key_order(s) == s,
    decreases s.len(),
{
    if s.len() > 0 {
        let front = s.drop_last();
        assert(keys_ascend(front)) by {
            assert forall|i: int, j: int| 0 <= i < j < front.len() implies key_before(
                #[trigger] front[i].0,
                #[trigger] front[j].0,
            ) by {
                assert(front[i].0 == s[i].0 && front[j].0 == s[j].0);
            }
        }
        lemma_ordered_stays(front);
        if front.len() > 0 {
            assert(key_before(s[front.len() - 1].0, s[s.len() - 1].0));
            assert(front.last().0 == s[front.len() - 1].0);
        }
        assert(entered(front, s.last().0, s.last().1) == front.push(s.last()));
        assert(front.push(s.last()) == s);
    }
}

/// Ordering twice is ordering once.
pub proof fn lemma_in_key_order_idempotent(s: Seq<Entry>)
    ensures
        in_key_order(in_key_order(s)) == in_key_order(s),
{
    lemma_in_key_order_ascends(s);
    lemma_ordered_stays(in_key_order(s));
}

/// An entry that enters gives its key its value and leaves the other keys
/// their values.
pub proof fn lemma_entered_value(s: Seq<Entry>, key: Seq<char>, value: Seq<char>, k: Seq<char>)
    ensures
        value_of(entered(s, key, value), k) == if k == key {
            Some(value)
        } else {
            value_of(s, k)
        },
    decreases s.len(),
{
    let e = entered(s, key, value);
    if s.len() == 0 {
        assert(e.last() == (key, value));
        assert(e.drop_last() == Seq::<Entry>::empty());
        assert(value_of(e.drop_last(), k) is None);
    } else if s.last().0 == key {
        assert(e.last() == (key, value));
        assert(e.drop_last() == s.drop_last());
    } else if bytes_le(encode_utf8(s.last().0), encode_utf8(key)) {
        assert(e.last() == (key, value));
        assert(e.drop_last() == s);
    } else {
        let inner = entered(s.drop_last(), key, value);
        assert(e.last() == s.last());
        assert(e.drop_last() == inner);
        lemma_entered_value(s.drop_last(), key, value, k);
    }
}

/// The entries in key order stand for the same map as the list.
pub proof fn lemma_in_key_order_same_map(s: Seq<Entry>)
    ensures
        same_map(in_key_order(s), s),
    decreases s.len(),
{
    if s.len() > 0 {
        lemma_in_key_order_same_map(s.drop_last());
        assert forall|k: Seq<char>| value_of(in_key_order(s), k) == value_of(s, k) by {
            lemma_entered_value(in_key_order(s.drop_last()), s.last().0, s.last().1, k);
        }
    }
}

proof fn lemma_front_ascends(s: Seq<Entry>)
    requires
        keys_ascend(s),
        s.len() > 0,
    ensures
        keys_ascend(s.drop_last()),
{
    let front = s.drop_last();
    assert forall|i: int, j: int| 0 <= i < j < front.len() implies key_before(
        #[trigger] front[i].0,
        #[trigger] front[j].0,
    ) by {
        assert(front[i].0 == s[i].0 && front[j].0 == s[j].0);
    }
}

/// In a list with ascending keys every entry gives its key its value.
proof fn lemma_value_at(s: Seq<Entry>, i: int)
    requires
        keys_ascend(s),
        0 <= i < s.len(),
    ensures
        value_of(s, s[i].0) == Some(s[i].1),
    decreases s.len(),
{
    if i < s.len() - 1 {
        assert(key_before(s[i].0, s[s.len() - 1].0));
        lemma_front_ascends(s);
        lemma_value_at(s.drop_last(), i);
    }
}

/// A key with a value is the key of an entry.
proof fn lemma_value_has_entry(s: Seq<Entry>, k: Seq<char>) -> (i: int)
    requires
        value_of(s, k) is Some,
    ensures
        0 <= i < s.len(),
        s[i].0 == k,
    decreases s.len(),
{
    if s.last().0 == k {
        s.len() - 1
    } else {
        lemma_value_has_entry(s.drop_last(), k)
    }
}

/// The key of every entry of a list with ascending keys is the last key or
/// comes before it.
proof fn lemma_last_is_greatest(s: Seq<Entry>, i: int)
    requires
        keys_ascend(s),
        0 <= i < s.len(),
    ensures
        bytes_le(encode_utf8(s[i].0), encode_utf8(s.last().0)),
{
    if i < s.len() - 1 {
        assert(key_before(s[i].0, s[s.len() - 1].0));
    } else {
        lemma_bytes_le_total(encode_utf8(s[i].0), encode_utf8(s[i].0));
    }
}

/// Without its last entry a list with ascending keys gives the last key
/// no value, and every other key the value it had.
proof fn lemma_front_values(s: Seq<Entry>, k: Seq<char>)
    requires
        keys_ascend(s),
        s.len() > 0,
    ensures
        value_of(s.drop_last(), k) == if k == s.last().0 {
            None
        } else {
            value_of(s, k)
        },
{
    if k == s.last().0 && value_of(s.drop_last(), k) is Some {
        let i = lemma_value_has_entry(s.drop_last(), k);
        assert(s.drop_last()[i] == s[i]);
        assert(key_before(s[i].0, s[s.len() - 1].0));
    }
}

/// A map has one list of entries with ascending keys.
pub proof fn lemma_ordered_unique(a: Seq<Entry>, b: Seq<Entry>)
    requires
        keys_ascend(a),
        keys_ascend(b),
        same_map(a, b),
    ensures
        a == b,
    decreases a.len(),
{
    if a.len() == 0 {
        if b.len() > 0 {
            lemma_value_at(b, b.len() - 1);
            assert(value_of(a, b[b.len() - 1].0) is None);
        }
        assert(a =~= b);
    } else if b.len() == 0 {
        lemma_value_at(a, a.len() - 1);
        assert(value_of(b, a[a.len() - 1].0) is None);
    } else {
        let la = a.last();
        let lb = b.last();
        lemma_value_at(a, a.len() - 1);
        lemma_value_at(b, b.len() - 1);
        assert(value_of(b, la.0) == value_of(a, la.0));
        assert(value_of(a, lb.0) == value_of(b, lb.0));
        let j = lemma_value_has_entry(b, la.0);
        lemma_last_is_greatest(b, j);
        let i = lemma_value_has_entry(a, lb.0);
        lemma_last_is_greatest(a, i);
        lemma_bytes_le_antisymmetric(encode_utf8(la.0), encode_utf8(lb.0));
        lemma_key_bytes(la.0, lb.0);
        assert(la.1 == lb.1);
        assert(la == lb);
        lemma_front_ascends(a);
        lemma_front_ascends(b);
        assert forall|k: Seq<char>| value_of(a.drop_last(), k) == value_of(b.drop_last(), k) by {
            lemma_front_values(a, k);
            lemma_front_values(b, k);
        }
        lemma_ordered_unique(a.drop_last(), b.drop_last());
        assert(a == a.drop_last().push(la));
        assert(b == b.drop_last().push(lb));
    }
}

/// Lists that stand for the same map have the same entries in key order.
pub proof fn lemma_same_map_same_order(a: Seq<Entry>, b: Seq<Entry>)
    requires
        same_map(a, b),
    ensures
        in_key_order(a) == in_key_order(b),
{
    lemma_in_key_order_ascends(a);
    lemma_in_key_order_ascends(b);
    lemma_in_key_order_same_map(a);
    lemma_in_key_order_same_map(b);
    assert(same_map(in_key_order(a), in_key_order(b)));
    lemma_ordered_unique(in_key_order(a), in_key_order(b));
}

/// Lets an entry enter an ordered list.
fn enter(sorted: &mut Vec<(String, String)>, key: String, value: String)
    ensures
        pairs(final(sorted)@) == entered(pairs(old(sorted)@), key@, value@),
    decreases old(sorted)@.len(),
{
    let ghost before = pairs(sorted@);
    if sorted.len() == 0 {
        sorted.push((key, value));
        assert(pairs(sorted@) =~= seq![(key@, value@)]);
        return ;
    }
    let last: (String, String) = match sorted.pop() {
        Some(x) => x,
        None => (String::new(), String::new()),
    };
    assert(before.last() == (last.0@, last.1@));
    assert(pairs(sorted@) =~= before.drop_last());
    if str_eq(last.0.as_str(), key.as_str()) {
        let ghost front = pairs(sorted@);
        sorted.push((key, value));
        assert(pairs(sorted@) =~= front.push((key@, value@)));
    } else if bytes_before(last.0.as_str().as_bytes(), key.as_str().as_bytes()) {
        let ghost front = pairs(sorted@);
        sorted.push(last);
        sorted.push((key, value));
        assert(pairs(sorted@) =~= front.push(before.last()).push((key@, value@)));
        assert(front.push(before.last()) == before);
    } else {
        enter(sorted, key, value);
        let ghost inner = pairs(sorted@);
        sorted.push(last);
        assert(pairs(sorted@) =~= inner.push(before.last()));
    }
}

/// The entries of the map of a list of pairs, in the byte order of their
/// keys: a later pair replaces an earlier one of the same key.
pub fn order_pairs(v: &Vec<(String, String)>) -> (r: Vec<(String, String)>)
    ensures
        pairs(r@) == in_key_order(pairs(v@)),
        keys_ascend(pairs(r@)),
{
    let mut r: Vec<(String, String)> = Vec::new();
    let mut i: usize = 0;
    assert(pairs(v@).take(0) =~= Seq::<Entry>::empty());
    assert(pairs(r@) =~= Seq::<Entry>::empty());
    while i < v.len()
        invariant
            i <= v@.len(),
            pairs(r@) == in_key_order(pairs(v@).take(i as int)),
        decreases v@.len() - i,
    {
        proof {
            assert(pairs(v@).take(i + 1).drop_last() == pairs(v@).take(i as int));
            assert(pairs(v@).take(i + 1).last() == (v@[i as int].0@, v@[i as int].1@));
        }
        enter(&mut r, v[i].0.clone(), v[i].1.clone());
        i += 1;
    }
    proof {
        assert(pairs(v@).take(v@.len() as int) == pairs(v@));
        lemma_in_key_order_ascends(pairs(v@));
    }
    r
}

} // verus!
