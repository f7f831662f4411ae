//! Small facts about sequences that several modules use.

use vstd::prelude::*;

verus! {

/// The first `n` items of `s`, or all of `s` if it has fewer.
pub open spec fn prefix<T>(s: Seq<T>, n: nat) -> Seq<T> {
    if n < s.len() {
        s.take(n as int)
    } else {
        s
    }
}

/// A filter keeps a sequence whose items all pass.
pub proof fn lemma_filter_all<T>(s: Seq<T>, pred: spec_fn(T) -> bool)
    requires
        forall|i: int| 0 <= i < s.len() ==> pred(#[trigger] s[i]),
    ensures
        s.filter(pred) == s,
    decreases s.len(),
{
    reveal(Seq::filter);
    if s.len() > 0 {
        let t = s.drop_last();
        assert forall|i: int| 0 <= i < t.len() implies pred(#[trigger] t[i]) by {
            assert(t[i] == s[i]);
        }
        lemma_filter_all(t, pred);
        assert(t.push(s.last()) == s);
    }
}

/// Every item of a filtered sequence passes.
pub proof fn lemma_filter_passes<T>(s: Seq<T>, pred: spec_fn(T) -> bool)
    ensures
        forall|i: int| 0 <= i < s.filter(pred).len() ==> pred(#[trigger] s.filter(pred)[i]),
        s.filter(pred).len() <= s.len(),
    decreases s.len(),
{
    reveal(Seq::filter);
    if s.len() > 0 {
        lemma_filter_passes(s.drop_last(), pred);
    }
}

/// Filtering one item more.
pub proof fn lemma_filter_step<T>(s: Seq<T>, i: int, pred: spec_fn(T) -> bool)
    requires
        0 <= i < s.len(),
    ensures
        s.take(i + 1).filter(pred) == if pred(s[i]) {
            s.take(i).filter(pred).push(s[i])
        } else {
            s.take(i).filter(pred)
        },
{
    reveal(Seq::filter);
    assert(s.take(i + 1).drop_last() == s.take(i));
    assert(s.take(i + 1).last() == s[i]);
}

/// Mapping one item more.
pub proof fn lemma_map_step<A, B>(s: Seq<A>, i: int, f: spec_fn(A) -> B)
    requires
        0 <= i < s.len(),
    ensures
        s.take(i + 1).map_values(f) == s.take(i).map_values(f).push(f(s[i])),
{
    assert(s.take(i + 1).map_values(f) =~= s.take(i).map_values(f).push(f(s[i])));
}

/// The items of `s` whose mark in `keep` is set, in order.
pub open spec fn masked<T>(s: Seq<T>, keep: Seq<bool>) -> Seq<T>
    decreases s.len(),
{
    if s.len() == 0 || keep.len() != s.len() {
        Seq::empty()
    } else {
        let rest = masked(s.drop_last(), keep.drop_last());
        if keep.last() {
            rest.push(s.last())
        } else {
            rest
        }
    }
}

/// Masking by the marks of a predicate is filtering by the predicate.
pub proof fn lemma_masked_is_filter<T>(s: Seq<T>, keep: Seq<bool>, pred: spec_fn(T) -> bool)
    requires
        keep.len() == s.len(),
        forall|i: int| 0 <= i < s.len() ==> keep[i] == pred(#[trigger] s[i]),
    ensures
        masked(s, keep) == s.filter(pred),
    decreases s.len(),
{
    reveal(Seq::filter);
    if s.len() > 0 {
        let t = s.drop_last();
        assert forall|i: int| 0 <= i < t.len() implies keep.drop_last()[i] == pred(
            #[trigger] t[i],
        ) by {
            assert(t[i] == s[i]);
        }
        lemma_masked_is_filter(t, keep.drop_last(), pred);
    }
}

/// The items of `v` whose mark in `keep` is set, in order.
pub fn keep_marked<T>(v: Vec<T>, keep: &Vec<bool>) -> (r: Vec<T>)
    requires
        keep@.len() == v@.len(),
    ensures
        r@ == masked(v@, keep@),
{
    let mut src: Vec<T> = v;
    let ghost all = src@;
    let total: usize = src.len();
    let mut rev: Vec<T> = Vec::new();
    while src.len() > 0
        invariant
            all.len() == total,
            src@.len() + rev@.len() == all.len(),
            src@ == all.take(src@.len() as int),
            forall|k: int| 0 <= k < rev@.len() ==> rev@[k] == all[all.len() - 1 - k],
        decreases src@.len(),
    {
        let x: T = src.pop().unwrap();
        rev.push(x);
    }
    let mut out: Vec<T> = Vec::new();
    let mut i: usize = 0;
    assert(masked(all.take(0), keep@.take(0)) == Seq::<T>::empty());
    while rev.len() > 0
        invariant
            i + rev@.len() == all.len(),
            all.len() == keep@.len(),
            all.len() <= usize::MAX,
            forall|k: int| 0 <= k < rev@.len() ==> rev@[k] == all[all.len() - 1 - k],
            out@ == masked(all.take(i as int), keep@.take(i as int)),
        decreases rev@.len(),
    {
        let x: T = rev.pop().unwrap();
        proof {
            assert(x == all[i as int]);
            assert(all.take(i + 1).drop_last() == all.take(i as int));
            assert(keep@.take(i + 1).drop_last() == keep@.take(i as int));
            assert(all.take(i + 1).last() == all[i as int]);
            assert(keep@.take(i + 1).last() == keep@[i as int]);
        }
        if keep[i] {
            out.push(x);
        }
        i += 1;
    }
    assert(all.take(all.len() as int) == all);
    assert(keep@.take(keep@.len() as int) == keep@);
    out
}

/// What is left of `s` behind its first `offset` items.
pub open spec fn behind<T>(s: Seq<T>, offset: nat) -> Seq<T> {
    if offset < s.len() {
        s.skip(offset as int)
    } else {
        Seq::empty()
    }
}

/// The page of `s` that starts behind `offset` items and holds at most
/// `limit`.
pub open spec fn page<T>(s: Seq<T>, offset: nat, limit: nat) -> Seq<T> {
    prefix(behind(s, offset), limit)
}

/// The page of a sequence with one item more.
pub proof fn lemma_page_push<T>(s: Seq<T>, x: T, offset: nat, limit: nat)
    ensures
        page(s.push(x), offset, limit) == if s.len() >= offset && page(s, offset, limit).len()
            < limit {
            page(s, offset, limit).push(x)
        } else {
            page(s, offset, limit)
        },
        page(s, offset, limit).len() <= limit,
        s.len() < offset ==> page(s, offset, limit).len() == 0,
        s.len() >= offset ==> page(s, offset, limit).len() == (if s.len() - offset < limit {
            s.len() - offset
        } else {
            limit as int
        }),
{
    let w = behind(s, offset);
    let wp = behind(s.push(x), offset);
    if s.len() >= offset {
        assert(wp =~= w.push(x));
        if w.len() < limit {
            assert(prefix(wp, limit) =~= prefix(w, limit).push(x));
        } else {
            assert(prefix(wp, limit) =~= prefix(w, limit));
        }
    } else {
        assert(wp =~= Seq::<T>::empty());
    }
}

/// No two items have the same key.
pub open spec fn distinct_by<T, K>(s: Seq<T>, key: spec_fn(T) -> K) -> bool {
    forall|i: int, j: int| 0 <= i < j < s.len() ==> key(#[trigger] s[i]) != key(#[trigger] s[j])
}

/// A part of a list of distinct keys, in its order, has distinct keys.
pub proof fn lemma_distinct_filter<T, K>(s: Seq<T>, key: spec_fn(T) -> K, pred: spec_fn(T) -> bool)
    requires
        distinct_by(s, key),
    ensures
        distinct_by(s.filter(pred), key),
    decreases s.len(),
{
    reveal(Seq::filter);
    if s.len() > 0 {
        let front = s.drop_last();
        assert forall|x: int, y: int| 0 <= x < y < front.len() implies key(#[trigger] front[x])
            != key(#[trigger] front[y]) by {
            assert(front[x] == s[x] && front[y] == s[y]);
        }
        lemma_distinct_filter(front, key, pred);
        let part = front.filter(pred);
        if pred(s.last()) {
            let next = part.push(s.last());
            assert forall|x: int, y: int| 0 <= x < y < next.len() implies key(#[trigger] next[x])
                != key(#[trigger] next[y]) by {
                if y < part.len() {
                    assert(next[x] == part[x] && next[y] == part[y]);
                } else {
                    assert(next[x] == part[x]);
                    assert(part.contains(part[x]));
                    front.lemma_filter_contains_rev(pred, part[x]);
                    let a = choose|a: int| 0 <= a < front.len() && front[a] == part[x];
                    assert(s[a] == part[x]);
                    assert(key(s[a]) != key(s[s.len() - 1]));
                }
            }
        }
    }
}

/// What holds the same items as a list of distinct keys has distinct keys
/// too, in whatever order.
pub proof fn lemma_distinct_permuted<T, K>(f: Seq<T>, s: Seq<T>, key: spec_fn(T) -> K)
    requires
        distinct_by(f, key),
        s.to_multiset() == f.to_multiset(),
    ensures
        distinct_by(s, key),
{
    broadcast use vstd::seq_lib::group_to_multiset_ensures;

    assert(f.no_duplicates()) by {
        assert forall|i: int, j: int| 0 <= i < f.len() && 0 <= j < f.len() && i != j implies f[i]
            != f[j] by {
            if i < j {
                assert(key(f[i]) != key(f[j]));
            } else {
                assert(key(f[j]) != key(f[i]));
            }
        }
    }
    f.lemma_multiset_has_no_duplicates();
    s.lemma_multiset_has_no_duplicates_conv();
    assert forall|i: int, j: int| 0 <= i < j < s.len() implies key(#[trigger] s[i]) != key(
        #[trigger] s[j],
    ) by {
        assert(s.contains(s[i]) && s.contains(s[j]));
        assert(f.to_multiset().count(s[i]) > 0);
        assert(f.to_multiset().count(s[j]) > 0);
        assert(f.contains(s[i]) && f.contains(s[j]));
        let p = choose|p: int| 0 <= p < f.len() && f[p] == s[i];
        let q = choose|q: int| 0 <= q < f.len() && f[q] == s[j];
        assert(s[i] != s[j]);
        if p < q {
            assert(key(f[p]) != key(f[q]));
        } else {
            assert(key(f[q]) != key(f[p]));
        }
    }
}

/// The first items of a list of distinct keys have distinct keys.
pub proof fn lemma_distinct_prefix<T, K>(s: Seq<T>, n: nat, key: spec_fn(T) -> K)
    requires
        distinct_by(s, key),
    ensures
        distinct_by(prefix(s, n), key),
{
    let p = prefix(s, n);
    assert forall|i: int, j: int| 0 <= i < j < p.len() implies key(#[trigger] p[i]) != key(
        #[trigger] p[j],
    ) by {
        assert(p[i] == s[i] && p[j] == s[j]);
    }
}

/// What holds the same items holds the same items after each was mapped.
pub proof fn lemma_map_permuted<A, B>(s: Seq<A>, p: Seq<A>, f: spec_fn(A) -> B)
    requires
        s.to_multiset() == p.to_multiset(),
    ensures
        s.map_values(f).to_multiset() == p.map_values(f).to_multiset(),
    decreases s.len(),
{
    broadcast use vstd::multiset::group_multiset_axioms;
    broadcast use vstd::seq_lib::group_to_multiset_ensures;

    s.to_multiset_ensures();
    p.to_multiset_ensures();
    assert(s.len() == p.len());
    if s.len() == 0 {
        assert(s.map_values(f) =~= p.map_values(f));
    } else {
        let x = s.last();
        let front = s.drop_last();
        assert(s.contains(x)) by {
            assert(s[s.len() - 1] == x);
        }
        assert(p.to_multiset().count(x) > 0);
        assert(p.contains(x));
        let i = choose|i: int| 0 <= i < p.len() && p[i] == x;
        let rest = p.remove(i);
        vstd::seq_lib::to_multiset_remove(s, s.len() - 1);
        vstd::seq_lib::to_multiset_remove(p, i);
        assert(s.remove(s.len() - 1) =~= front);
        assert(front.to_multiset() == rest.to_multiset());
        lemma_map_permuted(front, rest, f);
        assert(s.map_values(f) =~= front.map_values(f).push(f(x)));
        assert(p.map_values(f) =~= rest.map_values(f).insert(i, f(x)));
        vstd::seq_lib::to_multiset_build(front.map_values(f), f(x));
        vstd::seq_lib::to_multiset_insert(rest.map_values(f), i, f(x));
    }
}

} // verus!
