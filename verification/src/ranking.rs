//! Ordering by rank: heavier first, and among equals the smaller tie key.

use crate::region::bytes_le;
use vstd::prelude::*;
use vstd::seq_lib::{to_multiset_build, to_multiset_remove};

verus! {

/// Byte order is total.
pub proof fn lemma_bytes_le_total(a: Seq<u8>, b: Seq<u8>)
    ensures
        bytes_le(a, b) || bytes_le(b, a),
    decreases a.len(),
{
    if a.len() > 0 && b.len() > 0 && a[0] == b[0] {
        lemma_bytes_le_total(a.drop_first(), b.drop_first());
    }
}

/// Byte order is transitive.
pub proof fn lemma_bytes_le_transitive(a: Seq<u8>, b: Seq<u8>, c: Seq<u8>)
    requires
        bytes_le(a, b),
        bytes_le(b, c),
    ensures
        bytes_le(a, c),
    decreases a.len(),
{
    if a.len() > 0 && b.len() > 0 && c.len() > 0 && a[0] == b[0] && b[0] == c[0] {
        lemma_bytes_le_transitive(a.drop_first(), b.drop_first(), c.drop_first());
    }
}

/// Two byte strings that come before each other are the same.
pub proof fn lemma_bytes_le_antisymmetric(a: Seq<u8>, b: Seq<u8>)
    requires
        bytes_le(a, b),
        bytes_le(b, a),
    ensures
        a == b,
    decreases a.len(),
{
    if a.len() > 0 && b.len() > 0 {
        lemma_bytes_le_antisymmetric(a.drop_first(), b.drop_first());
        assert(a == seq![a[0]] + a.drop_first());
        assert(b == seq![b[0]] + b.drop_first());
    } else {
        assert(a.len() == 0 && b.len() == 0);
        assert(a == b);
    }
}

/// Whether `a` comes before `b` in byte order, or is `b`.
pub fn bytes_before(a: &[u8], b: &[u8]) -> (r: bool)
    ensures
        r == bytes_le(a@, b@),
{
    let mut i: usize = 0;
    assert(a@.skip(0) == a@ && b@.skip(0) == b@);
    while i < a.len() && i < b.len()
        invariant
            i <= a.len(),
            i <= b.len(),
            bytes_le(a@, b@) == bytes_le(a@.skip(i as int), b@.skip(i as int)),
        decreases a.len() - i,
    {
        let ghost x = a@.skip(i as int);
        let ghost y = b@.skip(i as int);
        assert(x[0] == a@[i as int] && y[0] == b@[i as int]);
        assert(x.drop_first() == a@.skip(i + 1) && y.drop_first() == b@.skip(i + 1));
        if a[i] != b[i] {
            return a[i] < b[i];
        }
        i += 1;
    }
    i == a.len()
}

/// Something that has a rank: a weight, and a tie key for equal weights.
pub trait Ranked: Sized {
    /// The heavier comes first.
    spec fn weight(&self) -> int;

    /// Among equal weights the smaller tie key comes first.
    spec fn tie(&self) -> Seq<u8>;

    /// Whether `self` may stand before `other`.
    fn outranks(&self, other: &Self) -> (b: bool)
        ensures
            b == comes_first(self.weight(), self.tie(), other.weight(), other.tie()),
    ;
}

/// The rank `(w1, t1)` may stand before the rank `(w2, t2)`.
pub open spec fn comes_first(w1: int, t1: Seq<u8>, w2: int, t2: Seq<u8>) -> bool {
    w1 > w2 || (w1 == w2 && bytes_le(t1, t2))
}

/// `a` may stand before `b`.
pub open spec fn before<T: Ranked>(a: T, b: T) -> bool {
    comes_first(a.weight(), a.tie(), b.weight(), b.tie())
}

/// The items stand in rank order.
pub open spec fn ranked<T: Ranked>(s: Seq<T>) -> bool {
    forall|i: int, j: int| 0 <= i < j < s.len() ==> before(#[trigger] s[i], #[trigger] s[j])
}

/// Two items of the same rank: the order says nothing of them.
pub open spec fn same_rank<T: Ranked>(a: T, b: T) -> bool {
    a.weight() == b.weight() && a.tie() == b.tie()
}

pub proof fn lemma_before_total<T: Ranked>(a: T, b: T)
    ensures
        before(a, b) || before(b, a),
{
    lemma_bytes_le_total(a.tie(), b.tie());
}

pub proof fn lemma_before_transitive<T: Ranked>(a: T, b: T, c: T)
    requires
        before(a, b),
        before(b, c),
    ensures
        before(a, c),
{
    if a.weight() == b.weight() && b.weight() == c.weight() {
        lemma_bytes_le_transitive(a.tie(), b.tie(), c.tie());
    }
}

/// Two items that may each stand before the other have the same rank.
pub proof fn lemma_before_antisymmetric<T: Ranked>(a: T, b: T)
    requires
        before(a, b),
        before(b, a),
    ensures
        same_rank(a, b),
{
    lemma_bytes_le_antisymmetric(a.tie(), b.tie());
}

/// The index of an item of `v` that may stand before all the others.
fn first_in_rank<T: Ranked>(v: &Vec<T>) -> (best: usize)
    requires
        v@.len() > 0,
    ensures
        best < v@.len(),
        forall|j: int| 0 <= j < v@.len() ==> before(v@[best as int], #[trigger] v@[j]),
{
    let mut best: usize = 0;
    let mut k: usize = 1;
    proof {
        lemma_before_total(v@[0], v@[0]);
    }
    while k < v.len()
        invariant
            1 <= k <= v@.len(),
            best < k,
            forall|j: int| 0 <= j < k ==> before(v@[best as int], #[trigger] v@[j]),
        decreases v@.len() - k,
    {
        if !v[best].outranks(&v[k]) {
            proof {
                lemma_before_total(v@[best as int], v@[k as int]);
                lemma_before_total(v@[k as int], v@[k as int]);
                assert forall|j: int| 0 <= j < k + 1 implies before(
                    v@[k as int],
                    #[trigger] v@[j],
                ) by {
                    if j < k {
                        lemma_before_transitive(v@[k as int], v@[best as int], v@[j]);
                    }
                }
            }
            best = k;
        }
        k += 1;
    }
    best
}

/// The items in rank order: the heavier first, and among equal weights the
/// smaller tie key first. The result holds the same items as `v`.
pub fn sort_ranked<T: Ranked>(v: Vec<T>) -> (r: Vec<T>)
    ensures
        ranked(r@),
        r@.to_multiset() == v@.to_multiset(),
        r@.len() == v@.len(),
{
    let mut src: Vec<T> = v;
    let mut out: Vec<T> = Vec::new();
    let ghost all = src@;
    proof {
        assert(out@.to_multiset().add(src@.to_multiset()) == all.to_multiset()) by {
            broadcast use vstd::seq_lib::group_to_multiset_ensures;

            assert(out@.to_multiset() =~= vstd::multiset::Multiset::<T>::empty());
            assert(out@.to_multiset().add(src@.to_multiset()) =~= src@.to_multiset());
        }
    }
    while src.len() > 0
        invariant
            ranked(out@),
            forall|i: int, j: int|
                0 <= i < out@.len() && 0 <= j < src@.len() ==> before(
                    #[trigger] out@[i],
                    #[trigger] src@[j],
                ),
            out@.to_multiset().add(src@.to_multiset()) == all.to_multiset(),
            out@.len() + src@.len() == all.len(),
        decreases src@.len(),
    {
        let best: usize = first_in_rank(&src);
        let ghost before_src = src@;
        let ghost before_out = out@;
        let x: T = src.remove(best);
        out.push(x);
        proof {
            broadcast use vstd::multiset::group_multiset_axioms;
            broadcast use vstd::seq_lib::group_to_multiset_ensures;

            to_multiset_remove(before_src, best as int);
            to_multiset_build(before_out, x);
            assert(before_src.remove(best as int) == src@);
            assert(before_src.to_multiset().count(x) > 0) by {
                assert(before_src[best as int] == x);
                assert(before_src.contains(x));
            }
            assert(out@.to_multiset().add(src@.to_multiset()) =~= before_out.to_multiset().add(
                before_src.to_multiset(),
            ));
            assert forall|i: int, j: int| 0 <= i < j < out@.len() implies before(
                #[trigger] out@[i],
                #[trigger] out@[j],
            ) by {
                if j == out@.len() - 1 {
                    assert(out@[i] == before_out[i]);
                    assert(out@[j] == before_src[best as int]);
                } else {
                    assert(out@[i] == before_out[i] && out@[j] == before_out[j]);
                }
            }
            assert forall|i: int, j: int|
                0 <= i < out@.len() && 0 <= j < src@.len() implies before(
                #[trigger] out@[i],
                #[trigger] src@[j],
            ) by {
                let jj = if j < best {
                    j
                } else {
                    j + 1
                };
                assert(src@[j] == before_src[jj]);
                if i < before_out.len() {
                    assert(out@[i] == before_out[i]);
                }
            }
        }
    }
    proof {
        assert(src@.to_multiset() =~= vstd::multiset::Multiset::<T>::empty()) by {
            broadcast use vstd::seq_lib::group_to_multiset_ensures;

        }
        assert(out@.to_multiset().add(src@.to_multiset()) =~= out@.to_multiset());
    }
    out
}

/// No two items have the same rank.
pub open spec fn distinct_ranks<T: Ranked>(s: Seq<T>) -> bool {
    forall|i: int, j: int|
        0 <= i < j < s.len() ==> !same_rank(#[trigger] s[i], #[trigger] s[j])
}

/// Items of distinct ranks are distinct items.
pub proof fn lemma_distinct_ranks_no_duplicates<T: Ranked>(s: Seq<T>)
    requires
        distinct_ranks(s),
    ensures
        s.no_duplicates(),
{
    assert forall|i: int, j: int| 0 <= i < s.len() && 0 <= j < s.len() && i != j implies s[i]
        != s[j] by {
        if i < j {
            assert(!same_rank(s[i], s[j]));
        } else {
            assert(!same_rank(s[j], s[i]));
        }
    }
}

/// What holds the same items as a sequence of distinct ranks has distinct
/// ranks too, in whatever order.
pub proof fn lemma_distinct_ranks_permuted<T: Ranked>(f: Seq<T>, s: Seq<T>)
    requires
        distinct_ranks(f),
        s.to_multiset() == f.to_multiset(),
    ensures
        distinct_ranks(s),
{
    broadcast use vstd::seq_lib::group_to_multiset_ensures;

    lemma_distinct_ranks_no_duplicates(f);
    f.lemma_multiset_has_no_duplicates();
    s.lemma_multiset_has_no_duplicates_conv();
    assert forall|i: int, j: int| 0 <= i < j < s.len() implies !same_rank(
        #[trigger] s[i],
        #[trigger] s[j],
    ) by {
        assert(s.contains(s[i]) && s.contains(s[j]));
        assert(f.to_multiset().count(s[i]) > 0);
        assert(f.to_multiset().count(s[j]) > 0);
        assert(f.contains(s[i]) && f.contains(s[j]));
        let p = choose|p: int| 0 <= p < f.len() && f[p] == s[i];
        let q = choose|q: int| 0 <= q < f.len() && f[q] == s[j];
        assert(s[i] != s[j]);
        if p < q {
            assert(!same_rank(f[p], f[q]));
        } else {
            assert(!same_rank(f[q], f[p]));
        }
    }
}

/// The items that pass a filter have distinct ranks if all the items have.
pub proof fn lemma_distinct_ranks_filtered<T: Ranked>(s: Seq<T>, pred: spec_fn(T) -> bool)
    requires
        distinct_ranks(s),
    ensures
        distinct_ranks(s.filter(pred)),
        forall|i: int|
            0 <= i < s.filter(pred).len() ==> s.contains(#[trigger] s.filter(pred)[i]),
    decreases s.len(),
{
    reveal(Seq::filter);
    if s.len() > 0 {
        let init = s.drop_last();
        assert forall|i: int, j: int| 0 <= i < j < init.len() implies !same_rank(
            #[trigger] init[i],
            #[trigger] init[j],
        ) by {
            assert(init[i] == s[i] && init[j] == s[j]);
        }
        lemma_distinct_ranks_filtered(init, pred);
        let fi = init.filter(pred);
        let f = s.filter(pred);
        assert forall|i: int| 0 <= i < f.len() implies s.contains(#[trigger] f[i]) by {
            if i < fi.len() {
                assert(f[i] == fi[i]);
                assert(init.contains(fi[i]));
                let k = choose|k: int| 0 <= k < init.len() && init[k] == fi[i];
                assert(s[k] == f[i]);
            } else {
                assert(f[i] == s.last());
                assert(s[s.len() - 1] == f[i]);
            }
        }
        assert forall|i: int, j: int| 0 <= i < j < f.len() implies !same_rank(
            #[trigger] f[i],
            #[trigger] f[j],
        ) by {
            if j < fi.len() {
                assert(f[i] == fi[i] && f[j] == fi[j]);
            } else {
                assert(f[j] == s.last());
                assert(f[i] == fi[i]);
                assert(init.contains(fi[i]));
                let k = choose|k: int| 0 <= k < init.len() && init[k] == fi[i];
                assert(s[k] == f[i]);
                assert(!same_rank(s[k], s[s.len() - 1]));
            }
        }
    }
}

/// There is one way to put items of distinct ranks in rank order: two
/// sequences in rank order that hold the same items are the same.
pub proof fn lemma_ranked_unique<T: Ranked>(x: Seq<T>, y: Seq<T>)
    requires
        ranked(x),
        ranked(y),
        x.to_multiset() == y.to_multiset(),
        distinct_ranks(x),
    ensures
        x == y,
    decreases x.len(),
{
    broadcast use vstd::multiset::group_multiset_axioms;
    broadcast use vstd::seq_lib::group_to_multiset_ensures;

    x.to_multiset_ensures();
    y.to_multiset_ensures();
    assert(x.len() == y.len());
    if x.len() == 0 {
        assert(x =~= y);
    } else {
        assert(y.contains(y[0]));
        assert(x.to_multiset().count(y[0]) > 0);
        assert(x.contains(y[0]));
        let i = choose|i: int| 0 <= i < x.len() && x[i] == y[0];
        assert(x.contains(x[0]));
        assert(y.to_multiset().count(x[0]) > 0);
        assert(y.contains(x[0]));
        let j = choose|j: int| 0 <= j < y.len() && y[j] == x[0];
        if i > 0 {
            assert(before(x[0], x[i]));
            if j > 0 {
                assert(before(y[0], y[j]));
                lemma_before_antisymmetric(x[0], x[i]);
            }
            assert(same_rank(x[0], x[i]));
            assert(false);
        }
        assert(x[0] == y[0]);
        let xt = x.drop_first();
        let yt = y.drop_first();
        to_multiset_remove(x, 0);
        to_multiset_remove(y, 0);
        assert(x.remove(0) =~= xt);
        assert(y.remove(0) =~= yt);
        assert(xt.to_multiset() == yt.to_multiset());
        assert forall|a: int, b: int| 0 <= a < b < xt.len() implies before(
            #[trigger] xt[a],
            #[trigger] xt[b],
        ) by {
            assert(xt[a] == x[a + 1] && xt[b] == x[b + 1]);
        }
        assert forall|a: int, b: int| 0 <= a < b < yt.len() implies before(
            #[trigger] yt[a],
            #[trigger] yt[b],
        ) by {
            assert(yt[a] == y[a + 1] && yt[b] == y[b + 1]);
        }
        assert forall|a: int, b: int| 0 <= a < b < xt.len() implies !same_rank(
            #[trigger] xt[a],
            #[trigger] xt[b],
        ) by {
            assert(xt[a] == x[a + 1] && xt[b] == x[b + 1]);
        }
        lemma_ranked_unique(xt, yt);
        assert(x =~= seq![x[0]] + xt);
        assert(y =~= seq![y[0]] + yt);
    }
}

/// `a` comes before `b`, or is of the same rank, by the given weight and
/// tie key.
pub open spec fn before_by<T>(
    a: T,
    b: T,
    weight: spec_fn(T) -> int,
    tie: spec_fn(T) -> Seq<u8>,
) -> bool {
    comes_first(weight(a), tie(a), weight(b), tie(b))
}

/// The sequence is in rank order by the given weight and tie key.
pub open spec fn ranked_by<T>(s: Seq<T>, weight: spec_fn(T) -> int, tie: spec_fn(T) -> Seq<u8>) -> bool {
    forall|i: int, j: int|
        0 <= i < j < s.len() ==> before_by(#[trigger] s[i], #[trigger] s[j], weight, tie)
}

/// No two items have the same weight and tie key.
pub open spec fn distinct_by_rank<T>(
    s: Seq<T>,
    weight: spec_fn(T) -> int,
    tie: spec_fn(T) -> Seq<u8>,
) -> bool {
    forall|i: int, j: int|
        0 <= i < j < s.len() ==> !(weight(#[trigger] s[i]) == weight(#[trigger] s[j]) && tie(s[i])
            == tie(s[j]))
}

/// There is one way to put items of distinct ranks in rank order, whatever
/// the items are.
pub proof fn lemma_ranked_by_unique<T>(
    x: Seq<T>,
    y: Seq<T>,
    weight: spec_fn(T) -> int,
    tie: spec_fn(T) -> Seq<u8>,
)
    requires
        ranked_by(x, weight, tie),
        ranked_by(y, weight, tie),
        x.to_multiset() == y.to_multiset(),
        distinct_by_rank(x, weight, tie),
    ensures
        x == y,
    decreases x.len(),
{
    broadcast use vstd::multiset::group_multiset_axioms;
    broadcast use vstd::seq_lib::group_to_multiset_ensures;

    x.to_multiset_ensures();
    y.to_multiset_ensures();
    assert(x.len() == y.len());
    if x.len() == 0 {
        assert(x =~= y);
    } else {
        assert(y.contains(y[0]));
        assert(x.to_multiset().count(y[0]) > 0);
        assert(x.contains(y[0]));
        let i = choose|i: int| 0 <= i < x.len() && x[i] == y[0];
        assert(x.contains(x[0]));
        assert(y.to_multiset().count(x[0]) > 0);
        assert(y.contains(x[0]));
        let j = choose|j: int| 0 <= j < y.len() && y[j] == x[0];
        if i > 0 {
            assert(before_by(x[0], x[i], weight, tie));
            if j > 0 {
                assert(before_by(y[0], y[j], weight, tie));
                if weight(x[0]) == weight(x[i]) {
                    lemma_bytes_le_antisymmetric(tie(x[0]), tie(x[i]));
                }
            }
            assert(weight(x[0]) == weight(x[i]) && tie(x[0]) == tie(x[i]));
            assert(false);
        }
        assert(x[0] == y[0]);
        let xt = x.drop_first();
        let yt = y.drop_first();
        to_multiset_remove(x, 0);
        to_multiset_remove(y, 0);
        assert(x.remove(0) =~= xt);
        assert(y.remove(0) =~= yt);
        assert(xt.to_multiset() == yt.to_multiset());
        assert forall|a: int, b: int| 0 <= a < b < xt.len() implies before_by(
            #[trigger] xt[a],
            #[trigger] xt[b],
            weight,
            tie,
        ) by {
            assert(xt[a] == x[a + 1] && xt[b] == x[b + 1]);
        }
        assert forall|a: int, b: int| 0 <= a < b < yt.len() implies before_by(
            #[trigger] yt[a],
            #[trigger] yt[b],
            weight,
            tie,
        ) by {
            assert(yt[a] == y[a + 1] && yt[b] == y[b + 1]);
        }
        assert forall|a: int, b: int| 0 <= a < b < xt.len() implies !(weight(#[trigger] xt[a])
            == weight(#[trigger] xt[b]) && tie(xt[a]) == tie(xt[b])) by {
            assert(xt[a] == x[a + 1] && xt[b] == x[b + 1]);
        }
        lemma_ranked_by_unique(xt, yt, weight, tie);
        assert(x =~= seq![x[0]] + xt);
        assert(y =~= seq![y[0]] + yt);
    }
}

/// In rank order the heavier item stands first.
pub proof fn lemma_heavier_first<T: Ranked>(s: Seq<T>, i: int, j: int)
    requires
        ranked(s),
        0 <= i < s.len(),
        0 <= j < s.len(),
        s[i].weight() > s[j].weight(),
    ensures
        i < j,
{
    if j < i {
        assert(before(s[j], s[i]));
    }
}

} // verus!
