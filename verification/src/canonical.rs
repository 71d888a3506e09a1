//! Deterministic encoding of a map does not depend on the order in which
//! its entries were given.

use vstd::prelude::*;
use crate::error::CborError;
use crate::format::{
    has_adjacent_duplicate, insert_entry, lex_lt, serialization, ser_entries, ser_item, ser_items,
    sort_entries, EncodedEntry, Mode,
};
use crate::laws::{
    keys_non_decreasing, keys_strictly_ascend, lemma_ascend_all, lemma_lex_irreflexive,
    lemma_lex_total, lemma_lex_transitive, lemma_ser_entries_each, lemma_sort_entries_facts,
    lemma_strictly_ascend,
};
use crate::value::Cbor;

verus! {

/// Mapping two sequences that hold the same elements, counted with
/// multiplicity, gives two sequences that hold the same elements.
proof fn lemma_map_multiset<A, B>(s: Seq<A>, t: Seq<A>, f: spec_fn(A) -> B)
    requires
        s.to_multiset() == t.to_multiset(),
    ensures
        s.map_values(f).to_multiset() == t.map_values(f).to_multiset(),
    decreases s.len(),
{
    broadcast use vstd::seq_lib::group_to_multiset_ensures;
    broadcast use vstd::multiset::group_multiset_axioms;

    if s.len() == 0 {
        assert(t.len() == t.to_multiset().len());
        assert(s.map_values(f) =~= Seq::<B>::empty());
        assert(t.map_values(f) =~= Seq::<B>::empty());
    } else {
        let a = s.last();
        let s1 = s.drop_last();
        assert(s1.push(a) =~= s);
        assert(s.to_multiset() =~= s1.to_multiset().insert(a));
        assert(s.to_multiset().count(a) > 0);
        assert(t.to_multiset().count(a) > 0);
        assert(t.contains(a));
        let j = choose|j: int| 0 <= j < t.len() && t[j] == a;
        let t1 = t.remove(j);
        assert(t1.to_multiset() == t.to_multiset().remove(a));
        assert(s1.to_multiset() =~= s.to_multiset().remove(a));
        lemma_map_multiset(s1, t1, f);
        let sm = s.map_values(f);
        let tm = t.map_values(f);
        assert(s1.map_values(f).push(f(a)) =~= sm);
        assert(tm.remove(j) =~= t1.map_values(f));
        assert(tm[j] == f(a));
        assert(tm.remove(j).to_multiset() == tm.to_multiset().remove(f(a)));
        assert(tm.contains(f(a)));
        assert(tm.to_multiset().count(f(a)) > 0);
        assert(tm.to_multiset() =~= t1.map_values(f).to_multiset().insert(f(a)));
        assert(sm.to_multiset() =~= s1.map_values(f).to_multiset().insert(f(a)));
    }
}

/// Inserting an entry adds it and keeps the others.
proof fn lemma_insert_entry_multiset(t: Seq<EncodedEntry>, e: EncodedEntry)
    ensures
        insert_entry(t, e).to_multiset() == t.to_multiset().insert(e),
    decreases t.len(),
{
    broadcast use vstd::seq_lib::group_to_multiset_ensures;
    broadcast use vstd::multiset::group_multiset_axioms;

    if t.len() == 0 || lex_lt(e.0, t[0].0) {
        assert(insert_entry(t, e) =~= t.insert(0, e));
        vstd::seq_lib::to_multiset_insert(t, 0, e);
    } else {
        let rest = t.drop_first();
        lemma_insert_entry_multiset(rest, e);
        assert(insert_entry(t, e) =~= insert_entry(rest, e).insert(0, t[0]));
        vstd::seq_lib::to_multiset_insert(insert_entry(rest, e), 0, t[0]);
        assert(t =~= rest.insert(0, t[0]));
        vstd::seq_lib::to_multiset_insert(rest, 0, t[0]);
        assert(insert_entry(t, e).to_multiset() =~= t.to_multiset().insert(e));
    }
}

/// Sorting keeps every entry, as often as it occurs.
proof fn lemma_sort_entries_multiset(s: Seq<EncodedEntry>)
    ensures
        sort_entries(s).to_multiset() == s.to_multiset(),
    decreases s.len(),
{
    broadcast use vstd::seq_lib::group_to_multiset_ensures;
    broadcast use vstd::multiset::group_multiset_axioms;

    if s.len() > 0 {
        lemma_sort_entries_multiset(s.drop_last());
        lemma_insert_entry_multiset(sort_entries(s.drop_last()), s.last());
        assert(s.drop_last().push(s.last()) =~= s);
    }
}

/// In entries whose keys never descend from one to the next, no later key
/// sorts before an earlier one.
proof fn lemma_non_decreasing_all(t: Seq<EncodedEntry>, i: int, j: int)
    requires
        keys_non_decreasing(t),
        0 <= i < j < t.len(),
    ensures
        !lex_lt(t[j].0, t[i].0),
    decreases j - i,
{
    assert(!lex_lt(t[j - 1 + 1].0, t[j - 1].0));
    if j > i + 1 {
        lemma_non_decreasing_all(t, i, j - 1);
        if lex_lt(t[j].0, t[i].0) {
            if t[j - 1].0 == t[i].0 {
                assert(lex_lt(t[j].0, t[j - 1].0));
            } else {
                lemma_lex_total(t[j - 1].0, t[i].0);
                lemma_lex_transitive(t[j].0, t[i].0, t[j - 1].0);
            }
        }
    }
}

/// Entries with strictly ascending keys are the only arrangement of their
/// elements whose keys never descend.
proof fn lemma_sorted_unique(s: Seq<EncodedEntry>, t: Seq<EncodedEntry>)
    requires
        keys_strictly_ascend(s),
        keys_non_decreasing(t),
        s.to_multiset() == t.to_multiset(),
    ensures
        s == t,
    decreases s.len(),
{
    broadcast use vstd::seq_lib::group_to_multiset_ensures;
    broadcast use vstd::multiset::group_multiset_axioms;

    assert(s.len() == s.to_multiset().len());
    assert(t.len() == t.to_multiset().len());
    if s.len() == 0 {
        assert(s =~= t);
    } else {
        let a = s[0];
        let b = t[0];
        assert(s.contains(a));
        assert(s.to_multiset().count(a) > 0);
        assert(t.contains(a));
        let k = choose|k: int| 0 <= k < t.len() && t[k] == a;
        assert(t.to_multiset().count(b) > 0);
        assert(s.contains(b));
        let j = choose|j: int| 0 <= j < s.len() && s[j] == b;
        if j != 0 {
            lemma_ascend_all(s, 0, j);
            if k == 0 {
                lemma_lex_irreflexive(a.0);
            } else {
                lemma_non_decreasing_all(t, 0, k);
            }
        }
        assert(a == b);
        let s1 = s.drop_first();
        let t1 = t.drop_first();
        assert(s1 =~= s.remove(0));
        assert(t1 =~= t.remove(0));
        assert(s1.to_multiset() == t1.to_multiset());
        assert(keys_strictly_ascend(s1)) by {
            assert forall|i: int| 0 <= i < s1.len() - 1 implies lex_lt(
                s1[i].0,
                #[trigger] s1[i + 1].0,
            ) by {
                assert(lex_lt(s[i + 1].0, s[i + 1 + 1].0));
            }
        }
        assert(keys_non_decreasing(t1)) by {
            assert forall|i: int| 0 <= i < t1.len() - 1 implies !lex_lt(
                #[trigger] t1[i + 1].0,
                t1[i].0,
            ) by {
                assert(!lex_lt(t[i + 1 + 1].0, t[i + 1].0));
            }
        }
        lemma_sorted_unique(s1, t1);
        assert forall|i: int| 0 <= i < s.len() implies s[i] == t[i] by {
            if i > 0 {
                assert(s[i] == s1[i - 1]);
                assert(t[i] == t1[i - 1]);
            }
        }
        assert(s =~= t);
    }
}

/// The deterministic encoding of a map entry whose key and value encode.
pub open spec fn encoded_entry(e: (Cbor, Cbor), budget: nat, limit: usize) -> EncodedEntry {
    (
        ser_item(e.0, Mode::Det, budget, limit)->Ok_0,
        ser_item(e.1, Mode::Det, budget, limit)->Ok_0,
    )
}

/// Entries whose keys and values all encode encode one by one.
proof fn lemma_ser_entries_each_ok(es: Seq<(Cbor, Cbor)>, budget: nat, limit: usize)
    requires
        forall|i: int|
            0 <= i < es.len() ==> ser_item((#[trigger] es[i]).0, Mode::Det, budget, limit) is Ok
                && ser_item(es[i].1, Mode::Det, budget, limit) is Ok,
    ensures
        ser_entries(es, Mode::Det, budget, limit) == Ok::<Seq<EncodedEntry>, CborError>(
            es.map_values(|e: (Cbor, Cbor)| encoded_entry(e, budget, limit)),
        ),
    decreases es.len(),
{
    let f = |e: (Cbor, Cbor)| encoded_entry(e, budget, limit);
    if es.len() == 0 {
        assert(es.map_values(f) =~= Seq::<EncodedEntry>::empty());
    } else {
        let d = es.drop_last();
        assert forall|i: int| 0 <= i < d.len() implies ser_item(
            (#[trigger] d[i]).0,
            Mode::Det,
            budget,
            limit,
        ) is Ok && ser_item(d[i].1, Mode::Det, budget, limit) is Ok by {
            assert(d[i] == es[i]);
        }
        lemma_ser_entries_each_ok(d, budget, limit);
        assert(es[es.len() - 1] == es.last());
        assert(d.map_values(f).push(f(es.last())) =~= es.map_values(f));
    }
}

/// Whatever order a map's entries are given in, its deterministic encoding
/// is the same: the encoding orders entries by their encoded keys.
pub proof fn law_det_serialization_ignores_entry_order(
    es: Seq<(Cbor, Cbor)>,
    es2: Seq<(Cbor, Cbor)>,
    max_depth: usize,
)
    requires
        es2.to_multiset() == es.to_multiset(),
        serialization(Cbor::CborMap(es), Mode::Det, max_depth) is Ok,
    ensures
        serialization(Cbor::CborMap(es2), Mode::Det, max_depth) == serialization(
            Cbor::CborMap(es),
            Mode::Det,
            max_depth,
        ),
{
    broadcast use vstd::seq_lib::group_to_multiset_ensures;

    let budget = (max_depth - 1) as nat;
    let limit = max_depth;
    let f = |e: (Cbor, Cbor)| encoded_entry(e, budget, limit);
    assert(es.len() == es.to_multiset().len());
    assert(es2.len() == es2.to_multiset().len());
    lemma_ser_entries_each(es, Mode::Det, budget, limit);
    assert forall|i: int| 0 <= i < es.len() implies ser_item(
        (#[trigger] es[i]).0,
        Mode::Det,
        budget,
        limit,
    ) is Ok && ser_item(es[i].1, Mode::Det, budget, limit) is Ok by {}
    assert forall|i: int| 0 <= i < es2.len() implies ser_item(
        (#[trigger] es2[i]).0,
        Mode::Det,
        budget,
        limit,
    ) is Ok && ser_item(es2[i].1, Mode::Det, budget, limit) is Ok by {
        assert(es2.contains(es2[i]));
        assert(es2.to_multiset().count(es2[i]) > 0);
        assert(es.contains(es2[i]));
        let j = choose|j: int| 0 <= j < es.len() && es[j] == es2[i];
        assert(ser_item(es[j].0, Mode::Det, budget, limit) is Ok);
    }
    lemma_ser_entries_each_ok(es, budget, limit);
    lemma_ser_entries_each_ok(es2, budget, limit);
    let e1 = es.map_values(f);
    let e2 = es2.map_values(f);
    lemma_map_multiset(es, es2, f);
    lemma_sort_entries_multiset(e1);
    lemma_sort_entries_multiset(e2);
    lemma_sort_entries_facts(e1);
    lemma_sort_entries_facts(e2);
    assert(!has_adjacent_duplicate(sort_entries(e1)));
    lemma_strictly_ascend(sort_entries(e1));
    lemma_sorted_unique(sort_entries(e1), sort_entries(e2));
}

} // verus!

verus! {

/// Whether `p` lists every index below `n` exactly once.
pub open spec fn is_permutation(p: Seq<int>, n: nat) -> bool {
    &&& p.len() == n
    &&& forall|i: int| 0 <= i < n ==> 0 <= #[trigger] p[i] < n
    &&& forall|i: int, j: int| 0 <= i < j < n ==> #[trigger] p[i] != #[trigger] p[j]
    &&& forall|k: int| 0 <= k < n ==> #[trigger] covers(p, k)
}

/// Whether some entry of `p` is `k`.
pub open spec fn covers(p: Seq<int>, k: int) -> bool {
    exists|i: int| 0 <= i < p.len() && #[trigger] p[i] == k
}

/// Whether `w` is `v` with the entries of its maps, at any depth, possibly
/// given in another order: entry `i` of a map of `w` corresponds to entry
/// `p[i]` of the map of `v` in the same place, for a permutation `p`.
pub open spec fn reordered(v: Cbor, w: Cbor) -> bool
    decreases v,
{
    match v {
        Cbor::Array(xs) => match w {
            Cbor::Array(ys) => xs.len() == ys.len() && forall|i: int|
                0 <= i < xs.len() ==> reordered(#[trigger] xs[i], ys[i]),
            _ => false,
        },
        Cbor::CborMap(es) => match w {
            Cbor::CborMap(fs) => fs.len() == es.len() && exists|p: Seq<int>|
                is_permutation(p, es.len()) && forall|i: int|
                    0 <= i < fs.len() ==> 0 <= p[i] < es.len() && reordered(
                        es[p[i]].0,
                        (#[trigger] fs[i]).0,
                    ) && reordered(es[p[i]].1, fs[i].1),
            _ => false,
        },
        Cbor::Tagged(t, x) => match w {
            Cbor::Tagged(u, y) => t == u && reordered(*x, *y),
            _ => false,
        },
        _ => v == w,
    }
}

/// Reordering map entries can be undone.
proof fn lemma_reordered_symmetric(v: Cbor, w: Cbor)
    requires
        reordered(v, w),
    ensures
        reordered(w, v),
    decreases v,
{
    match v {
        Cbor::Array(xs) => {
            let ys = w->Array_0;
            assert forall|i: int| 0 <= i < ys.len() implies reordered(#[trigger] ys[i], xs[i]) by {
                assert(reordered(v->Array_0[i], ys[i]));
                lemma_reordered_symmetric(xs[i], ys[i]);
            }
        },
        Cbor::CborMap(es) => {
            let fs = w->CborMap_0;
            let n = es.len();
            let p = choose|p: Seq<int>|
                is_permutation(p, es.len()) && forall|i: int|
                    0 <= i < fs.len() ==> 0 <= p[i] < es.len() && reordered(
                        es[p[i]].0,
                        (#[trigger] fs[i]).0,
                    ) && reordered(es[p[i]].1, fs[i].1);
            let q = Seq::new(n, |k: int| choose|i: int| 0 <= i < n && p[i] == k);
            assert forall|k: int| 0 <= k < n implies 0 <= #[trigger] q[k] < n && p[q[k]] == k by {
                assert(covers(p, k));
            }
            assert forall|a: int, c: int| 0 <= a < c < n implies #[trigger] q[a] != #[trigger] q[c] by {
                assert(p[q[a]] == a);
                assert(p[q[c]] == c);
            }
            assert forall|i: int| 0 <= i < n implies #[trigger] covers(q, i) by {
                let k = p[i];
                assert(0 <= k < n);
                assert(p[q[k]] == k);
                if q[k] != i {
                    if q[k] < i {
                        assert(p[q[k]] != p[i]);
                    } else {
                        assert(p[i] != p[q[k]]);
                    }
                }
                assert(q[k] == i);
            }
            assert(is_permutation(q, fs.len()));
            assert forall|k: int| 0 <= k < es.len() implies 0 <= q[k] < fs.len() && reordered(
                fs[q[k]].0,
                (#[trigger] es[k]).0,
            ) && reordered(fs[q[k]].1, es[k].1) by {
                let i = q[k];
                assert(0 <= i < fs.len());
                assert(p[i] == k);
                assert(reordered(es[p[i]].0, fs[i].0));
                assert(v->CborMap_0[k] == es[k]);
                lemma_reordered_symmetric(es[k].0, fs[i].0);
                lemma_reordered_symmetric(es[k].1, fs[i].1);
            }
        },
        Cbor::Tagged(t, x) => {
            lemma_reordered_symmetric(*x, *w->Tagged_1);
        },
        _ => {},
    }
}

/// A sequence laid out in another order by a permutation holds the same
/// elements.
proof fn lemma_permuted_multiset<A>(s: Seq<A>, t: Seq<A>, p: Seq<int>)
    requires
        s.len() == t.len(),
        p.len() == s.len(),
        forall|i: int| 0 <= i < s.len() ==> 0 <= #[trigger] p[i] < s.len(),
        forall|i: int, j: int| 0 <= i < j < s.len() ==> #[trigger] p[i] != #[trigger] p[j],
        forall|i: int| 0 <= i < t.len() ==> #[trigger] t[i] == s[p[i]],
    ensures
        t.to_multiset() == s.to_multiset(),
    decreases s.len(),
{
    broadcast use vstd::seq_lib::group_to_multiset_ensures;
    broadcast use vstd::multiset::group_multiset_axioms;

    let n = s.len();
    if n == 0 {
        assert(s =~= t);
    } else {
        let j = p[n - 1];
        let s1 = s.remove(j);
        let t1 = t.drop_last();
        let p1 = Seq::new((n - 1) as nat, |i: int| if p[i] < j { p[i] } else { p[i] - 1 });
        assert forall|i: int| 0 <= i < n - 1 implies 0 <= #[trigger] p1[i] < n - 1 by {
            assert(p[i] != p[n - 1]);
        }
        assert forall|a: int, c: int| 0 <= a < c < n - 1 implies #[trigger] p1[a] != #[trigger] p1[c] by {
            assert(p[a] != p[c]);
            assert(p[a] != j);
            assert(p[c] != j);
        }
        assert forall|i: int| 0 <= i < n - 1 implies #[trigger] t1[i] == s1[p1[i]] by {
            assert(t[i] == s[p[i]]);
            assert(p[i] != p[n - 1]);
        }
        lemma_permuted_multiset(s1, t1, p1);
        assert(t1.push(t[n - 1]) =~= t);
        assert(t[n - 1] == s[j]);
        assert(s.to_multiset().count(s[j]) > 0) by {
            assert(s.contains(s[j]));
        }
        assert(s.to_multiset() =~= s1.to_multiset().insert(s[j]));
    }
}

/// Key and value encodings per entry, when they all encode.
proof fn lemma_ser_items_ok_each(items: Seq<Cbor>, mode: Mode, budget: nat, limit: usize)
    requires
        ser_items(items, mode, budget, limit) is Ok,
    ensures
        forall|i: int| 0 <= i < items.len() ==> ser_item(#[trigger] items[i], mode, budget, limit) is Ok,
    decreases items.len(),
{
    if items.len() > 0 {
        lemma_ser_items_ok_each(items.drop_last(), mode, budget, limit);
        assert forall|i: int| 0 <= i < items.len() implies ser_item(#[trigger] items[i], mode, budget, limit) is Ok by {
            if i < items.len() - 1 {
                assert(items.drop_last()[i] == items[i]);
            }
        }
    }
}

/// Items that serialize one by one to the same bytes serialize together to
/// the same bytes.
proof fn lemma_ser_items_pointwise(xs: Seq<Cbor>, ys: Seq<Cbor>, mode: Mode, budget: nat, limit: usize)
    requires
        xs.len() == ys.len(),
        forall|i: int|
            0 <= i < xs.len() ==> ser_item(#[trigger] ys[i], mode, budget, limit) == ser_item(
                xs[i],
                mode,
                budget,
                limit,
            ),
    ensures
        ser_items(ys, mode, budget, limit) == ser_items(xs, mode, budget, limit),
    decreases xs.len(),
{
    if xs.len() > 0 {
        assert forall|i: int| 0 <= i < xs.len() - 1 implies ser_item(
            #[trigger] ys.drop_last()[i],
            mode,
            budget,
            limit,
        ) == ser_item(xs.drop_last()[i], mode, budget, limit) by {
            assert(ys.drop_last()[i] == ys[i]);
            assert(xs.drop_last()[i] == xs[i]);
        }
        lemma_ser_items_pointwise(xs.drop_last(), ys.drop_last(), mode, budget, limit);
        assert(ser_item(ys[ys.len() - 1], mode, budget, limit) == ser_item(xs[xs.len() - 1], mode, budget, limit));
    }
}

/// Reordering map entries anywhere leaves a deterministic serialization
/// unchanged.
proof fn lemma_reordered_det(v: Cbor, w: Cbor, budget: nat, limit: usize)
    requires
        reordered(v, w),
        ser_item(v, Mode::Det, budget, limit) is Ok,
    ensures
        ser_item(w, Mode::Det, budget, limit) == ser_item(v, Mode::Det, budget, limit),
    decreases v,
{
    match v {
        Cbor::Array(xs) => {
            let ys = w->Array_0;
            let b1 = (budget - 1) as nat;
            lemma_ser_items_ok_each(xs, Mode::Det, b1, limit);
            assert forall|i: int| 0 <= i < xs.len() implies ser_item(#[trigger] ys[i], Mode::Det, b1, limit)
                == ser_item(xs[i], Mode::Det, b1, limit) by {
                assert(reordered(v->Array_0[i], ys[i]));
                lemma_reordered_det(xs[i], ys[i], b1, limit);
            }
            lemma_ser_items_pointwise(xs, ys, Mode::Det, b1, limit);
        },
        Cbor::Tagged(t, x) => {
            lemma_reordered_det(*x, *w->Tagged_1, (budget - 1) as nat, limit);
        },
        Cbor::CborMap(es) => {
            broadcast use vstd::seq_lib::group_to_multiset_ensures;

            let fs = w->CborMap_0;
            let b1 = (budget - 1) as nat;
            let f = |e: (Cbor, Cbor)| encoded_entry(e, b1, limit);
            let p = choose|p: Seq<int>|
                is_permutation(p, es.len()) && forall|i: int|
                    0 <= i < fs.len() ==> 0 <= p[i] < es.len() && reordered(
                        es[p[i]].0,
                        (#[trigger] fs[i]).0,
                    ) && reordered(es[p[i]].1, fs[i].1);
            lemma_ser_entries_each(es, Mode::Det, b1, limit);
            assert forall|i: int| 0 <= i < es.len() implies ser_item(
                (#[trigger] es[i]).0,
                Mode::Det,
                b1,
                limit,
            ) is Ok && ser_item(es[i].1, Mode::Det, b1, limit) is Ok by {}
            assert forall|i: int| 0 <= i < fs.len() implies ser_item(
                (#[trigger] fs[i]).0,
                Mode::Det,
                b1,
                limit,
            ) == ser_item(es[p[i]].0, Mode::Det, b1, limit) && ser_item(fs[i].1, Mode::Det, b1, limit)
                == ser_item(es[p[i]].1, Mode::Det, b1, limit) by {
                let j = p[i];
                assert(v->CborMap_0[j] == es[j]);
                lemma_reordered_det(es[j].0, fs[i].0, b1, limit);
                lemma_reordered_det(es[j].1, fs[i].1, b1, limit);
            }
            lemma_ser_entries_each_ok(es, b1, limit);
            lemma_ser_entries_each_ok(fs, b1, limit);
            let e1 = es.map_values(f);
            let e2 = fs.map_values(f);
            assert forall|i: int| 0 <= i < e2.len() implies #[trigger] e2[i] == e1[p[i]] by {}
            lemma_permuted_multiset(e1, e2, p);
            lemma_sort_entries_multiset(e1);
            lemma_sort_entries_multiset(e2);
            lemma_sort_entries_facts(e1);
            lemma_sort_entries_facts(e2);
            assert(!has_adjacent_duplicate(sort_entries(e1)));
            lemma_strictly_ascend(sort_entries(e1));
            lemma_sorted_unique(sort_entries(e1), sort_entries(e2));
        },
        _ => {},
    }
}

/// Giving the entries of maps, at any depth, in another order changes
/// neither whether a deterministic serialization succeeds nor the bytes it
/// writes.
pub proof fn law_det_serialization_ignores_map_order(v: Cbor, w: Cbor, max_depth: usize)
    requires
        reordered(v, w),
    ensures
        serialization(w, Mode::Det, max_depth) is Ok <==> serialization(v, Mode::Det, max_depth) is Ok,
        serialization(v, Mode::Det, max_depth) is Ok ==> serialization(w, Mode::Det, max_depth)
            == serialization(v, Mode::Det, max_depth),
{
    if serialization(v, Mode::Det, max_depth) is Ok {
        lemma_reordered_det(v, w, max_depth as nat, max_depth);
    }
    if serialization(w, Mode::Det, max_depth) is Ok {
        lemma_reordered_symmetric(v, w);
        lemma_reordered_det(w, v, max_depth as nat, max_depth);
    }
}

} // verus!
