//! What the set operations emit, stated key by key: the order of the keys,
//! which keys appear, and the occurrences listed with each.

use vstd::prelude::*;

use crate::keys::{lex_le, lex_lt, lemma_lex_asymmetric, lemma_lex_irreflexive, lemma_lex_transitive};
use crate::merge::{
    advance, all_sorted, difference_spec, has_head, heads, heads_upto, holds_key, in_any,
    intersection_spec, key_group, min_head, min_slot, pop_stream, slot_le, sorted_keys,
    symmetric_difference_spec, total, union_spec, lemma_advance_shrinks, lemma_advance_sorted,
    lemma_min_head_upto, lemma_min_slot, lemma_pop_sorted, lemma_total_drop,
};
use crate::ops::IndexedValue;

verus! {

/// The value paired with the first occurrence of key `k` in stream `s`
/// (in a sorted stream, its only one).
pub open spec fn value_of(s: Seq<(Seq<u8>, u64)>, k: Seq<u8>) -> u64
    decreases s.len(),
{
    if s.len() == 0 {
        0
    } else if s[0].0 == k {
        s[0].1
    } else {
        value_of(s.drop_first(), k)
    }
}

/// For each of the first `n` streams that holds `k`, in stream order, the
/// stream's index and the value paired with `k` in it.
pub open spec fn occurrences_upto(r: Seq<Seq<(Seq<u8>, u64)>>, k: Seq<u8>, n: int) -> Seq<IndexedValue>
    decreases n,
{
    if n <= 0 {
        Seq::empty()
    } else if holds_key(r[n - 1], k) {
        occurrences_upto(r, k, n - 1).push(IndexedValue { index: (n - 1) as usize, value: value_of(r[n - 1], k) })
    } else {
        occurrences_upto(r, k, n - 1)
    }
}

/// Every occurrence of key `k` in the streams, in stream order.
pub open spec fn occurrences(r: Seq<Seq<(Seq<u8>, u64)>>, k: Seq<u8>) -> Seq<IndexedValue> {
    occurrences_upto(r, k, r.len() as int)
}

/// `iv` is an occurrence of key `k`: stream `iv.index` holds `k`, paired
/// with `iv.value`.
pub open spec fn is_occurrence(r: Seq<Seq<(Seq<u8>, u64)>>, k: Seq<u8>, iv: IndexedValue) -> bool {
    &&& iv.index < r.len()
    &&& holds_key(r[iv.index as int], k)
    &&& iv.value == value_of(r[iv.index as int], k)
}

/// Occurrence `a` comes before occurrence `b`: a lesser value, or the same
/// value in a stream of a lower index.
pub open spec fn occurrence_lt(a: IndexedValue, b: IndexedValue) -> bool {
    a.value < b.value || (a.value == b.value && a.index < b.index)
}

/// `outs` lists every occurrence of key `k` once, by ascending value and,
/// on a tie, ascending stream index.
pub open spec fn lists_occurrences(r: Seq<Seq<(Seq<u8>, u64)>>, k: Seq<u8>, outs: Seq<IndexedValue>) -> bool {
    &&& forall|a: int, b: int| 0 <= a < b < outs.len() ==> occurrence_lt(#[trigger] outs[a], #[trigger] outs[b])
    &&& forall|iv: IndexedValue| #[trigger] outs.contains(iv) <==> is_occurrence(r, k, iv)
}

/// The keys of an operation's output strictly increase.
pub open spec fn keys_increase(out: Seq<(Seq<u8>, Seq<IndexedValue>)>) -> bool {
    forall|i: int, j: int| 0 <= i < j < out.len() ==> lex_lt(#[trigger] out[i].0, #[trigger] out[j].0)
}

/// Key `k` is emitted by the output.
pub open spec fn emits(out: Seq<(Seq<u8>, Seq<IndexedValue>)>, k: Seq<u8>) -> bool {
    exists|i: int| 0 <= i < out.len() && #[trigger] out[i].0 == k
}

/// In a sorted stream a key sits at one place only.
pub proof fn lemma_value_of(s: Seq<(Seq<u8>, u64)>, k: Seq<u8>, p: int)
    requires
        sorted_keys(s),
        0 <= p < s.len(),
        s[p].0 == k,
    ensures
        value_of(s, k) == s[p].1,
    decreases s.len(),
{
    if p > 0 {
        assert(lex_lt(s[0].0, s[p].0));
        lemma_lex_irreflexive(k);
        let t = s.drop_first();
        assert(sorted_keys(t)) by {
            assert forall|a: int, b: int| 0 <= a < b < t.len() implies lex_lt(#[trigger] t[a].0, #[trigger] t[b].0) by {
                assert(t[a] == s[a + 1] && t[b] == s[b + 1]);
            }
        }
        lemma_value_of(t, k, p - 1);
    }
}

/// In a sorted stream the first key is not after any other.
proof fn lemma_head_least(s: Seq<(Seq<u8>, u64)>, j: int)
    requires
        sorted_keys(s),
        0 <= j < s.len(),
    ensures
        lex_le(s[0].0, s[j].0),
{
}

/// One step of a merge: the least head `k` is held exactly by the streams
/// that are about to emit it, advancing past it changes nothing of the
/// other keys, and every key left comes after it.
proof fn lemma_step(r: Seq<Seq<(Seq<u8>, u64)>>, k: Seq<u8>)
    requires
        all_sorted(r),
        min_head(r) == Some(k),
    ensures
        forall|i: int| 0 <= i < r.len() ==> (holds_key(#[trigger] r[i], k) <==> has_head(r, i, k)),
        heads(r, k) == occurrences(r, k).len(),
        in_any(r, k),
        forall|k2: Seq<u8>, iv: IndexedValue|
            k2 != k ==> (#[trigger] is_occurrence(advance(r, k), k2, iv) <==> is_occurrence(r, k2, iv)),
        forall|k2: Seq<u8>| k2 != k ==> #[trigger] occurrences(advance(r, k), k2) == occurrences(r, k2),
        forall|k2: Seq<u8>| k2 != k ==> (#[trigger] in_any(advance(r, k), k2) <==> in_any(r, k2)),
        forall|i: int, j: int|
            0 <= i < advance(r, k).len() && 0 <= j < advance(r, k)[i].len() ==> lex_lt(k, #[trigger] advance(r, k)[i][j].0),
        all_sorted(advance(r, k)),
        total(advance(r, k)) < total(r),
{
    lemma_min_head_upto(r, r.len() as int);
    lemma_advance_sorted(r, k);
    lemma_advance_shrinks(r, k);
    let a = advance(r, k);
    // a stream holds `k` exactly when it is about to emit it
    assert forall|i: int| 0 <= i < r.len() implies (holds_key(#[trigger] r[i], k) <==> has_head(r, i, k)) by {
        if holds_key(r[i], k) {
            let j = choose|j: int| 0 <= j < r[i].len() && #[trigger] r[i][j].0 == k;
            assert(sorted_keys(r[i]));
            if j > 0 {
                assert(lex_lt(r[i][0].0, r[i][j].0));
                assert(lex_le(k, r[i][0].0));
                lemma_lex_asymmetric(k, r[i][0].0);
                lemma_lex_irreflexive(k);
            }
        }
        if has_head(r, i, k) {
            assert(r[i][0].0 == k);
        }
    }
    lemma_heads_is_count(r, k, r.len() as int);
    let w = choose|i: int| 0 <= i < r.len() && has_head(r, i, k);
    assert(holds_key(r[w], k));
    // advancing keeps every other key, at its place and with its value
    assert forall|i: int, k2: Seq<u8>| 0 <= i < r.len() && k2 != k implies
        (#[trigger] holds_key(a[i], k2) <==> holds_key(r[i], k2))
        && (holds_key(r[i], k2) ==> value_of(a[i], k2) == value_of(r[i], k2)) by {
        assert(sorted_keys(r[i]));
        assert(sorted_keys(a[i]));
        if has_head(r, i, k) {
            if holds_key(a[i], k2) {
                let j = choose|j: int| 0 <= j < a[i].len() && #[trigger] a[i][j].0 == k2;
                assert(a[i][j] == r[i][j + 1]);
            }
            if holds_key(r[i], k2) {
                let j = choose|j: int| 0 <= j < r[i].len() && #[trigger] r[i][j].0 == k2;
                assert(j != 0);
                assert(a[i][j - 1] == r[i][j]);
                lemma_value_of(r[i], k2, j);
                lemma_value_of(a[i], k2, j - 1);
            }
        }
    }
    assert forall|k2: Seq<u8>, iv: IndexedValue| k2 != k implies (#[trigger] is_occurrence(a, k2, iv) <==> is_occurrence(r, k2, iv)) by {
        if iv.index < r.len() {
            assert(holds_key(a[iv.index as int], k2) <==> holds_key(r[iv.index as int], k2));
        }
    }
    assert forall|k2: Seq<u8>| k2 != k implies #[trigger] occurrences(a, k2) == occurrences(r, k2) by {
        lemma_occurrences_same(a, r, k, k2, r.len() as int);
    }
    assert forall|k2: Seq<u8>| k2 != k implies (#[trigger] in_any(a, k2) <==> in_any(r, k2)) by {
        if in_any(a, k2) {
            let i = choose|i: int| 0 <= i < a.len() && holds_key(#[trigger] a[i], k2);
            assert(holds_key(r[i], k2));
        }
        if in_any(r, k2) {
            let i = choose|i: int| 0 <= i < r.len() && holds_key(#[trigger] r[i], k2);
            assert(holds_key(a[i], k2));
        }
    }
    // every key left comes after `k`
    assert forall|i: int, j: int| 0 <= i < a.len() && 0 <= j < a[i].len() implies lex_lt(k, #[trigger] a[i][j].0) by {
        assert(sorted_keys(r[i]));
        if has_head(r, i, k) {
            assert(a[i][j] == r[i][j + 1]);
            assert(lex_lt(r[i][0].0, r[i][j + 1].0));
        } else {
            assert(a[i] == r[i]);
            assert(lex_le(k, r[i][0].0));
            lemma_head_least(r[i], j);
            if lex_lt(k, r[i][0].0) && lex_lt(r[i][0].0, r[i][j].0) {
                lemma_lex_transitive(k, r[i][0].0, r[i][j].0);
            }
        }
    }
}

proof fn lemma_heads_is_count(r: Seq<Seq<(Seq<u8>, u64)>>, k: Seq<u8>, n: int)
    requires
        0 <= n <= r.len(),
        forall|i: int| 0 <= i < r.len() ==> (holds_key(#[trigger] r[i], k) <==> has_head(r, i, k)),
    ensures
        heads_upto(r, k, n) == occurrences_upto(r, k, n).len(),
    decreases n,
{
    if n > 0 {
        lemma_heads_is_count(r, k, n - 1);
        assert(holds_key(r[n - 1], k) <==> has_head(r, n - 1, k));
    }
}

/// The group of a key that every stream holding it is about to emit lists
/// all its occurrences, by ascending value and then ascending stream index.
pub proof fn lemma_key_group_law(r: Seq<Seq<(Seq<u8>, u64)>>, k: Seq<u8>)
    requires
        all_sorted(r),
        r.len() <= usize::MAX,
        forall|i: int| 0 <= i < r.len() ==> (holds_key(#[trigger] r[i], k) ==> has_head(r, i, k)),
    ensures
        lists_occurrences(r, k, key_group(r, k)),
    decreases total(r),
{
    lemma_min_slot(r, k);
    let g = key_group(r, k);
    match min_slot(r, k) {
        None => {
            assert(g =~= Seq::<IndexedValue>::empty());
            assert forall|iv: IndexedValue| #[trigger] g.contains(iv) <==> is_occurrence(r, k, iv) by {
                if is_occurrence(r, k, iv) {
                    assert(has_head(r, iv.index as int, k));
                }
            }
        },
        Some(m) => {
            lemma_total_drop(r, m);
            lemma_pop_sorted(r, m);
            let p = pop_stream(r, m);
            assert(sorted_keys(r[m]));
            assert forall|i: int| 0 <= i < p.len() implies (holds_key(#[trigger] p[i], k) ==> has_head(p, i, k)) by {
                if i == m && holds_key(p[i], k) {
                    let j = choose|j: int| 0 <= j < p[i].len() && #[trigger] p[i][j].0 == k;
                    assert(p[i][j] == r[m][j + 1]);
                    assert(lex_lt(r[m][0].0, r[m][j + 1].0));
                    lemma_lex_irreflexive(k);
                }
            }
            lemma_key_group_law(p, k);
            let first = IndexedValue { index: m as usize, value: r[m][0].1 };
            let rest = key_group(p, k);
            assert(g == seq![first] + rest);
            lemma_value_of(r[m], k, 0);
            assert(holds_key(r[m], k));
            assert(is_occurrence(r, k, first));
            // the occurrences left after stream `m` emitted `k` are the others
            assert forall|iv: IndexedValue| #[trigger] is_occurrence(p, k, iv) <==> (is_occurrence(r, k, iv) && iv.index != m) by {
                if iv.index < r.len() && iv.index != m {
                    assert(p[iv.index as int] == r[iv.index as int]);
                }
                if iv.index == m && holds_key(p[m], k) {
                    assert(has_head(p, m, k));
                    assert(p[m][0] == r[m][1]);
                    assert(lex_lt(r[m][0].0, r[m][1].0));
                    lemma_lex_irreflexive(k);
                }
            }
            // each of them comes after the first
            assert forall|b: int| 0 <= b < rest.len() implies occurrence_lt(first, #[trigger] rest[b]) by {
                assert(rest.contains(rest[b]));
                let iv = rest[b];
                let i = iv.index as int;
                assert(is_occurrence(r, k, iv) && i != m);
                assert(has_head(r, i, k));
                assert(slot_le(r, m, i));
                assert(sorted_keys(r[i]));
                lemma_value_of(r[i], k, 0);
            }
            assert forall|a: int, b: int| 0 <= a < b < g.len() implies occurrence_lt(#[trigger] g[a], #[trigger] g[b]) by {
                if a == 0 {
                    assert(g[b] == rest[b - 1]);
                } else {
                    assert(g[a] == rest[a - 1] && g[b] == rest[b - 1]);
                }
            }
            assert forall|iv: IndexedValue| #[trigger] g.contains(iv) <==> is_occurrence(r, k, iv) by {
                if g.contains(iv) {
                    let j = choose|j: int| 0 <= j < g.len() && g[j] == iv;
                    if j > 0 {
                        assert(rest[j - 1] == iv);
                        assert(rest.contains(iv));
                    }
                }
                if is_occurrence(r, k, iv) {
                    if iv.index == m {
                        assert(iv == first);
                        assert(g[0] == first);
                    } else {
                        assert(rest.contains(iv));
                        let j = choose|j: int| 0 <= j < rest.len() && rest[j] == iv;
                        assert(g[j + 1] == iv);
                    }
                }
            }
        },
    }
}

proof fn lemma_occurrences_same(
    a: Seq<Seq<(Seq<u8>, u64)>>,
    r: Seq<Seq<(Seq<u8>, u64)>>,
    k: Seq<u8>,
    k2: Seq<u8>,
    n: int,
)
    requires
        0 <= n <= r.len(),
        a.len() == r.len(),
        k2 != k,
        forall|i: int, k3: Seq<u8>| 0 <= i < r.len() && k3 != k ==>
            (#[trigger] holds_key(a[i], k3) <==> holds_key(r[i], k3))
            && (holds_key(r[i], k3) ==> value_of(a[i], k3) == value_of(r[i], k3)),
    ensures
        occurrences_upto(a, k2, n) == occurrences_upto(r, k2, n),
    decreases n,
{
    if n > 0 {
        lemma_occurrences_same(a, r, k, k2, n - 1);
        assert(holds_key(a[n - 1], k2) <==> holds_key(r[n - 1], k2));
    }
}

/// The union emits, in strictly increasing order, every key that some
/// stream holds and no other, each with all its occurrences, by ascending
/// value and then ascending stream index.
pub proof fn lemma_union_law(r: Seq<Seq<(Seq<u8>, u64)>>)
    requires
        all_sorted(r),
        r.len() <= usize::MAX,
    ensures
        keys_increase(union_spec(r)),
        forall|k: Seq<u8>| #[trigger] emits(union_spec(r), k) <==> in_any(r, k),
        forall|i: int| 0 <= i < union_spec(r).len() ==> lists_occurrences(r, (#[trigger] union_spec(r)[i]).0, union_spec(r)[i].1),
    decreases total(r),
{
    let u = union_spec(r);
    match min_head(r) {
        None => {
            lemma_min_head_upto(r, r.len() as int);
            assert forall|k: Seq<u8>| #[trigger] emits(u, k) <==> in_any(r, k) by {
                if in_any(r, k) {
                    let i = choose|i: int| 0 <= i < r.len() && holds_key(#[trigger] r[i], k);
                    assert(r[i].len() == 0);
                }
            }
        },
        Some(k) => {
            lemma_step(r, k);
            let a = advance(r, k);
            lemma_union_law(a);
            let rest = union_spec(a);
            assert(u == seq![(k, key_group(r, k))] + rest);
            lemma_emitted_after(rest, a, k);
            assert forall|i: int, j: int| 0 <= i < j < u.len() implies lex_lt(#[trigger] u[i].0, #[trigger] u[j].0) by {
                if i > 0 {
                    assert(u[i] == rest[i - 1] && u[j] == rest[j - 1]);
                } else {
                    assert(u[j] == rest[j - 1]);
                    assert(emits(rest, rest[j - 1].0));
                }
            }
            assert forall|k2: Seq<u8>| #[trigger] emits(u, k2) <==> in_any(r, k2) by {
                if emits(u, k2) {
                    let i = choose|i: int| 0 <= i < u.len() && #[trigger] u[i].0 == k2;
                    if i > 0 {
                        assert(u[i] == rest[i - 1]);
                        assert(emits(rest, k2));
                        lemma_lex_irreflexive(k);
                    }
                }
                if in_any(r, k2) {
                    if k2 == k {
                        assert(u[0].0 == k);
                    } else {
                        assert(in_any(a, k2));
                        assert(emits(rest, k2));
                        let i = choose|i: int| 0 <= i < rest.len() && #[trigger] rest[i].0 == k2;
                        assert(u[i + 1] == rest[i]);
                    }
                }
            }
            lemma_key_group_law(r, k);
            assert forall|i: int| 0 <= i < u.len() implies lists_occurrences(r, (#[trigger] u[i]).0, u[i].1) by {
                if i > 0 {
                    assert(u[i] == rest[i - 1]);
                    assert(emits(rest, rest[i - 1].0));
                    lemma_lex_irreflexive(k);
                    lemma_lists_occurrences_advance(r, k, u[i].0, u[i].1);
                }
            }
        },
    }
}

/// A listing of the occurrences of a key other than `k` after the streams
/// advanced past `k` lists them before, too.
proof fn lemma_lists_occurrences_advance(r: Seq<Seq<(Seq<u8>, u64)>>, k: Seq<u8>, k2: Seq<u8>, outs: Seq<IndexedValue>)
    requires
        k2 != k,
        forall|k3: Seq<u8>, iv: IndexedValue|
            k3 != k ==> (#[trigger] is_occurrence(advance(r, k), k3, iv) <==> is_occurrence(r, k3, iv)),
        lists_occurrences(advance(r, k), k2, outs),
    ensures
        lists_occurrences(r, k2, outs),
{
    assert forall|iv: IndexedValue| #[trigger] outs.contains(iv) <==> is_occurrence(r, k2, iv) by {
        assert(is_occurrence(advance(r, k), k2, iv) <==> is_occurrence(r, k2, iv));
    }
}

/// Whatever an output over streams whose keys all come after `k` emits
/// comes after `k`.
proof fn lemma_emitted_after(out: Seq<(Seq<u8>, Seq<IndexedValue>)>, a: Seq<Seq<(Seq<u8>, u64)>>, k: Seq<u8>)
    requires
        forall|k2: Seq<u8>| #[trigger] emits(out, k2) ==> in_any(a, k2),
        forall|i: int, j: int| 0 <= i < a.len() && 0 <= j < a[i].len() ==> lex_lt(k, #[trigger] a[i][j].0),
    ensures
        forall|k2: Seq<u8>| #[trigger] emits(out, k2) ==> lex_lt(k, k2),
{
    assert forall|k2: Seq<u8>| #[trigger] emits(out, k2) implies lex_lt(k, k2) by {
        assert(in_any(a, k2));
        let i = choose|i: int| 0 <= i < a.len() && holds_key(#[trigger] a[i], k2);
        let j = choose|j: int| 0 <= j < a[i].len() && #[trigger] a[i][j].0 == k2;
        assert(lex_lt(k, a[i][j].0));
    }
}

/// Stream counts: as many occurrences as streams exactly when every
/// stream holds the key, and some occurrence exactly when some stream does.
proof fn lemma_occurrences_count(r: Seq<Seq<(Seq<u8>, u64)>>, k: Seq<u8>, n: int)
    requires
        0 <= n <= r.len(),
    ensures
        occurrences_upto(r, k, n).len() <= n,
        occurrences_upto(r, k, n).len() == n <==> forall|i: int| 0 <= i < n ==> holds_key(#[trigger] r[i], k),
        occurrences_upto(r, k, n).len() > 0 <==> exists|i: int| 0 <= i < n && holds_key(#[trigger] r[i], k),
    decreases n,
{
    if n > 0 {
        lemma_occurrences_count(r, k, n - 1);
        if exists|i: int| 0 <= i < n && holds_key(#[trigger] r[i], k) {
            let i = choose|i: int| 0 <= i < n && holds_key(#[trigger] r[i], k);
            if i < n - 1 {
                assert(exists|i: int| 0 <= i < n - 1 && holds_key(#[trigger] r[i], k));
            }
        }
        if occurrences_upto(r, k, n).len() == n {
            assert forall|i: int| 0 <= i < n implies holds_key(#[trigger] r[i], k) by {
                if i < n - 1 {
                    assert(occurrences_upto(r, k, n - 1).len() == n - 1);
                }
            }
        }
    }
}

/// Every stream of a non-empty group holds `k`.
pub open spec fn in_all(r: Seq<Seq<(Seq<u8>, u64)>>, k: Seq<u8>) -> bool {
    &&& r.len() > 0
    &&& forall|i: int| 0 <= i < r.len() ==> holds_key(#[trigger] r[i], k)
}

/// The intersection emits, in strictly increasing order, exactly the keys
/// that every stream holds (there being at least one stream), each with
/// all its occurrences, by ascending value and then ascending stream index.
pub proof fn lemma_intersection_law(r: Seq<Seq<(Seq<u8>, u64)>>)
    requires
        all_sorted(r),
        r.len() <= usize::MAX,
    ensures
        keys_increase(intersection_spec(r)),
        forall|k: Seq<u8>| #[trigger] emits(intersection_spec(r), k) <==> in_all(r, k),
        forall|i: int|
            0 <= i < intersection_spec(r).len() ==> lists_occurrences(
                r,
                (#[trigger] intersection_spec(r)[i]).0,
                intersection_spec(r)[i].1,
            ),
    decreases total(r),
{
    let u = intersection_spec(r);
    match min_head(r) {
        None => {
            lemma_min_head_upto(r, r.len() as int);
            assert forall|k: Seq<u8>| #[trigger] emits(u, k) <==> in_all(r, k) by {
                if in_all(r, k) {
                    assert(holds_key(r[0], k));
                }
            }
        },
        Some(k) => {
            lemma_step(r, k);
            let a = advance(r, k);
            lemma_intersection_law(a);
            let rest = intersection_spec(a);
            lemma_occurrences_count(r, k, r.len() as int);
            let cond = heads(r, k) == r.len();
            assert(cond <==> in_all(r, k));
            assert(u == if cond { seq![(k, key_group(r, k))] + rest } else { rest });
            assert forall|k2: Seq<u8>| #[trigger] emits(rest, k2) ==> in_any(a, k2) by {
                if emits(rest, k2) {
                    assert(in_all(a, k2));
                    assert(holds_key(a[0], k2));
                }
            }
            lemma_emitted_after(rest, a, k);
            assert forall|k2: Seq<u8>| k2 != k implies (in_all(a, k2) <==> in_all(r, k2)) by {
                lemma_occurrences_count(r, k2, r.len() as int);
                lemma_occurrences_count(a, k2, a.len() as int);
                assert(occurrences(a, k2) == occurrences(r, k2));
                assert(a.len() == r.len());
            }
            lemma_filtered_law(u, rest, k, key_group(r, k), cond);
            assert forall|k2: Seq<u8>| #[trigger] emits(u, k2) <==> in_all(r, k2) by {
                if k2 != k {
                    assert(emits(u, k2) <==> emits(rest, k2));
                } else {
                    lemma_lex_irreflexive(k);
                    assert(!emits(rest, k));
                }
            }
            lemma_key_group_law(r, k);
            assert forall|i: int| 0 <= i < u.len() implies lists_occurrences(r, (#[trigger] u[i]).0, u[i].1) by {
                if !cond || i > 0 {
                    let i2 = if cond { i - 1 } else { i };
                    assert(u[i] == rest[i2]);
                    assert(emits(rest, rest[i2].0));
                    lemma_lex_irreflexive(k);
                    lemma_lists_occurrences_advance(r, k, u[i].0, u[i].1);
                }
            }
        },
    }
}

/// The symmetric difference emits, in strictly increasing order, exactly
/// the keys that an odd number of streams hold, each with all its
/// occurrences, by ascending value and then ascending stream index.
pub proof fn lemma_symmetric_difference_law(r: Seq<Seq<(Seq<u8>, u64)>>)
    requires
        all_sorted(r),
        r.len() <= usize::MAX,
    ensures
        keys_increase(symmetric_difference_spec(r)),
        forall|k: Seq<u8>| #[trigger] emits(symmetric_difference_spec(r), k) <==> occurrences(r, k).len() % 2 == 1,
        forall|i: int|
            0 <= i < symmetric_difference_spec(r).len() ==> lists_occurrences(
                r,
                (#[trigger] symmetric_difference_spec(r)[i]).0,
                symmetric_difference_spec(r)[i].1,
            ),
    decreases total(r),
{
    let u = symmetric_difference_spec(r);
    match min_head(r) {
        None => {
            lemma_min_head_upto(r, r.len() as int);
            assert forall|k: Seq<u8>| #[trigger] emits(u, k) <==> occurrences(r, k).len() % 2 == 1 by {
                lemma_occurrences_count(r, k, r.len() as int);
                if occurrences(r, k).len() > 0 {
                    let i = choose|i: int| 0 <= i < r.len() && holds_key(#[trigger] r[i], k);
                    assert(r[i].len() == 0);
                }
            }
        },
        Some(k) => {
            lemma_step(r, k);
            let a = advance(r, k);
            lemma_symmetric_difference_law(a);
            let rest = symmetric_difference_spec(a);
            let cond = heads(r, k) % 2 == 1;
            assert(u == if cond { seq![(k, key_group(r, k))] + rest } else { rest });
            assert forall|k2: Seq<u8>| #[trigger] emits(rest, k2) ==> in_any(a, k2) by {
                if emits(rest, k2) {
                    lemma_occurrences_count(a, k2, a.len() as int);
                    let i = choose|i: int| 0 <= i < a.len() && holds_key(#[trigger] a[i], k2);
                }
            }
            lemma_emitted_after(rest, a, k);
            lemma_filtered_law(u, rest, k, key_group(r, k), cond);
            assert forall|k2: Seq<u8>| #[trigger] emits(u, k2) <==> occurrences(r, k2).len() % 2 == 1 by {
                if k2 != k {
                    assert(emits(u, k2) <==> emits(rest, k2));
                } else {
                    lemma_lex_irreflexive(k);
                    assert(!emits(rest, k));
                }
            }
            lemma_key_group_law(r, k);
            assert forall|i: int| 0 <= i < u.len() implies lists_occurrences(r, (#[trigger] u[i]).0, u[i].1) by {
                if !cond || i > 0 {
                    let i2 = if cond { i - 1 } else { i };
                    assert(u[i] == rest[i2]);
                    assert(emits(rest, rest[i2].0));
                    lemma_lex_irreflexive(k);
                    lemma_lists_occurrences_advance(r, k, u[i].0, u[i].1);
                }
            }
        },
    }
}

/// An output that may start with key `k`, followed by an output whose keys
/// all come after `k`.
proof fn lemma_filtered_law(
    u: Seq<(Seq<u8>, Seq<IndexedValue>)>,
    rest: Seq<(Seq<u8>, Seq<IndexedValue>)>,
    k: Seq<u8>,
    g: Seq<IndexedValue>,
    cond: bool,
)
    requires
        u == if cond { seq![(k, g)] + rest } else { rest },
        keys_increase(rest),
        forall|k2: Seq<u8>| #[trigger] emits(rest, k2) ==> lex_lt(k, k2),
    ensures
        keys_increase(u),
        forall|k2: Seq<u8>| k2 != k ==> (#[trigger] emits(u, k2) <==> emits(rest, k2)),
        emits(u, k) <==> cond,
{
    lemma_lex_irreflexive(k);
    if cond {
        assert forall|i: int, j: int| 0 <= i < j < u.len() implies lex_lt(#[trigger] u[i].0, #[trigger] u[j].0) by {
            assert(u[j] == rest[j - 1]);
            if i > 0 {
                assert(u[i] == rest[i - 1]);
            } else {
                assert(emits(rest, rest[j - 1].0));
            }
        }
        assert forall|k2: Seq<u8>| k2 != k implies (#[trigger] emits(u, k2) <==> emits(rest, k2)) by {
            if emits(u, k2) {
                let i = choose|i: int| 0 <= i < u.len() && #[trigger] u[i].0 == k2;
                assert(u[i] == rest[i - 1]);
            }
            if emits(rest, k2) {
                let i = choose|i: int| 0 <= i < rest.len() && #[trigger] rest[i].0 == k2;
                assert(u[i + 1] == rest[i]);
            }
        }
        assert(u[0].0 == k);
    } else {
        if emits(rest, k) {
            let i = choose|i: int| 0 <= i < rest.len() && #[trigger] rest[i].0 == k;
            assert(emits(rest, rest[i].0));
        }
    }
}

/// The difference emits, in strictly increasing order, exactly the keys of
/// the first stream that no other stream holds, each with the single
/// occurrence `(0, value)` of its value in the first stream.
pub proof fn lemma_difference_law(first: Seq<(Seq<u8>, u64)>, others: Seq<Seq<(Seq<u8>, u64)>>)
    requires
        sorted_keys(first),
    ensures
        keys_increase(difference_spec(first, others)),
        forall|k: Seq<u8>| #[trigger] emits(difference_spec(first, others), k) <==> (holds_key(first, k) && !in_any(others, k)),
        forall|i: int|
            0 <= i < difference_spec(first, others).len() ==> (#[trigger] difference_spec(first, others)[i]).1
                == seq![IndexedValue { index: 0, value: value_of(first, difference_spec(first, others)[i].0) }],
    decreases first.len(),
{
    let d = difference_spec(first, others);
    if first.len() > 0 {
        let k = first[0].0;
        let t = first.drop_first();
        assert(sorted_keys(t)) by {
            assert forall|a: int, b: int| 0 <= a < b < t.len() implies lex_lt(#[trigger] t[a].0, #[trigger] t[b].0) by {
                assert(t[a] == first[a + 1] && t[b] == first[b + 1]);
            }
        }
        lemma_difference_law(t, others);
        let rest = difference_spec(t, others);
        let cond = !in_any(others, k);
        let g = seq![IndexedValue { index: 0, value: first[0].1 }];
        assert(d == if cond { seq![(k, g)] + rest } else { rest });
        assert forall|k2: Seq<u8>| #[trigger] emits(rest, k2) implies lex_lt(k, k2) by {
            let j = choose|j: int| 0 <= j < t.len() && #[trigger] t[j].0 == k2;
            assert(t[j] == first[j + 1]);
        }
        lemma_filtered_law(d, rest, k, g, cond);
        assert forall|k2: Seq<u8>| k2 != k implies (holds_key(first, k2) <==> holds_key(t, k2)) by {
            if holds_key(first, k2) {
                let j = choose|j: int| 0 <= j < first.len() && #[trigger] first[j].0 == k2;
                assert(t[j - 1] == first[j]);
            }
            if holds_key(t, k2) {
                let j = choose|j: int| 0 <= j < t.len() && #[trigger] t[j].0 == k2;
                assert(first[j + 1] == t[j]);
            }
        }
        assert forall|k2: Seq<u8>| #[trigger] emits(d, k2) <==> (holds_key(first, k2) && !in_any(others, k2)) by {
            if k2 == k {
                assert(first[0].0 == k);
                lemma_lex_irreflexive(k);
                assert(!emits(rest, k));
            }
        }
        assert forall|i: int| 0 <= i < d.len() implies (#[trigger] d[i]).1
            == seq![IndexedValue { index: 0, value: value_of(first, d[i].0) }] by {
            lemma_lex_irreflexive(k);
            if cond && i == 0 {
                lemma_value_of(first, k, 0);
            } else {
                let i2 = if cond { i - 1 } else { i };
                assert(d[i] == rest[i2]);
                assert(emits(rest, rest[i2].0));
                assert(rest[i2].0 != k);
                assert(first[0].0 != rest[i2].0);
                assert(value_of(first, rest[i2].0) == value_of(t, rest[i2].0));
            }
        }
    }
}

/// With two streams, the symmetric difference emits exactly the keys that
/// one stream holds and the other does not.
pub proof fn lemma_symmetric_difference_of_two(r: Seq<Seq<(Seq<u8>, u64)>>)
    requires
        all_sorted(r),
        r.len() == 2,
    ensures
        forall|k: Seq<u8>|
            #[trigger] emits(symmetric_difference_spec(r), k) <==> (holds_key(r[0], k) != holds_key(r[1], k)),
{
    lemma_symmetric_difference_law(r);
    assert forall|k: Seq<u8>|
        #[trigger] emits(symmetric_difference_spec(r), k) <==> (holds_key(r[0], k) != holds_key(r[1], k)) by {
        assert(occurrences(r, k) == occurrences_upto(r, k, 2));
        assert(occurrences_upto(r, k, 0).len() == 0);
        assert(occurrences_upto(r, k, 1).len() == if holds_key(r[0], k) { 1int } else { 0int });
        assert(occurrences_upto(r, k, 2).len() == occurrences_upto(r, k, 1).len() + if holds_key(r[1], k) { 1int } else { 0int });
    }
}

} // verus!
