//! The mathematical model of set operations over several ordered key
//! streams: what a union, an intersection, a difference and a symmetric
//! difference emit, one key at a time, in ascending key order.
//!
//! A stream is modelled by the sequence of `(key, value)` pairs it has yet
//! to emit; a group of streams by the sequence of those sequences, in the
//! order in which the streams were added.

use vstd::prelude::*;

use crate::keys::{lex_le, lex_lt, lemma_lex_asymmetric, lemma_lex_total, lemma_lex_transitive};
use crate::ops::IndexedValue;

verus! {

/// The keys of `s` strictly increase: the stream emits each key at most
/// once, in lexicographic order.
pub open spec fn sorted_keys(s: Seq<(Seq<u8>, u64)>) -> bool {
    forall|i: int, j: int| 0 <= i < j < s.len() ==> lex_lt(#[trigger] s[i].0, #[trigger] s[j].0)
}

/// Every stream of the group is sorted.
pub open spec fn all_sorted(r: Seq<Seq<(Seq<u8>, u64)>>) -> bool {
    forall|i: int| 0 <= i < r.len() ==> sorted_keys(#[trigger] r[i])
}

/// Stream `i` of the group is next about to emit key `k`.
pub open spec fn has_head(r: Seq<Seq<(Seq<u8>, u64)>>, i: int, k: Seq<u8>) -> bool {
    0 <= i < r.len() && r[i].len() > 0 && r[i][0].0 == k
}

/// The least key that one of the first `n` streams is about to emit.
pub open spec fn min_head_upto(r: Seq<Seq<(Seq<u8>, u64)>>, n: int) -> Option<Seq<u8>>
    decreases n,
{
    if n <= 0 {
        None
    } else {
        let m = min_head_upto(r, n - 1);
        if r[n - 1].len() == 0 {
            m
        } else {
            let h = r[n - 1][0].0;
            match m {
                None => Some(h),
                Some(k) => if lex_lt(h, k) {
                    Some(h)
                } else {
                    Some(k)
                },
            }
        }
    }
}

/// The least key that any stream of the group is about to emit; `None`
/// when every stream is exhausted.
pub open spec fn min_head(r: Seq<Seq<(Seq<u8>, u64)>>) -> Option<Seq<u8>> {
    min_head_upto(r, r.len() as int)
}

/// How many of the first `n` streams are about to emit `k`.
pub open spec fn heads_upto(r: Seq<Seq<(Seq<u8>, u64)>>, k: Seq<u8>, n: int) -> nat
    decreases n,
{
    if n <= 0 {
        0
    } else {
        heads_upto(r, k, n - 1) + if has_head(r, n - 1, k) {
            1nat
        } else {
            0nat
        }
    }
}

/// How many streams are about to emit `k`.
pub open spec fn heads(r: Seq<Seq<(Seq<u8>, u64)>>, k: Seq<u8>) -> nat {
    heads_upto(r, k, r.len() as int)
}

/// Stream `j` comes before stream `i` among streams about to emit the same
/// key: its value is less, or the values are equal and its index is not
/// greater.
pub open spec fn slot_le(r: Seq<Seq<(Seq<u8>, u64)>>, j: int, i: int) -> bool {
    r[j][0].1 < r[i][0].1 || (r[j][0].1 == r[i][0].1 && j <= i)
}

/// Among the first `n` streams about to emit `k`, the first one in the
/// order of `slot_le`.
pub open spec fn min_slot_upto(r: Seq<Seq<(Seq<u8>, u64)>>, k: Seq<u8>, n: int) -> Option<int>
    decreases n,
{
    if n <= 0 {
        None
    } else {
        let m = min_slot_upto(r, k, n - 1);
        if !has_head(r, n - 1, k) {
            m
        } else {
            match m {
                None => Some(n - 1),
                Some(j) => if r[n - 1][0].1 < r[j][0].1 {
                    Some(n - 1)
                } else {
                    Some(j)
                },
            }
        }
    }
}

/// The stream about to emit `k` with the least value, the lowest index on
/// a tie; `None` when no stream is about to emit `k`.
pub open spec fn min_slot(r: Seq<Seq<(Seq<u8>, u64)>>, k: Seq<u8>) -> Option<int> {
    min_slot_upto(r, k, r.len() as int)
}

/// The group after stream `i` has emitted its next pair.
pub open spec fn pop_stream(r: Seq<Seq<(Seq<u8>, u64)>>, i: int) -> Seq<Seq<(Seq<u8>, u64)>> {
    r.update(i, r[i].drop_first())
}

/// The occurrences of key `k` at the heads of the streams, each as the
/// stream's index and the value paired with `k` there, by ascending value
/// and, on a tie, ascending index: the order in which a merge takes them.
pub open spec fn key_group(r: Seq<Seq<(Seq<u8>, u64)>>, k: Seq<u8>) -> Seq<IndexedValue>
    decreases total(r),
{
    match min_slot(r, k) {
        None => Seq::empty(),
        Some(i) => {
            proof {
                lemma_min_slot(r, k);
                lemma_total_drop(r, i);
            }
            seq![IndexedValue { index: i as usize, value: r[i][0].1 }] + key_group(pop_stream(r, i), k)
        },
    }
}

/// What `min_slot_upto` is: `None` exactly when none of the first `n`
/// streams is about to emit `k`, else one that is and comes before every
/// other that is.
pub proof fn lemma_min_slot_upto(r: Seq<Seq<(Seq<u8>, u64)>>, k: Seq<u8>, n: int)
    requires
        0 <= n <= r.len(),
    ensures
        min_slot_upto(r, k, n) is None <==> forall|i: int| 0 <= i < n ==> !#[trigger] has_head(r, i, k),
        min_slot_upto(r, k, n) is Some ==> {
            let j = min_slot_upto(r, k, n)->0;
            &&& 0 <= j < n
            &&& has_head(r, j, k)
            &&& forall|i: int| 0 <= i < n && #[trigger] has_head(r, i, k) ==> slot_le(r, j, i)
        },
    decreases n,
{
    if n > 0 {
        lemma_min_slot_upto(r, k, n - 1);
    }
}

/// What `min_slot` is.
pub proof fn lemma_min_slot(r: Seq<Seq<(Seq<u8>, u64)>>, k: Seq<u8>)
    ensures
        min_slot(r, k) is None <==> forall|i: int| 0 <= i < r.len() ==> !#[trigger] has_head(r, i, k),
        min_slot(r, k) is Some ==> {
            let j = min_slot(r, k)->0;
            &&& 0 <= j < r.len()
            &&& has_head(r, j, k)
            &&& forall|i: int| 0 <= i < r.len() && #[trigger] has_head(r, i, k) ==> slot_le(r, j, i)
        },
{
    lemma_min_slot_upto(r, k, r.len() as int);
}

/// A stream about to emit `k` that comes before every other one is the
/// one `min_slot` picks.
pub proof fn lemma_min_slot_is(r: Seq<Seq<(Seq<u8>, u64)>>, k: Seq<u8>, j: int)
    requires
        has_head(r, j, k),
        forall|i: int| 0 <= i < r.len() && #[trigger] has_head(r, i, k) ==> slot_le(r, j, i),
    ensures
        min_slot(r, k) == Some(j),
{
    lemma_min_slot(r, k);
    let j2 = min_slot(r, k)->0;
    assert(slot_le(r, j, j2));
    assert(slot_le(r, j2, j));
}

/// The group after every stream about to emit `k` has emitted it.
pub open spec fn advance(r: Seq<Seq<(Seq<u8>, u64)>>, k: Seq<u8>) -> Seq<Seq<(Seq<u8>, u64)>> {
    Seq::new(r.len(), |i: int| if has_head(r, i, k) { r[i].drop_first() } else { r[i] })
}

/// The number of pairs that the first `n` streams have yet to emit.
pub open spec fn total_upto(r: Seq<Seq<(Seq<u8>, u64)>>, n: int) -> nat
    decreases n,
{
    if n <= 0 {
        0
    } else {
        total_upto(r, n - 1) + r[n - 1].len()
    }
}

/// The number of pairs that the group has yet to emit.
pub open spec fn total(r: Seq<Seq<(Seq<u8>, u64)>>) -> nat {
    total_upto(r, r.len() as int)
}

/// What `min_head_upto` is: `None` exactly when the first `n` streams are
/// exhausted, else a key at the head of one of them and not after any of
/// their heads.
pub proof fn lemma_min_head_upto(r: Seq<Seq<(Seq<u8>, u64)>>, n: int)
    requires
        0 <= n <= r.len(),
    ensures
        min_head_upto(r, n) is None <==> (forall|i: int| 0 <= i < n ==> #[trigger] r[i].len() == 0),
        min_head_upto(r, n) is Some ==> exists|i: int|
            0 <= i < n && #[trigger] has_head(r, i, min_head_upto(r, n)->0),
        min_head_upto(r, n) is Some ==> forall|i: int|
            0 <= i < n && #[trigger] r[i].len() > 0 ==> lex_le(min_head_upto(r, n)->0, r[i][0].0),
    decreases n,
{
    if n > 0 {
        lemma_min_head_upto(r, n - 1);
        let m = min_head_upto(r, n - 1);
        if r[n - 1].len() > 0 {
            let h = r[n - 1][0].0;
            assert(has_head(r, n - 1, h));
            match m {
                None => {
                    assert(min_head_upto(r, n) == Some(h));
                    assert(min_head_upto(r, n)->0 == h);
                    assert(has_head(r, n - 1, min_head_upto(r, n)->0));
                    assert forall|i: int| 0 <= i < n && #[trigger] r[i].len() > 0 implies lex_le(h, r[i][0].0) by {
                        if i < n - 1 {
                            assert(r[i].len() == 0);
                        }
                    }
                },
                Some(k) => {
                    lemma_lex_total(h, k);
                    if lex_lt(h, k) {
                        assert(min_head_upto(r, n) == Some(h));
                        assert forall|i: int| 0 <= i < n && #[trigger] r[i].len() > 0 implies lex_le(h, r[i][0].0) by {
                            if i < n - 1 && lex_lt(k, r[i][0].0) {
                                lemma_lex_transitive(h, k, r[i][0].0);
                            }
                        }
                    } else {
                        assert(min_head_upto(r, n) == Some(k));
                        let w = choose|i: int| 0 <= i < n - 1 && has_head(r, i, k);
                        assert(0 <= w < n && has_head(r, w, k));
                        assert forall|i: int| 0 <= i < n && #[trigger] r[i].len() > 0 implies lex_le(k, r[i][0].0) by {
                            if i < n - 1 {
                                assert(lex_le(k, r[i][0].0));
                            }
                        }
                    }
                },
            }
        } else {
            match m {
                None => {
                    assert forall|i: int| 0 <= i < n implies #[trigger] r[i].len() == 0 by {}
                },
                Some(k) => {
                    assert(min_head_upto(r, n) == Some(k));
                    let w = choose|i: int| 0 <= i < n - 1 && has_head(r, i, k);
                    assert(0 <= w < n && has_head(r, w, k));
                    assert forall|i: int| 0 <= i < n && #[trigger] r[i].len() > 0 implies lex_le(k, r[i][0].0) by {
                        if i < n - 1 {
                            assert(lex_le(k, r[i][0].0));
                        }
                    }
                },
            }
        }
    }
}

/// A key at the head of some stream and not after any head is the
/// least head.
pub proof fn lemma_min_head_is(r: Seq<Seq<(Seq<u8>, u64)>>, i: int, k: Seq<u8>)
    requires
        has_head(r, i, k),
        forall|j: int| 0 <= j < r.len() && #[trigger] r[j].len() > 0 ==> lex_le(k, r[j][0].0),
    ensures
        min_head(r) == Some(k),
{
    lemma_min_head_upto(r, r.len() as int);
    let m = min_head(r);
    assert(r[i].len() > 0);
    if let Some(k2) = m {
        let j = choose|j: int| 0 <= j < r.len() && has_head(r, j, k2);
        assert(r[j].len() > 0);
        assert(lex_le(k, k2));
        assert(lex_le(k2, k));
        lemma_lex_asymmetric(k, k2);
    }
}

proof fn lemma_heads_upto(r: Seq<Seq<(Seq<u8>, u64)>>, k: Seq<u8>, n: int)
    requires
        0 <= n <= r.len(),
    ensures
        total_upto(advance(r, k), n) + heads_upto(r, k, n) == total_upto(r, n),
        (exists|i: int| 0 <= i < n && has_head(r, i, k)) ==> heads_upto(r, k, n) > 0,
        heads_upto(r, k, n) <= n,
    decreases n,
{
    if n > 0 {
        lemma_heads_upto(r, k, n - 1);
        if exists|i: int| 0 <= i < n && has_head(r, i, k) {
            let i = choose|i: int| 0 <= i < n && has_head(r, i, k);
            if i < n - 1 {
                assert(exists|i: int| 0 <= i < n - 1 && has_head(r, i, k));
            }
        }
    }
}

/// Advancing past the least head leaves fewer pairs to emit.
pub proof fn lemma_advance_shrinks(r: Seq<Seq<(Seq<u8>, u64)>>, k: Seq<u8>)
    requires
        min_head(r) == Some(k),
    ensures
        total(advance(r, k)) + heads(r, k) == total(r),
        0 < heads(r, k) <= r.len(),
        total(advance(r, k)) < total(r),
{
    lemma_min_head_upto(r, r.len() as int);
    lemma_heads_upto(r, k, r.len() as int);
}

/// Taking the next pair off a sorted stream about to emit `k` leaves one
/// stream fewer about to emit it.
proof fn lemma_heads_pop(r: Seq<Seq<(Seq<u8>, u64)>>, k: Seq<u8>, m: int, n: int)
    requires
        0 <= n <= r.len(),
        has_head(r, m, k),
        sorted_keys(r[m]),
    ensures
        heads_upto(pop_stream(r, m), k, n) + (if m < n { 1int } else { 0int }) == heads_upto(r, k, n),
    decreases n,
{
    if n > 0 {
        lemma_heads_pop(r, k, m, n - 1);
        if n - 1 == m && r[m].len() > 1 {
            assert(lex_lt(r[m][0].0, r[m][1].0));
            crate::keys::lemma_lex_irreflexive(k);
        }
    }
}

/// Taking the next pair off one stream keeps every stream sorted.
pub proof fn lemma_pop_sorted(r: Seq<Seq<(Seq<u8>, u64)>>, m: int)
    requires
        all_sorted(r),
        0 <= m < r.len(),
        r[m].len() > 0,
    ensures
        all_sorted(pop_stream(r, m)),
{
    assert forall|i: int| 0 <= i < r.len() implies sorted_keys(#[trigger] pop_stream(r, m)[i]) by {
        let s = pop_stream(r, m)[i];
        assert(sorted_keys(r[i]));
        if i == m {
            assert(s == r[i].drop_first());
            assert forall|a: int, b: int| 0 <= a < b < s.len() implies lex_lt(#[trigger] s[a].0, #[trigger] s[b].0) by {
                assert(s[a] == r[i][a + 1]);
                assert(s[b] == r[i][b + 1]);
            }
        }
    }
}

/// A key's group lists each stream about to emit it once.
pub proof fn lemma_key_group_len(r: Seq<Seq<(Seq<u8>, u64)>>, k: Seq<u8>)
    requires
        all_sorted(r),
    ensures
        key_group(r, k).len() == heads(r, k),
    decreases total(r),
{
    lemma_min_slot(r, k);
    match min_slot(r, k) {
        None => {
            lemma_heads_zero(r, k, r.len() as int);
        },
        Some(m) => {
            lemma_total_drop(r, m);
            lemma_pop_sorted(r, m);
            lemma_key_group_len(pop_stream(r, m), k);
            lemma_heads_pop(r, k, m, r.len() as int);
        },
    }
}

proof fn lemma_heads_zero(r: Seq<Seq<(Seq<u8>, u64)>>, k: Seq<u8>, n: int)
    requires
        0 <= n <= r.len(),
        forall|i: int| 0 <= i < r.len() ==> !#[trigger] has_head(r, i, k),
    ensures
        heads_upto(r, k, n) == 0,
    decreases n,
{
    if n > 0 {
        lemma_heads_zero(r, k, n - 1);
    }
}

/// Advancing keeps every stream sorted.
pub proof fn lemma_advance_sorted(r: Seq<Seq<(Seq<u8>, u64)>>, k: Seq<u8>)
    requires
        all_sorted(r),
    ensures
        all_sorted(advance(r, k)),
        advance(r, k).len() == r.len(),
{
    assert forall|i: int| 0 <= i < r.len() implies sorted_keys(#[trigger] advance(r, k)[i]) by {
        let s = advance(r, k)[i];
        assert forall|a: int, b: int| 0 <= a < b < s.len() implies lex_lt(#[trigger] s[a].0, #[trigger] s[b].0) by {
            if has_head(r, i, k) {
                assert(s[a] == r[i][a + 1]);
                assert(s[b] == r[i][b + 1]);
            }
        }
    }
}

} // verus!

verus! {

/// The keys a union emits, each with its occurrences in the streams, in
/// ascending key order.
pub open spec fn union_spec(r: Seq<Seq<(Seq<u8>, u64)>>) -> Seq<(Seq<u8>, Seq<IndexedValue>)>
    decreases total(r),
{
    match min_head(r) {
        None => Seq::empty(),
        Some(k) => {
            proof {
                lemma_advance_shrinks(r, k);
            }
            seq![(k, key_group(r, k))] + union_spec(advance(r, k))
        },
    }
}

/// The keys an intersection emits: those that every stream holds.
pub open spec fn intersection_spec(r: Seq<Seq<(Seq<u8>, u64)>>) -> Seq<(Seq<u8>, Seq<IndexedValue>)>
    decreases total(r),
{
    match min_head(r) {
        None => Seq::empty(),
        Some(k) => {
            proof {
                lemma_advance_shrinks(r, k);
            }
            if heads(r, k) == r.len() {
                seq![(k, key_group(r, k))] + intersection_spec(advance(r, k))
            } else {
                intersection_spec(advance(r, k))
            }
        },
    }
}

/// The keys a symmetric difference emits: those that an odd number of
/// streams hold.
pub open spec fn symmetric_difference_spec(r: Seq<Seq<(Seq<u8>, u64)>>) -> Seq<(Seq<u8>, Seq<IndexedValue>)>
    decreases total(r),
{
    match min_head(r) {
        None => Seq::empty(),
        Some(k) => {
            proof {
                lemma_advance_shrinks(r, k);
            }
            if heads(r, k) % 2 == 1 {
                seq![(k, key_group(r, k))] + symmetric_difference_spec(advance(r, k))
            } else {
                symmetric_difference_spec(advance(r, k))
            }
        },
    }
}

/// Stream `s` holds key `k`.
pub open spec fn holds_key(s: Seq<(Seq<u8>, u64)>, k: Seq<u8>) -> bool {
    exists|j: int| 0 <= j < s.len() && #[trigger] s[j].0 == k
}

/// Some stream of the group holds key `k`.
pub open spec fn in_any(r: Seq<Seq<(Seq<u8>, u64)>>, k: Seq<u8>) -> bool {
    exists|i: int| 0 <= i < r.len() && holds_key(#[trigger] r[i], k)
}

/// The pairs a difference emits: those of `first`, in order, whose key no
/// stream of `others` holds, each with the single occurrence `(0, value)`.
pub open spec fn difference_spec(first: Seq<(Seq<u8>, u64)>, others: Seq<Seq<(Seq<u8>, u64)>>) -> Seq<(Seq<u8>, Seq<IndexedValue>)>
    decreases first.len(),
{
    if first.len() == 0 {
        Seq::empty()
    } else {
        let rest = difference_spec(first.drop_first(), others);
        if in_any(others, first[0].0) {
            rest
        } else {
            seq![(first[0].0, seq![IndexedValue { index: 0, value: first[0].1 }])] + rest
        }
    }
}

} // verus!

verus! {

/// Stream `b` is stream `a` with a front part dropped whose keys are all
/// not after `k`.
pub open spec fn trimmed_upto(a: Seq<(Seq<u8>, u64)>, b: Seq<(Seq<u8>, u64)>, k: Seq<u8>) -> bool {
    &&& b.len() <= a.len()
    &&& b == a.skip(a.len() - b.len())
    &&& forall|j: int| 0 <= j < a.len() - b.len() ==> lex_le(#[trigger] a[j].0, k)
}

/// Every stream of `r1` is the same stream of `r0` trimmed up to `k`.
pub open spec fn all_trimmed_upto(r0: Seq<Seq<(Seq<u8>, u64)>>, r1: Seq<Seq<(Seq<u8>, u64)>>, k: Seq<u8>) -> bool {
    &&& r0.len() == r1.len()
    &&& forall|i: int| 0 <= i < r0.len() ==> trimmed_upto(#[trigger] r0[i], r1[i], k)
}

/// Trimming streams up to `k` does not change which keys after `k` they
/// hold.
pub proof fn lemma_trim_keeps_later_keys(
    r0: Seq<Seq<(Seq<u8>, u64)>>,
    r1: Seq<Seq<(Seq<u8>, u64)>>,
    k: Seq<u8>,
    k2: Seq<u8>,
)
    requires
        all_trimmed_upto(r0, r1, k),
        lex_lt(k, k2),
    ensures
        in_any(r1, k2) == in_any(r0, k2),
{
    if in_any(r1, k2) {
        let i = choose|i: int| 0 <= i < r1.len() && holds_key(#[trigger] r1[i], k2);
        assert(trimmed_upto(r0[i], r1[i], k));
        let j = choose|j: int| 0 <= j < r1[i].len() && #[trigger] r1[i][j].0 == k2;
        let d = r0[i].len() - r1[i].len();
        assert(r1[i][j] == r0[i][j + d]);
        assert(holds_key(r0[i], k2));
    }
    if in_any(r0, k2) {
        let i = choose|i: int| 0 <= i < r0.len() && holds_key(#[trigger] r0[i], k2);
        assert(trimmed_upto(r0[i], r1[i], k));
        let j = choose|j: int| 0 <= j < r0[i].len() && #[trigger] r0[i][j].0 == k2;
        let d = r0[i].len() - r1[i].len();
        if j < d {
            assert(lex_le(r0[i][j].0, k));
            lemma_lex_asymmetric(k, k2);
        } else {
            assert(r1[i][j - d] == r0[i][j]);
            assert(holds_key(r1[i], k2));
        }
    }
}

/// What a difference emits depends on the other streams only through the
/// keys that they hold.
pub proof fn lemma_difference_spec_same_keys(
    first: Seq<(Seq<u8>, u64)>,
    r1: Seq<Seq<(Seq<u8>, u64)>>,
    r2: Seq<Seq<(Seq<u8>, u64)>>,
)
    requires
        forall|j: int| 0 <= j < first.len() ==> in_any(r1, #[trigger] first[j].0) == in_any(r2, first[j].0),
    ensures
        difference_spec(first, r1) == difference_spec(first, r2),
    decreases first.len(),
{
    if first.len() > 0 {
        assert(in_any(r1, first[0].0) == in_any(r2, first[0].0));
        assert forall|j: int| 0 <= j < first.drop_first().len() implies
            in_any(r1, #[trigger] first.drop_first()[j].0) == in_any(r2, first.drop_first()[j].0) by {
            assert(first.drop_first()[j] == first[j + 1]);
        }
        lemma_difference_spec_same_keys(first.drop_first(), r1, r2);
    }
}

} // verus!

verus! {

/// Taking one pair off one stream leaves one pair fewer to emit.
pub proof fn lemma_total_drop(r: Seq<Seq<(Seq<u8>, u64)>>, m: int)
    requires
        0 <= m < r.len(),
        r[m].len() > 0,
    ensures
        total(r.update(m, r[m].drop_first())) + 1 == total(r),
{
    lemma_total_upto_drop(r, m, r.len() as int);
}

proof fn lemma_total_upto_drop(r: Seq<Seq<(Seq<u8>, u64)>>, m: int, n: int)
    requires
        0 <= m < r.len(),
        r[m].len() > 0,
        0 <= n <= r.len(),
    ensures
        total_upto(r.update(m, r[m].drop_first()), n) + (if m < n { 1int } else { 0int }) == total_upto(r, n),
    decreases n,
{
    if n > 0 {
        lemma_total_upto_drop(r, m, n - 1);
    }
}

/// In a sorted stream the first key comes before every later one.
pub proof fn lemma_first_rest_after(s: Seq<(Seq<u8>, u64)>, j: int)
    requires
        sorted_keys(s),
        0 < j < s.len(),
    ensures
        lex_lt(s[0].0, s[j].0),
{
}

} // verus!
