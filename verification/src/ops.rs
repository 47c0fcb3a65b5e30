//! Set operations (union, intersection, difference, symmetric difference)
//! over any number of streams of `(key, value)` pairs whose keys strictly
//! increase in lexicographic order.

use vstd::prelude::*;

use crate::keys::{compare_keys, lex_le, lex_lt, KeyOrder, lemma_lex_asymmetric, lemma_lex_irreflexive, lemma_lex_total, lemma_lex_transitive};
use crate::merge::{
    advance, all_sorted, all_trimmed_upto, difference_spec, has_head, heads, holds_key, in_any,
    intersection_spec, key_group, min_head, min_slot, pop_stream, slot_le, sorted_keys,
    symmetric_difference_spec, total, trimmed_upto, union_spec, lemma_advance_shrinks,
    lemma_difference_spec_same_keys, lemma_key_group_len, lemma_min_slot, lemma_min_slot_is,
    lemma_pop_sorted, lemma_trim_keeps_later_keys,
};

verus! {

/// A value indexed by a stream.
///
/// Indexed values are used to indicate the presence of a key in multiple
/// streams during a set operation. Namely, the index corresponds to the stream
/// (by the order in which it was added to the operation, starting at `0`)
/// and the value corresponds to the value associated with a particular key
/// in that stream.
#[derive(Clone, Copy, Debug, PartialEq, Eq, Structural, Hash, PartialOrd, Ord)]
pub struct IndexedValue {
    /// The index of the stream that produced this value (starting at `0`).
    pub index: usize,
    /// The value.
    pub value: u64,
}

/// A stream of `(key, value)` pairs with a read position.
struct SortedStream {
    items: Vec<(Vec<u8>, u64)>,
    pos: usize,
}

impl SortedStream {
    /// Every pair of the stream, emitted or not.
    spec fn entries(&self) -> Seq<(Seq<u8>, u64)> {
        self.items.deep_view()
    }

    /// The pairs the stream has yet to emit.
    spec fn rest(&self) -> Seq<(Seq<u8>, u64)> {
        self.entries().skip(self.pos as int)
    }

    spec fn wf(&self) -> bool {
        &&& self.pos <= self.items.len()
        &&& sorted_keys(self.entries())
    }

    fn new(items: Vec<(Vec<u8>, u64)>) -> (s: SortedStream)
        requires
            sorted_keys(items.deep_view()),
        ensures
            s.wf(),
            s.rest() == items.deep_view(),
    {
        let s = SortedStream { items, pos: 0 };
        assert(s.rest() =~= s.entries());
        s
    }

    /// Emits the next pair, if any.
    fn next(&mut self) -> (r: Option<(&[u8], u64)>)
        requires
            old(self).wf(),
        ensures
            final(self).wf(),
            final(self).items == old(self).items,
            match r {
                None => old(self).pos == old(self).items.len() && final(self).pos == old(self).pos,
                Some((k, v)) => {
                    &&& old(self).pos < old(self).items.len()
                    &&& final(self).pos == old(self).pos + 1
                    &&& k@ == old(self).entries()[old(self).pos as int].0
                    &&& v == old(self).entries()[old(self).pos as int].1
                },
            },
    {
        if self.pos < self.items.len() {
            let i = self.pos;
            self.pos = i + 1;
            let (k, v) = &self.items[i];
            Some((k.as_slice(), *v))
        } else {
            None
        }
    }
}

/// The pair a stream is next about to emit, held while the streams are
/// merged, with the index of its stream.
struct Slot {
    idx: usize,
    input: Vec<u8>,
    output: u64,
}

impl Slot {
    fn new(rdr_idx: usize) -> (s: Slot)
        ensures
            s.idx == rdr_idx,
            s.input@ == Seq::<u8>::empty(),
            s.output == 0,
    {
        Slot { idx: rdr_idx, input: Vec::with_capacity(64), output: 0 }
    }

    fn indexed_value(&self) -> (iv: IndexedValue)
        ensures
            iv == (IndexedValue { index: self.idx, value: self.output }),
    {
        IndexedValue { index: self.idx, value: self.output }
    }

    fn input(&self) -> (k: &[u8])
        ensures
            k@ == self.input@,
    {
        self.input.as_slice()
    }

    fn set_input(&mut self, input: &[u8])
        ensures
            final(self).input@ == input@,
            final(self).idx == old(self).idx,
            final(self).output == old(self).output,
    {
        self.input.clear();
        self.input.extend_from_slice(input);
        assert(self.input@ =~= input@);
    }

    fn set_output(&mut self, output: u64)
        ensures
            final(self).output == output,
            final(self).idx == old(self).idx,
            final(self).input == old(self).input,
    {
        self.output = output;
    }
}

/// The number of slots in use in `h`.
spec fn slots_in(h: Seq<Option<Slot>>) -> nat
    decreases h.len(),
{
    if h.len() == 0 {
        0
    } else {
        slots_in(h.drop_last()) + if h.last() is Some { 1nat } else { 0nat }
    }
}

/// `h` has at most one slot in use per place, and one fewer when place `e`
/// is free.
proof fn lemma_slots_in(h: Seq<Option<Slot>>, e: int)
    ensures
        slots_in(h) <= h.len(),
        0 <= e < h.len() && h[e] is None ==> slots_in(h) + 1 <= h.len(),
    decreases h.len(),
{
    if h.len() > 0 {
        let t = h.drop_last();
        lemma_slots_in(t, e);
        if 0 <= e < t.len() {
            assert(t[e] == h[e]);
        }
    }
}

/// The streams of an operation, with the pair each stream is about to emit
/// held in a slot of its own; a stream without a slot is exhausted.
struct StreamHeap {
    rdrs: Vec<SortedStream>,
    heap: Vec<Option<Slot>>,
}

impl StreamHeap {
    /// Stream `i` has its next pair in a slot.
    spec fn visible(&self, i: int) -> bool {
        self.heap@[i] is Some
    }

    /// The key held for stream `i`.
    spec fn key_at(&self, i: int) -> Seq<u8> {
        self.heap@[i]->0.input@
    }

    /// What each stream has yet to emit, the pair in its slot included.
    spec fn rems(&self) -> Seq<Seq<(Seq<u8>, u64)>> {
        Seq::new(
            self.rdrs@.len(),
            |i: int|
                if self.visible(i) {
                    self.rdrs@[i].entries().skip(self.rdrs@[i].pos - 1)
                } else {
                    self.rdrs@[i].rest()
                },
        )
    }

    /// The slots agree with the streams.
    spec fn inv(&self) -> bool {
        &&& self.heap@.len() == self.rdrs@.len()
        &&& forall|i: int| 0 <= i < self.rdrs@.len() ==> (#[trigger] self.rdrs@[i]).wf()
        &&& forall|i: int|
            0 <= i < self.heap@.len() && (#[trigger] self.heap@[i]) is Some ==> {
                let s = self.heap@[i]->0;
                let st = self.rdrs@[i];
                &&& s.idx == i
                &&& st.pos >= 1
                &&& s.input@ == st.entries()[st.pos - 1].0
                &&& s.output == st.entries()[st.pos - 1].1
            }
    }

    /// Stream `i` is exhausted or has its next pair in a slot.
    spec fn settled_at(&self, i: int) -> bool {
        self.heap@[i] is None ==> self.rdrs@[i].pos == self.rdrs@[i].items.len()
    }

    /// Every stream is exhausted or has its next pair in a slot.
    spec fn settled(&self) -> bool {
        &&& self.inv()
        &&& forall|i: int| 0 <= i < self.heap@.len() ==> #[trigger] self.settled_at(i)
    }

    /// The slot of stream `m` comes out of the heap first: it holds the
    /// least key, with the least value among the slots holding that key,
    /// and the lowest index among those.
    spec fn is_min_slot(&self, m: int) -> bool {
        &&& 0 <= m < self.heap@.len()
        &&& self.visible(m)
        &&& forall|i: int| 0 <= i < self.heap@.len() && #[trigger] self.visible(i) ==> self.slot_before(m, i)
    }

    /// The value held for stream `i`.
    spec fn out_at(&self, i: int) -> u64 {
        self.heap@[i]->0.output
    }

    /// The slot of stream `a` comes out of the heap before that of stream
    /// `b`: by key, then by value, then by stream index.
    spec fn slot_before(&self, a: int, b: int) -> bool {
        lex_lt(self.key_at(a), self.key_at(b)) || (self.key_at(a) == self.key_at(b) && (self.out_at(a) < self.out_at(b)
            || (self.out_at(a) == self.out_at(b) && a <= b)))
    }

    proof fn lemma_rems_sorted(&self)
        requires
            self.inv(),
        ensures
            all_sorted(self.rems()),
            self.rems().len() == self.rdrs@.len(),
    {
        assert forall|i: int| 0 <= i < self.rems().len() implies sorted_keys(#[trigger] self.rems()[i]) by {
            let st = self.rdrs@[i];
            assert(st.wf());
            let d = if self.visible(i) { st.pos - 1 } else { st.pos as int };
            let s = self.rems()[i];
            assert(s == st.entries().skip(d));
            assert forall|a: int, b: int| 0 <= a < b < s.len() implies lex_lt(#[trigger] s[a].0, #[trigger] s[b].0) by {
                assert(s[a] == st.entries()[a + d]);
                assert(s[b] == st.entries()[b + d]);
            }
        }
    }

    /// What a visible stream is about to emit.
    proof fn lemma_visible_head(&self, i: int)
        requires
            self.inv(),
            0 <= i < self.heap@.len(),
            self.visible(i),
        ensures
            self.rems()[i].len() > 0,
            self.rems()[i][0].0 == self.key_at(i),
            self.rems()[i][0].1 == self.heap@[i]->0.output,
    {
        let st = self.rdrs@[i];
        assert(self.heap@[i] is Some);
        assert(st.wf());
    }

    /// A settled stream without a slot has nothing left.
    proof fn lemma_hidden_empty(&self, i: int)
        requires
            self.inv(),
            0 <= i < self.heap@.len(),
            !self.visible(i),
            self.settled_at(i),
        ensures
            self.rems()[i].len() == 0,
    {
    }

    fn new(streams: Vec<SortedStream>) -> (u: StreamHeap)
        requires
            forall|i: int| 0 <= i < streams@.len() ==> (#[trigger] streams@[i]).wf(),
        ensures
            u.settled(),
            u.rems() == Seq::new(streams@.len(), |i: int| streams@[i].rest()),
    {
        let n = streams.len();
        let mut heap: Vec<Option<Slot>> = Vec::new();
        let mut j: usize = 0;
        while j < n
            invariant
                j <= n,
                n == streams@.len(),
                heap@.len() == j,
                forall|i: int| 0 <= i < j ==> (#[trigger] heap@[i]) is None,
            decreases n - j,
        {
            heap.push(None);
            j = j + 1;
        }
        let mut u = StreamHeap { rdrs: streams, heap };
        let ghost target = Seq::new(n as nat, |i: int| streams@[i].rest());
        assert(u.rems() =~= target);
        for i in 0..n
            invariant
                n == u.rdrs@.len(),
                u.inv(),
                u.rems() == target,
                forall|k: int| 0 <= k < i ==> #[trigger] u.settled_at(k),
                forall|k: int| i <= k < n ==> (#[trigger] u.heap@[k]) is None,
        {
            let ghost prev = u;
            u.refill(Slot::new(i));
            assert forall|k: int| 0 <= k < i + 1 implies #[trigger] u.settled_at(k) by {
                if k < i {
                    assert(prev.settled_at(k));
                    assert(u.heap@[k] == prev.heap@[k] && u.rdrs@[k] == prev.rdrs@[k]);
                }
            }
        }
        u
    }

    /// Puts the next pair of the slot's stream into the slot, if the stream
    /// has one, and the slot back into the heap.
    fn refill(&mut self, slot: Slot)
        requires
            old(self).inv(),
            slot.idx < old(self).heap@.len(),
            old(self).heap@[slot.idx as int] is None,
        ensures
            final(self).inv(),
            final(self).rems() == old(self).rems(),
            final(self).settled_at(slot.idx as int),
            forall|i: int|
                0 <= i < final(self).heap@.len() && i != slot.idx ==> final(self).heap@[i] == old(self).heap@[i]
                    && final(self).rdrs@[i] == old(self).rdrs@[i],
            forall|i: int|
                0 <= i < final(self).heap@.len() && i != slot.idx ==> #[trigger] final(self).settled_at(i)
                    == old(self).settled_at(i),
            final(self).heap@.len() == old(self).heap@.len(),
    {
        let mut slot = slot;
        let idx = slot.idx;
        let ghost old_rems = self.rems();
        let ghost st = self.rdrs@[idx as int];
        assert(self.rdrs@[idx as int].wf());
        let found = match self.rdrs[idx].next() {
            Some((input, output)) => {
                slot.set_input(input);
                slot.set_output(output);
                true
            },
            None => false,
        };
        if found {
            self.heap.set(idx, Some(slot));
        }
        assert forall|i: int| 0 <= i < self.rdrs@.len() implies (#[trigger] self.rdrs@[i]).wf() by {
            if i != idx {
                assert(self.rdrs@[i] == old(self).rdrs@[i]);
            }
        }
        assert(self.rems() =~= old_rems) by {
            assert forall|i: int| 0 <= i < old_rems.len() implies self.rems()[i] == old_rems[i] by {
                if i == idx {
                    let nst = self.rdrs@[i];
                    if self.visible(i) {
                        assert(nst.pos == st.pos + 1);
                    }
                }
            }
        }
    }

    /// The key in the slot of stream `i`.
    fn slot_key(&self, i: usize) -> (k: &[u8])
        requires
            i < self.heap@.len(),
            self.visible(i as int),
        ensures
            k@ == self.key_at(i as int),
    {
        self.heap[i].as_ref().unwrap().input()
    }

    /// The value in the slot of stream `i`.
    fn slot_output(&self, i: usize) -> (v: u64)
        requires
            i < self.heap@.len(),
            self.visible(i as int),
        ensures
            v == self.out_at(i as int),
    {
        self.heap[i].as_ref().unwrap().output
    }

    /// The index of the stream whose slot comes out first, or `None` when
    /// no stream has a slot.
    fn peek(&self) -> (r: Option<usize>)
        requires
            self.inv(),
        ensures
            r is None <==> forall|i: int| 0 <= i < self.heap@.len() ==> !#[trigger] self.visible(i),
            r matches Some(m) ==> self.is_min_slot(m as int),
    {
        let n = self.heap.len();
        let mut best: Option<usize> = None;
        let mut i: usize = 0;
        while i < n
            invariant
                n == self.heap@.len(),
                i <= n,
                best is None ==> forall|j: int| 0 <= j < i ==> !#[trigger] self.visible(j),
                best matches Some(b) ==> {
                    &&& b < i
                    &&& self.visible(b as int)
                    &&& forall|j: int| 0 <= j < i && #[trigger] self.visible(j) ==> self.slot_before(b as int, j)
                },
            decreases n - i,
        {
            if self.heap[i].is_some() {
                match best {
                    None => {
                        best = Some(i);
                    },
                    Some(b) => {
                        let c = compare_keys(self.slot_key(i), self.slot_key(b));
                        let out_i = self.slot_output(i);
                        let out_b = self.slot_output(b);
                        let better = c == KeyOrder::Less || (c == KeyOrder::Equal && out_i < out_b);
                        let ghost ki = self.key_at(i as int);
                        let ghost kb = self.key_at(b as int);
                        proof {
                            lemma_lex_asymmetric(ki, kb);
                            lemma_lex_total(ki, kb);
                        }
                        if better {
                            proof {
                                assert forall|j: int| 0 <= j < i + 1 && #[trigger] self.visible(j) implies self.slot_before(
                                    i as int,
                                    j,
                                ) by {
                                    if j < i {
                                        let kj = self.key_at(j);
                                        assert(self.slot_before(b as int, j));
                                        if lex_lt(kb, kj) {
                                            if lex_lt(ki, kb) {
                                                lemma_lex_transitive(ki, kb, kj);
                                            }
                                        } else if lex_lt(ki, kb) {
                                        }
                                    }
                                }
                            }
                            best = Some(i);
                        }
                    },
                }
            }
            i = i + 1;
        }
        best
    }

    /// Removes the slot that comes out first: the least key, then the least
    /// value, then the lowest stream index.
    fn pop(&mut self) -> (r: Option<Slot>)
        requires
            old(self).inv(),
        ensures
            final(self).inv(),
            final(self).rdrs == old(self).rdrs,
            r is None <==> forall|i: int| 0 <= i < old(self).heap@.len() ==> !#[trigger] old(self).visible(i),
            r is None ==> *final(self) == *old(self),
            r matches Some(s) ==> {
                &&& old(self).is_min_slot(s.idx as int)
                &&& old(self).heap@[s.idx as int] == Some(s)
                &&& final(self).heap@ == old(self).heap@.update(s.idx as int, None)
                &&& final(self).rems() == old(self).rems().update(
                    s.idx as int,
                    old(self).rems()[s.idx as int].drop_first(),
                )
            },
    {
        match self.peek() {
            None => None,
            Some(m) => {
                let ghost old_self = *self;
                let s = self.heap[m].take();
                proof {
                    old_self.lemma_visible_head(m as int);
                    assert(self.heap@ == old_self.heap@.update(m as int, None));
                    assert forall|i: int| 0 <= i < self.heap@.len() && (#[trigger] self.heap@[i]) is Some implies {
                        let s = self.heap@[i]->0;
                        let st = self.rdrs@[i];
                        &&& s.idx == i
                        &&& st.pos >= 1
                        &&& s.input@ == st.entries()[st.pos - 1].0
                        &&& s.output == st.entries()[st.pos - 1].1
                    } by {
                        assert(old_self.heap@[i] is Some);
                    }
                    let st = self.rdrs@[m as int];
                    assert(st.wf());
                    assert(st.entries().skip(st.pos - 1).drop_first() =~= st.entries().skip(st.pos as int));
                    assert(self.rems() =~= old_self.rems().update(m as int, old_self.rems()[m as int].drop_first()));
                }
                s
            },
        }
    }

    /// Whether the slot that comes out first holds `key`.
    fn peek_is_duplicate(&self, key: &[u8]) -> (b: bool)
        requires
            self.inv(),
        ensures
            b <==> exists|m: int| #[trigger] self.is_min_slot(m) && self.key_at(m) == key@,
            !b ==> forall|i: int|
                0 <= i < self.heap@.len() && #[trigger] self.visible(i) && self.key_at(i) == key@
                    ==> exists|j: int| 0 <= j < self.heap@.len() && self.visible(j) && lex_lt(self.key_at(j), key@),
    {
        match self.peek() {
            None => {
                proof {
                    assert forall|m: int| !(#[trigger] self.is_min_slot(m) && self.key_at(m) == key@) by {
                        if self.is_min_slot(m) {
                            assert(self.visible(m));
                        }
                    }
                }
                false
            },
            Some(m) => {
                let c = compare_keys(self.slot_key(m), key);
                proof {
                    self.lemma_min_slot_unique(m as int);
                    if c != KeyOrder::Equal {
                        assert forall|i: int|
                            0 <= i < self.heap@.len() && #[trigger] self.visible(i) && self.key_at(i) == key@
                                implies exists|j: int| 0 <= j < self.heap@.len() && self.visible(j) && lex_lt(self.key_at(j), key@) by {
                            assert(lex_lt(self.key_at(m as int), key@));
                        }
                    }
                }
                c == KeyOrder::Equal
            },
        }
    }

    /// Only one slot comes out first.
    proof fn lemma_min_slot_unique(&self, m: int)
        requires
            self.is_min_slot(m),
        ensures
            forall|m2: int| #[trigger] self.is_min_slot(m2) ==> m2 == m,
    {
        assert forall|m2: int| #[trigger] self.is_min_slot(m2) implies m2 == m by {
            assert(self.slot_before(m, m2));
            assert(self.slot_before(m2, m));
            lemma_lex_asymmetric(self.key_at(m), self.key_at(m2));
            lemma_lex_irreflexive(self.key_at(m));
        }
    }

    /// Removes the slot that comes out first if it holds `key`.
    fn pop_if_equal(&mut self, key: &[u8]) -> (r: Option<Slot>)
        requires
            old(self).inv(),
        ensures
            final(self).inv(),
            final(self).rdrs == old(self).rdrs,
            r is None <==> !exists|m: int| #[trigger] old(self).is_min_slot(m) && old(self).key_at(m) == key@,
            r is None ==> *final(self) == *old(self),
            r is None ==> forall|i: int|
                0 <= i < old(self).heap@.len() && #[trigger] old(self).visible(i) && old(self).key_at(i) == key@
                    ==> exists|j: int| 0 <= j < old(self).heap@.len() && old(self).visible(j) && lex_lt(old(self).key_at(j), key@),
            r matches Some(s) ==> {
                &&& old(self).is_min_slot(s.idx as int)
                &&& s.input@ == key@
                &&& old(self).heap@[s.idx as int] == Some(s)
                &&& final(self).heap@ == old(self).heap@.update(s.idx as int, None)
                &&& final(self).rems() == old(self).rems().update(
                    s.idx as int,
                    old(self).rems()[s.idx as int].drop_first(),
                )
            },
    {
        if self.peek_is_duplicate(key) {
            let r = self.pop();
            proof {
                let s = r->0;
                old(self).lemma_min_slot_unique(s.idx as int);
            }
            r
        } else {
            None
        }
    }

    /// Removes the slot that comes out first if its key is not after `key`.
    fn pop_if_le(&mut self, key: &[u8]) -> (r: Option<Slot>)
        requires
            old(self).inv(),
        ensures
            final(self).inv(),
            final(self).rdrs == old(self).rdrs,
            r is None ==> *final(self) == *old(self),
            r is None ==> forall|i: int|
                0 <= i < old(self).heap@.len() && #[trigger] old(self).visible(i) ==> lex_lt(key@, old(self).key_at(i)),
            r matches Some(s) ==> {
                &&& old(self).is_min_slot(s.idx as int)
                &&& lex_le(s.input@, key@)
                &&& old(self).heap@[s.idx as int] == Some(s)
                &&& final(self).heap@ == old(self).heap@.update(s.idx as int, None)
                &&& final(self).rems() == old(self).rems().update(
                    s.idx as int,
                    old(self).rems()[s.idx as int].drop_first(),
                )
            },
    {
        match self.peek() {
            None => None,
            Some(m) => {
                let c = compare_keys(self.slot_key(m), key);
                if c == KeyOrder::Greater {
                    proof {
                        assert forall|i: int|
                            0 <= i < self.heap@.len() && #[trigger] self.visible(i) implies lex_lt(key@, self.key_at(i)) by {
                            if lex_lt(self.key_at(m as int), self.key_at(i)) {
                                lemma_lex_transitive(key@, self.key_at(m as int), self.key_at(i));
                            }
                        }
                    }
                    None
                } else {
                    let r = self.pop();
                    proof {
                        let s = r->0;
                        old(self).lemma_min_slot_unique(m as int);
                    }
                    r
                }
            },
        }
    }

    fn num_slots(&self) -> (n: usize)
        ensures
            n == self.rdrs@.len(),
    {
        self.rdrs.len()
    }

    /// In a settled heap the slot that comes out first holds the least key
    /// that any stream is about to emit, and belongs to the stream that
    /// `min_slot` picks among those about to emit it.
    proof fn lemma_min_slot_is_min_head(&self, m: int)
        requires
            self.settled(),
            self.is_min_slot(m),
        ensures
            min_head(self.rems()) == Some(self.key_at(m)),
            min_slot(self.rems(), self.key_at(m)) == Some(m),
            forall|i: int|
                0 <= i < self.rems().len() && #[trigger] self.rems()[i].len() > 0 ==> lex_le(self.key_at(m), self.rems()[i][0].0),
    {
        let r = self.rems();
        let k = self.key_at(m);
        self.lemma_visible_head(m);
        assert forall|i: int| 0 <= i < r.len() && #[trigger] r[i].len() > 0 implies lex_le(k, r[i][0].0) by {
            assert(self.settled_at(i));
            if !self.visible(i) {
                self.lemma_hidden_empty(i);
            } else {
                self.lemma_visible_head(i);
                assert(self.slot_before(m, i));
            }
        }
        assert forall|i: int| 0 <= i < r.len() && #[trigger] has_head(r, i, k) implies slot_le(r, m, i) by {
            assert(self.settled_at(i));
            if !self.visible(i) {
                self.lemma_hidden_empty(i);
            } else {
                self.lemma_visible_head(i);
                assert(self.slot_before(m, i));
                lemma_lex_irreflexive(k);
            }
        }
        crate::merge::lemma_min_head_is(r, m, k);
        lemma_min_slot_is(r, k, m);
    }

    /// A settled heap with no slot has nothing left to emit.
    proof fn lemma_no_slot_is_empty(&self)
        requires
            self.settled(),
            forall|i: int| 0 <= i < self.heap@.len() ==> !#[trigger] self.visible(i),
        ensures
            min_head(self.rems()) is None,
            forall|i: int| 0 <= i < self.rems().len() ==> #[trigger] self.rems()[i].len() == 0,
    {
        assert forall|i: int| 0 <= i < self.rems().len() implies #[trigger] self.rems()[i].len() == 0 by {
            assert(self.settled_at(i));
            assert(!self.visible(i));
            self.lemma_hidden_empty(i);
        }
        crate::merge::lemma_min_head_upto(self.rems(), self.rems().len() as int);
    }

    /// Every stream is exhausted or has its next pair in a slot, but for the
    /// stream of `cur`, whose slot is held outside while the key in it is
    /// handed out.
    spec fn settled_except(&self, cur: Option<Slot>) -> bool {
        match cur {
            None => self.settled(),
            Some(s) => {
                &&& self.inv()
                &&& s.idx < self.heap@.len()
                &&& self.heap@[s.idx as int] is None
                &&& forall|i: int| 0 <= i < self.heap@.len() && i != s.idx ==> #[trigger] self.settled_at(i)
            },
        }
    }

    /// Puts a slot held outside back, refilled.
    fn put_back(&mut self, cur: Option<Slot>)
        requires
            old(self).settled_except(cur),
        ensures
            final(self).settled(),
            final(self).rems() == old(self).rems(),
    {
        match cur {
            None => {},
            Some(slot) => {
                let ghost pre = *self;
                let ghost idx = slot.idx as int;
                self.refill(slot);
                proof {
                    assert forall|i: int| 0 <= i < self.heap@.len() implies #[trigger] self.settled_at(i) by {
                        if i != idx {
                            assert(pre.settled_at(i));
                        }
                    }
                }
            },
        }
    }

    /// Pops the least key with every occurrence of it, into `outs` in the
    /// order they come out: each stream about to emit that key emits it.
    /// The streams that held it are refilled but for the first one, whose
    /// slot is handed back.
    fn pop_group(&mut self, outs: &mut Vec<IndexedValue>) -> (r: Option<Slot>)
        requires
            old(self).settled(),
        ensures
            final(self).inv(),
            final(self).rdrs@.len() == old(self).rdrs@.len(),
            r is None <==> min_head(old(self).rems()) is None,
            r is None ==> *final(self) == *old(self),
            r matches Some(s) ==> {
                &&& min_head(old(self).rems()) == Some(s.input@)
                &&& final(outs)@ == key_group(old(self).rems(), s.input@)
                &&& final(self).rems() == advance(old(self).rems(), s.input@)
                &&& s.idx < final(self).heap@.len()
                &&& final(self).heap@[s.idx as int] is None
                &&& forall|i: int| 0 <= i < final(self).heap@.len() && i != s.idx ==> #[trigger] final(self).settled_at(i)
            },
    {
        let ghost r0 = self.rems();
        let n = self.heap.len();
        proof {
            self.lemma_rems_sorted();
        }
        let slot = match self.pop() {
            None => {
                proof {
                    self.lemma_no_slot_is_empty();
                }
                return None;
            },
            Some(s) => s,
        };
        let m = slot.idx;
        let ghost k = slot.input@;
        proof {
            old(self).lemma_min_slot_is_min_head(m as int);
            old(self).lemma_visible_head(m as int);
            lemma_min_slot(r0, k);
            assert(key_group(r0, k) == seq![IndexedValue { index: m, value: slot.output }] + key_group(pop_stream(r0, m as int), k));
            assert forall|i: int| 0 <= i < n && i != m implies #[trigger] self.settled_at(i) by {
                assert(old(self).settled_at(i));
            }
            assert(self.rems() =~= pop_stream(r0, m as int));
            lemma_pop_sorted(r0, m as int);
        }
        outs.clear();
        outs.push(slot.indexed_value());
        loop
            invariant
                self.inv(),
                n == self.heap@.len(),
                n == r0.len(),
                m < n,
                k == slot.input@,
                self.heap@[m as int] is None,
                forall|i: int| 0 <= i < n && i != m ==> #[trigger] self.settled_at(i),
                all_sorted(r0),
                all_sorted(self.rems()),
                min_head(r0) == Some(k),
                has_head(r0, m as int, k),
                forall|i: int| 0 <= i < n && #[trigger] r0[i].len() > 0 ==> lex_le(k, r0[i][0].0),
                self.rems()[m as int] == r0[m as int].drop_first(),
                forall|i: int|
                    0 <= i < n ==> #[trigger] self.rems()[i] == r0[i] || (has_head(r0, i, k) && self.rems()[i]
                        == r0[i].drop_first()),
                outs@ + key_group(self.rems(), k) == key_group(r0, k),
            ensures
                self.inv(),
                n == self.heap@.len(),
                self.heap@[m as int] is None,
                forall|i: int| 0 <= i < n && i != m ==> #[trigger] self.settled_at(i),
                outs@ == key_group(r0, k),
                self.rems() == advance(r0, k),
            decreases total(self.rems()),
        {
            let ghost pre = *self;
            let ghost rp = self.rems();
            proof {
                // a stream that emitted `k` is past it; every slot holds a key not before `k`
                assert forall|i: int| 0 <= i < n && rp[i] != r0[i] implies !has_head(rp, i, k) by {
                    assert(sorted_keys(r0[i]));
                    if rp[i].len() > 0 {
                        assert(rp[i][0] == r0[i][1]);
                        assert(lex_lt(r0[i][0].0, r0[i][1].0));
                        lemma_lex_irreflexive(k);
                    }
                }
                assert forall|i: int| 0 <= i < n && #[trigger] pre.visible(i) implies lex_le(k, pre.key_at(i)) by {
                    pre.lemma_visible_head(i);
                    if rp[i] != r0[i] {
                        assert(sorted_keys(r0[i]));
                        assert(rp[i][0] == r0[i][1]);
                        assert(lex_lt(r0[i][0].0, r0[i][1].0));
                    }
                }
            }
            match self.pop_if_equal(slot.input()) {
                None => {
                    proof {
                        assert forall|i: int| 0 <= i < n implies !#[trigger] has_head(rp, i, k) by {
                            if has_head(rp, i, k) {
                                assert(i != m);
                                assert(pre.settled_at(i));
                                if !pre.visible(i) {
                                    pre.lemma_hidden_empty(i);
                                } else {
                                    pre.lemma_visible_head(i);
                                    let j = choose|j: int| 0 <= j < n && pre.visible(j) && lex_lt(pre.key_at(j), k);
                                    lemma_lex_asymmetric(k, pre.key_at(j));
                                    lemma_lex_irreflexive(k);
                                }
                            }
                        }
                        lemma_min_slot(rp, k);
                        assert(key_group(rp, k) =~= Seq::<IndexedValue>::empty());
                        assert(outs@ =~= outs@ + key_group(rp, k));
                        assert forall|i: int| 0 <= i < n implies #[trigger] rp[i] == advance(r0, k)[i] by {
                            if rp[i] == r0[i] && has_head(r0, i, k) {
                                assert(has_head(rp, i, k));
                            }
                        }
                        assert(rp =~= advance(r0, k));
                    }
                    break;
                },
                Some(slot2) => {
                    let j = slot2.idx;
                    proof {
                        pre.lemma_visible_head(j as int);
                        assert(has_head(rp, j as int, k));
                        assert forall|i: int| 0 <= i < n && #[trigger] has_head(rp, i, k) implies slot_le(rp, j as int, i) by {
                            assert(i != m);
                            assert(pre.settled_at(i));
                            if !pre.visible(i) {
                                pre.lemma_hidden_empty(i);
                            } else {
                                pre.lemma_visible_head(i);
                                assert(pre.slot_before(j as int, i));
                                lemma_lex_irreflexive(k);
                            }
                        }
                        lemma_min_slot_is(rp, k, j as int);
                        crate::merge::lemma_total_drop(rp, j as int);
                        assert(key_group(rp, k) == seq![IndexedValue { index: j, value: slot2.output }] + key_group(pop_stream(rp, j as int), k));
                        lemma_pop_sorted(rp, j as int);
                        assert(rp[j as int] == r0[j as int]);
                    }
                    let ghost before = outs@;
                    outs.push(slot2.indexed_value());
                    self.refill(slot2);
                    proof {
                        assert forall|i: int| 0 <= i < n && i != m implies #[trigger] self.settled_at(i) by {
                            if i != j {
                                assert(pre.settled_at(i));
                            }
                        }
                        assert(self.rems() =~= pop_stream(rp, j as int));
                        assert(outs@ + key_group(self.rems(), k) =~= before + key_group(rp, k));
                    }
                },
            }
        }
        Some(slot)
    }
}

/// A builder for collecting streams on which to perform set operations on
/// their keys.
///
/// Set operations include intersection, union, difference and symmetric
/// difference. The result of each set operation is itself a stream that emits
/// pairs of keys and a sequence of each occurrence of that key in the
/// participating streams. This information allows one to perform set
/// operations on ordered maps and customize how conflicting output values are
/// handled.
///
/// A stream is given as the vector of the `(key, value)` pairs it emits; its
/// keys must strictly increase in lexicographic order.
pub struct OpBuilder {
    streams: Vec<SortedStream>,
}

impl OpBuilder {
    /// The streams added so far, in the order they were added, each as the
    /// pairs it emits.
    pub closed spec fn streams(&self) -> Seq<Seq<(Seq<u8>, u64)>> {
        Seq::new(self.streams@.len(), |i: int| self.streams@[i].rest())
    }

    /// Every stream added so far is ordered.
    pub closed spec fn wf(&self) -> bool {
        forall|i: int| 0 <= i < self.streams@.len() ==> (#[trigger] self.streams@[i]).wf()
    }

    /// Create a new set operation builder.
    pub fn new() -> (b: OpBuilder)
        ensures
            b.wf(),
            b.streams() == Seq::<Seq<(Seq<u8>, u64)>>::empty(),
    {
        let b = OpBuilder { streams: Vec::new() };
        assert(b.streams() =~= Seq::<Seq<(Seq<u8>, u64)>>::empty());
        b
    }

    /// Add a stream to this set operation.
    ///
    /// This is useful for a chaining style pattern, e.g.,
    /// `builder.add(stream1).add(stream2).union()`.
    ///
    /// The stream must emit a lexicographically ordered sequence of key-value
    /// pairs.
    pub fn add(self, stream: Vec<(Vec<u8>, u64)>) -> (b: OpBuilder)
        requires
            self.wf(),
            sorted_keys(stream.deep_view()),
        ensures
            b.wf(),
            b.streams() == self.streams().push(stream.deep_view()),
    {
        let mut b = self;
        b.push(stream);
        b
    }

    /// Add a stream to this set operation.
    ///
    /// The stream must emit a lexicographically ordered sequence of key-value
    /// pairs.
    pub fn push(&mut self, stream: Vec<(Vec<u8>, u64)>)
        requires
            old(self).wf(),
            sorted_keys(stream.deep_view()),
        ensures
            final(self).wf(),
            final(self).streams() == old(self).streams().push(stream.deep_view()),
    {
        let s = SortedStream::new(stream);
        self.streams.push(s);
        assert(self.streams() =~= old(self).streams().push(s.rest()));
    }

    /// Adds each of the given streams, in order.
    pub fn extend(&mut self, streams: Vec<Vec<(Vec<u8>, u64)>>)
        requires
            old(self).wf(),
            forall|i: int| 0 <= i < streams@.len() ==> sorted_keys(#[trigger] streams@[i].deep_view()),
        ensures
            final(self).wf(),
            final(self).streams() == old(self).streams() + streams.deep_view(),
    {
        let mut streams = streams;
        let ghost all = streams.deep_view();
        let ghost orig = streams@;
        let ghost start = self.streams();
        let mut done: usize = 0;
        let total_n = streams.len();
        while done < total_n
            invariant
                total_n == orig.len(),
                done <= total_n,
                streams@.len() == total_n - done,
                streams@ == orig.skip(done as int),
                forall|i: int| 0 <= i < orig.len() ==> sorted_keys(#[trigger] orig[i].deep_view()),
                all.len() == orig.len(),
                forall|i: int| 0 <= i < orig.len() ==> #[trigger] all[i] == orig[i].deep_view(),
                self.wf(),
                self.streams() == start + all.take(done as int),
            decreases total_n - done,
        {
            let s = streams.remove(0);
            proof {
                assert(s == orig[done as int]);
            }
            self.push(s);
            proof {
                assert(all.take(done + 1) =~= all.take(done as int).push(all[done as int]));
            }
            done = done + 1;
        }
        assert(all.take(total_n as int) =~= all);
    }

    /// A builder holding the given streams, in order.
    pub fn from_iter(streams: Vec<Vec<(Vec<u8>, u64)>>) -> (b: OpBuilder)
        requires
            forall|i: int| 0 <= i < streams@.len() ==> sorted_keys(#[trigger] streams@[i].deep_view()),
        ensures
            b.wf(),
            b.streams() == streams.deep_view(),
    {
        let mut op = OpBuilder::new();
        op.extend(streams);
        assert(op.streams() =~= streams.deep_view());
        op
    }

    /// Performs a union operation on all streams that have been added.
    ///
    /// The union emits every key that any stream holds, once, in ascending
    /// order, with the list of all occurrences of that key in participating
    /// streams, by ascending value and, on a tie, ascending stream index.
    /// Each `IndexedValue` contains the index of the stream (the order in
    /// which it was added, starting at `0`) and the value associated with
    /// that key in that stream.
    pub fn union(self) -> (u: Union)
        requires
            self.wf(),
        ensures
            u.wf(),
            u.remaining() == union_spec(self.streams()),
            u.stream_count() == self.streams().len(),
    {
        let heap = StreamHeap::new(self.streams);
        assert(heap.rems() =~= self.streams());
        Union { heap, outs: Vec::new(), cur_slot: None }
    }

    /// Performs an intersection operation on all streams that have been
    /// added: the keys that every stream holds, in ascending order, each
    /// with its occurrences.
    pub fn intersection(self) -> (u: Intersection)
        requires
            self.wf(),
        ensures
            u.wf(),
            u.remaining() == intersection_spec(self.streams()),
            u.stream_count() == self.streams().len(),
    {
        let heap = StreamHeap::new(self.streams);
        assert(heap.rems() =~= self.streams());
        Intersection { heap, outs: Vec::new(), cur_slot: None }
    }

    /// Performs a difference operation with respect to the first stream added.
    /// That is, this returns a stream of all elements in the first stream
    /// that don't exist in any other stream that has been added.
    ///
    /// Each yielded key comes with exactly one `IndexedValue`, with `index`
    /// set to 0 and the key's value in the first stream.
    pub fn difference(self) -> (d: Difference)
        requires
            self.wf(),
            self.streams().len() > 0,
        ensures
            d.wf(),
            d.remaining() == difference_spec(
                self.streams()[0],
                self.streams().subrange(1, self.streams().len() as int),
            ),
            d.stream_count() == self.streams().len(),
    {
        let ghost all = self.streams();
        let mut streams = self.streams;
        let first = streams.swap_remove(0);
        let heap = StreamHeap::new(streams);
        let d = Difference { set: first, key: Vec::new(), heap, outs: Vec::new() };
        proof {
            let others = all.subrange(1, all.len() as int);
            let r = d.heap.rems();
            assert(first.rest() == all[0]);
            assert forall|k: Seq<u8>| in_any(r, k) == in_any(others, k) by {
                if in_any(r, k) {
                    let i = choose|i: int| 0 <= i < r.len() && holds_key(#[trigger] r[i], k);
                    if i == 0 {
                        assert(r[0] == all[all.len() - 1]);
                        assert(others[all.len() - 2] == all[all.len() - 1]);
                        assert(holds_key(others[all.len() - 2], k));
                    } else {
                        assert(r[i] == others[i - 1]);
                    }
                }
                if in_any(others, k) {
                    let i = choose|i: int| 0 <= i < others.len() && holds_key(#[trigger] others[i], k);
                    if i == others.len() - 1 {
                        assert(r[0] == others[i]);
                    } else {
                        assert(r[i + 1] == others[i]);
                    }
                }
            }
            lemma_difference_spec_same_keys(all[0], r, others);
        }
        d
    }

    /// Performs a symmetric difference operation on all of the streams that
    /// have been added.
    ///
    /// When there are only two streams, then the keys returned correspond to
    /// keys that are in either stream but *not* in both streams.
    ///
    /// More generally, for any number of streams, keys that occur in an odd
    /// number of streams are returned.
    pub fn symmetric_difference(self) -> (u: SymmetricDifference)
        requires
            self.wf(),
        ensures
            u.wf(),
            u.remaining() == symmetric_difference_spec(self.streams()),
            u.stream_count() == self.streams().len(),
    {
        let heap = StreamHeap::new(self.streams);
        assert(heap.rems() =~= self.streams());
        SymmetricDifference { heap, outs: Vec::new(), cur_slot: None }
    }
}

/// A stream of set union over multiple streams in lexicographic order.
pub struct Union {
    heap: StreamHeap,
    outs: Vec<IndexedValue>,
    cur_slot: Option<Slot>,
}

impl Union {
    /// The operation is in a consistent state.
    pub closed spec fn wf(&self) -> bool {
        self.heap.settled_except(self.cur_slot)
    }

    /// The number of streams merged.
    pub closed spec fn stream_count(&self) -> nat {
        self.heap.heap@.len()
    }

    /// The number of pending pairs held while the streams are merged: the
    /// slots in the heap, and the one whose key was handed out last.
    pub closed spec fn pending(&self) -> nat {
        slots_in(self.heap.heap@) + if self.cur_slot is Some {
            1nat
        } else {
            0nat
        }
    }

    /// The union holds at most one pending pair per stream: its memory,
    /// beside the streams themselves, grows with the number of streams.
    pub proof fn lemma_one_pair_per_stream(&self)
        requires
            self.wf(),
        ensures
            self.pending() <= self.stream_count(),
    {
        match self.cur_slot {
            Some(c) => lemma_slots_in(self.heap.heap@, c.idx as int),
            None => lemma_slots_in(self.heap.heap@, 0),
        }
    }

    /// What the union has yet to emit.
    pub closed spec fn remaining(&self) -> Seq<(Seq<u8>, Seq<IndexedValue>)> {
        union_spec(self.heap.rems())
    }

    /// Emits the next key with its occurrences, or `None` when done.
    pub fn next(&mut self) -> (r: Option<(&[u8], &[IndexedValue])>)
        requires
            old(self).wf(),
        ensures
            final(self).wf(),
            final(self).stream_count() == old(self).stream_count(),
            match r {
                None => old(self).remaining().len() == 0 && final(self).remaining() == old(self).remaining(),
                Some((k, outs)) => {
                    &&& old(self).remaining().len() > 0
                    &&& old(self).remaining()[0] == (k@, outs@)
                    &&& final(self).remaining() == old(self).remaining().drop_first()
                },
            },
    {
        let cur = self.cur_slot.take();
        self.heap.put_back(cur);
        let ghost r0 = self.heap.rems();
        match self.heap.pop_group(&mut self.outs) {
            None => None,
            Some(slot) => {
                proof {
                    let k = slot.input@;
                    lemma_advance_shrinks(r0, k);
                    assert(union_spec(r0) == seq![(k, key_group(r0, k))] + union_spec(advance(r0, k)));
                    assert(union_spec(r0).drop_first() =~= union_spec(advance(r0, k)));
                }
                self.cur_slot = Some(slot);
                let slot = self.cur_slot.as_ref().unwrap();
                Some((slot.input(), self.outs.as_slice()))
            },
        }
    }
}

/// A stream of set intersection over multiple streams in lexicographic
/// order.
pub struct Intersection {
    heap: StreamHeap,
    outs: Vec<IndexedValue>,
    cur_slot: Option<Slot>,
}

impl Intersection {
    /// The operation is in a consistent state.
    pub closed spec fn wf(&self) -> bool {
        self.heap.settled_except(self.cur_slot)
    }

    /// The number of streams merged.
    pub closed spec fn stream_count(&self) -> nat {
        self.heap.heap@.len()
    }

    /// The number of pending pairs held while the streams are merged: the
    /// slots in the heap, and the one whose key was handed out last.
    pub closed spec fn pending(&self) -> nat {
        slots_in(self.heap.heap@) + if self.cur_slot is Some {
            1nat
        } else {
            0nat
        }
    }

    /// The intersection holds at most one pending pair per stream: its memory,
    /// beside the streams themselves, grows with the number of streams.
    pub proof fn lemma_one_pair_per_stream(&self)
        requires
            self.wf(),
        ensures
            self.pending() <= self.stream_count(),
    {
        match self.cur_slot {
            Some(c) => lemma_slots_in(self.heap.heap@, c.idx as int),
            None => lemma_slots_in(self.heap.heap@, 0),
        }
    }

    /// What the intersection has yet to emit.
    pub closed spec fn remaining(&self) -> Seq<(Seq<u8>, Seq<IndexedValue>)> {
        intersection_spec(self.heap.rems())
    }

    /// Emits the next key that every stream holds, with its occurrences,
    /// or `None` when done.
    pub fn next(&mut self) -> (r: Option<(&[u8], &[IndexedValue])>)
        requires
            old(self).wf(),
        ensures
            final(self).wf(),
            final(self).stream_count() == old(self).stream_count(),
            match r {
                None => old(self).remaining().len() == 0 && final(self).remaining() == old(self).remaining(),
                Some((k, outs)) => {
                    &&& old(self).remaining().len() > 0
                    &&& old(self).remaining()[0] == (k@, outs@)
                    &&& final(self).remaining() == old(self).remaining().drop_first()
                },
            },
    {
        let cur = self.cur_slot.take();
        self.heap.put_back(cur);
        let ghost target = intersection_spec(self.heap.rems());
        loop
            invariant
                self.heap.settled(),
                self.cur_slot is None,
                intersection_spec(self.heap.rems()) == target,
                self.heap.heap@.len() == old(self).heap.heap@.len(),
                target == old(self).remaining(),
            decreases total(self.heap.rems()),
        {
            let ghost r0 = self.heap.rems();
            proof {
                self.heap.lemma_rems_sorted();
            }
            let slot = match self.heap.pop_group(&mut self.outs) {
                None => {
                    return None;
                },
                Some(slot) => slot,
            };
            let popped = self.outs.len();
            let ghost k = slot.input@;
            proof {
                lemma_advance_shrinks(r0, k);
                lemma_key_group_len(r0, k);
                assert(intersection_spec(r0) == if heads(r0, k) == r0.len() {
                    seq![(k, key_group(r0, k))] + intersection_spec(advance(r0, k))
                } else {
                    intersection_spec(advance(r0, k))
                });
            }
            if popped < self.heap.num_slots() {
                self.heap.put_back(Some(slot));
            } else {
                proof {
                    assert(target.drop_first() =~= intersection_spec(advance(r0, k)));
                }
                self.cur_slot = Some(slot);
                let slot = self.cur_slot.as_ref().unwrap();
                return Some((slot.input(), self.outs.as_slice()));
            }
        }
    }
}

/// A stream of set symmetric difference over multiple streams in
/// lexicographic order.
pub struct SymmetricDifference {
    heap: StreamHeap,
    outs: Vec<IndexedValue>,
    cur_slot: Option<Slot>,
}

impl SymmetricDifference {
    /// The operation is in a consistent state.
    pub closed spec fn wf(&self) -> bool {
        self.heap.settled_except(self.cur_slot)
    }

    /// The number of streams merged.
    pub closed spec fn stream_count(&self) -> nat {
        self.heap.heap@.len()
    }

    /// The number of pending pairs held while the streams are merged: the
    /// slots in the heap, and the one whose key was handed out last.
    pub closed spec fn pending(&self) -> nat {
        slots_in(self.heap.heap@) + if self.cur_slot is Some {
            1nat
        } else {
            0nat
        }
    }

    /// The symmetric difference holds at most one pending pair per stream: its memory,
    /// beside the streams themselves, grows with the number of streams.
    pub proof fn lemma_one_pair_per_stream(&self)
        requires
            self.wf(),
        ensures
            self.pending() <= self.stream_count(),
    {
        match self.cur_slot {
            Some(c) => lemma_slots_in(self.heap.heap@, c.idx as int),
            None => lemma_slots_in(self.heap.heap@, 0),
        }
    }

    /// What the symmetric difference has yet to emit.
    pub closed spec fn remaining(&self) -> Seq<(Seq<u8>, Seq<IndexedValue>)> {
        symmetric_difference_spec(self.heap.rems())
    }

    /// Emits the next key that an odd number of streams hold, with its
    /// occurrences, or `None` when done.
    pub fn next(&mut self) -> (r: Option<(&[u8], &[IndexedValue])>)
        requires
            old(self).wf(),
        ensures
            final(self).wf(),
            final(self).stream_count() == old(self).stream_count(),
            match r {
                None => old(self).remaining().len() == 0 && final(self).remaining() == old(self).remaining(),
                Some((k, outs)) => {
                    &&& old(self).remaining().len() > 0
                    &&& old(self).remaining()[0] == (k@, outs@)
                    &&& final(self).remaining() == old(self).remaining().drop_first()
                },
            },
    {
        let cur = self.cur_slot.take();
        self.heap.put_back(cur);
        let ghost target = symmetric_difference_spec(self.heap.rems());
        loop
            invariant
                self.heap.settled(),
                self.cur_slot is None,
                symmetric_difference_spec(self.heap.rems()) == target,
                self.heap.heap@.len() == old(self).heap.heap@.len(),
                target == old(self).remaining(),
            decreases total(self.heap.rems()),
        {
            let ghost r0 = self.heap.rems();
            proof {
                self.heap.lemma_rems_sorted();
            }
            let slot = match self.heap.pop_group(&mut self.outs) {
                None => {
                    return None;
                },
                Some(slot) => slot,
            };
            let popped = self.outs.len();
            let ghost k = slot.input@;
            proof {
                lemma_advance_shrinks(r0, k);
                lemma_key_group_len(r0, k);
                assert(symmetric_difference_spec(r0) == if heads(r0, k) % 2 == 1 {
                    seq![(k, key_group(r0, k))] + symmetric_difference_spec(advance(r0, k))
                } else {
                    symmetric_difference_spec(advance(r0, k))
                });
            }
            // This key is in the symmetric difference if and only if it
            // appears in an odd number of sets.
            if popped % 2 == 0 {
                self.heap.put_back(Some(slot));
            } else {
                proof {
                    assert(target.drop_first() =~= symmetric_difference_spec(advance(r0, k)));
                }
                self.cur_slot = Some(slot);
                let slot = self.cur_slot.as_ref().unwrap();
                return Some((slot.input(), self.outs.as_slice()));
            }
        }
    }
}

/// A stream of set difference over multiple streams in lexicographic
/// order.
///
/// The difference operation is taken with respect to the first stream and the
/// rest of the streams. i.e., All elements in the first stream that do not
/// appear in any other streams.
pub struct Difference {
    set: SortedStream,
    key: Vec<u8>,
    heap: StreamHeap,
    outs: Vec<IndexedValue>,
}

impl Difference {
    /// The operation is in a consistent state.
    pub closed spec fn wf(&self) -> bool {
        &&& self.set.wf()
        &&& self.heap.settled()
    }

    /// The number of streams merged, the first one included.
    pub closed spec fn stream_count(&self) -> nat {
        self.heap.heap@.len() + 1
    }

    /// The number of pending pairs held while the streams are merged: the
    /// slots in the heap, one for each stream after the first.
    pub closed spec fn pending(&self) -> nat {
        slots_in(self.heap.heap@)
    }

    /// The difference holds fewer pending pairs than there are streams: its
    /// memory, beside the streams themselves, grows with their number.
    pub proof fn lemma_one_pair_per_stream(&self)
        requires
            self.wf(),
        ensures
            self.pending() < self.stream_count(),
    {
        lemma_slots_in(self.heap.heap@, 0);
    }

    /// What the difference has yet to emit.
    pub closed spec fn remaining(&self) -> Seq<(Seq<u8>, Seq<IndexedValue>)> {
        difference_spec(self.set.rest(), self.heap.rems())
    }

    /// Emits the next pair of the first stream whose key no other stream
    /// holds, or `None` when done.
    pub fn next(&mut self) -> (r: Option<(&[u8], &[IndexedValue])>)
        requires
            old(self).wf(),
        ensures
            final(self).wf(),
            final(self).stream_count() == old(self).stream_count(),
            match r {
                None => old(self).remaining().len() == 0 && final(self).remaining() == old(self).remaining(),
                Some((k, outs)) => {
                    &&& old(self).remaining().len() > 0
                    &&& old(self).remaining()[0] == (k@, outs@)
                    &&& final(self).remaining() == old(self).remaining().drop_first()
                },
            },
    {
        let ghost target = difference_spec(self.set.rest(), self.heap.rems());
        loop
            invariant
                self.wf(),
                difference_spec(self.set.rest(), self.heap.rems()) == target,
                target == old(self).remaining(),
                self.heap.heap@.len() == old(self).heap.heap@.len(),
            decreases self.set.items@.len() - self.set.pos,
        {
            let ghost first = self.set.rest();
            let ghost r0 = self.heap.rems();
            let value = match self.set.next() {
                None => {
                    proof {
                        assert(first.len() == 0);
                    }
                    return None;
                },
                Some((key, out)) => {
                    self.key.clear();
                    self.key.extend_from_slice(key);
                    self.outs.clear();
                    self.outs.push(IndexedValue { index: 0, value: out });
                    out
                },
            };
            assert(self.outs@ =~= seq![IndexedValue { index: 0, value: value }]);
            let ghost k = self.key@;
            proof {
                assert(self.key@ =~= first[0].0);
                assert(sorted_keys(first)) by {
                    let st = old(self).set;
                    assert forall|a: int, b: int| 0 <= a < b < first.len() implies lex_lt(#[trigger] first[a].0, #[trigger] first[b].0) by {
                        assert(first[a] == self.set.entries()[a + self.set.pos - 1]);
                        assert(first[b] == self.set.entries()[b + self.set.pos - 1]);
                    }
                }
                assert(first.drop_first() =~= self.set.rest());
                self.heap.lemma_rems_sorted();
                assert(all_trimmed_upto(r0, self.heap.rems(), k)) by {
                    assert forall|i: int| 0 <= i < r0.len() implies trimmed_upto(#[trigger] r0[i], self.heap.rems()[i], k) by {
                        assert(r0[i].skip(0) =~= r0[i]);
                    }
                }
            }
            let mut unique = true;
            loop
                invariant
                    self.heap.settled(),
                    self.set.wf(),
                    self.set.rest() == first.drop_first(),
                    self.key@ == k,
                    self.outs@ == seq![IndexedValue { index: 0, value: value }],
                    k == first[0].0,
                    all_sorted(r0),
                    all_trimmed_upto(r0, self.heap.rems(), k),
                    unique <==> !exists|i: int, j: int|
                        0 <= i < r0.len() && 0 <= j < r0[i].len() - self.heap.rems()[i].len()
                            && #[trigger] r0[i][j].0 == k,
                ensures
                    self.heap.settled(),
                    self.set.wf(),
                    self.set.rest() == first.drop_first(),
                    self.key@ == k,
                    self.outs@ == seq![IndexedValue { index: 0, value: value }],
                    all_trimmed_upto(r0, self.heap.rems(), k),
                    unique <==> !exists|i: int, j: int|
                        0 <= i < r0.len() && 0 <= j < r0[i].len() - self.heap.rems()[i].len()
                            && #[trigger] r0[i][j].0 == k,
                    forall|i: int|
                        0 <= i < self.heap.heap@.len() && #[trigger] self.heap.visible(i) ==> lex_lt(k, self.heap.key_at(i)),
                decreases total(self.heap.rems()),
            {
                let ghost pre = self.heap;
                let ghost rp = self.heap.rems();
                match self.heap.pop_if_le(&self.key) {
                    None => {
                        break;
                    },
                    Some(slot) => {
                        let m = slot.idx;
                        proof {
                            pre.lemma_visible_head(m as int);
                        }
                        if compare_keys(slot.input(), &self.key) == KeyOrder::Equal {
                            unique = false;
                        }
                        self.heap.refill(slot);
                        proof {
                            assert forall|i: int| 0 <= i < self.heap.heap@.len() implies #[trigger] self.heap.settled_at(i) by {
                                if i != m {
                                    assert(pre.settled_at(i));
                                }
                            }
                            let rn = self.heap.rems();
                            assert(trimmed_upto(r0[m as int], rp[m as int], k));
                            let dm = r0[m as int].len() - rp[m as int].len();
                            assert(rp[m as int][0] == r0[m as int][dm]);
                            assert(rn[m as int] =~= r0[m as int].skip(dm + 1));
                            assert forall|i: int| 0 <= i < r0.len() implies trimmed_upto(#[trigger] r0[i], rn[i], k) by {
                                assert(trimmed_upto(r0[i], rp[i], k));
                                if i == m {
                                    assert forall|j: int| 0 <= j < r0[i].len() - rn[i].len() implies lex_le(#[trigger] r0[i][j].0, k) by {
                                        if j < dm {
                                            assert(lex_le(r0[i][j].0, k));
                                        }
                                    }
                                }
                            }
                            assert(r0[m as int][dm].0 == slot.input@);
                            assert forall|i: int| 0 <= i < r0.len() implies #[trigger] rn[i].len() <= rp[i].len() by {
                                if i != m {
                                    assert(rn[i] == rp[i]);
                                }
                            }
                            if exists|i: int, j: int|
                                0 <= i < r0.len() && 0 <= j < r0[i].len() - rn[i].len()
                                    && #[trigger] r0[i][j].0 == k {
                                let (i, j) = choose|i: int, j: int|
                                    0 <= i < r0.len() && 0 <= j < r0[i].len() - rn[i].len()
                                        && #[trigger] r0[i][j].0 == k;
                                if !(i == m && j == dm) {
                                    if i == m {
                                        assert(0 <= j < r0[i].len() - rp[i].len());
                                    } else {
                                        assert(rn[i] == rp[i]);
                                        assert(0 <= j < r0[i].len() - rp[i].len());
                                    }
                                }
                                assert(!unique);
                            }
                            if !unique {
                                if slot.input@ == k {
                                    assert(0 <= dm < r0[m as int].len() - rn[m as int].len() && r0[m as int][dm].0 == k);
                                } else {
                                    let (i, j) = choose|i: int, j: int|
                                        0 <= i < r0.len() && 0 <= j < r0[i].len() - rp[i].len()
                                            && #[trigger] r0[i][j].0 == k;
                                    assert(0 <= j < r0[i].len() - rn[i].len());
                                }
                            }
                            crate::merge::lemma_total_drop(rp, m as int);
                        }
                    },
                }
            }
            proof {
                let r1 = self.heap.rems();
                // every key still ahead in the other streams comes after `k`
                assert forall|i: int, j: int| 0 <= i < r1.len() && 0 <= j < r1[i].len() implies lex_lt(k, #[trigger] r1[i][j].0) by {
                    assert(self.heap.settled_at(i));
                    if !self.heap.visible(i) {
                        self.heap.lemma_hidden_empty(i);
                    } else {
                        self.heap.lemma_visible_head(i);
                        self.heap.lemma_rems_sorted();
                        if j > 0 {
                            assert(sorted_keys(r1[i]));
                            lemma_lex_transitive(k, r1[i][0].0, r1[i][j].0);
                        }
                    }
                }
                assert(in_any(r0, k) <==> !unique) by {
                    if in_any(r0, k) {
                        let i = choose|i: int| 0 <= i < r0.len() && holds_key(#[trigger] r0[i], k);
                        let j = choose|j: int| 0 <= j < r0[i].len() && #[trigger] r0[i][j].0 == k;
                        assert(trimmed_upto(r0[i], r1[i], k));
                        let d = r0[i].len() - r1[i].len();
                        if j >= d {
                            assert(r1[i][j - d] == r0[i][j]);
                            lemma_lex_irreflexive(k);
                        }
                    }
                    if !unique {
                        let (i, j) = choose|i: int, j: int|
                            0 <= i < r0.len() && 0 <= j < r0[i].len() - r1[i].len() && #[trigger] r0[i][j].0 == k;
                        assert(holds_key(r0[i], k));
                    }
                }
                // the rest of the first stream comes after `k`
                let rest = first.drop_first();
                assert forall|j: int| 0 <= j < rest.len() implies
                    in_any(r1, #[trigger] rest[j].0) == in_any(r0, rest[j].0) by {
                    assert(rest[j] == first[j + 1]);
                    crate::merge::lemma_first_rest_after(first, j + 1);
                    lemma_trim_keeps_later_keys(r0, r1, k, rest[j].0);
                }
                lemma_difference_spec_same_keys(rest, r1, r0);
                assert(difference_spec(first, r0) == if in_any(r0, k) {
                    difference_spec(rest, r0)
                } else {
                    seq![(k, seq![IndexedValue { index: 0, value: value }])] + difference_spec(rest, r0)
                });
            }
            if unique {
                proof {
                    assert(self.outs@ =~= seq![IndexedValue { index: 0, value: value }]);
                    assert(target.drop_first() =~= difference_spec(first.drop_first(), r0));
                }
                return Some((self.key.as_slice(), self.outs.as_slice()));
            }
        }
    }
}

} // verus!
