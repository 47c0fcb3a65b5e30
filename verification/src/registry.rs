//! A registry of compiled nodes: a hash table whose buckets are small caches
//! kept in most-recently-used order, so that equal nodes are compiled once
//! while memory stays bounded.

use vstd::prelude::*;

use crate::bump::{bump_cells, bump_vec_as_mut_slice, bump_vec_is_empty, bump_vec_push, bump_vec_with_capacity_in, bump_reserved};
use crate::node::{BuilderNode, CompiledAddr, Transition, NONE_ADDRESS};

verus! {

/// A registry cell: a node with the address it was compiled at, or
/// `NONE_ADDRESS` when the cell is empty.
#[derive(Debug)]
pub struct RegistryCell {
    /// The address the node was compiled at.
    pub addr: CompiledAddr,
    /// The node.
    pub node: BuilderNode,
}

/// The outcome of looking a node up in the registry.
#[derive(Debug)]
pub enum RegistryEntry<'a> {
    /// The node was compiled before, at this address.
    Found(CompiledAddr),
    /// The node was not in the registry; it now is, in this cell, whose
    /// address the caller sets once it has compiled the node.
    NotFound(&'a mut RegistryCell),
    /// The registry has no room at all.
    Rejected,
}

/// The cells of one bucket, most recently used first.
pub struct RegistryCache<'a> {
    /// The cells of the bucket.
    pub cells: &'a mut [RegistryCell],
}

/// Cell `c` is not empty and holds node `n`.
pub open spec fn holds(c: RegistryCell, n: (bool, u64, Seq<Transition>)) -> bool {
    c.addr != NONE_ADDRESS && c.node@ == n
}

/// The first cell at or after `i` that holds node `n`.
pub open spec fn first_holding_from(w: Seq<RegistryCell>, n: (bool, u64, Seq<Transition>), i: int) -> Option<int>
    decreases w.len() - i,
{
    if i < 0 || i >= w.len() {
        None
    } else if holds(w[i], n) {
        Some(i)
    } else {
        first_holding_from(w, n, i + 1)
    }
}

/// The first cell of the bucket that holds node `n`.
pub open spec fn first_holding(w: Seq<RegistryCell>, n: (bool, u64, Seq<Transition>)) -> Option<int> {
    first_holding_from(w, n, 0)
}

/// The bucket with cell `i` moved to the front, the cells before it moved
/// one place back.
pub open spec fn promoted(w: Seq<RegistryCell>, i: int) -> Seq<RegistryCell> {
    seq![w[i]] + w.take(i) + w.skip(i + 1)
}

/// What `first_holding_from` finds.
pub proof fn lemma_first_holding_from(w: Seq<RegistryCell>, n: (bool, u64, Seq<Transition>), i: int)
    requires
        0 <= i,
    ensures
        first_holding_from(w, n, i) matches Some(j) ==> {
            &&& i <= j < w.len()
            &&& holds(w[j], n)
            &&& forall|k: int| i <= k < j ==> !holds(#[trigger] w[k], n)
        },
        first_holding_from(w, n, i) is None ==> forall|k: int| i <= k < w.len() ==> !holds(#[trigger] w[k], n),
    decreases w.len() - i,
{
    if i < w.len() {
        lemma_first_holding_from(w, n, i + 1);
    }
}

/// Swaps cells `a` and `b`, `a` before `b`.
fn swap_cells(cells: &mut [RegistryCell], a: usize, b: usize)
    requires
        a < b < old(cells)@.len(),
    ensures
        final(cells)@ == old(cells)@.update(a as int, old(cells)@[b as int]).update(b as int, old(cells)@[a as int]),
{
    let ghost w = cells@;
    let (left, right) = cells.split_at_mut(b);
    let ghost l0 = left@;
    let ghost r0 = right@;
    std::mem::swap(&mut left[a], &mut right[0]);
    assert(left@ == l0.update(a as int, r0[0]));
    assert(right@ == r0.update(0, l0[a as int]));
    assert(cells@ =~= w.update(a as int, w[b as int]).update(b as int, w[a as int]));
}

impl RegistryCell {
    /// An empty cell.
    fn none() -> (c: RegistryCell)
        ensures
            c.addr == NONE_ADDRESS,
            c.node@ == (false, 0u64, Seq::<Transition>::empty()),
    {
        RegistryCell { addr: NONE_ADDRESS, node: BuilderNode::new() }
    }

    /// Whether the cell is empty.
    fn is_none(&self) -> (b: bool)
        ensures
            b == (self.addr == NONE_ADDRESS),
    {
        self.addr == NONE_ADDRESS
    }

    /// Records the address the cell's node was compiled at.
    pub fn insert(&mut self, addr: CompiledAddr)
        ensures
            final(self).addr == addr,
            final(self).node == old(self).node,
    {
        self.addr = addr;
    }

    /// Whether the cell is not empty and holds `node`.
    fn holds_node(&self, node: &BuilderNode) -> (b: bool)
        ensures
            b == holds(*self, node@),
    {
        !self.is_none() && self.node.same_as(node)
    }

    /// Puts a copy of `node` in the cell, keeping its address.
    fn set_node(&mut self, node: &BuilderNode)
        ensures
            final(self).addr == old(self).addr,
            final(self).node@ == node@,
    {
        self.node.clone_from(node);
    }
}

impl<'a> RegistryCache<'a> {
    /// Looks `node` up in the bucket. A hit moves its cell to the front. A
    /// miss puts a copy of `node` in the least recently used cell (the last
    /// one), moves that cell to the front and hands it out.
    pub fn entry(self, node: &BuilderNode) -> (r: RegistryEntry<'a>)
        requires
            old(self.cells)@.len() > 0,
        ensures
            final(self.cells)@.len() == old(self.cells)@.len(),
            match r {
                RegistryEntry::Rejected => false,
                RegistryEntry::Found(addr) => {
                    &&& first_holding(old(self.cells)@, node@) matches Some(i)
                    &&& addr == old(self.cells)@[i].addr
                    &&& final(self.cells)@ == promoted(old(self.cells)@, i)
                },
                RegistryEntry::NotFound(cell) => {
                    let last = old(self.cells)@.len() - 1;
                    &&& first_holding(old(self.cells)@, node@) is None
                    &&& cell.addr == old(self.cells)@[last].addr
                    &&& cell.node@ == node@
                    &&& final(self.cells)@ == seq![*final(cell)] + old(self.cells)@.take(last)
                },
            },
    {
        let ghost w = self.cells@;
        proof {
            lemma_first_holding_from(w, node@, 0);
        }
        if self.cells.len() == 1 {
            if self.cells[0].holds_node(node) {
                let addr = self.cells[0].addr;
                assert(promoted(w, 0) =~= w);
                RegistryEntry::Found(addr)
            } else {
                self.cells[0].set_node(node);
                let cell = &mut self.cells[0];
                RegistryEntry::NotFound(cell)
            }
        } else if self.cells.len() == 2 {
            if self.cells[0].holds_node(node) {
                let addr = self.cells[0].addr;
                assert(promoted(w, 0) =~= w);
                return RegistryEntry::Found(addr);
            }
            if self.cells[1].holds_node(node) {
                let addr = self.cells[1].addr;
                swap_cells(self.cells, 0, 1);
                assert(self.cells@ =~= promoted(w, 1));
                return RegistryEntry::Found(addr);
            }
            self.cells[1].set_node(node);
            swap_cells(self.cells, 0, 1);
            let cell = &mut self.cells[0];
            RegistryEntry::NotFound(cell)
        } else {
            let n = self.cells.len();
            let mut i: usize = 0;
            let mut found = false;
            while i < n
                invariant
                    n == self.cells@.len(),
                    self.cells@ == w,
                    i <= n,
                    forall|k: int| 0 <= k < i ==> !holds(#[trigger] w[k], node@),
                    found ==> i < n && holds(w[i as int], node@),
                ensures
                    self.cells@ == w,
                    found ==> i < n && holds(w[i as int], node@) && forall|k: int| 0 <= k < i ==> !holds(#[trigger] w[k], node@),
                    !found ==> forall|k: int| 0 <= k < n ==> !holds(#[trigger] w[k], node@),
                decreases n - i,
            {
                if self.cells[i].holds_node(node) {
                    found = true;
                    break;
                }
                i = i + 1;
            }
            if found {
                let addr = self.cells[i].addr;
                proof {
                    lemma_first_holding_found(w, node@, i as int);
                }
                promote_cells(self.cells, i);
                RegistryEntry::Found(addr)
            } else {
                let last = n - 1;
                self.cells[last].set_node(node);
                let ghost w1 = self.cells@;
                promote_cells(self.cells, last);
                proof {
                    assert(w1.take(last as int) =~= w.take(last as int));
                }
                let cell = &mut self.cells[0];
                RegistryEntry::NotFound(cell)
            }
        }
    }

    /// Moves cell `i` to the front, the cells before it one place back.
    pub fn promote(&mut self, i: usize)
        requires
            i < old(self).cells@.len(),
        ensures
            final(self).cells@ == promoted(old(self).cells@, i as int),
    {
        promote_cells(self.cells, i);
    }
}

/// Moves cell `i` to the front, the cells before it one place back.
fn promote_cells(cells: &mut [RegistryCell], i: usize)
    requires
        i < old(cells)@.len(),
    ensures
        final(cells)@ == promoted(old(cells)@, i as int),
{
    let ghost w = cells@;
    let mut j = i;
    while j > 0
        invariant
            j <= i < w.len(),
            cells@.len() == w.len(),
            cells@ == w.take(j as int) + seq![w[i as int]] + w.subrange(j as int, i as int) + w.skip(i + 1),
        decreases j,
    {
        swap_cells(cells, j - 1, j);
        proof {
            assert(cells@ =~= w.take(j - 1) + seq![w[i as int]] + w.subrange(j - 1, i as int) + w.skip(i + 1));
        }
        j = j - 1;
    }
    assert(cells@ =~= promoted(w, i as int));
}

/// A cell found by a scan from the front is the first one holding the node.
proof fn lemma_first_holding_found(w: Seq<RegistryCell>, n: (bool, u64, Seq<Transition>), i: int)
    requires
        0 <= i < w.len(),
        holds(w[i], n),
        forall|k: int| 0 <= k < i ==> !holds(#[trigger] w[k], n),
    ensures
        first_holding(w, n) == Some(i),
{
    lemma_first_holding_from(w, n, 0);
    if let Some(j) = first_holding(w, n) {
        if j < i {
            assert(!holds(w[j], n));
        }
    }
}

/// The FNV-1a 64-bit prime.
pub const FNV_PRIME: u64 = 1099511628211;

/// The FNV-1a 64-bit offset basis.
pub const FNV_OFFSET: u64 = 14695981039346656037;

/// One FNV-1a step: fold `x` into the hash `h`.
pub open spec fn fnv_step(h: u64, x: u64) -> u64 {
    vstd::wrapping::u64_specs::wrapping_mul(h ^ x, FNV_PRIME)
}

/// The hash `h` with the transitions `ts` folded in, in order, each as its
/// input byte, its output and its address.
pub open spec fn fnv_transitions(h: u64, ts: Seq<Transition>) -> u64
    decreases ts.len(),
{
    if ts.len() == 0 {
        h
    } else {
        let t = ts.last();
        fnv_step(fnv_step(fnv_step(fnv_transitions(h, ts.drop_last()), t.inp as u64), t.out), t.addr as u64)
    }
}

/// The FNV-1a hash of a node: whether it accepts, its final output, then
/// its transitions.
pub open spec fn fnv_node(n: (bool, u64, Seq<Transition>)) -> u64 {
    fnv_transitions(fnv_step(fnv_step(FNV_OFFSET, if n.0 { 1u64 } else { 0u64 }), n.1), n.2)
}

/// The bucket that node `n` belongs to in a table of `rows` buckets: its
/// FNV-1a hash, as a `usize`, modulo `rows`.
pub open spec fn bucket_of(n: (bool, u64, Seq<Transition>), rows: nat) -> int {
    (fnv_node(n) as usize) as int % (rows as int)
}

/// The cells of bucket `b` of a table with `columns` cells per bucket.
pub open spec fn bucket_cells(cells: Seq<RegistryCell>, columns: nat, b: int) -> Seq<RegistryCell> {
    cells.subrange(b * columns, b * columns + columns)
}

/// The table with bucket `b` replaced by `w`.
pub open spec fn with_bucket(cells: Seq<RegistryCell>, columns: nat, b: int, w: Seq<RegistryCell>) -> Seq<RegistryCell> {
    cells.take(b * columns) + w + cells.skip(b * columns + columns)
}

/// The `len` cells from `start` on; what is written through them is what
/// the whole table holds there afterwards.
fn bucket_window<'a>(all: &'a mut [RegistryCell], start: usize, len: usize) -> (w: &'a mut [RegistryCell])
    requires
        start + len <= old(all)@.len(),
    ensures
        w@ == old(all)@.subrange(start as int, start + len),
        final(all)@ == old(all)@.take(start as int) + final(w)@ + old(all)@.skip(start + len),
{
    let (before, rest) = all.split_at_mut(start);
    let (window, after) = rest.split_at_mut(len);
    window
}

/// A registry of compiled nodes: `table_size` buckets (rows) of `mru_size`
/// cells (columns) each, allocated in an arena.
#[derive(Debug)]
pub struct Registry<'bump> {
    table: bumpalo::collections::Vec<'bump, RegistryCell>,
    table_size: usize,
    mru_size: usize,
}

impl<'bump> Registry<'bump> {
    /// The cells of the table, bucket after bucket.
    pub closed spec fn cells(&self) -> Seq<RegistryCell> {
        bump_cells(self.table)
    }

    /// The number of buckets.
    pub closed spec fn rows(&self) -> nat {
        self.table_size as nat
    }

    /// The number of cells per bucket.
    pub closed spec fn columns(&self) -> nat {
        self.mru_size as nat
    }

    /// The table has one cell per row and column.
    pub closed spec fn wf(&self) -> bool {
        &&& self.cells().len() == self.rows() * self.columns()
        &&& self.rows() * self.columns() <= usize::MAX
    }

    /// A well-formed table has one cell per row and column, and a table with
    /// cells has rows and columns; every node's bucket lies inside it.
    pub proof fn lemma_table_shape(&self, n: (bool, u64, Seq<Transition>))
        requires
            self.wf(),
        ensures
            self.cells().len() == self.rows() * self.columns(),
            self.rows() * self.columns() <= usize::MAX,
            self.cells().len() == 0 <==> (self.rows() == 0 || self.columns() == 0),
            self.cells().len() > 0 ==> {
                &&& self.columns() > 0
                &&& 0 <= self.bucket(n) < self.rows()
                &&& self.bucket(n) * self.columns() + self.columns() <= self.cells().len()
            },
    {
        let r = self.rows() as int;
        let c = self.columns() as int;
        assert((r == 0 || c == 0) <==> r * c == 0) by (nonlinear_arith)
            requires r >= 0 && c >= 0;
        if self.cells().len() > 0 {
            let b = self.bucket(n);
            assert(0 <= b < r);
            assert(b * c + c <= r * c) by (nonlinear_arith)
                requires 0 <= b < r, c > 0;
        }
    }

    /// The bucket that node `n` belongs to.
    pub open spec fn bucket(&self, n: (bool, u64, Seq<Transition>)) -> int {
        bucket_of(n, self.rows())
    }

    /// A registry of `table_size` buckets of `mru_size` empty cells, in the
    /// arena `bump`.
    pub fn new(table_size: usize, mru_size: usize, bump: &'bump bumpalo::Bump) -> (r: Registry<'bump>)
        requires
            table_size * mru_size <= usize::MAX,
            table_size * mru_size * vstd::layout::size_of::<RegistryCell>() <= isize::MAX,
        ensures
            r.wf(),
            r.rows() == table_size,
            r.columns() == mru_size,
            r.cells().len() == table_size * mru_size,
            forall|i: int| 0 <= i < r.cells().len() ==> {
                &&& (#[trigger] r.cells()[i]).addr == NONE_ADDRESS
                &&& r.cells()[i].node@ == (false, 0u64, Seq::<Transition>::empty())
            },
    {
        let ncells = table_size.checked_mul(mru_size).unwrap();
        let mut table = bump_vec_with_capacity_in(ncells, bump);
        let mut k: usize = 0;
        while k < ncells
            invariant
                k <= ncells,
                ncells == table_size * mru_size,
                bump_cells(table).len() == k,
                bump_reserved(table) >= ncells,
                forall|i: int| 0 <= i < k ==> {
                    &&& (#[trigger] bump_cells(table)[i]).addr == NONE_ADDRESS
                    &&& bump_cells(table)[i].node@ == (false, 0u64, Seq::<Transition>::empty())
                },
            decreases ncells - k,
        {
            bump_vec_push(&mut table, RegistryCell::none());
            k = k + 1;
        }
        Registry { table, table_size, mru_size }
    }

    /// Looks `node` up in its bucket, as `RegistryCache::entry` does; a
    /// table without cells rejects every node.
    pub fn entry<'a>(&'a mut self, node: &BuilderNode) -> (r: RegistryEntry<'a>)
        requires
            old(self).wf(),
        ensures
            final(self).wf(),
            final(self).rows() == old(self).rows(),
            final(self).columns() == old(self).columns(),
            final(self).cells().len() == old(self).cells().len(),
            old(self).cells().len() == 0 ==> r is Rejected && final(self).cells() == old(self).cells(),
            old(self).cells().len() > 0 ==> {
                let b = old(self).bucket(node@);
                let w = bucket_cells(old(self).cells(), old(self).columns(), b);
                match r {
                    RegistryEntry::Rejected => false,
                    RegistryEntry::Found(addr) => {
                        &&& first_holding(w, node@) matches Some(i)
                        &&& addr == w[i].addr
                        &&& final(self).cells() == with_bucket(old(self).cells(), old(self).columns(), b, promoted(w, i))
                    },
                    RegistryEntry::NotFound(cell) => {
                        let last = w.len() - 1;
                        &&& first_holding(w, node@) is None
                        &&& cell.addr == w[last].addr
                        &&& cell.node@ == node@
                        &&& final(self).cells() == with_bucket(
                            old(self).cells(),
                            old(self).columns(),
                            b,
                            seq![*final(cell)] + w.take(last),
                        )
                    },
                }
            },
    {
        if bump_vec_is_empty(&self.table) {
            return RegistryEntry::Rejected;
        }
        let ts = self.table_size;
        let ms = self.mru_size;
        proof {
            if ts == 0 || ms == 0 {
                assert(ts * ms == 0) by (nonlinear_arith)
                    requires ts == 0 || ms == 0;
            }
        }
        let bucket = self.hash(node);
        proof {
            assert(ms * bucket + ms <= ts * ms && bucket * ms == ms * bucket) by (nonlinear_arith)
                requires bucket < ts;
        }
        let start = ms * bucket;
        let window = bucket_window(bump_vec_as_mut_slice(&mut self.table), start, ms);
        RegistryCache { cells: window }.entry(node)
    }

    /// The bucket of `node`: its FNV-1a hash modulo the number of buckets.
    fn hash(&self, node: &BuilderNode) -> (b: usize)
        requires
            self.table_size > 0,
        ensures
            b == self.bucket(node@),
            b < self.table_size,
    {
        let mut h: u64 = FNV_OFFSET;
        let fin: u64 = if node.is_final { 1 } else { 0 };
        h = (h ^ fin).wrapping_mul(FNV_PRIME);
        h = (h ^ node.final_output).wrapping_mul(FNV_PRIME);
        let n = node.trans.len();
        let mut i: usize = 0;
        while i < n
            invariant
                n == node.trans@.len(),
                i <= n,
                h == fnv_transitions(
                    fnv_step(fnv_step(FNV_OFFSET, if node.is_final { 1u64 } else { 0u64 }), node.final_output),
                    node.trans@.take(i as int),
                ),
            decreases n - i,
        {
            let t = node.trans[i];
            proof {
                assert(node.trans@.take(i + 1).drop_last() =~= node.trans@.take(i as int));
            }
            h = (h ^ (t.inp as u64)).wrapping_mul(FNV_PRIME);
            h = (h ^ t.out).wrapping_mul(FNV_PRIME);
            h = (h ^ (t.addr as u64)).wrapping_mul(FNV_PRIME);
            i = i + 1;
        }
        assert(node.trans@.take(n as int) =~= node.trans@);
        #[verifier::truncate]
        let hu = h as usize;
        hu % self.table_size
    }
}

/// A node looked up again right after a miss, once the cell handed out
/// has been given a real address, is found with that address: the miss
/// left its cell at the front of the node's bucket.
pub proof fn lemma_miss_then_hit(
    cells: Seq<RegistryCell>,
    columns: nat,
    b: int,
    cell: RegistryCell,
    n: (bool, u64, Seq<Transition>),
)
    requires
        columns > 0,
        0 <= b,
        b * columns + columns <= cells.len(),
        cell.addr != NONE_ADDRESS,
        cell.node@ == n,
    ensures
        ({
            let w = bucket_cells(cells, columns, b);
            let after = with_bucket(cells, columns, b, seq![cell] + w.take(w.len() - 1));
            &&& after.len() == cells.len()
            &&& bucket_cells(after, columns, b) == seq![cell] + w.take(w.len() - 1)
            &&& first_holding(bucket_cells(after, columns, b), n) == Some(0int)
        }),
{
    let w = bucket_cells(cells, columns, b);
    let nw = seq![cell] + w.take(w.len() - 1);
    let after = with_bucket(cells, columns, b, nw);
    assert(bucket_cells(after, columns, b) =~= nw);
    assert(holds(nw[0], n));
}

/// A node found in its bucket is found there again, at the front, by the
/// next lookup.
pub proof fn lemma_hit_then_hit(
    cells: Seq<RegistryCell>,
    columns: nat,
    b: int,
    i: int,
    n: (bool, u64, Seq<Transition>),
)
    requires
        0 <= b,
        b * columns + columns <= cells.len(),
        first_holding(bucket_cells(cells, columns, b), n) == Some(i),
    ensures
        ({
            let w = bucket_cells(cells, columns, b);
            let after = with_bucket(cells, columns, b, promoted(w, i));
            &&& after.len() == cells.len()
            &&& first_holding(bucket_cells(after, columns, b), n) == Some(0int)
            &&& bucket_cells(after, columns, b)[0] == w[i]
        }),
{
    let w = bucket_cells(cells, columns, b);
    lemma_first_holding_from(w, n, 0);
    let nw = promoted(w, i);
    let after = with_bucket(cells, columns, b, nw);
    assert(nw.len() == w.len());
    assert(bucket_cells(after, columns, b) =~= nw);
    assert(holds(nw[0], n));
}

/// A read gives back a write: when a lookup of node `n` missed and the
/// cell it handed out was given a real address, the next lookup of `n`
/// finds that cell first in `n`'s bucket, with that address.
pub proof fn lemma_registry_miss_then_hit<'b>(
    before: Registry<'b>,
    after: Registry<'b>,
    n: (bool, u64, Seq<Transition>),
    cell: RegistryCell,
)
    requires
        before.wf(),
        before.cells().len() > 0,
        first_holding(bucket_cells(before.cells(), before.columns(), before.bucket(n)), n) is None,
        after.rows() == before.rows(),
        after.columns() == before.columns(),
        after.cells() == with_bucket(
            before.cells(),
            before.columns(),
            before.bucket(n),
            seq![cell] + bucket_cells(before.cells(), before.columns(), before.bucket(n)).take(
                before.columns() - 1,
            ),
        ),
        cell.addr != NONE_ADDRESS,
        cell.node@ == n,
    ensures
        after.bucket(n) == before.bucket(n),
        first_holding(bucket_cells(after.cells(), after.columns(), after.bucket(n)), n) == Some(0int),
        bucket_cells(after.cells(), after.columns(), after.bucket(n))[0] == cell,
{
    before.lemma_table_shape(n);
    lemma_miss_then_hit(before.cells(), before.columns(), before.bucket(n), cell, n);
}

/// The table with bucket `b0` replaced by a bucket of the same size holds
/// that bucket at `b0` and every other bucket as it was.
pub proof fn lemma_with_bucket(cells: Seq<RegistryCell>, rows: nat, columns: nat, b0: int, nw: Seq<RegistryCell>)
    requires
        cells.len() == rows * columns,
        0 <= b0 < rows,
        nw.len() == columns,
    ensures
        with_bucket(cells, columns, b0, nw).len() == cells.len(),
        bucket_cells(with_bucket(cells, columns, b0, nw), columns, b0) == nw,
        forall|b: int|
            0 <= b < rows && b != b0 ==> #[trigger] bucket_cells(with_bucket(cells, columns, b0, nw), columns, b)
                == bucket_cells(cells, columns, b),
{
    let c = columns as int;
    let r = rows as int;
    assert(b0 * c + c <= r * c) by (nonlinear_arith)
        requires 0 <= b0 < r, c >= 0;
    assert(0 <= b0 * c) by (nonlinear_arith)
        requires 0 <= b0, c >= 0;
    let after = with_bucket(cells, columns, b0, nw);
    assert(bucket_cells(after, columns, b0) =~= nw);
    assert forall|b: int| 0 <= b < rows && b != b0 implies #[trigger] bucket_cells(after, columns, b)
        == bucket_cells(cells, columns, b) by {
        assert(b * c + c <= r * c && 0 <= b * c) by (nonlinear_arith)
            requires 0 <= b < r, c >= 0;
        if b < b0 {
            assert(b * c + c <= b0 * c) by (nonlinear_arith)
                requires b < b0, c >= 0;
        } else {
            assert(b0 * c + c <= b * c) by (nonlinear_arith)
                requires b0 < b, c >= 0;
        }
        assert(bucket_cells(after, columns, b) =~= bucket_cells(cells, columns, b));
    }
}

/// Cell `c`, in bucket `b` of a table of `rows` buckets, agrees with the
/// address history `hist`: when it is not empty, its node belongs to
/// bucket `b` and its address is the one `hist` gives for that node.
pub open spec fn cell_agrees(
    c: RegistryCell,
    rows: nat,
    b: int,
    hist: Map<(bool, u64, Seq<Transition>), CompiledAddr>,
) -> bool {
    c.addr != NONE_ADDRESS ==> {
        &&& bucket_of(c.node@, rows) == b
        &&& hist.contains_key(c.node@)
        &&& hist[c.node@] == c.addr
    }
}

/// Every cell of a table of `rows` buckets of `columns` cells agrees with
/// the address history `hist`.
pub open spec fn table_agrees(
    cells: Seq<RegistryCell>,
    rows: nat,
    columns: nat,
    hist: Map<(bool, u64, Seq<Transition>), CompiledAddr>,
) -> bool {
    &&& cells.len() == rows * columns
    &&& forall|b: int, j: int|
        0 <= b < rows && 0 <= j < columns ==> cell_agrees(#[trigger] bucket_cells(cells, columns, b)[j], rows, b, hist)
}

/// A table of empty cells agrees with every address history.
pub proof fn lemma_empty_table_agrees(
    cells: Seq<RegistryCell>,
    rows: nat,
    columns: nat,
    hist: Map<(bool, u64, Seq<Transition>), CompiledAddr>,
)
    requires
        cells.len() == rows * columns,
        forall|i: int| 0 <= i < cells.len() ==> (#[trigger] cells[i]).addr == NONE_ADDRESS,
    ensures
        table_agrees(cells, rows, columns, hist),
{
    let c = columns as int;
    let r = rows as int;
    assert forall|b: int, j: int| 0 <= b < rows && 0 <= j < columns implies cell_agrees(
        #[trigger] bucket_cells(cells, columns, b)[j],
        rows,
        b,
        hist,
    ) by {
        assert(0 <= b * c && b * c + j < b * c + c <= r * c) by (nonlinear_arith)
            requires 0 <= b < r, 0 <= j < c;
        assert(bucket_cells(cells, columns, b)[j] == cells[b * c + j]);
    }
}

impl<'bump> Registry<'bump> {
    /// Every cell of the table agrees with the address history `hist`.
    pub open spec fn agrees_with(&self, hist: Map<(bool, u64, Seq<Transition>), CompiledAddr>) -> bool {
        table_agrees(self.cells(), self.rows(), self.columns(), hist)
    }
}

/// A registry whose cells are all empty, as `Registry::new` makes it,
/// agrees with every address history, the empty one among them.
pub proof fn lemma_registry_empty_agrees<'b>(r: Registry<'b>, hist: Map<(bool, u64, Seq<Transition>), CompiledAddr>)
    requires
        r.wf(),
        forall|i: int| 0 <= i < r.cells().len() ==> (#[trigger] r.cells()[i]).addr == NONE_ADDRESS,
    ensures
        r.agrees_with(hist),
{
    lemma_empty_table_agrees(r.cells(), r.rows(), r.columns(), hist);
}

/// A hit names the address last recorded for the node and no other: when
/// the registry agrees with the history `hist` of recorded addresses, the
/// cell that a lookup of `n` finds holds `hist[n]`, a real address, and the
/// registry after the hit still agrees with `hist`.
pub proof fn lemma_registry_hit_agrees<'b>(
    before: Registry<'b>,
    after: Registry<'b>,
    n: (bool, u64, Seq<Transition>),
    i: int,
    hist: Map<(bool, u64, Seq<Transition>), CompiledAddr>,
)
    requires
        before.wf(),
        before.cells().len() > 0,
        before.agrees_with(hist),
        first_holding(bucket_cells(before.cells(), before.columns(), before.bucket(n)), n) == Some(i),
        after.rows() == before.rows(),
        after.columns() == before.columns(),
        after.cells() == with_bucket(
            before.cells(),
            before.columns(),
            before.bucket(n),
            promoted(bucket_cells(before.cells(), before.columns(), before.bucket(n)), i),
        ),
    ensures
        hist.contains_key(n),
        hist[n] != NONE_ADDRESS,
        bucket_cells(before.cells(), before.columns(), before.bucket(n))[i].addr == hist[n],
        after.agrees_with(hist),
{
    let rows = before.rows();
    let cols = before.columns();
    let b0 = before.bucket(n);
    let w = bucket_cells(before.cells(), cols, b0);
    before.lemma_table_shape(n);
    lemma_first_holding_from(w, n, 0);
    assert(cell_agrees(w[i], rows, b0, hist));
    let nw = promoted(w, i);
    lemma_with_bucket(before.cells(), rows, cols, b0, nw);
    assert forall|b: int, j: int| 0 <= b < rows && 0 <= j < cols implies cell_agrees(
        #[trigger] bucket_cells(after.cells(), cols, b)[j],
        rows,
        b,
        hist,
    ) by {
        if b == b0 {
            if j == 0 {
                assert(nw[j] == w[i]);
            } else if j <= i {
                assert(nw[j] == w[j - 1]);
                assert(cell_agrees(w[j - 1], rows, b0, hist));
            } else {
                assert(nw[j] == w[j]);
                assert(cell_agrees(w[j], rows, b0, hist));
            }
        } else {
            assert(bucket_cells(after.cells(), cols, b) == bucket_cells(before.cells(), cols, b));
        }
    }
}

/// A miss followed by recording a real address `cell.addr` for `n` updates
/// the history at `n` alone: when the registry agrees with `hist` before,
/// it agrees with `hist` updated at `n` afterwards. Together with
/// `lemma_registry_hit_agrees`, a hit never names the address of another
/// node, and names the address recorded after the latest miss of `n`.
pub proof fn lemma_registry_miss_agrees<'b>(
    before: Registry<'b>,
    after: Registry<'b>,
    n: (bool, u64, Seq<Transition>),
    cell: RegistryCell,
    hist: Map<(bool, u64, Seq<Transition>), CompiledAddr>,
)
    requires
        before.wf(),
        before.cells().len() > 0,
        before.agrees_with(hist),
        first_holding(bucket_cells(before.cells(), before.columns(), before.bucket(n)), n) is None,
        cell.addr != NONE_ADDRESS,
        cell.node@ == n,
        after.rows() == before.rows(),
        after.columns() == before.columns(),
        after.cells() == with_bucket(
            before.cells(),
            before.columns(),
            before.bucket(n),
            seq![cell] + bucket_cells(before.cells(), before.columns(), before.bucket(n)).take(
                before.columns() - 1,
            ),
        ),
    ensures
        after.agrees_with(hist.insert(n, cell.addr)),
{
    let rows = before.rows();
    let cols = before.columns();
    let b0 = before.bucket(n);
    let w = bucket_cells(before.cells(), cols, b0);
    let h2 = hist.insert(n, cell.addr);
    before.lemma_table_shape(n);
    lemma_first_holding_from(w, n, 0);
    let nw = seq![cell] + w.take(cols - 1);
    lemma_with_bucket(before.cells(), rows, cols, b0, nw);
    assert forall|b: int, j: int| 0 <= b < rows && 0 <= j < cols implies cell_agrees(
        #[trigger] bucket_cells(after.cells(), cols, b)[j],
        rows,
        b,
        h2,
    ) by {
        if b == b0 {
            if j == 0 {
                assert(nw[j] == cell);
            } else {
                assert(nw[j] == w[j - 1]);
                assert(cell_agrees(w[j - 1], rows, b0, hist));
                assert(!holds(w[j - 1], n));
            }
        } else {
            let old_b = bucket_cells(before.cells(), cols, b);
            assert(bucket_cells(after.cells(), cols, b) == old_b);
            assert(cell_agrees(old_b[j], rows, b, hist));
        }
    }
}

/// The cells of bucket `w` hold the nodes of `recent`, distinct nodes
/// listed most recently used first, in that order: the first of them in
/// the first cell, and so on, as far as the bucket has cells.
pub open spec fn keeps_recent(w: Seq<RegistryCell>, recent: Seq<(bool, u64, Seq<Transition>)>) -> bool {
    &&& recent.no_duplicates()
    &&& forall|j: int| 0 <= j < w.len() && j < recent.len() ==> holds(#[trigger] w[j], recent[j])
}

/// The nodes of `recent` after a lookup of `n`: `n` first, then the
/// others in their order.
pub open spec fn touched(
    recent: Seq<(bool, u64, Seq<Transition>)>,
    n: (bool, u64, Seq<Transition>),
) -> Seq<(bool, u64, Seq<Transition>)> {
    if recent.contains(n) {
        seq![n] + recent.remove(recent.index_of(n))
    } else {
        seq![n] + recent
    }
}

/// What `touched` gives, node by node.
proof fn lemma_touched(recent: Seq<(bool, u64, Seq<Transition>)>, n: (bool, u64, Seq<Transition>))
    requires
        recent.no_duplicates(),
    ensures
        touched(recent, n).no_duplicates(),
        touched(recent, n)[0] == n,
        recent.contains(n) ==> {
            let k = recent.index_of(n);
            &&& 0 <= k < recent.len()
            &&& recent[k] == n
            &&& touched(recent, n).len() == recent.len()
            &&& forall|j: int| 1 <= j <= k ==> #[trigger] touched(recent, n)[j] == recent[j - 1]
            &&& forall|j: int| k < j < recent.len() ==> #[trigger] touched(recent, n)[j] == recent[j]
        },
        !recent.contains(n) ==> {
            &&& touched(recent, n).len() == recent.len() + 1
            &&& forall|j: int| 1 <= j <= recent.len() ==> #[trigger] touched(recent, n)[j] == recent[j - 1]
        },
{
    let t = touched(recent, n);
    if recent.contains(n) {
        let k = recent.index_of(n);
        let rest = recent.remove(k);
        recent.remove_ensures(k);
        assert(t == seq![n] + rest);
        assert forall|a: int, b: int| 0 <= a < t.len() && 0 <= b < t.len() && a != b implies t[a] != t[b] by {
            let ia = if a == 0 { k } else if a <= k { a - 1 } else { a };
            let ib = if b == 0 { k } else if b <= k { b - 1 } else { b };
            assert(t[a] == recent[ia]);
            assert(t[b] == recent[ib]);
        }
    } else {
        assert forall|a: int, b: int| 0 <= a < t.len() && 0 <= b < t.len() && a != b implies t[a] != t[b] by {
            if a > 0 {
                assert(t[a] == recent[a - 1]);
            }
            if b > 0 {
                assert(t[b] == recent[b - 1]);
            }
        }
    }
}

/// A lookup of a node kept in bucket `w` is a hit, at the node's place
/// among the recent nodes.
pub proof fn lemma_recent_found(w: Seq<RegistryCell>, recent: Seq<(bool, u64, Seq<Transition>)>, k: int)
    requires
        keeps_recent(w, recent),
        0 <= k < w.len(),
        k < recent.len(),
    ensures
        first_holding(w, recent[k]) == Some(k),
{
    assert(holds(w[k], recent[k]));
    assert forall|j: int| 0 <= j < k implies !holds(#[trigger] w[j], recent[k]) by {
        assert(holds(w[j], recent[j]));
    }
    lemma_first_holding_found(w, recent[k], k);
}

/// A hit keeps the bucket's most recently used distinct nodes: after a hit
/// on `n`, the bucket keeps `touched(recent, n)`.
pub proof fn lemma_hit_keeps_recent(
    w: Seq<RegistryCell>,
    recent: Seq<(bool, u64, Seq<Transition>)>,
    n: (bool, u64, Seq<Transition>),
    i: int,
)
    requires
        keeps_recent(w, recent),
        first_holding(w, n) == Some(i),
    ensures
        keeps_recent(promoted(w, i), touched(recent, n)),
{
    lemma_first_holding_from(w, n, 0);
    lemma_touched(recent, n);
    let nw = promoted(w, i);
    let t = touched(recent, n);
    if recent.contains(n) {
        let k = recent.index_of(n);
        if i < k {
            assert(holds(w[i], recent[i]));
            assert(false);
        }
        if k < i {
            assert(holds(w[k], recent[k]));
            assert(false);
        }
    } else if i < recent.len() {
        assert(holds(w[i], recent[i]));
        assert(false);
    }
    assert forall|j: int| 0 <= j < nw.len() && j < t.len() implies holds(#[trigger] nw[j], t[j]) by {
        if j == 0 {
            assert(nw[j] == w[i]);
        } else if j <= i {
            assert(nw[j] == w[j - 1]);
            assert(holds(w[j - 1], recent[j - 1]));
        } else {
            assert(nw[j] == w[j]);
            assert(holds(w[j], recent[j]));
        }
    }
}

/// A miss keeps the bucket's most recently used distinct nodes: the cell
/// handed out for `n`, once it holds `n` with a real address, goes first
/// and the least recently used cell is the one dropped, so the bucket
/// keeps `touched(recent, n)`.
pub proof fn lemma_miss_keeps_recent(
    w: Seq<RegistryCell>,
    recent: Seq<(bool, u64, Seq<Transition>)>,
    n: (bool, u64, Seq<Transition>),
    cell: RegistryCell,
)
    requires
        w.len() > 0,
        keeps_recent(w, recent),
        first_holding(w, n) is None,
        holds(cell, n),
    ensures
        keeps_recent(seq![cell] + w.take(w.len() - 1), touched(recent, n)),
{
    lemma_first_holding_from(w, n, 0);
    lemma_touched(recent, n);
    let nw = seq![cell] + w.take(w.len() - 1);
    let t = touched(recent, n);
    if recent.contains(n) {
        let k = recent.index_of(n);
        if k < w.len() {
            assert(holds(w[k], recent[k]));
            assert(false);
        }
    }
    assert forall|j: int| 0 <= j < nw.len() && j < t.len() implies holds(#[trigger] nw[j], t[j]) by {
        if j > 0 {
            assert(nw[j] == w[j - 1]);
            assert(holds(w[j - 1], recent[j - 1]));
        }
    }
}

/// `nw` is what bucket `w` becomes by a lookup of `n`, once the cell that a
/// miss hands out has been given a real address: on a hit, the cell found
/// moved to the front; on a miss, that cell in front of all but the last.
pub open spec fn looked_up(w: Seq<RegistryCell>, n: (bool, u64, Seq<Transition>), nw: Seq<RegistryCell>) -> bool {
    match first_holding(w, n) {
        Some(i) => nw == promoted(w, i),
        None => {
            &&& w.len() > 0
            &&& nw.len() > 0
            &&& holds(nw[0], n)
            &&& nw == seq![nw[0]] + w.take(w.len() - 1)
        },
    }
}

/// Every bucket of the registry keeps its most recently used distinct
/// nodes, over any sequence of lookups: when bucket `b` keeps `recent`
/// before a lookup of `n`, it keeps `touched(recent, n)` after it if `n`
/// belongs to `b`, and still `recent` otherwise. A cell leaves a bucket
/// only on a miss, and it is the least recently used one.
pub proof fn lemma_registry_keeps_recent<'b>(
    before: Registry<'b>,
    after: Registry<'b>,
    n: (bool, u64, Seq<Transition>),
    nw: Seq<RegistryCell>,
    b: int,
    recent: Seq<(bool, u64, Seq<Transition>)>,
)
    requires
        before.wf(),
        before.cells().len() > 0,
        after.rows() == before.rows(),
        after.columns() == before.columns(),
        looked_up(bucket_cells(before.cells(), before.columns(), before.bucket(n)), n, nw),
        after.cells() == with_bucket(before.cells(), before.columns(), before.bucket(n), nw),
        0 <= b < before.rows(),
        keeps_recent(bucket_cells(before.cells(), before.columns(), b), recent),
    ensures
        keeps_recent(
            bucket_cells(after.cells(), after.columns(), b),
            if b == before.bucket(n) {
                touched(recent, n)
            } else {
                recent
            },
        ),
{
    let cols = before.columns();
    let b0 = before.bucket(n);
    let w0 = bucket_cells(before.cells(), cols, b0);
    before.lemma_table_shape(n);
    lemma_first_holding_from(w0, n, 0);
    assert(w0.len() == cols);
    assert(nw.len() == cols);
    lemma_with_bucket(before.cells(), before.rows(), cols, b0, nw);
    if b == b0 {
        assert(bucket_cells(after.cells(), cols, b) == nw);
        if let Some(i) = first_holding(w0, n) {
            lemma_hit_keeps_recent(w0, recent, n, i);
        } else {
            lemma_miss_keeps_recent(w0, recent, n, nw[0]);
        }
    } else {
        assert(bucket_cells(after.cells(), cols, b) == bucket_cells(before.cells(), cols, b));
    }
}

/// Multiplying by the FNV-1a 64-bit prime modulo 2^64 can be undone: the
/// prime is odd, and 14886173955864302971 is its inverse modulo 2^64.
proof fn lemma_prime_mul_undone(a: u64)
    ensures
        (((a as int) * 1099511628211int) % 0x1_0000_0000_0000_0000int) * 14886173955864302971int
            % 0x1_0000_0000_0000_0000int == a as int,
{
    let m: int = 0x1_0000_0000_0000_0000int;
    let x: int = a as int;
    assert(1099511628211int * 14886173955864302971int == 1 + 887285111055int * m);
    vstd::arithmetic::div_mod::lemma_mul_mod_noop_left(x * 1099511628211int, 14886173955864302971int, m);
    assert(x * 1099511628211int * 14886173955864302971int == m * (x * 887285111055int) + x) by (nonlinear_arith)
        requires
            1099511628211int * 14886173955864302971int == 1 + 887285111055int * m,
    ;
    vstd::arithmetic::div_mod::lemma_mod_multiples_vanish(x * 887285111055int, x, m);
    vstd::arithmetic::div_mod::lemma_small_mod(a as nat, m as nat);
}

/// One hash step determines what was mixed in: equal results come from
/// equal xors of hash and word.
proof fn lemma_fnv_step_injective(h1: u64, x1: u64, h2: u64, x2: u64)
    requires
        fnv_step(h1, x1) == fnv_step(h2, x2),
    ensures
        h1 ^ x1 == h2 ^ x2,
{
    lemma_prime_mul_undone(h1 ^ x1);
    lemma_prime_mul_undone(h2 ^ x2);
}

/// A hash step separates different hashes mixed with the same word, and the
/// same hash mixed with different words.
proof fn lemma_fnv_step_separates(h1: u64, x1: u64, h2: u64, x2: u64)
    requires
        (h1 == h2 && x1 != x2) || (h1 != h2 && x1 == x2),
    ensures
        fnv_step(h1, x1) != fnv_step(h2, x2),
{
    if fnv_step(h1, x1) == fnv_step(h2, x2) {
        lemma_fnv_step_injective(h1, x1, h2, x2);
        assert(((h1 == h2 && x1 != x2) || (h1 != h2 && x1 == x2)) ==> h1 ^ x1 != h2 ^ x2) by (bit_vector);
    }
}

/// Folding the same transitions into two different hashes gives two
/// different hashes.
proof fn lemma_fnv_transitions_separates(h1: u64, h2: u64, ts: Seq<Transition>)
    requires
        h1 != h2,
    ensures
        fnv_transitions(h1, ts) != fnv_transitions(h2, ts),
    decreases ts.len(),
{
    if ts.len() > 0 {
        let t = ts.last();
        let rest = ts.drop_last();
        lemma_fnv_transitions_separates(h1, h2, rest);
        let a1 = fnv_transitions(h1, rest);
        let a2 = fnv_transitions(h2, rest);
        lemma_fnv_step_separates(a1, t.inp as u64, a2, t.inp as u64);
        let b1 = fnv_step(a1, t.inp as u64);
        let b2 = fnv_step(a2, t.inp as u64);
        lemma_fnv_step_separates(b1, t.out, b2, t.out);
        lemma_fnv_step_separates(fnv_step(b1, t.out), t.addr as u64, fnv_step(b2, t.out), t.addr as u64);
    }
}

/// How the registry finds a node's bucket, stated word by word: the bucket
/// is the node's hash, taken as a `usize`, modulo the number of buckets.
/// The hash starts from the FNV-1a 64-bit offset basis 14695981039346656037
/// and mixes in whether the node accepts (1 or 0), then its final output,
/// then, for each transition in order, its input byte, its output and its
/// address. Mixing a word xors it into the hash and multiplies by the FNV-1a
/// 64-bit prime 1099511628211 modulo 2^64.
pub proof fn lemma_bucket_is_fnv1a<'b>(
    r: Registry<'b>,
    is_final: bool,
    final_output: u64,
    ts: Seq<Transition>,
    t: Transition,
)
    requires
        r.rows() > 0,
    ensures
        r.bucket((is_final, final_output, ts)) == (fnv_node((is_final, final_output, ts)) as usize) as int
            % (r.rows() as int),
        ({
            let h0 = (((14695981039346656037u64 ^ (if is_final { 1u64 } else { 0u64 })) as int) * 1099511628211int)
                % 0x1_0000_0000_0000_0000int;
            let h1 = ((((h0 as u64) ^ final_output) as int) * 1099511628211int) % 0x1_0000_0000_0000_0000int;
            fnv_node((is_final, final_output, Seq::<Transition>::empty())) as int == h1
        }),
        ({
            let h = fnv_node((is_final, final_output, ts));
            let h1 = ((((h ^ (t.inp as u64)) as int) * 1099511628211int) % 0x1_0000_0000_0000_0000int) as u64;
            let h2 = ((((h1 ^ t.out) as int) * 1099511628211int) % 0x1_0000_0000_0000_0000int) as u64;
            fnv_node((is_final, final_output, ts.push(t))) as int == (((h2 ^ (t.addr as u64)) as int)
                * 1099511628211int) % 0x1_0000_0000_0000_0000int
        }),
{
    assert(ts.push(t).drop_last() =~= ts);
}

/// Nodes whose transitions are the same and that differ in exactly one of
/// whether they accept and their final output have different hashes.
proof fn lemma_hash_separates_finals(f1: bool, o1: u64, f2: bool, o2: u64, ts: Seq<Transition>)
    requires
        (f1 != f2 && o1 == o2) || (f1 == f2 && o1 != o2),
    ensures
        fnv_node((f1, o1, ts)) != fnv_node((f2, o2, ts)),
{
    let b1: u64 = if f1 { 1u64 } else { 0u64 };
    let b2: u64 = if f2 { 1u64 } else { 0u64 };
    let s1 = fnv_step(FNV_OFFSET, b1);
    let s2 = fnv_step(FNV_OFFSET, b2);
    if f1 != f2 {
        lemma_fnv_step_separates(FNV_OFFSET, b1, FNV_OFFSET, b2);
    }
    lemma_fnv_step_separates(s1, o1, s2, o2);
    lemma_fnv_transitions_separates(fnv_step(s1, o1), fnv_step(s2, o2), ts);
}

/// Nodes that differ only in one field of their last transition have
/// different hashes.
proof fn lemma_hash_separates_last(f: bool, o: u64, ts: Seq<Transition>, t: Transition, u: Transition)
    requires
        ({
            ||| t.inp != u.inp && t.out == u.out && t.addr == u.addr
            ||| t.inp == u.inp && t.out != u.out && t.addr == u.addr
            ||| t.inp == u.inp && t.out == u.out && t.addr != u.addr
        }),
    ensures
        fnv_node((f, o, ts.push(t))) != fnv_node((f, o, ts.push(u))),
{
    let start = fnv_step(fnv_step(FNV_OFFSET, if f { 1u64 } else { 0u64 }), o);
    let a = fnv_transitions(start, ts);
    assert(ts.push(t).drop_last() =~= ts);
    assert(ts.push(u).drop_last() =~= ts);
    let ti = t.inp as u64;
    let ui = u.inp as u64;
    let ta = t.addr as u64;
    let ua = u.addr as u64;
    let p1 = fnv_step(a, ti);
    let p2 = fnv_step(a, ui);
    if t.inp != u.inp {
        lemma_fnv_step_separates(a, ti, a, ui);
    }
    let q1 = fnv_step(p1, t.out);
    let q2 = fnv_step(p2, u.out);
    if t.inp != u.inp || t.out != u.out {
        lemma_fnv_step_separates(p1, t.out, p2, u.out);
    }
    lemma_fnv_step_separates(q1, ta, q2, ua);
}

/// The hash tells nodes apart that differ in exactly one of whether they
/// accept and their final output, and nodes that differ only in one field
/// of their last transition (its input byte, its output or its address):
/// such nodes never share a hash, so only the number of buckets can put
/// them in one bucket.
pub proof fn lemma_hash_separates_nodes(
    f1: bool,
    o1: u64,
    f2: bool,
    o2: u64,
    ts: Seq<Transition>,
    t: Transition,
    u: Transition,
)
    ensures
        (f1 != f2 && o1 == o2) || (f1 == f2 && o1 != o2) ==> fnv_node((f1, o1, ts)) != fnv_node((f2, o2, ts)),
        ({
            ||| t.inp != u.inp && t.out == u.out && t.addr == u.addr
            ||| t.inp == u.inp && t.out != u.out && t.addr == u.addr
            ||| t.inp == u.inp && t.out == u.out && t.addr != u.addr
        }) ==> fnv_node((f1, o1, ts.push(t))) != fnv_node((f1, o1, ts.push(u))),
{
    if (f1 != f2 && o1 == o2) || (f1 == f2 && o1 != o2) {
        lemma_hash_separates_finals(f1, o1, f2, o2, ts);
    }
    if ({
        ||| t.inp != u.inp && t.out == u.out && t.addr == u.addr
        ||| t.inp == u.inp && t.out != u.out && t.addr == u.addr
        ||| t.inp == u.inp && t.out == u.out && t.addr != u.addr
    }) {
        lemma_hash_separates_last(f1, o1, ts, t, u);
    }
}

} // verus!
