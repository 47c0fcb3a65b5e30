//! A registry of compiled nodes that never forgets a node: with it, equal
//! nodes are always compiled once, at the price of memory that grows with
//! every distinct node. It is meant for debugging and experiments.

use vstd::prelude::*;

use crate::node::{BuilderNode, CompiledAddr, Transition};

verus! {

/// A registry that remembers every node it was asked about.
#[derive(Debug)]
pub struct Registry<'bump> {
    bump: &'bump bumpalo::Bump,
    keys: Vec<OwnedBuilderNode>,
    cells: Vec<RegistryCell>,
}

/// An owned copy of a node, kept as a key of the registry.
#[derive(Debug)]
struct OwnedBuilderNode {
    is_final: bool,
    final_output: u64,
    trans: Vec<Transition>,
}

impl View for OwnedBuilderNode {
    type V = (bool, u64, Seq<Transition>);

    closed spec fn view(&self) -> (bool, u64, Seq<Transition>) {
        (self.is_final, self.final_output, self.trans@)
    }
}

impl OwnedBuilderNode {
    fn from_builder_node(node: &BuilderNode) -> (o: OwnedBuilderNode)
        ensures
            o@ == node@,
    {
        let mut trans: Vec<Transition> = Vec::new();
        trans.extend_from_slice(node.trans.as_slice());
        assert(trans@ =~= node.trans@);
        OwnedBuilderNode { is_final: node.is_final, final_output: node.final_output, trans }
    }

    /// Whether this key is the node `node`.
    fn same_as(&self, node: &BuilderNode) -> (b: bool)
        ensures
            b == (self@ == node@),
    {
        if self.is_final != node.is_final || self.final_output != node.final_output {
            return false;
        }
        if self.trans.len() != node.trans.len() {
            return false;
        }
        let n = self.trans.len();
        let mut i: usize = 0;
        while i < n
            invariant
                n == self.trans@.len(),
                n == node.trans@.len(),
                i <= n,
                forall|j: int| 0 <= j < i ==> self.trans@[j] == node.trans@[j],
            decreases n - i,
        {
            if self.trans[i] != node.trans[i] {
                return false;
            }
            i = i + 1;
        }
        assert(self.trans@ =~= node.trans@);
        true
    }
}

/// The outcome of looking a node up in the registry.
#[derive(Debug)]
pub enum RegistryEntry<'a> {
    /// The node was compiled before, at this address.
    Found(CompiledAddr),
    /// The node was not in the registry; it now is, with this cell, whose
    /// address the caller sets once it has compiled the node.
    NotFound(&'a mut RegistryCell),
    /// The registry has no room at all.
    Rejected,
}

/// The address a node was compiled at.
#[derive(Clone, Copy, Debug)]
pub struct RegistryCell(CompiledAddr);

impl RegistryCell {
    /// The address held.
    pub closed spec fn addr(&self) -> CompiledAddr {
        self.0
    }

    /// Records the address the cell's node was compiled at.
    pub fn insert(&mut self, addr: CompiledAddr)
        ensures
            final(self).addr() == addr,
    {
        self.0 = addr;
    }
}

/// The address held by each cell.
pub open spec fn addrs_of(cells: Seq<RegistryCell>) -> Seq<CompiledAddr> {
    cells.map_values(|c: RegistryCell| c.addr())
}

/// The map from each of `keys` to the address at the same place in
/// `addrs`; a later key wins over an earlier equal one.
pub open spec fn pairs_to_map(keys: Seq<(bool, u64, Seq<Transition>)>, addrs: Seq<CompiledAddr>) -> Map<
    (bool, u64, Seq<Transition>),
    CompiledAddr,
>
    decreases keys.len(),
{
    if keys.len() == 0 || addrs.len() == 0 {
        Map::empty()
    } else {
        pairs_to_map(keys.drop_last(), addrs.drop_last()).insert(keys.last(), addrs.last())
    }
}

/// Where `pairs_to_map` finds a key.
proof fn lemma_pairs_to_map(keys: Seq<(bool, u64, Seq<Transition>)>, addrs: Seq<CompiledAddr>, n: (bool, u64, Seq<Transition>))
    requires
        keys.len() == addrs.len(),
        keys.no_duplicates(),
    ensures
        pairs_to_map(keys, addrs).contains_key(n) <==> keys.contains(n),
        forall|i: int| 0 <= i < keys.len() && keys[i] == n ==> pairs_to_map(keys, addrs)[n] == addrs[i],
    decreases keys.len(),
{
    if keys.len() > 0 {
        let k0 = keys.drop_last();
        let a0 = addrs.drop_last();
        assert(k0.no_duplicates()) by {
            assert forall|i: int, j: int| 0 <= i < k0.len() && 0 <= j < k0.len() && i != j implies k0[i] != k0[j] by {
                assert(k0[i] == keys[i] && k0[j] == keys[j]);
            }
        }
        lemma_pairs_to_map(k0, a0, n);
        if keys.contains(n) && n != keys.last() {
            let i = choose|i: int| 0 <= i < keys.len() && keys[i] == n;
            assert(k0[i] == n);
        }
        if k0.contains(n) {
            let i = choose|i: int| 0 <= i < k0.len() && k0[i] == n;
            assert(keys[i] == n);
        }
        assert forall|i: int| 0 <= i < keys.len() && keys[i] == n implies pairs_to_map(keys, addrs)[n] == addrs[i] by {
            if i < keys.len() - 1 {
                assert(k0[i] == n);
                assert(keys[i] != keys[keys.len() - 1]);
            }
        }
    }
}

impl<'bump> Registry<'bump> {
    /// The nodes remembered, in the order they were first asked about.
    closed spec fn key_views(&self) -> Seq<(bool, u64, Seq<Transition>)> {
        self.keys@.map_values(|k: OwnedBuilderNode| k@)
    }

    /// The address recorded for each remembered node.
    pub closed spec fn map(&self) -> Map<(bool, u64, Seq<Transition>), CompiledAddr> {
        pairs_to_map(self.key_views(), addrs_of(self.cells@))
    }

    /// Each node is remembered once, with its own cell.
    pub closed spec fn wf(&self) -> bool {
        &&& self.keys@.len() == self.cells@.len()
        &&& self.key_views().no_duplicates()
    }

    /// An empty registry. The table grows with each new node, whatever the
    /// sizes asked for.
    pub fn new(table_size: usize, _lru_size: usize, bump: &'bump bumpalo::Bump) -> (r: Registry<'bump>)
        ensures
            r.wf(),
            r.map() == Map::<(bool, u64, Seq<Transition>), CompiledAddr>::empty(),
    {
        let r = Registry { bump, keys: Vec::new(), cells: Vec::new() };
        assert(r.key_views() =~= Seq::<(bool, u64, Seq<Transition>)>::empty());
        r
    }

    /// The place of `bnode` among the remembered nodes.
    fn find(&self, bnode: &BuilderNode) -> (r: Option<usize>)
        requires
            self.wf(),
        ensures
            r matches Some(i) ==> i < self.keys@.len() && self.key_views()[i as int] == bnode@,
            r is None ==> !self.key_views().contains(bnode@),
    {
        let n = self.keys.len();
        let mut i: usize = 0;
        while i < n
            invariant
                n == self.keys@.len(),
                i <= n,
                forall|j: int| 0 <= j < i ==> self.key_views()[j] != bnode@,
            decreases n - i,
        {
            if self.keys[i].same_as(bnode) {
                return Some(i);
            }
            i = i + 1;
        }
        None
    }

    /// Looks `bnode` up. A node asked about before is found with the
    /// address recorded for it; a new one is remembered with a fresh cell,
    /// handed out so that the caller records its address.
    pub fn entry<'a>(&'a mut self, bnode: &BuilderNode) -> (r: RegistryEntry<'a>)
        requires
            old(self).wf(),
        ensures
            final(self).wf(),
            match r {
                RegistryEntry::Rejected => false,
                RegistryEntry::Found(addr) => {
                    &&& old(self).map().contains_key(bnode@)
                    &&& addr == old(self).map()[bnode@]
                    &&& final(self).map() == old(self).map()
                },
                RegistryEntry::NotFound(cell) => {
                    &&& !old(self).map().contains_key(bnode@)
                    &&& cell.addr() == 0
                    &&& final(self).map() == old(self).map().insert(bnode@, final(cell).addr())
                },
            },
    {
        let ghost keys = self.key_views();
        let ghost addrs = addrs_of(self.cells@);
        proof {
            lemma_pairs_to_map(keys, addrs, bnode@);
        }
        let n = self.keys.len();
        match self.find(bnode) {
            Some(i) => {
                let addr = self.cells[i].0;
                assert(keys[i as int] == bnode@);
                assert(addrs[i as int] == addr);
                return RegistryEntry::Found(addr);
            },
            None => {},
        }
        assert(!keys.contains(bnode@));
        self.keys.push(OwnedBuilderNode::from_builder_node(bnode));
        self.cells.push(RegistryCell(0));
        proof {
            assert(self.key_views() =~= keys.push(bnode@));
            assert(self.key_views().no_duplicates()) by {
                let kv = self.key_views();
                assert forall|a: int, b: int| 0 <= a < kv.len() && 0 <= b < kv.len() && a != b implies kv[a] != kv[b] by {
                    if a < n && b < n {
                        assert(kv[a] == keys[a] && kv[b] == keys[b]);
                    } else if a == n {
                        assert(kv[b] == keys[b]);
                    } else {
                        assert(kv[a] == keys[a]);
                    }
                }
            }
        }
        proof {
            let pushed = self.cells@;
            assert forall|c: RegistryCell|
                #[trigger] addrs_of(pushed.update(n as int, c)) == addrs.push(c.0) by {
                assert(addrs_of(pushed.update(n as int, c)) =~= addrs.push(c.0));
            }
            assert forall|a: CompiledAddr|
                #[trigger] pairs_to_map(keys.push(bnode@), addrs.push(a)) == pairs_to_map(keys, addrs).insert(bnode@, a) by {
                assert(keys.push(bnode@).drop_last() =~= keys);
                assert(addrs.push(a).drop_last() =~= addrs);
            }
        }
        let cell = &mut self.cells[n];
        RegistryEntry::NotFound(cell)
    }
}

/// The registry never forgets: recording an address for a new node keeps
/// every node remembered before with its address, and the new node is
/// found with the address recorded for it.
pub proof fn lemma_never_forgets(
    m: Map<(bool, u64, Seq<Transition>), CompiledAddr>,
    n: (bool, u64, Seq<Transition>),
    addr: CompiledAddr,
)
    requires
        !m.contains_key(n),
    ensures
        m.insert(n, addr).contains_key(n),
        m.insert(n, addr)[n] == addr,
        forall|k: (bool, u64, Seq<Transition>)|
            #[trigger] m.contains_key(k) ==> m.insert(n, addr).contains_key(k) && m.insert(n, addr)[k] == m[k],
{
}

/// Every node of `earlier` is in `later`, with the same address.
pub open spec fn keeps_all(
    earlier: Map<(bool, u64, Seq<Transition>), CompiledAddr>,
    later: Map<(bool, u64, Seq<Transition>), CompiledAddr>,
) -> bool {
    forall|k: (bool, u64, Seq<Transition>)|
        #[trigger] earlier.contains_key(k) ==> later.contains_key(k) && later[k] == earlier[k]
}

/// What one lookup with `entry` does to the registry's map, once the
/// address of a new node has been recorded in the cell handed out: a hit
/// leaves the map as it was, a miss adds the new node.
pub open spec fn entry_step(
    before: Map<(bool, u64, Seq<Transition>), CompiledAddr>,
    after: Map<(bool, u64, Seq<Transition>), CompiledAddr>,
) -> bool {
    ||| after == before
    ||| exists|n: (bool, u64, Seq<Transition>), a: CompiledAddr|
        !before.contains_key(n) && after == #[trigger] before.insert(n, a)
}

/// The registry never forgets, over any sequence of lookups: when each map
/// in `maps` follows from the one before by a lookup, every later map keeps
/// every node of every earlier one with its address, so a node recorded
/// once is found with that address by every later lookup.
pub proof fn lemma_never_forgets_over(maps: Seq<Map<(bool, u64, Seq<Transition>), CompiledAddr>>)
    requires
        forall|i: int| 0 <= i < maps.len() - 1 ==> entry_step(#[trigger] maps[i], maps[i + 1]),
    ensures
        forall|i: int, j: int| 0 <= i <= j < maps.len() ==> keeps_all(#[trigger] maps[i], #[trigger] maps[j]),
    decreases maps.len(),
{
    if maps.len() > 0 {
        let prefix = maps.drop_last();
        assert forall|i: int| 0 <= i < prefix.len() - 1 implies entry_step(#[trigger] prefix[i], prefix[i + 1]) by {
            assert(prefix[i] == maps[i] && prefix[i + 1] == maps[i + 1]);
        }
        lemma_never_forgets_over(prefix);
        let last = maps.len() - 1;
        assert forall|i: int, j: int| 0 <= i <= j < maps.len() implies keeps_all(#[trigger] maps[i], #[trigger] maps[j]) by {
            if j < last {
                assert(prefix[i] == maps[i] && prefix[j] == maps[j]);
            } else if i < j {
                assert(prefix[i] == maps[i] && prefix[j - 1] == maps[j - 1]);
                assert(keeps_all(maps[i], maps[j - 1]));
                assert(entry_step(maps[j - 1], maps[j]));
                if maps[j] != maps[j - 1] {
                    let (n, a) = choose|n: (bool, u64, Seq<Transition>), a: CompiledAddr|
                        !maps[j - 1].contains_key(n) && maps[j] == #[trigger] maps[j - 1].insert(n, a);
                    lemma_never_forgets(maps[j - 1], n, a);
                }
            }
        }
    }
}

} // verus!
