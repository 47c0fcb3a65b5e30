use bumpalo::Bump;

use fst::node::{BuilderNode, Transition};
use fst::registry::{Registry, RegistryCache, RegistryCell, RegistryEntry};

fn assert_rejected(entry: RegistryEntry<'_>) {
    match entry {
        RegistryEntry::Rejected => {}
        entry => panic!("expected rejected entry, got: {:?}", entry),
    }
}

fn assert_not_found(entry: RegistryEntry<'_>) {
    match entry {
        RegistryEntry::NotFound(_) => {}
        entry => panic!("expected nout found entry, got: {:?}", entry),
    }
}

fn assert_insert_and_found(reg: &mut Registry<'_>, bnode: &BuilderNode) {
    match reg.entry(&bnode) {
        RegistryEntry::NotFound(cell) => cell.insert(1234),
        entry => panic!("unexpected not found entry, got: {:?}", entry),
    }
    match reg.entry(&bnode) {
        RegistryEntry::Found(addr) => assert_eq!(addr, 1234),
        entry => panic!("unexpected found entry, got: {:?}", entry),
    }
}

fn bnode_new(is_final: bool, final_output: u64, trans: &[Transition]) -> BuilderNode {
    let mut node = BuilderNode::new();
    node.is_final = is_final;
    node.final_output = final_output;
    node.trans.extend_from_slice(trans);
    node
}

#[test]
fn empty_is_ok() {
    let bump = Bump::new();
    let mut reg = Registry::new(0, 0, &bump);
    let bnode = bnode_new(false, 0, &[]);
    assert_rejected(reg.entry(&bnode));
}

#[test]
fn one_final_is_ok() {
    let bump = Bump::new();
    let mut reg = Registry::new(1, 1, &bump);
    let bnode = bnode_new(true, 0, &[]);
    assert_insert_and_found(&mut reg, &bnode);
}

#[test]
fn one_with_trans_is_ok() {
    let bump = Bump::new();
    let mut reg = Registry::new(1, 1, &bump);
    let bnode = bnode_new(false, 0, &[Transition { addr: 0, inp: b'a', out: 0 }]);
    assert_insert_and_found(&mut reg, &bnode);
    assert_not_found(reg.entry(&bnode_new(true, 0, &[Transition { addr: 0, inp: b'a', out: 0 }])));
    assert_not_found(reg.entry(&bnode_new(false, 0, &[Transition { addr: 0, inp: b'b', out: 0 }])));
    assert_not_found(reg.entry(&bnode_new(false, 0, &[Transition { addr: 0, inp: b'a', out: 1 }])));
}

#[test]
fn cache_works() {
    let bump = Bump::new();
    let mut reg = Registry::new(1, 1, &bump);

    let bnode1 = bnode_new(true, 0, &[]);
    assert_insert_and_found(&mut reg, &bnode1);

    let bnode2 = bnode_new(true, 1, &[]);
    assert_insert_and_found(&mut reg, &bnode2);
    assert_not_found(reg.entry(&bnode1));
}

#[test]
fn promote() {
    let mut bnodes = vec![
        RegistryCell { addr: 1, node: bnode_new(false, 0, &[]) },
        RegistryCell { addr: 2, node: bnode_new(false, 0, &[]) },
        RegistryCell { addr: 3, node: bnode_new(false, 0, &[]) },
        RegistryCell { addr: 4, node: bnode_new(false, 0, &[]) },
    ];
    let mut cache = RegistryCache { cells: &mut bnodes };

    cache.promote(0);
    assert_eq!(cache.cells[0].addr, 1);
    assert_eq!(cache.cells[1].addr, 2);
    assert_eq!(cache.cells[2].addr, 3);
    assert_eq!(cache.cells[3].addr, 4);

    cache.promote(1);
    assert_eq!(cache.cells[0].addr, 2);
    assert_eq!(cache.cells[1].addr, 1);
    assert_eq!(cache.cells[2].addr, 3);
    assert_eq!(cache.cells[3].addr, 4);

    cache.promote(3);
    assert_eq!(cache.cells[0].addr, 4);
    assert_eq!(cache.cells[1].addr, 2);
    assert_eq!(cache.cells[2].addr, 1);
    assert_eq!(cache.cells[3].addr, 3);

    cache.promote(2);
    assert_eq!(cache.cells[0].addr, 1);
    assert_eq!(cache.cells[1].addr, 4);
    assert_eq!(cache.cells[2].addr, 2);
    assert_eq!(cache.cells[3].addr, 3);
}

fn expect_found(reg: &mut Registry<'_>, n: &BuilderNode) -> usize {
    match reg.entry(n) {
        RegistryEntry::Found(addr) => addr,
        entry => panic!("expected a found entry, got: {:?}", entry),
    }
}

fn expect_not_found_insert(reg: &mut Registry<'_>, n: &BuilderNode, addr: usize) {
    match reg.entry(n) {
        RegistryEntry::NotFound(cell) => cell.insert(addr),
        entry => panic!("expected a not found entry, got: {:?}", entry),
    }
}

#[test]
fn lru_evicts_least_recently_used() {
    let bump = Bump::new();
    let mut reg = Registry::new(1, 3, &bump);
    let n: Vec<BuilderNode> = (0..5u64).map(|i| bnode_new(false, i, &[])).collect();
    expect_not_found_insert(&mut reg, &n[1], 11);
    expect_not_found_insert(&mut reg, &n[2], 12);
    expect_not_found_insert(&mut reg, &n[3], 13);
    // most recent first: 3, 2, 1
    assert_eq!(expect_found(&mut reg, &n[1]), 11);
    // now 1, 3, 2: a new node evicts 2
    expect_not_found_insert(&mut reg, &n[4], 14);
    // now 4, 1, 3
    assert_eq!(expect_found(&mut reg, &n[3]), 13);
    assert_eq!(expect_found(&mut reg, &n[1]), 11);
    assert_eq!(expect_found(&mut reg, &n[4]), 14);
    assert_not_found(reg.entry(&n[2]));
}

#[test]
fn two_cell_bucket_swaps_on_hit() {
    let bump = Bump::new();
    let mut reg = Registry::new(1, 2, &bump);
    let a = bnode_new(true, 1, &[]);
    let b = bnode_new(true, 2, &[]);
    let c = bnode_new(true, 3, &[]);
    expect_not_found_insert(&mut reg, &a, 21);
    expect_not_found_insert(&mut reg, &b, 22);
    // b, a: a hit on a makes it most recent, so c evicts b
    assert_eq!(expect_found(&mut reg, &a), 21);
    expect_not_found_insert(&mut reg, &c, 23);
    assert_eq!(expect_found(&mut reg, &a), 21);
    assert_eq!(expect_found(&mut reg, &c), 23);
    assert_not_found(reg.entry(&b));
}

#[test]
fn cell_left_empty_is_not_found_again() {
    let bump = Bump::new();
    let mut reg = Registry::new(2, 1, &bump);
    let a = bnode_new(false, 9, &[]);
    assert_not_found(reg.entry(&a));
    assert_not_found(reg.entry(&a));
    expect_not_found_insert(&mut reg, &a, 99);
    assert_eq!(expect_found(&mut reg, &a), 99);
}

#[test]
fn many_buckets_keep_their_nodes() {
    let bump = Bump::new();
    let mut reg = Registry::new(1000, 4, &bump);
    let n: Vec<BuilderNode> = (0..20u64)
        .map(|i| bnode_new(i % 3 == 0, i, &[Transition { addr: i as usize, inp: i as u8, out: i }]))
        .collect();
    for (i, node) in n.iter().enumerate() {
        match reg.entry(node) {
            RegistryEntry::NotFound(cell) => cell.insert(500 + i),
            RegistryEntry::Found(_) => {}
            entry => panic!("unexpected entry: {:?}", entry),
        }
    }
    // no bucket receives more than four of these nodes, so every node is
    // still in its bucket with the address it got
    for (i, node) in n.iter().enumerate() {
        assert_eq!(expect_found(&mut reg, node), 500 + i);
    }
}

#[test]
fn builder_node_copy_and_compare() {
    let a = bnode_new(true, 4, &[Transition { addr: 3, inp: b'q', out: 2 }]);
    let mut b = BuilderNode::new();
    assert!(!a.same_as(&b));
    b.clone_from(&a);
    assert!(a.same_as(&b));
    assert_eq!(b.trans, vec![Transition { addr: 3, inp: b'q', out: 2 }]);
}

#[test]
fn full_bucket_keeps_its_recent_nodes() {
    let bump = Bump::new();
    let mut reg = Registry::new(1, 3, &bump);
    let n: Vec<BuilderNode> = (0..3u64).map(|i| bnode_new(i == 1, 40 + i, &[])).collect();
    for (j, node) in n.iter().enumerate() {
        expect_not_found_insert(&mut reg, node, 70 + j);
    }
    // any order of lookups among the three most recent nodes only hits
    let order = [0usize, 2, 2, 1, 0, 1, 2, 0, 0, 1, 2, 1, 0, 2];
    for &j in order.iter() {
        assert_eq!(expect_found(&mut reg, &n[j]), 70 + j);
    }
}

#[test]
fn found_never_names_another_node() {
    let bump = Bump::new();
    let mut reg = Registry::new(3, 2, &bump);
    let n: Vec<BuilderNode> = (0..10u64)
        .map(|i| bnode_new(i % 2 == 1, i, &[Transition { addr: i as usize, inp: b'a' + i as u8, out: 0 }]))
        .collect();
    // the address recorded last for each node
    let mut last: Vec<Option<usize>> = vec![None; n.len()];
    let mut next_addr = 1000usize;
    for step in 0..200usize {
        let j = (step * 7 + step / 3) % n.len();
        match reg.entry(&n[j]) {
            RegistryEntry::Found(addr) => assert_eq!(Some(addr), last[j]),
            RegistryEntry::NotFound(cell) => {
                cell.insert(next_addr);
                last[j] = Some(next_addr);
                next_addr += 1;
            }
            entry => panic!("unexpected entry: {:?}", entry),
        }
    }
}
