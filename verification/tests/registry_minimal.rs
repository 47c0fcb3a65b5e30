use bumpalo::Bump;

use fst::node::{BuilderNode, Transition};
use fst::registry_minimal::{Registry, RegistryEntry};

fn node(is_final: bool, final_output: u64, trans: &[Transition]) -> BuilderNode {
    BuilderNode { is_final, final_output, trans: trans.to_vec() }
}

fn insert_new(reg: &mut Registry<'_>, n: &BuilderNode, addr: usize) {
    match reg.entry(n) {
        RegistryEntry::NotFound(cell) => cell.insert(addr),
        entry => panic!("expected a new node, got: {:?}", entry),
    }
}

fn found(reg: &mut Registry<'_>, n: &BuilderNode) -> usize {
    match reg.entry(n) {
        RegistryEntry::Found(addr) => addr,
        entry => panic!("expected a known node, got: {:?}", entry),
    }
}

#[test]
fn minimal_finds_inserted_node() {
    let bump = Bump::new();
    let mut reg = Registry::new(10, 2, &bump);
    let n = node(true, 3, &[Transition { addr: 5, inp: b'x', out: 1 }]);
    insert_new(&mut reg, &n, 77);
    assert_eq!(found(&mut reg, &n), 77);
}

#[test]
fn minimal_never_forgets() {
    let bump = Bump::new();
    let mut reg = Registry::new(0, 0, &bump);
    let nodes: Vec<BuilderNode> = (0..50u64).map(|i| node(i % 2 == 0, i, &[])).collect();
    for (i, n) in nodes.iter().enumerate() {
        insert_new(&mut reg, n, 100 + i);
    }
    for (i, n) in nodes.iter().enumerate().rev() {
        assert_eq!(found(&mut reg, n), 100 + i);
    }
}

#[test]
fn minimal_new_cell_starts_at_zero() {
    let bump = Bump::new();
    let mut reg = Registry::new(1, 1, &bump);
    let n = node(false, 0, &[]);
    match reg.entry(&n) {
        RegistryEntry::NotFound(_) => {}
        entry => panic!("expected a new node, got: {:?}", entry),
    }
    assert_eq!(found(&mut reg, &n), 0);
}

#[test]
fn minimal_tells_nodes_apart() {
    let bump = Bump::new();
    let mut reg = Registry::new(1, 1, &bump);
    let a = node(false, 0, &[Transition { addr: 2, inp: b'a', out: 0 }]);
    let b = node(false, 0, &[Transition { addr: 2, inp: b'a', out: 0 }, Transition { addr: 3, inp: b'b', out: 0 }]);
    insert_new(&mut reg, &a, 10);
    insert_new(&mut reg, &b, 20);
    assert_eq!(found(&mut reg, &a), 10);
    assert_eq!(found(&mut reg, &b), 20);
}

#[test]
fn minimal_never_forgets_between_lookups() {
    let bump = Bump::new();
    let mut reg = Registry::new(2, 2, &bump);
    let nodes: Vec<BuilderNode> =
        (0..12u64).map(|i| node(i % 3 == 0, i, &[Transition { addr: 1, inp: i as u8, out: i }])).collect();
    let mut seen: Vec<Option<usize>> = vec![None; nodes.len()];
    for step in 0..100usize {
        let j = (step * 5 + step / 4) % nodes.len();
        match reg.entry(&nodes[j]) {
            RegistryEntry::Found(addr) => assert_eq!(Some(addr), seen[j]),
            RegistryEntry::NotFound(cell) => {
                assert_eq!(seen[j], None);
                cell.insert(300 + step);
                seen[j] = Some(300 + step);
            }
            entry => panic!("unexpected entry: {:?}", entry),
        }
    }
    for (j, n) in nodes.iter().enumerate() {
        assert_eq!(Some(found(&mut reg, n)), seen[j]);
    }
}
