use fst::ops::{Difference, IndexedValue, Intersection, OpBuilder, SymmetricDifference, Union};

fn s(string: &str) -> String {
    string.to_owned()
}

fn set_streams(sets: Vec<Vec<&str>>) -> Vec<Vec<(Vec<u8>, u64)>> {
    sets.into_iter()
        .map(|set| set.into_iter().map(|k| (k.as_bytes().to_vec(), 0)).collect())
        .collect()
}

fn map_streams(maps: Vec<Vec<(&str, u64)>>) -> Vec<Vec<(Vec<u8>, u64)>> {
    maps.into_iter()
        .map(|map| map.into_iter().map(|(k, v)| (k.as_bytes().to_vec(), v)).collect())
        .collect()
}

fn keys_of(items: Vec<(Vec<u8>, Vec<IndexedValue>)>) -> Vec<String> {
    items.into_iter().map(|(k, _)| String::from_utf8(k).unwrap()).collect()
}

fn merged_of(items: Vec<(Vec<u8>, Vec<IndexedValue>)>) -> Vec<(String, u64)> {
    items
        .into_iter()
        .map(|(k, outs)| {
            let merged = outs.iter().fold(0, |a, b| a + b.value);
            (String::from_utf8(k).unwrap(), merged)
        })
        .collect()
}

fn drain_union(mut stream: Union) -> Vec<(Vec<u8>, Vec<IndexedValue>)> {
    let mut items = vec![];
    while let Some((key, outs)) = stream.next() {
        items.push((key.to_vec(), outs.to_vec()));
    }
    items
}

fn drain_intersection(mut stream: Intersection) -> Vec<(Vec<u8>, Vec<IndexedValue>)> {
    let mut items = vec![];
    while let Some((key, outs)) = stream.next() {
        items.push((key.to_vec(), outs.to_vec()));
    }
    items
}

fn drain_difference(mut stream: Difference) -> Vec<(Vec<u8>, Vec<IndexedValue>)> {
    let mut items = vec![];
    while let Some((key, outs)) = stream.next() {
        items.push((key.to_vec(), outs.to_vec()));
    }
    items
}

fn drain_symmetric_difference(mut stream: SymmetricDifference) -> Vec<(Vec<u8>, Vec<IndexedValue>)> {
    let mut items = vec![];
    while let Some((key, outs)) = stream.next() {
        items.push((key.to_vec(), outs.to_vec()));
    }
    items
}

fn fst_union(sets: Vec<Vec<&str>>) -> Vec<String> {
    keys_of(drain_union(OpBuilder::from_iter(set_streams(sets)).union()))
}

fn fst_intersection(sets: Vec<Vec<&str>>) -> Vec<String> {
    keys_of(drain_intersection(OpBuilder::from_iter(set_streams(sets)).intersection()))
}

fn fst_symmetric_difference(sets: Vec<Vec<&str>>) -> Vec<String> {
    keys_of(drain_symmetric_difference(OpBuilder::from_iter(set_streams(sets)).symmetric_difference()))
}

fn fst_difference(sets: Vec<Vec<&str>>) -> Vec<String> {
    keys_of(drain_difference(OpBuilder::from_iter(set_streams(sets)).difference()))
}

fn fst_union_map(maps: Vec<Vec<(&str, u64)>>) -> Vec<(String, u64)> {
    merged_of(drain_union(OpBuilder::from_iter(map_streams(maps)).union()))
}

fn fst_intersection_map(maps: Vec<Vec<(&str, u64)>>) -> Vec<(String, u64)> {
    merged_of(drain_intersection(OpBuilder::from_iter(map_streams(maps)).intersection()))
}

fn fst_symmetric_difference_map(maps: Vec<Vec<(&str, u64)>>) -> Vec<(String, u64)> {
    merged_of(drain_symmetric_difference(OpBuilder::from_iter(map_streams(maps)).symmetric_difference()))
}

fn fst_difference_map(maps: Vec<Vec<(&str, u64)>>) -> Vec<(String, u64)> {
    merged_of(drain_difference(OpBuilder::from_iter(map_streams(maps)).difference()))
}

#[test]
fn union_set() {
    let v = fst_union(vec![vec!["a", "b", "c"], vec!["x", "y", "z"]]);
    assert_eq!(v, vec!["a", "b", "c", "x", "y", "z"]);
}

#[test]
fn union_set_dupes() {
    let v = fst_union(vec![vec!["aa", "b", "cc"], vec!["b", "cc", "z"]]);
    assert_eq!(v, vec!["aa", "b", "cc", "z"]);
}

#[test]
fn union_map() {
    let v = fst_union_map(vec![
        vec![("a", 1), ("b", 2), ("c", 3)],
        vec![("x", 1), ("y", 2), ("z", 3)],
    ]);
    assert_eq!(
        v,
        vec![
            (s("a"), 1),
            (s("b"), 2),
            (s("c"), 3),
            (s("x"), 1),
            (s("y"), 2),
            (s("z"), 3),
        ]
    );
}

#[test]
fn union_map_dupes() {
    let v = fst_union_map(vec![
        vec![("aa", 1), ("b", 2), ("cc", 3)],
        vec![("b", 1), ("cc", 2), ("z", 3)],
        vec![("b", 1)],
    ]);
    assert_eq!(v, vec![(s("aa"), 1), (s("b"), 4), (s("cc"), 5), (s("z"), 3),]);
}

#[test]
fn intersect_set() {
    let v = fst_intersection(vec![vec!["a", "b", "c"], vec!["x", "y", "z"]]);
    assert_eq!(v, Vec::<String>::new());
}

#[test]
fn intersect_set_dupes() {
    let v = fst_intersection(vec![vec!["aa", "b", "cc"], vec!["b", "cc", "z"]]);
    assert_eq!(v, vec!["b", "cc"]);
}

#[test]
fn intersect_map() {
    let v = fst_intersection_map(vec![
        vec![("a", 1), ("b", 2), ("c", 3)],
        vec![("x", 1), ("y", 2), ("z", 3)],
    ]);
    assert_eq!(v, Vec::<(String, u64)>::new());
}

#[test]
fn intersect_map_dupes() {
    let v = fst_intersection_map(vec![
        vec![("aa", 1), ("b", 2), ("cc", 3)],
        vec![("b", 1), ("cc", 2), ("z", 3)],
        vec![("b", 1)],
    ]);
    assert_eq!(v, vec![(s("b"), 4)]);
}

#[test]
fn symmetric_difference() {
    let v = fst_symmetric_difference(vec![vec!["a", "b", "c"], vec!["a", "b"], vec!["a"]]);
    assert_eq!(v, vec!["a", "c"]);
}

#[test]
fn symmetric_difference_map() {
    let v = fst_symmetric_difference_map(vec![
        vec![("a", 1), ("b", 2), ("c", 3)],
        vec![("a", 1), ("b", 2)],
        vec![("a", 1)],
    ]);
    assert_eq!(v, vec![(s("a"), 3), (s("c"), 3)]);
}

#[test]
fn difference() {
    let v = fst_difference(vec![vec!["a", "b", "c"], vec!["a", "b"], vec!["a"]]);
    assert_eq!(v, vec!["c"]);
}

#[test]
fn difference2() {
    let v = fst_difference(vec![vec!["a", "c"], vec!["b", "c"]]);
    assert_eq!(v, vec!["a"]);
    let v = fst_difference(vec![vec!["bar", "foo"], vec!["baz", "foo"]]);
    assert_eq!(v, vec!["bar"]);
}

#[test]
fn difference_map() {
    let v = fst_difference_map(vec![
        vec![("a", 1), ("b", 2), ("c", 3)],
        vec![("a", 1), ("b", 2)],
        vec![("a", 1)],
    ]);
    assert_eq!(v, vec![(s("c"), 3)]);
}

fn pairs(items: &[(&str, u64)]) -> Vec<(Vec<u8>, u64)> {
    items.iter().map(|(k, v)| (k.as_bytes().to_vec(), *v)).collect()
}

#[test]
fn add_chains_streams_in_order() {
    let op = OpBuilder::new()
        .add(pairs(&[("a", 1), ("b", 2)]))
        .add(pairs(&[("b", 3), ("c", 4)]));
    let items = drain_union(op.union());
    assert_eq!(
        items,
        vec![
            (b"a".to_vec(), vec![IndexedValue { index: 0, value: 1 }]),
            (b"b".to_vec(), vec![IndexedValue { index: 0, value: 2 }, IndexedValue { index: 1, value: 3 }]),
            (b"c".to_vec(), vec![IndexedValue { index: 1, value: 4 }]),
        ]
    );
}

#[test]
fn push_and_extend_number_streams_from_zero() {
    let mut op = OpBuilder::new();
    op.push(pairs(&[("k", 7)]));
    op.extend(vec![pairs(&[("k", 8)]), pairs(&[("j", 1), ("k", 9)])]);
    let items = drain_union(op.union());
    assert_eq!(
        items,
        vec![
            (b"j".to_vec(), vec![IndexedValue { index: 2, value: 1 }]),
            (
                b"k".to_vec(),
                vec![
                    IndexedValue { index: 0, value: 7 },
                    IndexedValue { index: 1, value: 8 },
                    IndexedValue { index: 2, value: 9 },
                ]
            ),
        ]
    );
}

#[test]
fn union_orders_prefixes_first() {
    let v = fst_union(vec![vec!["ab", "b"], vec!["a", "aa", "ba"], vec![""]]);
    assert_eq!(v, vec!["", "a", "aa", "ab", "b", "ba"]);
}

#[test]
fn operations_on_no_streams_are_empty() {
    assert!(OpBuilder::new().union().next().is_none());
    assert!(OpBuilder::new().intersection().next().is_none());
    assert!(OpBuilder::new().symmetric_difference().next().is_none());
}

#[test]
fn exhausted_stream_stays_exhausted() {
    let mut u = OpBuilder::from_iter(set_streams(vec![vec!["a"]])).union();
    assert!(u.next().is_some());
    assert!(u.next().is_none());
    assert!(u.next().is_none());
}

#[test]
fn intersection_needs_every_stream() {
    let v = fst_intersection(vec![vec!["a", "b", "c"], vec!["b", "c"], vec!["a", "c"], vec![]]);
    assert_eq!(v, Vec::<String>::new());
    let v = fst_intersection(vec![vec!["a", "b", "c"], vec!["b", "c"], vec!["a", "c"]]);
    assert_eq!(v, vec!["c"]);
}

#[test]
fn intersection_lists_every_occurrence() {
    let items = drain_intersection(
        OpBuilder::from_iter(map_streams(vec![vec![("x", 5)], vec![("w", 1), ("x", 6)]])).intersection(),
    );
    assert_eq!(
        items,
        vec![(b"x".to_vec(), vec![IndexedValue { index: 0, value: 5 }, IndexedValue { index: 1, value: 6 }])]
    );
}

#[test]
fn symmetric_difference_of_two_is_either_not_both() {
    let v = fst_symmetric_difference(vec![vec!["a", "b", "d"], vec!["b", "c", "d", "e"]]);
    assert_eq!(v, vec!["a", "c", "e"]);
}

#[test]
fn symmetric_difference_counts_parity() {
    let v = fst_symmetric_difference(vec![vec!["a", "b"], vec!["a", "b"], vec!["a"], vec!["a", "c"]]);
    assert_eq!(v, vec!["c"]);
}

#[test]
fn difference_of_one_stream_is_that_stream() {
    let items = drain_difference(OpBuilder::from_iter(map_streams(vec![vec![("p", 3), ("q", 4)]])).difference());
    assert_eq!(
        items,
        vec![
            (b"p".to_vec(), vec![IndexedValue { index: 0, value: 3 }]),
            (b"q".to_vec(), vec![IndexedValue { index: 0, value: 4 }]),
        ]
    );
}

#[test]
fn difference_takes_values_from_first_stream() {
    let items = drain_difference(
        OpBuilder::from_iter(map_streams(vec![
            vec![("a", 10), ("m", 20), ("z", 30)],
            vec![("b", 1)],
            vec![("m", 2), ("y", 3)],
            vec![("c", 4)],
        ]))
        .difference(),
    );
    assert_eq!(
        items,
        vec![
            (b"a".to_vec(), vec![IndexedValue { index: 0, value: 10 }]),
            (b"z".to_vec(), vec![IndexedValue { index: 0, value: 30 }]),
        ]
    );
}

#[test]
fn occurrences_come_by_value_then_stream() {
    let items = drain_union(
        OpBuilder::from_iter(map_streams(vec![vec![("k", 9)], vec![("k", 1)], vec![("k", 9)], vec![("k", 4)]]))
            .union(),
    );
    assert_eq!(
        items,
        vec![(
            b"k".to_vec(),
            vec![
                IndexedValue { index: 1, value: 1 },
                IndexedValue { index: 3, value: 4 },
                IndexedValue { index: 0, value: 9 },
                IndexedValue { index: 2, value: 9 },
            ]
        )]
    );
}
