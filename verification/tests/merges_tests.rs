use rustbpe::merges::MergeTable;

#[test]
fn merge_table_starts_empty() {
    let table = MergeTable::new();
    assert_eq!(table.len(), 0);
    assert_eq!(table.get((97, 98)), None);
    assert_eq!(table.pairs(), vec![]);
}

#[test]
fn merge_table_assigns_sequential_ids() {
    let mut table = MergeTable::new();
    assert_eq!(table.insert((104, 101)), Some(256));
    assert_eq!(table.insert((108, 108)), Some(257));
    assert_eq!(table.insert((256, 257)), Some(258));
    assert_eq!(table.len(), 3);
    assert_eq!(table.get((104, 101)), Some(256));
    assert_eq!(table.get((108, 108)), Some(257));
    assert_eq!(table.get((256, 257)), Some(258));
    assert_eq!(table.get((101, 104)), None);
    assert_eq!(table.pair_at(1), (108, 108));
    assert_eq!(table.pairs(), vec![(104, 101), (108, 108), (256, 257)]);
}

#[test]
fn merge_table_refuses_a_pair_twice() {
    let mut table = MergeTable::new();
    assert_eq!(table.insert((1, 2)), Some(256));
    assert_eq!(table.insert((1, 2)), None);
    assert_eq!(table.len(), 1);
    assert_eq!(table.get((1, 2)), Some(256));
}

#[test]
fn merge_table_refuses_ids_that_do_not_exist_yet() {
    let mut table = MergeTable::new();
    assert_eq!(table.insert((256, 1)), None);
    assert_eq!(table.insert((1, 256)), None);
    assert_eq!(table.insert((1, 2)), Some(256));
    assert_eq!(table.insert((257, 1)), None);
    assert_eq!(table.insert((256, 256)), Some(257));
    assert_eq!(table.pairs(), vec![(1, 2), (256, 256)]);
}

#[test]
fn merge_table_tells_pairs_with_swapped_ids_apart() {
    let mut table = MergeTable::new();
    assert_eq!(table.insert((0, 1)), Some(256));
    assert_eq!(table.insert((1, 0)), Some(257));
    assert_eq!(table.get((0, 1)), Some(256));
    assert_eq!(table.get((1, 0)), Some(257));
    assert_eq!(table.get((0, 0)), None);
}
