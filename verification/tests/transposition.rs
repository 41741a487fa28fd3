use reversi::key::pack;
use reversi::transposition::{NodeType, TableEntry, TranspositionTable};

fn entry(score: i32, depth: usize, node_type: NodeType) -> TableEntry {
    TableEntry { score, depth, node_type }
}

fn same(found: Option<TableEntry>, score: i32, depth: usize, node_type: NodeType) -> bool {
    match found {
        Some(e) => e.score == score && e.depth == depth && e.node_type == node_type,
        None => false,
    }
}

#[test]
fn a_new_table_is_empty() {
    let table = TranspositionTable::new();
    assert!(table.probe((0, 0)).is_none());
    assert!(table.probe((1, 2)).is_none());
}

#[test]
fn store_then_probe_finds_the_entry() {
    let mut table = TranspositionTable::new();
    table.store((1, 2), entry(7, 3, NodeType::Exact));
    assert!(same(table.probe((1, 2)), 7, 3, NodeType::Exact));
    assert!(table.probe((2, 1)).is_none());
    assert!(table.probe((1, 3)).is_none());
}

#[test]
fn a_shallower_store_changes_nothing() {
    let mut table = TranspositionTable::new();
    table.store((1, 2), entry(7, 5, NodeType::LowerBound));
    table.store((1, 2), entry(-9, 4, NodeType::Exact));
    assert!(same(table.probe((1, 2)), 7, 5, NodeType::LowerBound));
    table.store((1, 2), entry(-9, 0, NodeType::UpperBound));
    assert!(same(table.probe((1, 2)), 7, 5, NodeType::LowerBound));
}

#[test]
fn an_equal_or_deeper_store_replaces() {
    let mut table = TranspositionTable::new();
    table.store((1, 2), entry(7, 5, NodeType::LowerBound));
    table.store((1, 2), entry(8, 5, NodeType::UpperBound));
    assert!(same(table.probe((1, 2)), 8, 5, NodeType::UpperBound));
    table.store((1, 2), entry(9, 6, NodeType::Exact));
    assert!(same(table.probe((1, 2)), 9, 6, NodeType::Exact));
}

#[test]
fn keys_do_not_collide() {
    let mut table = TranspositionTable::new();
    table.store((0, 1), entry(1, 1, NodeType::Exact));
    table.store((1, 0), entry(2, 1, NodeType::Exact));
    table.store((u64::MAX, 0), entry(3, 1, NodeType::Exact));
    table.store((0, u64::MAX), entry(4, 1, NodeType::Exact));
    assert!(same(table.probe((0, 1)), 1, 1, NodeType::Exact));
    assert!(same(table.probe((1, 0)), 2, 1, NodeType::Exact));
    assert!(same(table.probe((u64::MAX, 0)), 3, 1, NodeType::Exact));
    assert!(same(table.probe((0, u64::MAX)), 4, 1, NodeType::Exact));
}

#[test]
fn clear_empties_the_table() {
    let mut table = TranspositionTable::new();
    table.store((1, 2), entry(7, 5, NodeType::Exact));
    table.store((3, 4), entry(7, 5, NodeType::Exact));
    table.clear();
    assert!(table.probe((1, 2)).is_none());
    assert!(table.probe((3, 4)).is_none());
    table.store((1, 2), entry(1, 0, NodeType::Exact));
    assert!(same(table.probe((1, 2)), 1, 0, NodeType::Exact));
}

#[test]
fn pack_puts_the_sets_side_by_side() {
    assert_eq!(pack((0, 0)), 0);
    assert_eq!(pack((0, 5)), 5);
    assert_eq!(pack((1, 0)), 1u128 << 64);
    assert_eq!(pack((u64::MAX, u64::MAX)), u128::MAX);
    assert_eq!(pack((3, 4)), (3u128 << 64) + 4);
}
