use bfc::cells::CellMap;

fn listing(m: &CellMap<i8>) -> Vec<(i32, i8)> {
    (0..m.len()).map(|i| m.entry_at(i)).collect()
}

#[test]
fn cell_map_starts_empty() {
    let m: CellMap<i8> = CellMap::new();
    assert_eq!(m.len(), 0);
    assert_eq!(m.get(0), None);
}

#[test]
fn cell_map_lists_in_order_of_first_entry() {
    let mut m: CellMap<i8> = CellMap::new();
    m.insert(5, 1);
    m.insert(-3, 2);
    m.insert(0, 3);
    m.insert(5, 4);
    assert_eq!(listing(&m), vec![(5, 4), (-3, 2), (0, 3)]);
    assert_eq!(m.get(5), Some(4));
    assert_eq!(m.get(-3), Some(2));
    assert_eq!(m.get(7), None);
}

#[test]
fn cell_map_remove_keeps_the_order_of_the_rest() {
    let mut m: CellMap<i8> = CellMap::new();
    m.insert(1, 10);
    m.insert(2, 20);
    m.insert(3, 30);
    assert_eq!(m.remove(2), Some(20));
    assert_eq!(m.remove(2), None);
    assert_eq!(listing(&m), vec![(1, 10), (3, 30)]);
    m.insert(2, 21);
    assert_eq!(listing(&m), vec![(1, 10), (3, 30), (2, 21)]);
}

#[test]
fn cell_map_clear_forgets_everything() {
    let mut m: CellMap<i8> = CellMap::new();
    m.insert(1, 10);
    m.insert(2, 20);
    m.clear();
    assert_eq!(m.len(), 0);
    assert_eq!(m.get(1), None);
    m.insert(2, 5);
    assert_eq!(listing(&m), vec![(2, 5)]);
}
