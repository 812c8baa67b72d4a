use crustydb::datatypes::Field;
use crustydb::group_table::GroupTable;

fn key(n: i64) -> Vec<Field> {
    vec![Field::Int(n)]
}

#[test]
fn groups_drain_in_key_order() {
    let mut table: GroupTable<Field> = GroupTable::new();
    for n in [5, 1, 4, 2, 3] {
        table.insert(key(n), key(10 * n));
    }
    let groups = table.drain();
    let keys: Vec<Vec<Field>> = groups.into_iter().map(|g| g.key).collect();
    assert_eq!(keys, vec![key(1), key(2), key(3), key(4), key(5)]);
    assert_eq!(table.drain().len(), 0);
}

#[test]
fn states_change_in_place() {
    let mut table: GroupTable<Field> = GroupTable::new();
    table.insert(key(1), key(10));
    table.insert(key(2), key(20));
    table.insert(key(1), key(11));
    if let Some(state) = table.get_mut(&key(2)) {
        state[0] = Field::Int(21);
    }
    assert!(table.get_mut(&key(3)).is_none());
    let groups = table.drain();
    assert_eq!(groups.len(), 2);
    assert_eq!(groups[0].state, key(11));
    assert_eq!(groups[1].state, key(21));
}

#[test]
fn clearing_forgets_every_group() {
    let mut table: GroupTable<Field> = GroupTable::new();
    table.insert(key(1), key(10));
    table.clear();
    assert!(table.get_mut(&key(1)).is_none());
}
