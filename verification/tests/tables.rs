use die_roll::FrequencyTable;

#[test]
fn new_table_has_no_rows() {
    let table = FrequencyTable::new();
    assert!(table.entries().is_empty());
    for face in 0..8 {
        assert_eq!(table.count(face), 0);
    }
}

#[test]
fn record_counts_each_observation() {
    let mut table = FrequencyTable::new();
    table.record(3);
    assert_eq!(table.count(3), 1);
    table.record(1);
    table.record(3);
    assert_eq!(table.count(1), 1);
    assert_eq!(table.count(3), 2);
    assert_eq!(table.count(2), 0);
    assert_eq!(table.entries(), vec![(1, 1), (3, 2)]);
}

#[test]
fn record_leaves_other_faces_alone() {
    let mut table = FrequencyTable::new();
    for _ in 0..5 {
        table.record(2);
    }
    table.record(6);
    assert_eq!(table.count(2), 5);
    table.record(6);
    assert_eq!(table.count(2), 5);
    assert_eq!(table.count(6), 2);
    assert_eq!(table.entries(), vec![(2, 5), (6, 2)]);
}

#[test]
fn unobserved_faces_have_no_row() {
    let mut table = FrequencyTable::new();
    table.record(5);
    table.record(2);
    let rows = table.entries();
    assert_eq!(rows, vec![(2, 1), (5, 1)]);
    assert!(rows.iter().all(|row| row.1 > 0));
    assert!(rows.iter().all(|row| row.0 != 1 && row.0 != 3 && row.0 != 4 && row.0 != 6));
}

#[test]
fn rows_ascend_whatever_the_order_of_observation() {
    let mut descending = FrequencyTable::new();
    for face in [6, 5, 4, 3, 2, 1] {
        descending.record(face);
    }
    let mut shuffled = FrequencyTable::new();
    for face in [3, 6, 1, 5, 2, 4] {
        shuffled.record(face);
    }
    let mut ascending = FrequencyTable::new();
    for face in [1, 2, 3, 4, 5, 6] {
        ascending.record(face);
    }
    let expected = vec![(1, 1), (2, 1), (3, 1), (4, 1), (5, 1), (6, 1)];
    assert_eq!(descending.entries(), expected);
    assert_eq!(shuffled.entries(), expected);
    assert_eq!(ascending.entries(), expected);
}

#[test]
fn rows_are_strictly_ascending_with_repeats() {
    let mut table = FrequencyTable::new();
    for face in [4, 4, 2, 6, 2, 4, 1, 6, 4] {
        table.record(face);
    }
    let rows = table.entries();
    assert_eq!(rows, vec![(1, 1), (2, 2), (4, 4), (6, 2)]);
    for pair in rows.windows(2) {
        assert!(pair[0].0 < pair[1].0);
    }
}

#[test]
fn counts_add_up_to_the_observations() {
    let mut table = FrequencyTable::new();
    let faces = [1, 6, 6, 3, 2, 6, 1, 5, 5, 4, 6];
    for face in faces {
        table.record(face);
    }
    let total: u32 = table.entries().iter().map(|row| row.1).sum();
    assert_eq!(total as usize, faces.len());
}
