use varuna::cfar::{cells_under_test, training_cells};

#[test]
fn cfar_tested_range() {
    assert_eq!(cells_under_test(256, 2, 8), (10, 246));
    assert_eq!(cells_under_test(15, 2, 8), (10, 5));
}

#[test]
fn cfar_training_cells_skip_guard_cells() {
    assert_eq!(training_cells(256, 2, 3, 128), vec![123, 124, 125, 131, 132, 133]);
    let cells = training_cells(256, 2, 8, 10);
    assert_eq!(cells.len(), 16);
    assert_eq!(cells[0], 0);
    assert_eq!(cells[15], 20);
    assert!(!cells.contains(&10) && !cells.contains(&9) && !cells.contains(&12));
}
