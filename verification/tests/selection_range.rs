use ramp64_convert_gui::SelectionRange;

#[test]
fn selection_range_test() {
    let mut range = SelectionRange::default();

    assert!(range.is_empty());
    assert_eq!(range.len(), 0);

    range.add(1..3);
    // internally
    assert_eq!(range.boundary_count(), 2);

    assert!(!range.is_empty());
    assert_eq!(range.len(), 2);
    assert!(!range.contains(&0));
    assert!(range.contains(&1));
    assert!(range.contains(&2));
    assert!(!range.contains(&3));

    range.add(4..7);
    // internally
    assert_eq!(range.boundary_count(), 4);

    assert_eq!(range.len(), 5);
    assert!(!range.contains(&3));
    assert!(range.contains(&4));

    range.add(3..4);
    // internally
    assert_eq!(range.boundary_count(), 2);

    assert_eq!(range.len(), 6);
    assert!(range.contains(&3));
}

#[test]
fn selection_range_add_edge_tests_ok_ok() {
    let mut range = SelectionRange::from_iter(vec![10..11, 12..13, 14..15]);
    assert_eq!(range.len(), 3);
    assert_eq!(range.boundary_count(), 6);

    range.add(10..14);
    assert_eq!(range.len(), 5);
    assert_eq!(range.boundary_count(), 2);
    assert_eq!(range.start(), Some(10));
    assert_eq!(range.end(), Some(15));

    let mut range = SelectionRange::from_iter(vec![10..11, 12..13, 14..15]);
    range.add(10..15);
    assert_eq!(range.len(), 5);
    assert_eq!(range.boundary_count(), 2);
    assert_eq!(range.start(), Some(10));
    assert_eq!(range.end(), Some(15));

    let mut range = SelectionRange::from_iter(vec![10..11, 12..13, 14..15]);
    range.add(11..14);
    assert_eq!(range.len(), 5);
    assert_eq!(range.boundary_count(), 2);
    assert_eq!(range.start(), Some(10));
    assert_eq!(range.end(), Some(15));

    let mut range = SelectionRange::from_iter(vec![10..11, 12..13, 14..15]);
    range.add(11..15);
    assert_eq!(range.len(), 5);
    assert_eq!(range.boundary_count(), 2);
    assert_eq!(range.start(), Some(10));
    assert_eq!(range.end(), Some(15));
}

#[test]
fn selection_range_add_edge_tests_ok_err() {
    let mut range = SelectionRange::from_iter(vec![10..11, 14..16]);
    assert_eq!(range.len(), 3);
    assert_eq!(range.boundary_count(), 2 * 2);

    range.add(10..13);
    assert_eq!(range.len(), 5);
    assert_eq!(range.boundary_count(), 2 * 2);
    assert_eq!(range.start(), Some(10));
    assert_eq!(range.end(), Some(16));

    let mut range = SelectionRange::from_iter(vec![10..11, 14..16]);
    range.add(10..15);
    assert_eq!(range.len(), 6);
    assert_eq!(range.boundary_count(), 1 * 2);
    assert_eq!(range.start(), Some(10));
    assert_eq!(range.end(), Some(16));

    let mut range = SelectionRange::from_iter(vec![10..11, 14..16]);
    range.add(11..13);
    assert_eq!(range.len(), 5);
    assert_eq!(range.boundary_count(), 2 * 2);
    assert_eq!(range.start(), Some(10));
    assert_eq!(range.end(), Some(16));

    let mut range = SelectionRange::from_iter(vec![10..11, 14..16]);
    range.add(11..15);
    assert_eq!(range.len(), 6);
    assert_eq!(range.boundary_count(), 1 * 2);
    assert_eq!(range.start(), Some(10));
    assert_eq!(range.end(), Some(16));
}

#[test]
fn selection_range_add_edge_tests_err_ok() {
    let range = SelectionRange::from_iter(vec![10..12, 14..15]);
    assert_eq!(range.len(), 3);
    assert_eq!(range.boundary_count(), 2 * 2);

    let mut range = SelectionRange::from_iter(vec![10..12, 14..15]);
    range.add(13..14);
    assert_eq!(range.len(), 4);
    assert_eq!(range.boundary_count(), 2 * 2);
    assert_eq!(range.start(), Some(10));
    assert_eq!(range.end(), Some(15));

    let mut range = SelectionRange::from_iter(vec![10..12, 14..15]);
    range.add(13..15);
    assert_eq!(range.len(), 4);
    assert_eq!(range.boundary_count(), 2 * 2);
    assert_eq!(range.start(), Some(10));
    assert_eq!(range.end(), Some(15));

    let mut range = SelectionRange::from_iter(vec![10..12, 14..15]);
    range.add(11..14);
    assert_eq!(range.len(), 5);
    assert_eq!(range.boundary_count(), 1 * 2);
    assert_eq!(range.start(), Some(10));
    assert_eq!(range.end(), Some(15));

    let mut range = SelectionRange::from_iter(vec![10..12, 14..15]);
    range.add(11..15);
    assert_eq!(range.len(), 5);
    assert_eq!(range.boundary_count(), 1 * 2);
    assert_eq!(range.start(), Some(10));
    assert_eq!(range.end(), Some(15));
}

#[test]
fn selection_range_add_edge_tests_err_err() {
    let range = SelectionRange::default();
    assert_eq!(range.len(), 0);
    assert!(range.is_empty());

    let mut range = SelectionRange::from(13..16);
    range.add(10..15);
    assert_eq!(range.len(), 6);
    assert_eq!(range.boundary_count(), 1 * 2);
    assert_eq!(range.start(), Some(10));
    assert_eq!(range.end(), Some(16));

    let mut range = SelectionRange::from(10..13);
    range.add(12..16);
    assert_eq!(range.len(), 6);
    assert_eq!(range.boundary_count(), 1 * 2);
    assert_eq!(range.start(), Some(10));
    assert_eq!(range.end(), Some(16));

    let mut range = SelectionRange::from_iter(vec![10..12, 14..16]);
    range.add(11..15);
    assert_eq!(range.len(), 6);
    assert_eq!(range.boundary_count(), 1 * 2);
    assert_eq!(range.start(), Some(10));
    assert_eq!(range.end(), Some(16));
}

#[test]
fn selection_range_remove_edge_tests_ok_ok() {
    let mut range = SelectionRange::from_iter(vec![10..11, 12..13, 14..15]);
    assert_eq!(range.len(), 3);
    assert_eq!(range.boundary_count(), 3 * 2);

    assert!(range.remove(&(10..14)));
    assert_eq!(range.len(), 1);
    assert_eq!(range.boundary_count(), 1 * 2);
    assert_eq!(range.start(), Some(14));
    assert_eq!(range.end(), Some(15));

    let mut range = SelectionRange::from_iter(vec![10..11, 12..13, 14..15]);
    assert!(range.remove(&(10..15)));
    assert_eq!(range.len(), 0);
    assert_eq!(range.boundary_count(), 0 * 2);
    assert_eq!(range.start(), None);
    assert_eq!(range.end(), None);

    let mut range = SelectionRange::from_iter(vec![10..11, 12..13, 14..15]);
    assert!(range.remove(&(11..14)));
    assert_eq!(range.len(), 2);
    assert_eq!(range.boundary_count(), 2 * 2);
    assert_eq!(range.start(), Some(10));
    assert_eq!(range.end(), Some(15));

    let mut range = SelectionRange::from_iter(vec![10..11, 12..13, 14..15]);
    assert!(range.remove(&(11..15)));
    assert_eq!(range.len(), 1);
    assert_eq!(range.boundary_count(), 1 * 2);
    assert_eq!(range.start(), Some(10));
    assert_eq!(range.end(), Some(11));
}

#[test]
fn selection_range_remove_edge_tests_ok_err() {
    let mut range = SelectionRange::from_iter(vec![10..11, 14..16]);
    assert_eq!(range.len(), 3);
    assert_eq!(range.boundary_count(), 2 * 2);

    assert!(range.remove(&(10..13)));
    assert_eq!(range.len(), 2);
    assert_eq!(range.boundary_count(), 1 * 2);
    assert_eq!(range.start(), Some(14));
    assert_eq!(range.end(), Some(16));

    let mut range = SelectionRange::from_iter(vec![10..11, 14..16]);
    assert!(range.remove(&(10..15)));
    assert_eq!(range.len(), 1);
    assert_eq!(range.boundary_count(), 1 * 2);
    assert_eq!(range.start(), Some(15));
    assert_eq!(range.end(), Some(16));

    let mut range = SelectionRange::from_iter(vec![10..11, 14..16]);
    assert!(!range.remove(&(11..13)));
    assert_eq!(range.len(), 3);
    assert_eq!(range.boundary_count(), 2 * 2);
    assert_eq!(range.start(), Some(10));
    assert_eq!(range.end(), Some(16));

    let mut range = SelectionRange::from_iter(vec![10..11, 14..16]);
    assert!(range.remove(&(11..15)));
    assert_eq!(range.len(), 2);
    assert_eq!(range.boundary_count(), 2 * 2);
    assert_eq!(range.start(), Some(10));
    assert_eq!(range.end(), Some(16));
}

#[test]
fn selection_range_remove_edge_tests_err_ok() {
    let range = SelectionRange::from_iter(vec![10..12, 14..15]);
    assert_eq!(range.len(), 3);
    assert_eq!(range.boundary_count(), 2 * 2);

    let mut range = SelectionRange::from_iter(vec![10..12, 14..15]);
    assert!(range.remove(&(9..14)));
    assert_eq!(range.len(), 1);
    assert_eq!(range.boundary_count(), 1 * 2);
    assert_eq!(range.start(), Some(14));
    assert_eq!(range.end(), Some(15));

    let mut range = SelectionRange::from_iter(vec![10..12, 14..15]);
    assert!(range.remove(&(9..15)));
    assert_eq!(range.len(), 0);
    assert_eq!(range.boundary_count(), 0 * 2);
    assert_eq!(range.start(), None);
    assert_eq!(range.end(), None);

    let mut range = SelectionRange::from_iter(vec![10..12, 14..15]);
    assert!(range.remove(&(11..14)));
    assert_eq!(range.len(), 2);
    assert_eq!(range.boundary_count(), 2 * 2);
    assert_eq!(range.start(), Some(10));
    assert_eq!(range.end(), Some(15));

    let mut range = SelectionRange::from_iter(vec![10..12, 14..15]);
    assert!(range.remove(&(11..15)));
    assert_eq!(range.len(), 1);
    assert_eq!(range.boundary_count(), 1 * 2);
    assert_eq!(range.start(), Some(10));
    assert_eq!(range.end(), Some(11));
}

#[test]
fn selection_range_remove_edge_tests_err_err() {
    let mut range = SelectionRange::from(13..16);
    assert!(!range.remove(&(10..12)));
    assert_eq!(range.len(), 3);
    assert_eq!(range.boundary_count(), 1 * 2);
    assert_eq!(range.start(), Some(13));
    assert_eq!(range.end(), Some(16));

    let mut range = SelectionRange::from_iter(vec![10..12, 14..16, 18..20]);
    assert!(range.remove(&(13..17)));
    assert_eq!(range.len(), 4);
    assert_eq!(range.boundary_count(), 2 * 2);
    assert_eq!(range.start(), Some(10));
    assert_eq!(range.end(), Some(20));

    let mut range = SelectionRange::from(13..16);
    assert!(range.remove(&(10..15)));
    assert_eq!(range.len(), 1);
    assert_eq!(range.boundary_count(), 1 * 2);
    assert_eq!(range.start(), Some(15));
    assert_eq!(range.end(), Some(16));

    let mut range = SelectionRange::from(10..13);
    assert!(range.remove(&(12..16)));
    assert_eq!(range.len(), 2);
    assert_eq!(range.boundary_count(), 1 * 2);
    assert_eq!(range.start(), Some(10));
    assert_eq!(range.end(), Some(12));

    let mut range = SelectionRange::from_iter(vec![10..12, 14..16]);
    assert!(range.remove(&(11..15)));
    assert_eq!(range.len(), 2);
    assert_eq!(range.boundary_count(), 2 * 2);
    assert_eq!(range.start(), Some(10));
    assert_eq!(range.end(), Some(16));

    let mut range = SelectionRange::from(10..16);
    assert!(range.remove(&(11..15)));
    assert_eq!(range.len(), 2);
    assert_eq!(range.boundary_count(), 2 * 2);
    assert_eq!(range.start(), Some(10));
    assert_eq!(range.end(), Some(16));
}
