use ramp64_convert_gui::browser::FileFilter;
use ramp64_convert_gui::error_list::ErrorList;
use ramp64_convert_gui::SelectionRange;

#[test]
fn adding_twice_equals_adding_once() {
    let mut once = SelectionRange::from_iter(vec![1..4, 8..10]);
    once.add(2..6);
    let mut twice = SelectionRange::from_iter(vec![1..4, 8..10]);
    twice.add(2..6);
    twice.add(2..6);
    assert_eq!(once.into_ranges(), twice.into_ranges());
}

#[test]
fn adds_commute() {
    let mut ab = SelectionRange::default();
    ab.add(1..4);
    ab.add(3..9);
    let mut ba = SelectionRange::default();
    ba.add(3..9);
    ba.add(1..4);
    assert_eq!(ab.into_ranges(), ba.into_ranges());

    let mut ab = SelectionRange::default();
    ab.add(1..2);
    ab.add(5..6);
    let mut ba = SelectionRange::default();
    ba.add(5..6);
    ba.add(1..2);
    assert_eq!(ab.into_ranges(), ba.into_ranges());
}

#[test]
fn union_is_order_independent() {
    let one = SelectionRange::from_iter(vec![5..7, 1..3, 6..9, 2..2]);
    let other = SelectionRange::from_iter(vec![2..2, 6..9, 1..3, 5..7]);
    assert_eq!(one.len(), 6);
    assert_eq!(other.len(), 6);
    for i in 0..12 {
        let expected = (1 <= i && i < 3) || (5 <= i && i < 9);
        assert_eq!(one.contains(&i), expected);
        assert_eq!(other.contains(&i), expected);
    }
    assert_eq!(one.into_ranges(), other.into_ranges());
}

#[test]
fn round_trip_reproduces_canonical_sequence() {
    let set = SelectionRange::from_iter(vec![4..6, 0..1, 9..12, 5..8]);
    let ranges = set.into_ranges();
    assert_eq!(ranges, vec![0..1, 4..8, 9..12]);
    let rebuilt = SelectionRange::from_iter(ranges.clone());
    assert_eq!(rebuilt.into_ranges(), ranges);
}

#[test]
fn touching_ranges_merge() {
    let mut set = SelectionRange::from(1..3);
    set.add(3..7);
    assert_eq!(set.boundary_count(), 2);
    assert_eq!(set.len(), 6);
    assert_eq!(set.into_ranges(), vec![1..7]);
}

#[test]
fn empty_and_inverted_ranges_are_noops() {
    let mut set = SelectionRange::from(2..5);
    set.add(7..7);
    set.add(9..4);
    assert!(!set.remove(&(3..3)));
    assert!(!set.remove(&(8..1)));
    assert_eq!(set.boundary_count(), 2);
    assert_eq!(set.len(), 3);
    assert_eq!(set.into_ranges(), vec![2..5]);

    let empty = SelectionRange::from(6..6);
    assert!(empty.is_empty());
    assert_eq!(empty.start(), None);
    assert_eq!(empty.end(), None);
}

#[test]
fn remove_reports_change_exactly_on_overlap() {
    let mut set = SelectionRange::from_iter(vec![10..12, 20..25]);
    // Touching but not overlapping: no integer is shared.
    assert!(!set.remove(&(12..20)));
    assert_eq!(set.len(), 7);
    // Splitting an interval in the middle.
    assert!(set.remove(&(21..23)));
    assert_eq!(set.into_ranges(), vec![10..12, 20..21, 23..25]);
}

#[test]
fn works_near_the_largest_values() {
    let top = usize::MAX;
    let mut set = SelectionRange::from(top - 3..top);
    assert_eq!(set.len(), 3);
    assert!(set.contains(&(top - 1)));
    assert!(!set.contains(&top));
    set.add(top - 5..top - 3);
    assert_eq!(set.into_ranges(), vec![top - 5..top]);
}

#[test]
fn error_list_collects_and_clears() {
    let mut errors: ErrorList<u8> = ErrorList::default();
    assert!(!errors.has_errors());
    errors.add(1, String::from("first"));
    assert!(errors.has_errors());
    errors.add(2, String::from("second"));
    assert_eq!(errors.entries().len(), 2);
    assert_eq!(errors.entries()[0], (1, String::from("first")));
    assert_eq!(errors.entries()[1], (2, String::from("second")));
    errors.clear();
    assert!(!errors.has_errors());
    assert_eq!(errors.entries().len(), 0);
}

#[test]
fn file_filter_keeps_its_fields() {
    let filter = FileFilter::new("RetroArch Save", &["srm"]);
    assert_eq!(filter.name, "RetroArch Save");
    assert_eq!(filter.extensions, &["srm"]);
}
