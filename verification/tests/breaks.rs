use xi_editor::breaks::{
    BreakBuilder, Breaks, BreaksBaseMetric, BreaksInfo, BreaksLeaf, BreaksMetric, MAX_LEAF,
};

fn leaf(len: usize, data: &[(usize, usize)]) -> BreaksLeaf {
    BreaksLeaf::from_data(len, data.to_vec()).expect("sorted data within the length")
}

fn built(lines: &[(usize, usize)]) -> Breaks {
    let mut b = BreakBuilder::new();
    for &(len, width) in lines {
        b.add_break(len, width);
    }
    b.build()
}

#[test]
fn remove_largest_line() {
    let mut b = BreakBuilder::new();
    b.add_break(4, 4);
    b.add_break(4, 10);
    b.add_break(4, 2);
    let mut breaks = b.build();

    assert_eq!(breaks.len(), 4 * 3);
    assert_eq!(breaks.max_width(), 10);

    breaks.edit(4..8, Breaks::default());
    assert_eq!(breaks.len(), 4 * 2);
    assert_eq!(breaks.max_width(), 4);
}

#[test]
fn builder_offsets_are_cumulative() {
    let mut b = BreakBuilder::new();
    b.add_break(3, 1);
    b.add_no_break(2);
    b.add_break(4, 7);
    b.add_no_break(5);
    let breaks = b.build();
    assert_eq!(breaks.len(), 14);
    assert_eq!(breaks.get_data_cloned(), vec![(3, 1), (9, 7)]);
    assert_eq!(breaks.max_width(), 7);
}

#[test]
fn empty_and_no_break() {
    let d = Breaks::default();
    assert_eq!(d.len(), 0);
    assert_eq!(d.max_width(), 0);
    assert!(d.get_data_cloned().is_empty());
    let n = Breaks::new_no_break(17);
    assert_eq!(n.len(), 17);
    assert_eq!(n.max_width(), 0);
    assert!(n.get_data_cloned().is_empty());
}

#[test]
fn edit_inserts_and_shifts() {
    let mut breaks = built(&[(4, 4), (4, 10), (4, 2)]);
    breaks.edit(6..6, Breaks::new_no_break(5));
    assert_eq!(breaks.len(), 17);
    assert_eq!(breaks.get_data_cloned(), vec![(4, 4), (13, 10), (17, 2)]);
    assert_eq!(breaks.max_width(), 10);
}

#[test]
fn edit_replaces_part() {
    let mut breaks = built(&[(4, 4), (4, 10), (4, 2)]);
    let new = built(&[(1, 30), (1, 1)]);
    breaks.edit(2..9, new);
    // kept: (4, 4) is inside (2, 9] and goes; (8, 10) goes; (12, 2) moves to 12 - 9 + 2 + 2 = 7
    assert_eq!(breaks.len(), 12 - 7 + 2);
    assert_eq!(breaks.get_data_cloned(), vec![(3, 30), (4, 1), (7, 2)]);
    assert_eq!(breaks.max_width(), 30);
}

#[test]
fn edit_with_own_part_changes_nothing() {
    let lines: Vec<(usize, usize)> = (0..10).map(|i| (i + 1, 10 - i)).collect();
    let mut breaks = built(&lines);
    let before = breaks.get_data_cloned();
    let len = breaks.len();
    // the part (5, 20]: breaks at 6, 10, 15 become 1, 5, 10 of a part of length 15
    let part = {
        let mut b = BreakBuilder::new();
        b.add_break(1, 8);
        b.add_break(4, 7);
        b.add_break(5, 6);
        b.add_no_break(5);
        b.build()
    };
    assert_eq!(&before[2..5], &[(6, 8), (10, 7), (15, 6)]);
    breaks.edit(5..20, part);
    assert_eq!(breaks.get_data_cloned(), before);
    assert_eq!(breaks.len(), len);
}

#[test]
fn break_at_zero_is_lost_by_an_empty_edit() {
    let mut breaks = built(&[(0, 3), (2, 1)]);
    assert_eq!(breaks.get_data_cloned(), vec![(0, 3), (2, 1)]);
    breaks.edit(0..0, Breaks::default());
    assert_eq!(breaks.get_data_cloned(), vec![(2, 1)]);
}

#[test]
fn many_breaks_span_leaves() {
    let lines: Vec<(usize, usize)> = (0..200).map(|i| (1, i % 50)).collect();
    let mut breaks = built(&lines);
    assert_eq!(breaks.len(), 200);
    assert_eq!(breaks.max_width(), 49);
    let data = breaks.get_data_cloned();
    assert_eq!(data.len(), 200);
    assert_eq!(data[63], (64, 13));
    assert_eq!(data[64], (65, 14));
    breaks.edit(50..150, Breaks::new_no_break(3));
    let data = breaks.get_data_cloned();
    assert_eq!(breaks.len(), 103);
    assert_eq!(data.len(), 100);
    assert_eq!(data[49], (50, 49));
    assert_eq!(data[50], (54, 0));
    assert_eq!(data[99], (103, 49));
    assert_eq!(breaks.max_width(), 49);
}

#[test]
fn edit_keeps_leading_break_of_a_later_leaf() {
    // MAX_LEAF breaks of length 1, then a break at the very start of the next leaf
    let mut b = BreakBuilder::new();
    for _ in 0..MAX_LEAF {
        b.add_break(1, 1);
    }
    b.add_break(0, 9);
    b.add_break(1, 2);
    let mut breaks = b.build();
    let n = MAX_LEAF;
    assert_eq!(breaks.get_data_cloned()[n], (n, 9));
    breaks.edit(0..1, Breaks::new_no_break(1));
    let data = breaks.get_data_cloned();
    // the break at 1 goes; the two breaks at offset MAX_LEAF both stay
    assert_eq!(data.len(), MAX_LEAF + 1);
    assert_eq!(data[n - 2], (n, 1));
    assert_eq!(data[n - 1], (n, 9));
    assert_eq!(breaks.max_width(), 9);
}

#[test]
fn leaf_from_data_checks_order_and_length() {
    assert!(BreaksLeaf::from_data(5, vec![(1, 1), (5, 2)]).is_some());
    assert!(BreaksLeaf::from_data(4, vec![(1, 1), (5, 2)]).is_none());
    assert!(BreaksLeaf::from_data(9, vec![(3, 1), (2, 2)]).is_none());
    assert!(BreaksLeaf::from_data(0, vec![]).is_some());
}

#[test]
fn push_maybe_split_takes_window() {
    let mut a = leaf(3, &[(1, 5), (3, 6)]);
    let other = leaf(10, &[(2, 1), (4, 2), (7, 3), (10, 4)]);
    let split = a.push_maybe_split(&other, 2, 7);
    assert!(split.is_none());
    assert_eq!(a.len(), 8);
    assert_eq!(a.get_data_cloned(), vec![(1, 5), (3, 6), (5, 2), (8, 3)]);
}

#[test]
fn push_maybe_split_end_past_other_len() {
    let mut a = BreaksLeaf::default();
    let other = leaf(4, &[(2, 1), (4, 2)]);
    assert!(a.push_maybe_split(&other, 1, 10).is_none());
    assert_eq!(a.len(), 3);
    assert_eq!(a.get_data_cloned(), vec![(1, 1), (3, 2)]);
}

#[test]
fn push_maybe_split_splits_in_the_middle() {
    let data: Vec<(usize, usize)> = (1..=50).map(|i| (i, i)).collect();
    let mut a = leaf(50, &data);
    let other_data: Vec<(usize, usize)> = (1..=30).map(|i| (i, 100 + i)).collect();
    let other = leaf(30, &other_data);
    let split = a.push_maybe_split(&other, 0, 30).expect("80 breaks are more than a leaf holds");
    // 80 breaks: the first 40 stay, the leaf ends at the 40th break
    assert_eq!(a.len(), 40);
    assert_eq!(a.get_data_cloned().len(), 40);
    assert_eq!(a.get_data_cloned()[39], (40, 40));
    assert_eq!(split.len(), 40);
    let rest = split.get_data_cloned();
    assert_eq!(rest.len(), 40);
    assert_eq!(rest[0], (1, 41));
    assert_eq!(rest[10], (11, 101));
    assert_eq!(rest[39], (40, 130));
}

#[test]
fn leaf_child_status() {
    let data: Vec<(usize, usize)> = (1..=32).map(|i| (i, 0)).collect();
    assert!(leaf(32, &data).is_ok_child());
    assert!(!leaf(31, &data[..31]).is_ok_child());
}

#[test]
fn info_summarises_leaves() {
    let a = leaf(10, &[(2, 3), (5, 9), (7, 1)]);
    let b = leaf(4, &[(4, 12)]);
    let mut ia = BreaksInfo::compute_info(&a);
    let ib = BreaksInfo::compute_info(&b);
    assert_eq!(BreaksMetric::measure(&ia, 10), 3);
    ia.accumulate(&ib);
    assert_eq!(BreaksMetric::measure(&ia, 14), 4);
    assert_eq!(BreaksBaseMetric::measure(&ia, 14), 14);
    let empty = BreaksInfo::compute_info(&BreaksLeaf::default());
    assert_eq!(BreaksMetric::measure(&empty, 0), 0);
}

#[test]
fn metric_conversions() {
    let l = leaf(10, &[(2, 1), (5, 1), (8, 1)]);
    assert_eq!(BreaksMetric::to_base_units(&l, 0), 0);
    assert_eq!(BreaksMetric::to_base_units(&l, 1), 2);
    assert_eq!(BreaksMetric::to_base_units(&l, 3), 8);
    assert_eq!(BreaksMetric::to_base_units(&l, 4), 11);
    assert_eq!(BreaksMetric::from_base_units(&l, 0), 0);
    assert_eq!(BreaksMetric::from_base_units(&l, 2), 1);
    assert_eq!(BreaksMetric::from_base_units(&l, 3), 1);
    assert_eq!(BreaksMetric::from_base_units(&l, 5), 2);
    assert_eq!(BreaksMetric::from_base_units(&l, 9), 3);
    // round trips
    for n in 1..=3 {
        let b = BreaksMetric::to_base_units(&l, n);
        assert_eq!(BreaksMetric::from_base_units(&l, b), n);
    }
    for b in [2, 5, 8] {
        let n = BreaksMetric::from_base_units(&l, b);
        assert_eq!(BreaksMetric::to_base_units(&l, n), b);
    }
    assert_eq!(BreaksBaseMetric::to_base_units(&l, 7), 7);
    assert_eq!(BreaksBaseMetric::from_base_units(&l, 7), 7);
}

#[test]
fn metric_boundaries_prev_next() {
    let l = leaf(10, &[(2, 1), (5, 1), (8, 1)]);
    assert!(BreaksMetric::is_boundary(&l, 5));
    assert!(!BreaksMetric::is_boundary(&l, 6));
    assert!(BreaksBaseMetric::is_boundary(&l, 2));
    assert_eq!(BreaksMetric::prev(&l, 5), Some(2));
    assert_eq!(BreaksMetric::prev(&l, 6), Some(5));
    assert_eq!(BreaksMetric::prev(&l, 2), None);
    assert_eq!(BreaksMetric::prev(&l, 10), Some(8));
    assert_eq!(BreaksBaseMetric::prev(&l, 9), Some(8));
    assert_eq!(BreaksMetric::next(&l, 5), Some(8));
    assert_eq!(BreaksMetric::next(&l, 4), Some(5));
    assert_eq!(BreaksMetric::next(&l, 0), Some(2));
    assert_eq!(BreaksMetric::next(&l, 8), None);
    assert_eq!(BreaksBaseMetric::next(&l, 3), Some(5));
    assert!(BreaksMetric::can_fragment());
    assert!(BreaksBaseMetric::can_fragment());
    let empty = BreaksLeaf::default();
    assert_eq!(BreaksMetric::prev(&empty, 3), None);
    assert_eq!(BreaksMetric::next(&empty, 3), None);
}
