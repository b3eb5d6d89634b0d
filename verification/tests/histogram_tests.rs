use engine::histogram::{AgeBand, Count, HeterodoxyBin, HistogramError, PopulationHistogram};

fn grid(h: &PopulationHistogram) -> Vec<Vec<u64>> {
    h.iter_bands()
        .into_iter()
        .map(|(_, row)| row.into_iter().map(|(_, c)| c.value()).collect())
        .collect()
}

fn counts(rows: &[&[u64]]) -> Vec<Vec<Count>> {
    rows.iter()
        .map(|row| row.iter().map(|&v| Count(v)).collect())
        .collect()
}

fn filled(rows: &[&[u64]]) -> PopulationHistogram {
    let mut h = PopulationHistogram::new(rows[0].len() - 1, rows.len());
    h.swap_counts(counts(rows));
    h
}

#[test]
fn count_adjust_up_and_down() {
    let mut c = Count(5);
    assert_eq!(c.adjust(3).unwrap(), 3);
    assert_eq!(c.value(), 8);
    assert_eq!(c.adjust(-8).unwrap(), -8);
    assert_eq!(c.value(), 0);
}

#[test]
fn count_adjust_refuses_to_go_negative() {
    let mut c = Count(2);
    match c.adjust(-3) {
        Err(HistogramError::Underflow { current, delta }) => {
            assert_eq!(current, 2);
            assert_eq!(delta, -3);
        }
        other => panic!("unexpected {:?}", other),
    }
    assert_eq!(c.value(), 2);
}

#[test]
fn count_empty_and_increment() {
    let mut c = Count(9);
    c.empty();
    assert_eq!(c.value(), 0);
    c.increment();
    c.increment();
    assert_eq!(c.value(), 2);
}

#[test]
fn bins_and_bands_report_their_index() {
    assert_eq!(HeterodoxyBin::from(7).value(), 7);
    assert_eq!(AgeBand::from(3).value(), 3);
    // 20 bands over 100 years: band 3 starts at 15 years
    assert_eq!(AgeBand(3).get_age(20, 100), 15);
    assert_eq!(AgeBand(19).get_age(20, 100), 95);
    assert_eq!(AgeBand(1).get_age(3, 10), 3);
}

#[test]
fn new_histogram_is_empty_and_rectangular() {
    let h = PopulationHistogram::new(4, 3);
    let g = grid(&h);
    assert_eq!(g.len(), 3);
    assert!(g.iter().all(|row| row.len() == 5 && row.iter().all(|&v| v == 0)));
    assert_eq!(h.total(), 0);
    assert_eq!(h.iter().count(), 3);
}

#[test]
fn get_and_get_age_band() {
    let h = filled(&[&[1, 2], &[3, 4]]);
    assert_eq!(h.get(AgeBand(1), HeterodoxyBin(0)), Some(&Count(3)));
    assert_eq!(h.get(AgeBand(2), HeterodoxyBin(0)), None);
    assert_eq!(h.get(AgeBand(0), HeterodoxyBin(2)), None);
    assert_eq!(h.get_age_band(AgeBand(0)).unwrap(), &[Count(1), Count(2)]);
    assert!(h.get_age_band(AgeBand(5)).is_none());
    assert_eq!(h.total_in_age_band(AgeBand(1)), Some(7));
    assert_eq!(h.total_in_age_band(AgeBand(2)), None);
}

#[test]
fn total_sums_every_cell() {
    let h = filled(&[&[1, 2, 3], &[4, 5, 6]]);
    assert_eq!(h.total(), 21);
}

#[test]
fn adjust_changes_one_cell() {
    let mut h = filled(&[&[1, 2], &[3, 4]]);
    assert_eq!(h.adjust(AgeBand(1), HeterodoxyBin(1), -4).unwrap(), -4);
    assert_eq!(grid(&h), vec![vec![1, 2], vec![3, 0]]);
    assert_eq!(h.total(), 6);
}

#[test]
fn adjust_out_of_bounds() {
    let mut h = filled(&[&[1, 2]]);
    match h.adjust(AgeBand(1), HeterodoxyBin(0), 1) {
        Err(HistogramError::OutOfBounds { age_band, het_bin }) => {
            assert_eq!(age_band, AgeBand(1));
            assert_eq!(het_bin, HeterodoxyBin(0));
        }
        other => panic!("unexpected {:?}", other),
    }
    assert_eq!(grid(&h), vec![vec![1, 2]]);
}

#[test]
fn adjust_would_go_negative() {
    let mut h = filled(&[&[1, 2]]);
    match h.adjust(AgeBand(0), HeterodoxyBin(1), -3) {
        Err(HistogramError::WouldGoNegative { current, delta, .. }) => {
            assert_eq!(current, 2);
            assert_eq!(delta, -3);
        }
        other => panic!("unexpected {:?}", other),
    }
    assert_eq!(grid(&h), vec![vec![1, 2]]);
}

#[test]
fn take_swap_and_clear() {
    let mut h = filled(&[&[1, 2]]);
    let taken = h.take_counts();
    assert_eq!(taken, counts(&[&[1, 2]]));
    assert_eq!(h.iter().count(), 0);
    h.swap_counts(taken);
    assert_eq!(h.total(), 3);
    h.clear();
    assert_eq!(h.iter().count(), 0);
    assert_eq!(h.total(), 0);
}

#[test]
fn remove_counts_takes_people_out() {
    let mut h = filled(&[&[5, 5], &[2, 8]]);
    h.remove_counts(&counts(&[&[1, 0], &[2, 3]])).unwrap();
    assert_eq!(grid(&h), vec![vec![4, 5], vec![0, 5]]);
    assert_eq!(h.total(), 14);
}

#[test]
fn remove_counts_refuses_too_many_and_changes_nothing() {
    let mut h = filled(&[&[5, 5], &[2, 8]]);
    let result = h.remove_counts(&counts(&[&[1, 0], &[3, 0]]));
    assert!(matches!(
        result,
        Err(HistogramError::WouldGoNegative { current: 2, delta: -3, .. })
    ));
    assert_eq!(grid(&h), vec![vec![5, 5], vec![2, 8]]);
    let result = h.remove_counts(&counts(&[&[0, 0, 1]]));
    assert!(matches!(result, Err(HistogramError::OutOfBounds { .. })));
    assert_eq!(h.total(), 20);
}

#[test]
fn add_births_fills_the_youngest_band() {
    let mut h = filled(&[&[0, 0, 0], &[4, 4, 4], &[2, 2, 2]]);
    h.add_births(&counts(&[&[0, 0, 0], &[1, 0, 2], &[0, 3, 1]]))
        .unwrap();
    assert_eq!(grid(&h), vec![vec![1, 3, 3], vec![4, 4, 4], vec![2, 2, 2]]);
    assert_eq!(h.total(), 25);
}

#[test]
fn add_births_needs_a_youngest_band_wide_enough() {
    let mut h = filled(&[&[0, 0]]);
    let result = h.add_births(&counts(&[&[0, 0, 1]]));
    assert!(matches!(
        result,
        Err(HistogramError::OutOfBounds { age_band: AgeBand(0), het_bin: HeterodoxyBin(2) })
    ));
    assert_eq!(grid(&h), vec![vec![0, 0]]);
    let mut empty = PopulationHistogram::new(1, 0);
    assert!(empty.add_births(&counts(&[&[1, 0]])).is_err());
    assert!(empty.add_births(&counts(&[&[0, 0]])).is_ok());
}

#[test]
fn shift_ages_moves_everyone_up_and_drops_the_oldest() {
    let mut h = filled(&[&[1, 1], &[2, 2], &[3, 3], &[4, 4]]);
    h.shift_ages(1, 2);
    assert_eq!(grid(&h), vec![vec![0, 0], vec![1, 1], vec![2, 2], vec![3, 3]]);
    assert_eq!(h.total(), 12);
    h.shift_ages(2, 2);
    assert_eq!(grid(&h), vec![vec![0, 0], vec![0, 0], vec![0, 0], vec![1, 1]]);
    h.shift_ages(7, 2);
    assert_eq!(grid(&h), vec![vec![0, 0]; 4]);
    assert_eq!(h.total(), 0);
}

#[test]
fn regroup_converts_places_people_by_their_new_bin() {
    let converts = counts(&[&[0, 2, 3], &[0, 0, 4]]);
    let new_bins = vec![HeterodoxyBin(0), HeterodoxyBin(0), HeterodoxyBin(2)];
    let h = PopulationHistogram::regroup_converts(&converts, &new_bins, 2, 3).unwrap();
    assert_eq!(grid(&h), vec![vec![2, 0, 3], vec![0, 0, 4], vec![0, 0, 0]]);
    assert_eq!(h.total(), 9);
}

#[test]
fn regroup_converts_refuses_cells_out_of_shape() {
    let converts = counts(&[&[0, 2]]);
    let bad_bin = vec![HeterodoxyBin(0), HeterodoxyBin(5)];
    assert!(matches!(
        PopulationHistogram::regroup_converts(&converts, &bad_bin, 2, 1),
        Err(HistogramError::OutOfBounds { age_band: AgeBand(0), het_bin: HeterodoxyBin(5) })
    ));
    let good_bin = vec![HeterodoxyBin(0), HeterodoxyBin(1)];
    assert!(PopulationHistogram::regroup_converts(&converts, &good_bin, 2, 0).is_err());
}

#[test]
fn heterodoxy_sums_above_threshold() {
    let h = filled(&[&[1, 2, 3], &[4, 5, 6]]);
    // bins 1 and 2: weighted 1*2 + 2*3 + 1*5 + 2*6 = 25, people 16, 2 bins
    assert_eq!(h.heterodoxy_sums_above(HeterodoxyBin(1)), Some((25, 16, 2)));
    assert_eq!(h.heterodoxy_sums_above(HeterodoxyBin(0)), Some((25, 21, 2)));
    assert_eq!(h.heterodoxy_sums_above(HeterodoxyBin(3)), Some((0, 0, 2)));
    let single = filled(&[&[7]]);
    assert_eq!(single.heterodoxy_sums_above(HeterodoxyBin(0)), None);
    let none = PopulationHistogram::new(3, 0);
    assert_eq!(none.heterodoxy_sums_above(HeterodoxyBin(0)), None);
}

#[test]
fn iter_bands_pairs_cells_with_their_indices() {
    let h = filled(&[&[1, 2], &[3, 4]]);
    let bands = h.iter_bands();
    assert_eq!(bands[1].0, AgeBand(1));
    assert_eq!(bands[1].1[0], (HeterodoxyBin(0), Count(3)));
    assert_eq!(bands[0].1[1], (HeterodoxyBin(1), Count(2)));
}

#[test]
fn count_at_or_above_counts_the_heterodox_wing() {
    let h = filled(&[&[1, 2, 3], &[4, 5, 6]]);
    assert_eq!(h.count_at_or_above(HeterodoxyBin(0)), 21);
    assert_eq!(h.count_at_or_above(HeterodoxyBin(2)), 9);
    assert_eq!(h.count_at_or_above(HeterodoxyBin(5)), 0);
    let single = filled(&[&[7]]);
    assert_eq!(single.count_at_or_above(HeterodoxyBin(0)), 7);
}

#[test]
fn an_adjustment_is_undone_by_its_opposite() {
    let mut h = filled(&[&[1, 2, 3], &[4, 5, 6]]);
    let before = grid(&h);
    assert_eq!(h.adjust(AgeBand(1), HeterodoxyBin(2), -6).unwrap(), -6);
    assert_eq!(h.get(AgeBand(1), HeterodoxyBin(2)), Some(&Count(0)));
    assert_eq!(h.adjust(AgeBand(1), HeterodoxyBin(2), 6).unwrap(), 6);
    assert_eq!(grid(&h), before);
}

#[test]
fn checked_total_counts_or_says_it_cannot() {
    let h = filled(&[&[1, 2], &[3, 4]]);
    assert_eq!(h.checked_total(), Some(10));
    let huge = filled(&[&[u64::MAX], &[1]]);
    assert_eq!(huge.checked_total(), None);
    assert_eq!(PopulationHistogram::new(2, 0).checked_total(), Some(0));
}

#[test]
fn tally_puts_one_person_in_each_named_cell() {
    let cells = vec![
        (AgeBand(0), HeterodoxyBin(1)),
        (AgeBand(2), HeterodoxyBin(0)),
        (AgeBand(0), HeterodoxyBin(1)),
    ];
    let h = PopulationHistogram::tally(1, 3, &cells).unwrap();
    assert_eq!(grid(&h), vec![vec![0, 2], vec![0, 0], vec![1, 0]]);
    assert_eq!(h.total(), 3);
    let empty = PopulationHistogram::tally(1, 2, &vec![]).unwrap();
    assert_eq!(grid(&empty), vec![vec![0, 0], vec![0, 0]]);
}

#[test]
fn tally_refuses_a_cell_outside_the_shape() {
    let cells = vec![(AgeBand(0), HeterodoxyBin(0)), (AgeBand(0), HeterodoxyBin(2))];
    match PopulationHistogram::tally(1, 3, &cells) {
        Err(HistogramError::OutOfBounds { age_band, het_bin }) => {
            assert_eq!((age_band, het_bin), (AgeBand(0), HeterodoxyBin(2)));
        }
        other => panic!("unexpected {:?}", other.map(|h| grid(&h))),
    }
    assert!(PopulationHistogram::tally(1, 3, &vec![(AgeBand(3), HeterodoxyBin(0))]).is_err());
}

#[test]
fn get_mut_changes_one_cell_in_place() {
    let mut h = filled(&[&[1, 2], &[3, 4]]);
    if let Some(c) = h.get_mut(AgeBand(1), HeterodoxyBin(0)) {
        assert_eq!(*c, Count(3));
        c.increment();
    }
    assert_eq!(grid(&h), vec![vec![1, 2], vec![4, 4]]);
    assert!(h.get_mut(AgeBand(2), HeterodoxyBin(0)).is_none());
    assert!(h.get_mut(AgeBand(0), HeterodoxyBin(2)).is_none());
    assert_eq!(grid(&h), vec![vec![1, 2], vec![4, 4]]);
}
