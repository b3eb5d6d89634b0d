use engine::histogram::{AgeBand, Count, HeterodoxyBin, HistogramError, PopulationHistogram};
use engine::religion::{Religion, ReligionKey};
use engine::simulation::readout::{
    count_active_rows, sort_rows, ReligionReadout, ReligionReadoutSource, ReligionStatus,
};
use engine::simulation::religion::SchismPlan;
use engine::simulation::{Simulation, SimulationScale};
use rand::rngs::SmallRng;
use rand::SeedableRng;

fn seeded(seed: u64) -> SmallRng {
    SmallRng::seed_from_u64(seed)
}

/// 3 age bands, 2 heterodoxy bins (3 cells per band).
fn root_histogram() -> PopulationHistogram {
    let mut h = PopulationHistogram::new(2, 3);
    h.adjust(AgeBand(0), HeterodoxyBin(0), 5).unwrap();
    h.adjust(AgeBand(1), HeterodoxyBin(1), 7).unwrap();
    h.adjust(AgeBand(2), HeterodoxyBin(2), 3).unwrap();
    h
}

fn grid_of(rows: &[&[u64]]) -> Vec<Vec<Count>> {
    rows.iter()
        .map(|row| row.iter().map(|&v| Count(v)).collect())
        .collect()
}

fn adherents(sim: &Simulation, key: ReligionKey) -> Vec<Vec<u64>> {
    match sim.religion(key).unwrap() {
        Religion::Active { adherents, .. } => adherents
            .iter()
            .map(|row| row.iter().map(|c| c.value()).collect())
            .collect(),
        Religion::Extinct { .. } => panic!("extinct"),
    }
}

fn world() -> (Simulation, ReligionKey, SmallRng) {
    let mut r = seeded(42);
    let (sim, key) = Simulation::new(42, root_histogram(), &mut r);
    (sim, key, r)
}

#[test]
fn new_world_has_one_root_religion() {
    let (sim, key, _) = world();
    assert_eq!(sim.seed(), 42);
    assert_eq!(sim.current_year(), 0);
    assert_eq!(sim.scale(), SimulationScale::Individual);
    assert_eq!(sim.religion_keys(), vec![key]);
    assert!(sim.extinct_religions().is_empty());
    let root = sim.religion(key).unwrap();
    assert_eq!(root.founding_date(), 0);
    assert_eq!(root.parent(), None);
    assert_eq!(sim.total_population(), 15);
}

#[test]
fn advance_year_moves_the_clock_by_a_generation() {
    let (mut sim, _, _) = world();
    assert_eq!(sim.advance_year(25), 25);
    assert_eq!(sim.advance_year(25), 50);
    assert_eq!(sim.current_year(), 50);
}

#[test]
fn a_tick_opens_with_scale_clock_and_population() {
    let (mut sim, key, _) = world();
    assert_eq!(sim.begin_tick(100, 20), (20, 15));
    assert_eq!(sim.scale(), SimulationScale::Individual);
    assert_eq!(sim.begin_tick(10, 20), (40, 15));
    assert_eq!(sim.scale(), SimulationScale::Cohort);
    assert_eq!(sim.current_year(), 40);
    assert_eq!(sim.religion_keys(), vec![key]);
}

#[test]
fn scale_switches_to_cohort_only_past_the_threshold() {
    let (mut sim, _, _) = world();
    sim.update_scale(15);
    assert_eq!(sim.scale(), SimulationScale::Individual);
    sim.update_scale(14);
    assert_eq!(sim.scale(), SimulationScale::Cohort);
    // cohort scale never goes back
    sim.update_scale(1000);
    assert_eq!(sim.scale(), SimulationScale::Cohort);
}

#[test]
fn remove_dead_takes_people_out() {
    let (mut sim, key, _) = world();
    sim.remove_dead(key, &grid_of(&[&[2, 0, 0], &[0, 7, 0]])).unwrap();
    assert_eq!(adherents(&sim, key), vec![vec![3, 0, 0], vec![0, 0, 0], vec![0, 0, 3]]);
    assert_eq!(sim.total_population(), 6);
}

#[test]
fn remove_dead_refuses_more_deaths_than_people() {
    let (mut sim, key, _) = world();
    let before = adherents(&sim, key);
    let err = sim.remove_dead(key, &grid_of(&[&[1, 0, 0], &[0, 8, 0]])).unwrap_err();
    assert!(matches!(err, HistogramError::WouldGoNegative { .. }), "{:?}", err);
    assert_eq!(adherents(&sim, key), before);
    let err = sim.remove_dead(key, &grid_of(&[&[0, 0, 0, 1]])).unwrap_err();
    assert!(matches!(err, HistogramError::OutOfBounds { .. }), "{:?}", err);
    assert_eq!(sim.total_population(), 15);
}

#[test]
fn increment_age_shifts_every_religion() {
    let (mut sim, key, _) = world();
    // 90 years over 3 bands: 30 years a band, a 30-year generation is one band
    sim.increment_age(90, 3, 30, 2);
    assert_eq!(adherents(&sim, key), vec![vec![0, 0, 0], vec![5, 0, 0], vec![0, 7, 0]]);
    assert_eq!(sim.total_population(), 12);
    // a generation shorter than a band ages nobody
    sim.increment_age(90, 3, 29, 2);
    assert_eq!(sim.total_population(), 12);
    // a generation longer than every band empties the religion
    sim.increment_age(90, 3, 120, 2);
    assert_eq!(sim.total_population(), 0);
}

#[test]
fn births_join_the_youngest_band_of_a_religion() {
    let (mut sim, key, _) = world();
    // one child of a youngest-band adherent, three of the middle band's
    sim.add_births(key, &grid_of(&[&[1, 0, 0], &[0, 3, 0]])).unwrap();
    assert_eq!(adherents(&sim, key), vec![vec![6, 3, 0], vec![0, 7, 0], vec![0, 0, 3]]);
    assert_eq!(sim.total_population(), 19);
}

#[test]
fn add_births_refuses_a_bin_that_does_not_exist() {
    // an older band wider than the youngest: its parents' bin has no newborn cell
    let mut h = PopulationHistogram::new(0, 2);
    h.swap_counts(grid_of(&[&[1], &[0, 0, 2]]));
    let mut r = seeded(5);
    let (mut sim, key) = Simulation::new(5, h, &mut r);
    let err = sim.add_births(key, &grid_of(&[&[0], &[0, 0, 2]])).unwrap_err();
    assert!(matches!(err, HistogramError::OutOfBounds { .. }), "{:?}", err);
    assert_eq!(sim.total_population(), 3);
}

#[test]
fn dead_religions_move_to_the_extinct_list() {
    let (mut sim, key, mut r) = world();
    let sect = sim
        .schism(key, &grid_of(&[&[1, 0, 0]]), &vec![HeterodoxyBin(0), HeterodoxyBin(1), HeterodoxyBin(2)], 2, 3, &mut r)
        .unwrap()
        .unwrap();
    sim.remove_dead(sect, &grid_of(&[&[1, 0, 0]])).unwrap();
    sim.advance_year(10);
    sim.mark_extinct_religions(10);
    assert_eq!(sim.religion_keys(), vec![key]);
    let extinct = sim.extinct_religions();
    assert_eq!(extinct.len(), 1);
    assert_eq!(extinct[0].0, sect);
    assert!(extinct[0].1.is_extinct());
    assert_eq!(extinct[0].1.extinction_date(), Some(10));
    assert_eq!(sim.total_population(), 14);
}

#[test]
fn schism_moves_converts_into_a_new_sect() {
    let (mut sim, key, mut r) = world();
    sim.advance_year(40);
    let parent_name = sim.religion(key).unwrap().name().to_owned();
    let new_bins = vec![HeterodoxyBin(0), HeterodoxyBin(0), HeterodoxyBin(1)];
    let sect = sim
        .schism(key, &grid_of(&[&[0, 0, 0], &[0, 4, 0], &[0, 0, 3]]), &new_bins, 2, 3, &mut r)
        .unwrap()
        .unwrap();
    assert_eq!(adherents(&sim, key), vec![vec![5, 0, 0], vec![0, 3, 0], vec![0, 0, 0]]);
    assert_eq!(adherents(&sim, sect), vec![vec![0, 0, 0], vec![4, 0, 0], vec![0, 3, 0]]);
    let religion = sim.religion(sect).unwrap();
    assert_eq!(religion.parent(), Some(key));
    assert_eq!(religion.founding_date(), 40);
    assert!(religion.name().ends_with(&format!(" {}", parent_name)));
    assert_eq!(sim.total_population(), 15);
    assert_eq!(sim.religion_keys().len(), 2);
}

#[test]
fn schism_without_converts_founds_nothing() {
    let (mut sim, key, mut r) = world();
    let result = sim.schism(key, &grid_of(&[&[0, 0, 0]]), &vec![], 2, 3, &mut r).unwrap();
    assert_eq!(result, None);
    assert_eq!(sim.religion_keys(), vec![key]);
}

#[test]
fn schism_refuses_converts_the_parent_lacks() {
    let (mut sim, key, mut r) = world();
    let bins = vec![HeterodoxyBin(0), HeterodoxyBin(0), HeterodoxyBin(0)];
    let err = sim.schism(key, &grid_of(&[&[6, 0, 0]]), &bins, 2, 3, &mut r).unwrap_err();
    assert!(matches!(err, HistogramError::WouldGoNegative { .. }), "{:?}", err);
    let err = sim
        .schism(key, &grid_of(&[&[5, 0, 0]]), &vec![HeterodoxyBin(7)], 2, 3, &mut r)
        .unwrap_err();
    assert!(matches!(err, HistogramError::OutOfBounds { .. }), "{:?}", err);
    assert_eq!(sim.religion_keys(), vec![key]);
    assert_eq!(sim.total_population(), 15);
}

#[test]
fn readout_lists_every_religion_newest_first() {
    let (mut sim, key, mut r) = world();
    sim.advance_year(20);
    let bins = vec![HeterodoxyBin(0), HeterodoxyBin(1), HeterodoxyBin(2)];
    let sect = sim.schism(key, &grid_of(&[&[2, 0, 0]]), &bins, 2, 3, &mut r).unwrap().unwrap();
    sim.advance_year(20);
    let rows = sim.build_religion_rows();
    assert_eq!(rows.len(), 2);
    let root_name = sim.religion(key).unwrap().name().to_owned();
    let sect_name = sim.religion(sect).unwrap().name().to_owned();
    assert_eq!(rows[0].name, sect_name);
    assert_eq!(rows[0].adherents, 2);
    assert_eq!(rows[0].founding_date, 20);
    assert_eq!(rows[0].age, 20);
    assert_eq!(rows[0].parent, Some(root_name.clone()));
    assert_eq!(rows[1].name, root_name);
    assert_eq!(rows[1].adherents, 13);
    assert_eq!(rows[1].age, 40);
    assert_eq!(rows[1].parent, None);
    assert_eq!(count_active_rows(&rows), 2);
}

#[test]
fn parent_names_are_found_among_the_dead_too() {
    let (mut sim, key, mut r) = world();
    let bins = vec![HeterodoxyBin(0), HeterodoxyBin(1), HeterodoxyBin(2)];
    let sect = sim.schism(key, &grid_of(&[&[5, 0, 0]]), &bins, 2, 3, &mut r).unwrap().unwrap();
    let root_name = sim.religion(key).unwrap().name().to_owned();
    sim.remove_dead(key, &grid_of(&[&[0, 0, 0], &[0, 7, 0], &[0, 0, 3]])).unwrap();
    sim.mark_extinct_religions(5);
    assert_eq!(sim.religion_keys(), vec![sect]);
    assert_eq!(sim.lookup_parent_name(key), Some(root_name.clone()));
    let rows = sim.build_religion_rows();
    assert_eq!(count_active_rows(&rows), 1);
    let dead = rows.iter().find(|row| row.status == ReligionStatus::Extinct).unwrap();
    assert_eq!(dead.name, root_name);
    assert_eq!(dead.extinction_date, Some(5));
    assert_eq!(dead.adherents, 0);
    let alive = rows.iter().find(|row| row.status == ReligionStatus::Active).unwrap();
    assert_eq!(alive.parent, Some(root_name));
}

#[test]
fn readout_line_from_a_religion() {
    let mut r = seeded(9);
    let key = world().1;
    let mut religion = Religion::new(Some(("Veydism", key)), 10, &mut r, root_histogram());
    let row = ReligionReadout::from(ReligionReadoutSource {
        religion: &religion,
        current_year: 35,
        parent_name: Some("Veydism".to_owned()),
    });
    assert_eq!(row.adherents, 15);
    assert_eq!(row.status, ReligionStatus::Active);
    assert_eq!(row.age, 25);
    assert_eq!(row.extinction_date, None);
    assert_eq!(row.parent, Some("Veydism".to_owned()));
    religion.mark_extinct(30);
    let row = ReligionReadout::from(ReligionReadoutSource {
        religion: &religion,
        current_year: 35,
        parent_name: None,
    });
    assert_eq!(row.adherents, 0);
    assert_eq!(row.status, ReligionStatus::Extinct);
    assert_eq!(row.age, 20);
    assert_eq!(row.extinction_date, Some(30));
}

fn row(name: &str, founding_date: u32, adherents: u64, status: ReligionStatus) -> ReligionReadout {
    ReligionReadout {
        name: name.to_owned(),
        adherents,
        status,
        founding_date,
        extinction_date: None,
        age: 0,
        parent: None,
    }
}

#[test]
fn rows_sort_newest_then_largest_and_keep_ties() {
    let rows = vec![
        row("a", 10, 5, ReligionStatus::Active),
        row("b", 30, 1, ReligionStatus::Extinct),
        row("c", 10, 9, ReligionStatus::Active),
        row("d", 30, 1, ReligionStatus::Active),
        row("e", 0, 100, ReligionStatus::Active),
    ];
    let sorted = sort_rows(rows);
    let names: Vec<&str> = sorted.iter().map(|r| r.name.as_str()).collect();
    assert_eq!(names, vec!["b", "d", "c", "a", "e"]);
    assert_eq!(count_active_rows(&sorted), 4);
    assert_eq!(count_active_rows(&vec![]), 0);
}

#[test]
fn the_starting_population_fills_the_root_religion() {
    let mut r = seeded(8);
    let cells = vec![
        (AgeBand(1), HeterodoxyBin(0)),
        (AgeBand(1), HeterodoxyBin(0)),
        (AgeBand(2), HeterodoxyBin(2)),
    ];
    let (sim, root) = Simulation::with_starting_population(8, 2, 3, &cells, &mut r).unwrap();
    assert_eq!(sim.total_population(), 3);
    assert_eq!(adherents(&sim, root), vec![vec![0, 0, 0], vec![2, 0, 0], vec![0, 0, 1]]);
    assert_eq!(sim.current_year(), 0);
    assert_eq!(sim.religion(root).unwrap().parent(), None);
    let bad = vec![(AgeBand(3), HeterodoxyBin(0))];
    let err = Simulation::with_starting_population(8, 2, 3, &bad, &mut r).err().unwrap();
    assert!(matches!(err, HistogramError::OutOfBounds { .. }), "{:?}", err);
}

#[test]
fn checked_population_of_the_world() {
    let (sim, _, _) = world();
    assert_eq!(sim.checked_total_population(), Some(15));
    let mut h = PopulationHistogram::new(0, 1);
    h.swap_counts(grid_of(&[&[u64::MAX]]));
    let mut r = seeded(3);
    let (mut big, root) = Simulation::new(3, h, &mut r);
    assert_eq!(big.checked_total_population(), Some(u64::MAX));
    let bins = vec![HeterodoxyBin(0)];
    big.schism(root, &grid_of(&[&[1]]), &bins, 0, 1, &mut r).unwrap().unwrap();
    assert_eq!(big.checked_total_population(), Some(u64::MAX));
}

#[test]
fn readout_totals_match_the_lines() {
    let (mut sim, key, mut r) = world();
    let bins = vec![HeterodoxyBin(0), HeterodoxyBin(1), HeterodoxyBin(2)];
    let sect = sim.schism(key, &grid_of(&[&[5, 0, 0]]), &bins, 2, 3, &mut r).unwrap().unwrap();
    sim.remove_dead(sect, &grid_of(&[&[5, 0, 0]])).unwrap();
    sim.mark_extinct_religions(0);
    let (rows, counts) = sim.build_readout();
    assert_eq!(rows.len(), 2);
    assert_eq!(counts.religions, 2);
    assert_eq!(counts.active, 1);
    assert_eq!(counts.extinct, 1);
    assert_eq!(counts.population, 10);
    assert_eq!(rows.iter().map(|row| row.adherents).sum::<u64>(), 10);
}

#[test]
fn a_whole_tick_keeps_its_laws() {
    let (mut sim, key, mut r) = world();
    let (year, population) = sim.begin_tick(10, 30);
    assert_eq!((year, population), (30, 15));
    assert_eq!(sim.scale(), SimulationScale::Cohort);
    sim.remove_dead(key, &grid_of(&[&[1, 0, 0]])).unwrap();
    sim.increment_age(90, 3, 30, 2);
    sim.add_births(key, &grid_of(&[&[0, 0, 0], &[4, 0, 0]])).unwrap();
    let bins = vec![HeterodoxyBin(0), HeterodoxyBin(0), HeterodoxyBin(0)];
    let sect = sim.schism(key, &grid_of(&[&[4, 0, 0]]), &bins, 2, 3, &mut r).unwrap().unwrap();
    sim.remove_dead(sect, &grid_of(&[&[4, 0, 0]])).unwrap();
    sim.mark_extinct_religions(year);
    assert_eq!(sim.current_year(), 30);
    assert_eq!(sim.scale(), SimulationScale::Cohort);
    let extinct = sim.extinct_religions();
    assert_eq!(extinct.len(), 1);
    assert_eq!(extinct[0].0, sect);
    assert_eq!(extinct[0].1.extinction_date(), Some(30));
    // the root religion lived through the schism under its own name
    let root = sim.religion(key).unwrap();
    assert_eq!(root.founding_date(), 0);
    assert_eq!(root.parent(), None);
}

#[test]
fn emptied_religions_die_out_in_slot_order() {
    let (mut sim, key, mut r) = world();
    let bins = vec![HeterodoxyBin(0), HeterodoxyBin(1), HeterodoxyBin(2)];
    let first = sim.schism(key, &grid_of(&[&[1, 0, 0]]), &bins, 2, 3, &mut r).unwrap().unwrap();
    let second = sim.schism(key, &grid_of(&[&[1, 0, 0]]), &bins, 2, 3, &mut r).unwrap().unwrap();
    sim.remove_dead(second, &grid_of(&[&[1, 0, 0]])).unwrap();
    sim.remove_dead(first, &grid_of(&[&[1, 0, 0]])).unwrap();
    let order: Vec<ReligionKey> = sim
        .religion_keys()
        .into_iter()
        .filter(|k| sim.religion(*k).unwrap().total_population() == 0)
        .collect();
    assert_eq!(order.len(), 2);
    let religions_before = sim.religion_keys().len() + sim.extinct_religions().len();
    sim.mark_extinct_religions(9);
    let dead: Vec<ReligionKey> = sim.extinct_religions().iter().map(|(k, _)| *k).collect();
    assert_eq!(dead, order);
    assert_eq!(sim.religion_keys().len() + sim.extinct_religions().len(), religions_before);
    assert_eq!(sim.total_population(), 13);
}

#[test]
fn readout_totals_count_the_living_and_their_people() {
    let (mut sim, key, mut r) = world();
    let bins = vec![HeterodoxyBin(0), HeterodoxyBin(1), HeterodoxyBin(2)];
    sim.schism(key, &grid_of(&[&[2, 0, 0]]), &bins, 2, 3, &mut r).unwrap().unwrap();
    let (rows, counts) = sim.build_readout();
    assert_eq!(counts.active, sim.religion_keys().len());
    assert_eq!(counts.extinct, sim.extinct_religions().len());
    assert_eq!(counts.population, rows.iter().map(|row| row.adherents).sum::<u64>());
    assert_eq!(counts.population, 15);
}

#[test]
fn a_schism_pass_keeps_every_religion_and_everyone() {
    let (mut sim, key, mut r) = world();
    let bins = vec![HeterodoxyBin(0), HeterodoxyBin(1), HeterodoxyBin(2)];
    let other = sim.schism(key, &grid_of(&[&[2, 0, 0]]), &bins, 2, 3, &mut r).unwrap().unwrap();
    let names: Vec<String> =
        [key, other].iter().map(|k| sim.religion(*k).unwrap().name().to_owned()).collect();
    let plans = vec![
        SchismPlan { parent: key, converts: grid_of(&[&[0, 0, 0], &[0, 3, 0]]), new_bins: bins.clone() },
        SchismPlan { parent: other, converts: grid_of(&[&[0, 0, 0]]), new_bins: vec![] },
    ];
    let outcomes = sim.schism_religions(&plans, 2, 3, &mut r).unwrap();
    assert_eq!(outcomes.len(), 2);
    let sect = outcomes[0].unwrap();
    assert_eq!(outcomes[1], None);
    assert_eq!(sim.total_population(), 15);
    assert_eq!(sim.religion(sect).unwrap().parent(), Some(key));
    assert_eq!(adherents(&sim, sect), vec![vec![0, 0, 0], vec![0, 3, 0], vec![0, 0, 0]]);
    assert_eq!(adherents(&sim, key), vec![vec![3, 0, 0], vec![0, 4, 0], vec![0, 0, 3]]);
    for (k, name) in [key, other].iter().zip(&names) {
        assert_eq!(sim.religion(*k).unwrap().name(), name);
    }
    assert_eq!(sim.religion_keys().len(), 3);
}

#[test]
fn a_schism_pass_stops_at_a_plan_that_does_not_apply() {
    let (mut sim, key, mut r) = world();
    let plans = vec![SchismPlan { parent: key, converts: grid_of(&[&[9, 0, 0]]), new_bins: vec![HeterodoxyBin(0)] }];
    let err = sim.schism_religions(&plans, 2, 3, &mut r).unwrap_err();
    assert!(matches!(err, HistogramError::WouldGoNegative { .. }), "{:?}", err);
    assert_eq!(sim.total_population(), 15);
    assert_eq!(sim.religion_keys(), vec![key]);
}
