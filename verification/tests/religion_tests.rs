use engine::histogram::{AgeBand, Count, HeterodoxyBin, PopulationHistogram};
use engine::religion::naming::generate_name;
use engine::religion::types;
use engine::religion::Religion;
use engine::simulation::Simulation;
use rand::rngs::SmallRng;
use rand::SeedableRng;

const BASE_NAMES: [&str; 8] = [
    "Gurneyism",
    "Aurelianism",
    "Solarity",
    "The Way of Tides",
    "Emberfaith",
    "Veydism",
    "The Old Covenant",
    "Starwardism",
];

const MODIFIERS: [&str; 8] = [
    "Reformed",
    "Orthodox",
    "Radical",
    "Neo",
    "Primitive",
    "Free",
    "Ascendant",
    "Restored",
];

fn seeded_rng(seed: u64) -> SmallRng {
    SmallRng::seed_from_u64(seed)
}

fn histogram_with(cells: &[(usize, usize, i64)]) -> PopulationHistogram {
    let mut h = PopulationHistogram::new(3, 4);
    for &(age, bin, n) in cells {
        h.adjust(AgeBand(age), HeterodoxyBin(bin), n).unwrap();
    }
    h
}

fn some_key() -> engine::religion::ReligionKey {
    let mut r = seeded_rng(3);
    let (_, key) = Simulation::new(3, PopulationHistogram::new(1, 1), &mut r);
    key
}

#[test]
fn root_names_come_from_the_base_list() {
    let mut r = seeded_rng(11);
    for _ in 0..20 {
        let name = generate_name(None, &mut r);
        assert!(BASE_NAMES.contains(&name.as_str()), "{}", name);
    }
}

#[test]
fn sect_names_put_a_modifier_before_the_parent() {
    let mut r = seeded_rng(12);
    for _ in 0..20 {
        let name = generate_name(Some("Solarity"), &mut r);
        let (modifier, rest) = name.split_once(' ').unwrap();
        assert!(MODIFIERS.contains(&modifier), "{}", name);
        assert_eq!(rest, "Solarity");
    }
}

#[test]
fn root_religion_is_active_with_its_adherents() {
    let mut r = seeded_rng(1);
    let religion = Religion::new(None, 7, &mut r, histogram_with(&[(0, 0, 4), (2, 3, 6)]));
    assert!(BASE_NAMES.contains(&religion.name()));
    assert_eq!(religion.founding_date(), 7);
    assert_eq!(religion.parent(), None);
    assert!(!religion.is_extinct());
    assert_eq!(religion.extinction_date(), None);
    assert_eq!(religion.total_population(), 10);
}

#[test]
fn sect_records_its_parent() {
    let mut r = seeded_rng(2);
    let key = some_key();
    let sect = Religion::new(Some(("Emberfaith", key)), 30, &mut r, PopulationHistogram::new(2, 2));
    assert_eq!(sect.parent(), Some(key));
    assert!(sect.name().ends_with(" Emberfaith"));
    assert_eq!(sect.founding_date(), 30);
    assert_eq!(sect.total_population(), 0);
}

#[test]
fn mark_extinct_keeps_identity_and_drops_adherents() {
    let mut r = seeded_rng(4);
    let mut religion = Religion::new(None, 10, &mut r, histogram_with(&[(1, 1, 9)]));
    let name = religion.name().to_owned();
    religion.mark_extinct(55);
    assert!(religion.is_extinct());
    assert_eq!(religion.name(), name);
    assert_eq!(religion.founding_date(), 10);
    assert_eq!(religion.extinction_date(), Some(55));
    assert_eq!(religion.total_population(), 0);
    // a second marking changes nothing
    religion.mark_extinct(99);
    assert_eq!(religion.extinction_date(), Some(55));
}

#[test]
fn age_runs_to_now_or_to_extinction() {
    let mut r = seeded_rng(5);
    let mut religion = Religion::new(None, 20, &mut r, PopulationHistogram::new(1, 1));
    assert_eq!(religion.age(50), 30);
    assert_eq!(religion.age(10), 0);
    religion.mark_extinct(35);
    assert_eq!(religion.age(100), 15);
    assert_eq!(religion.age(4000), 15);
}

#[test]
fn tree_religion_names_follow_their_parent() {
    let key = some_key();
    let root = types::Religion::new(None);
    assert_eq!(root.name, "Gurneyism");
    assert_eq!(root.age, 0);
    assert_eq!(root.status, types::ReligionStatus::Active);
    assert_eq!(root.parent, None);
    let child = types::Religion::new(Some((&root, key)));
    assert_eq!(child.name, "Gurneyismism");
    assert_eq!(child.parent, Some(key));
    assert!(!child.is_extinct());
}

#[test]
fn tree_religion_can_be_marked_extinct() {
    let mut root = types::Religion::new(None);
    root.mark_extinct();
    assert!(root.is_extinct());
    assert_eq!(root.status, types::ReligionStatus::Extinct);
    assert_eq!(root.name, "Gurneyism");
}

#[test]
fn histogram_total_feeds_population() {
    let h = histogram_with(&[(0, 0, 1), (3, 2, 2)]);
    assert_eq!(h.get(AgeBand(3), HeterodoxyBin(2)), Some(&Count(2)));
    let mut r = seeded_rng(6);
    let religion = Religion::new(None, 0, &mut r, h);
    assert_eq!(religion.total_population(), 3);
}
