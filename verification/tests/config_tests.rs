use engine::adherent::{aged_by_generation, past_age_cap, AdherentStatus};
use engine::api::{ApiErrorBody, SimulationRunStatus};
use engine::config::{check_sorted_nonempty, lookup, validate_age_bands, AgeBand, ConfigError, WorldConfig};
use engine::environment::{Environment, EnvironmentConfig};
use engine::output::{default_key, upload_destination};
use engine::probability::ProbabilityError;

fn bands(spec: &[(u8, f64)]) -> Vec<AgeBand<f64>> {
    spec.iter().map(|&(max_age, rate)| AgeBand { max_age, rate }).collect()
}

fn birth() -> Vec<AgeBand<f64>> {
    bands(&[(17, 0.0), (35, 0.4), (255, 0.0)])
}

fn mortality() -> Vec<AgeBand<f64>> {
    bands(&[(4, 0.02), (59, 0.01), (89, 0.1)])
}

#[test]
fn default_world_config() {
    let c = WorldConfig::default();
    assert_eq!(c.environment, Environment::Plains);
    assert_eq!(c.num_generations, 150);
    assert_eq!(c.starting_population, 500);
    assert_eq!(c.seed, Some(67));
    assert_eq!(c.cohort_scale_threshold, 1_000_000);
    assert_eq!(c.cohort_heterodoxy_bins, 100);
}

#[test]
fn environments_order_their_capacity() {
    assert_eq!(Environment::Desert.config().carrying_capacity, 100_000);
    assert_eq!(Environment::Jungle.config().carrying_capacity, 1_000_000);
    assert_eq!(Environment::Plains.config().carrying_capacity, 5_000_000);
    assert_eq!(Environment::default(), Environment::Plains);
    assert_eq!(EnvironmentConfig::default().carrying_capacity, 5_000_000);
}

#[test]
fn valid_bands_pass() {
    assert_eq!(validate_age_bands(&birth(), &mortality(), 90), Ok(()));
    // the mortality bands may run past the cap
    assert_eq!(validate_age_bands(&birth(), &bands(&[(200, 0.5)]), 90), Ok(()));
}

#[test]
fn empty_bands_are_refused() {
    assert_eq!(
        validate_age_bands(&bands(&[]), &mortality(), 90),
        Err(ConfigError::EmptyBands { field: "adherent.birth".to_owned() })
    );
    assert_eq!(
        validate_age_bands(&birth(), &bands(&[]), 90),
        Err(ConfigError::EmptyBands { field: "adherent.mortality".to_owned() })
    );
}

#[test]
fn unsorted_bands_are_refused() {
    assert_eq!(
        validate_age_bands(&bands(&[(35, 0.1), (17, 0.2), (255, 0.0)]), &mortality(), 90),
        Err(ConfigError::UnsortedBands { field: "adherent.birth".to_owned() })
    );
    assert_eq!(
        validate_age_bands(&birth(), &bands(&[(4, 0.1), (4, 0.2), (89, 0.1)]), 90),
        Err(ConfigError::UnsortedBands { field: "adherent.mortality".to_owned() })
    );
}

#[test]
fn birth_bands_need_a_catch_all() {
    assert_eq!(
        validate_age_bands(&bands(&[(17, 0.0), (35, 0.4)]), &mortality(), 90),
        Err(ConfigError::MissingCatchAll { field: "adherent.birth".to_owned() })
    );
}

#[test]
fn mortality_bands_must_reach_the_cap() {
    assert_eq!(
        validate_age_bands(&birth(), &bands(&[(4, 0.02), (80, 0.1)]), 90),
        Err(ConfigError::MortalityCapGap { cap: 90, last_covered: 80 })
    );
    assert_eq!(validate_age_bands(&birth(), &bands(&[(88, 0.1)]), 90), Err(ConfigError::MortalityCapGap {
        cap: 90,
        last_covered: 88
    }));
}

#[test]
fn birth_errors_come_before_mortality_errors() {
    assert_eq!(
        validate_age_bands(&bands(&[]), &bands(&[]), 90),
        Err(ConfigError::EmptyBands { field: "adherent.birth".to_owned() })
    );
}

#[test]
fn sorted_nonempty_check_names_the_field() {
    assert_eq!(check_sorted_nonempty("x", &birth()), Ok(()));
    assert_eq!(
        check_sorted_nonempty("x", &bands(&[])),
        Err(ConfigError::EmptyBands { field: "x".to_owned() })
    );
    assert_eq!(
        check_sorted_nonempty("y", &bands(&[(3, 0.0), (2, 0.0)])),
        Err(ConfigError::UnsortedBands { field: "y".to_owned() })
    );
}

#[test]
fn lookup_takes_the_first_covering_band() {
    let b = birth();
    assert_eq!(lookup(&b, 0), Some(0.0));
    assert_eq!(lookup(&b, 17), Some(0.0));
    assert_eq!(lookup(&b, 18), Some(0.4));
    assert_eq!(lookup(&b, 200), Some(0.0));
    let m = mortality();
    assert_eq!(lookup(&m, 60), Some(0.1));
    assert_eq!(lookup(&m, 90), None);
}

#[test]
fn run_status_goes_through_a_run() {
    let mut status = SimulationRunStatus::default();
    assert!(matches!(status, SimulationRunStatus::Idle));
    assert!(!status.is_running());
    status.try_start(10).unwrap();
    assert!(status.is_running());
    assert!(matches!(status, SimulationRunStatus::Running { generation: 0, total_generations: 10 }));
    status.progress(4, 10);
    assert!(matches!(status, SimulationRunStatus::Running { generation: 4, total_generations: 10 }));
    status.complete(10);
    assert!(matches!(status, SimulationRunStatus::Complete { generation: 10, total_generations: 10 }));
    assert!(!status.is_running());
    // a finished run can be followed by another
    status.try_start(3).unwrap();
    assert!(matches!(status, SimulationRunStatus::Running { generation: 0, total_generations: 3 }));
}

#[test]
fn a_second_run_is_refused_while_one_runs() {
    let mut status = SimulationRunStatus::default();
    status.try_start(10).unwrap();
    status.progress(2, 10);
    let ApiErrorBody { error } = status.try_start(5).unwrap_err();
    assert_eq!(error, "a simulation is already running");
    assert!(matches!(status, SimulationRunStatus::Running { generation: 2, total_generations: 10 }));
}

#[test]
fn a_failed_run_records_why() {
    let mut status = SimulationRunStatus::default();
    status.try_start(10).unwrap();
    status.fail("population collapsed".to_owned());
    match &status {
        SimulationRunStatus::Failed { error } => assert_eq!(error, "population collapsed"),
        other => panic!("unexpected {:?}", other),
    }
    assert!(!status.is_running());
    status.try_start(1).unwrap();
}

#[test]
fn adherent_helpers() {
    assert!(past_age_cap(90, 90));
    assert!(past_age_cap(95, 90));
    assert!(!past_age_cap(89, 90));
    assert_eq!(aged_by_generation(20, 25), 45);
    assert_eq!(aged_by_generation(250, 25), 255);
    assert!(AdherentStatus::Dead < AdherentStatus::Alive);
    let e = ProbabilityError("bad".to_owned());
    assert_eq!(e.0, "bad");
}

#[test]
fn readout_keys_carry_the_upload_time() {
    assert_eq!(default_key(0), "schism/readout-0.json");
    assert_eq!(default_key(7), "schism/readout-7.json");
    assert_eq!(default_key(1_700_000_000), "schism/readout-1700000000.json");
    assert_eq!(default_key(u64::MAX), "schism/readout-18446744073709551615.json");
}

#[test]
fn uploads_go_to_the_configured_bucket() {
    assert_eq!(upload_destination(None, Some("k".to_owned()), 5), None);
    assert_eq!(upload_destination(Some(String::new()), None, 5), None);
    assert_eq!(
        upload_destination(Some("b".to_owned()), Some("my/key.json".to_owned()), 5),
        Some(("b".to_owned(), "my/key.json".to_owned()))
    );
    assert_eq!(
        upload_destination(Some("b".to_owned()), None, 42),
        Some(("b".to_owned(), "schism/readout-42.json".to_owned()))
    );
}

#[test]
fn validated_bands_cover_every_lookup() {
    let (b, m) = (birth(), mortality());
    assert_eq!(validate_age_bands(&b, &m, 90), Ok(()));
    for age in 0..=u8::MAX {
        assert!(lookup(&b, age).is_some(), "birth age {age}");
    }
    for age in 0..90u8 {
        assert!(lookup(&m, age).is_some(), "mortality age {age}");
    }
}

#[test]
fn default_bands_pass_the_band_check() {
    use_default_bands();
}

fn use_default_bands() {
    let (birth_ages, mortality_ages) = engine::config::default_band_ages();
    assert_eq!(birth_ages, vec![14, 29, 44, 59, 255]);
    assert_eq!(mortality_ages, vec![49, 69, 79, 99]);
    let birth: Vec<AgeBand<f64>> = birth_ages.iter().map(|&max_age| AgeBand { max_age, rate: 0.1 }).collect();
    let mortality: Vec<AgeBand<f64>> =
        mortality_ages.iter().map(|&max_age| AgeBand { max_age, rate: 0.1 }).collect();
    assert_eq!(validate_age_bands(&birth, &mortality, engine::config::DEFAULT_MAX_AGE_YRS), Ok(()));
}
