use vstd::prelude::*;

use crate::environment::Environment;

verus! {

/// Top-level run settings: where, how long, how big, and the rng seed.
#[derive(Debug, Clone, Copy, PartialEq, Eq, Structural)]
pub struct WorldConfig {
    /// environment the simulation starts in
    pub environment: Environment,
    /// number of generations (ticks) to run
    pub num_generations: u32,
    /// how many adherents the root religion starts with
    pub starting_population: u32,
    /// rng seed; fix it to reproduce or compare runs, leave it out for a fresh one
    pub seed: Option<u64>,
    /// living-adherent count at which the simulation switches from
    /// individual to cohort scale
    pub cohort_scale_threshold: usize,
    /// number of heterodoxy buckets used when collapsing adherents into cohorts
    pub cohort_heterodoxy_bins: usize,
}

impl Default for WorldConfig {
    /// Plains, 150 generations of 500 starting adherents, seed 67.
    fn default() -> (r: Self)
        ensures
            r == (WorldConfig {
                environment: Environment::Plains,
                num_generations: 150,
                starting_population: 500,
                seed: Some(67),
                cohort_scale_threshold: 1_000_000,
                cohort_heterodoxy_bins: 100,
            }),
    {
        WorldConfig {
            environment: Environment::default(),
            num_generations: 150,
            starting_population: 500,
            seed: Some(67),
            cohort_scale_threshold: 1_000_000,
            cohort_heterodoxy_bins: 100,
        }
    }
}

/// An age bracket: `rate` applies to everyone with `age <= max_age`, the
/// first matching band in a list winning.
#[derive(Debug, Clone, Copy)]
pub struct AgeBand<R> {
    pub max_age: u8,
    pub rate: R,
}

/// Everything that can be wrong with a configuration's age bands.
#[derive(Debug, Clone, PartialEq, Eq)]
pub enum ConfigError {
    /// `field` has no age band.
    EmptyBands { field: String },
    /// The bands of `field` are not sorted strictly ascending by `max_age`.
    UnsortedBands { field: String },
    /// The bands of `field` do not end with a `u8::MAX` catch-all.
    MissingCatchAll { field: String },
    /// The mortality bands stop at `last_covered`, short of the age cap `cap`.
    MortalityCapGap { cap: u8, last_covered: u8 },
    /// `field` must be greater than zero.
    MustBePositive { field: String },
}

/// The `max_age` of each band, in order.
pub open spec fn max_ages<R>(bands: Seq<AgeBand<R>>) -> Seq<u8> {
    bands.map_values(|b: AgeBand<R>| b.max_age)
}

/// Ages strictly ascending.
pub open spec fn strictly_ascending(ages: Seq<u8>) -> bool {
    forall|i: int| 0 <= i < ages.len() - 1 ==> #[trigger] ages[i] < ages[i + 1]
}

/// What `check_sorted_nonempty` finds wrong with `ages`, if anything.
pub open spec fn band_shape_error(ages: Seq<u8>) -> Option<int> {
    if ages.len() == 0 {
        Some(0)
    } else if !strictly_ascending(ages) {
        Some(1)
    } else {
        None
    }
}

/// Checks that `bands` is non-empty and sorted strictly ascending by
/// `max_age`, naming `field` in the error otherwise.
pub fn check_sorted_nonempty<R>(field: &str, bands: &Vec<AgeBand<R>>) -> (r: Result<(), ConfigError>)
    ensures
        bands@.len() == 0 ==> (r matches Err(ConfigError::EmptyBands { field: f }) && f@ == field@),
        bands@.len() > 0 && !strictly_ascending(max_ages(bands@)) ==> (r matches Err(
            ConfigError::UnsortedBands { field: f },
        ) && f@ == field@),
        bands@.len() > 0 && strictly_ascending(max_ages(bands@)) ==> r is Ok,
{
    if bands.len() == 0 {
        return Err(ConfigError::EmptyBands { field: field.to_owned() });
    }
    let mut i: usize = 0;
    while i < bands.len() - 1
        invariant
            bands@.len() > 0,
            i + 1 <= bands@.len(),
            forall|k: int| 0 <= k < i ==> #[trigger] max_ages(bands@)[k] < max_ages(bands@)[k + 1],
        decreases bands@.len() - i,
    {
        if !(bands[i].max_age < bands[i + 1].max_age) {
            proof {
                assert(!(max_ages(bands@)[i as int] < max_ages(bands@)[i + 1]));
            }
            return Err(ConfigError::UnsortedBands { field: field.to_owned() });
        }
        i = i + 1;
    }
    Ok(())
}

/// The band-structure rules of a configuration: birth bands non-empty,
/// strictly ascending and ending in a `u8::MAX` catch-all; mortality bands
/// non-empty, strictly ascending and covering every age below `max_age_yrs`.
pub open spec fn bands_valid<R>(birth: Seq<AgeBand<R>>, mortality: Seq<AgeBand<R>>, max_age_yrs: u8) -> bool {
    &&& birth.len() > 0
    &&& strictly_ascending(max_ages(birth))
    &&& birth.last().max_age == u8::MAX
    &&& mortality.len() > 0
    &&& strictly_ascending(max_ages(mortality))
    &&& mortality.last().max_age + 1 >= max_age_yrs
}

/// Checks the age bands of a configuration, in this order: the birth bands
/// (non-empty, sorted, ending in a `u8::MAX` catch-all), then the mortality
/// bands (non-empty, sorted, reaching up to just below `max_age_yrs`, the
/// age at which everyone dies). The first rule broken names the error.
pub fn validate_age_bands<R>(
    birth: &Vec<AgeBand<R>>,
    mortality: &Vec<AgeBand<R>>,
    max_age_yrs: u8,
) -> (r: Result<(), ConfigError>)
    ensures
        r is Ok <==> bands_valid(birth@, mortality@, max_age_yrs),
        birth@.len() == 0 ==> (r matches Err(ConfigError::EmptyBands { field: f }) && f@
            == "adherent.birth"@),
        birth@.len() > 0 && !strictly_ascending(max_ages(birth@)) ==> (r matches Err(
            ConfigError::UnsortedBands { field: f },
        ) && f@ == "adherent.birth"@),
        birth@.len() > 0 && strictly_ascending(max_ages(birth@)) && birth@.last().max_age != u8::MAX
            ==> (r matches Err(ConfigError::MissingCatchAll { field: f }) && f@
            == "adherent.birth"@),
        birth@.len() > 0 && strictly_ascending(max_ages(birth@)) && birth@.last().max_age == u8::MAX
            ==> {
            &&& mortality@.len() == 0 ==> (r matches Err(ConfigError::EmptyBands { field: f }) && f@
                == "adherent.mortality"@)
            &&& mortality@.len() > 0 && !strictly_ascending(max_ages(mortality@)) ==> (r matches Err(
                ConfigError::UnsortedBands { field: f },
            ) && f@ == "adherent.mortality"@)
            &&& mortality@.len() > 0 && strictly_ascending(max_ages(mortality@))
                && mortality@.last().max_age + 1 < max_age_yrs ==> r == Err::<(), ConfigError>(
                ConfigError::MortalityCapGap {
                    cap: max_age_yrs,
                    last_covered: mortality@.last().max_age,
                },
            )
        },
{
    check_sorted_nonempty("adherent.birth", birth)?;
    let last_birth: u8 = birth[birth.len() - 1].max_age;
    if last_birth != u8::MAX {
        return Err(ConfigError::MissingCatchAll { field: "adherent.birth".to_owned() });
    }
    check_sorted_nonempty("adherent.mortality", mortality)?;
    let last_covered: u8 = mortality[mortality.len() - 1].max_age;
    if (last_covered as u16) + 1 < max_age_yrs as u16 {
        return Err(ConfigError::MortalityCapGap { cap: max_age_yrs, last_covered });
    }
    Ok(())
}

/// The age cap of the default configuration: nobody lives to 100.
pub const DEFAULT_MAX_AGE_YRS: u8 = 100;

/// The upper ages of the default birth bands: children, young adults,
/// adults, the middle-aged, and everyone older.
pub open spec fn default_birth_ages() -> Seq<u8> {
    seq![14u8, 29u8, 44u8, 59u8, 255u8]
}

/// The upper ages of the default mortality bands, up to just below the cap.
pub open spec fn default_mortality_ages() -> Seq<u8> {
    seq![49u8, 69u8, 79u8, 99u8]
}

/// The upper ages of the default birth and mortality bands.
pub fn default_band_ages() -> (r: (Vec<u8>, Vec<u8>))
    ensures
        r.0@ == default_birth_ages(),
        r.1@ == default_mortality_ages(),
{
    let birth = vec![14u8, 29u8, 44u8, 59u8, 255u8];
    let mortality = vec![49u8, 69u8, 79u8, 99u8];
    assert(birth@ =~= default_birth_ages());
    assert(mortality@ =~= default_mortality_ages());
    (birth, mortality)
}

/// Bands with the default ages pass the band check under the default age
/// cap, whatever their rates.
pub proof fn lemma_default_bands_valid<R>(birth: Seq<AgeBand<R>>, mortality: Seq<AgeBand<R>>)
    requires
        max_ages(birth) == default_birth_ages(),
        max_ages(mortality) == default_mortality_ages(),
    ensures
        bands_valid(birth, mortality, DEFAULT_MAX_AGE_YRS),
{
    assert(max_ages(birth).len() == birth.len());
    assert(max_ages(mortality).len() == mortality.len());
    assert(default_birth_ages().len() == 5 && default_mortality_ages().len() == 4);
    assert(birth.last().max_age == max_ages(birth)[4]);
    assert(mortality.last().max_age == max_ages(mortality)[3]);
    assert(default_birth_ages()[4] == 255u8 && default_mortality_ages()[3] == 99u8);
}

/// Index of the first band covering `age` (the first with `age <= max_age`), if any.
pub open spec fn first_covering(ages: Seq<u8>, age: u8) -> Option<int>
    decreases ages.len(),
{
    if ages.len() == 0 {
        None
    } else if age <= ages[0] {
        Some(0)
    } else {
        match first_covering(ages.drop_first(), age) {
            Some(i) => Some(i + 1),
            None => None,
        }
    }
}

/// The rate of the first band covering `age`, or `None` when no band does.
pub fn lookup<R: Copy>(bands: &Vec<AgeBand<R>>, age: u8) -> (r: Option<R>)
    ensures
        match first_covering(max_ages(bands@), age) {
            Some(i) => r == Some(bands@[i].rate),
            None => r is None,
        },
{
    let mut i: usize = 0;
    assert(max_ages(bands@).skip(0) =~= max_ages(bands@));
    while i < bands.len()
        invariant
            i <= bands@.len(),
            first_covering(max_ages(bands@), age) == match first_covering(
                max_ages(bands@).skip(i as int),
                age,
            ) {
                Some(j) => Some(j + i),
                None => None,
            },
        decreases bands@.len() - i,
    {
        proof {
            assert(max_ages(bands@).skip(i as int).drop_first() =~= max_ages(bands@).skip(i + 1));
            assert(max_ages(bands@).skip(i as int)[0] == bands@[i as int].max_age);
        }
        if age <= bands[i].max_age {
            return Some(bands[i].rate);
        }
        i = i + 1;
    }
    None
}

/// With valid bands every birth lookup finds a band (the `u8::MAX` catch-all
/// covers everyone past the last real bracket), and so does every mortality
/// lookup below the age cap: the zero fallback of a lookup never fires.
pub proof fn lemma_valid_bands_cover<R>(
    birth: Seq<AgeBand<R>>,
    mortality: Seq<AgeBand<R>>,
    max_age_yrs: u8,
    age: u8,
)
    requires
        bands_valid(birth, mortality, max_age_yrs),
    ensures
        first_covering(max_ages(birth), age) is Some,
        age < max_age_yrs ==> first_covering(max_ages(mortality), age) is Some,
{
    lemma_last_covers(max_ages(birth), age);
    if age < max_age_yrs {
        lemma_last_covers(max_ages(mortality), age);
    }
}

/// A band list whose last band reaches `age` has a first band covering it.
proof fn lemma_last_covers(ages: Seq<u8>, age: u8)
    requires
        ages.len() > 0,
        age <= ages.last(),
    ensures
        first_covering(ages, age) is Some,
    decreases ages.len(),
{
    if age > ages[0] {
        assert(ages.len() > 1);
        assert(ages.drop_first().last() == ages.last());
        lemma_last_covers(ages.drop_first(), age);
    }
}

} // verus!
