use rand::rngs::SmallRng;
use vstd::prelude::*;

use crate::histogram::{
    cell_count, cell_fits, is_rectangular, AgeBand, HeterodoxyBin, HistogramError, PopulationHistogram,
};
use crate::religion::{Religion, ReligionKey};

pub mod adherent;
pub mod readout;
pub mod religion;
pub mod registry;

use registry::{religions_in, ReligionSlots};

verus! {

/// How the simulation represents its people.
#[derive(Debug, Clone, Copy, PartialEq, Eq, Structural)]
pub enum SimulationScale {
    Individual,
    Cohort,
    Aggregate,
}

/// A religion `after` is `before` marked extinct as of `date`: the same
/// name, founding date and parent.
pub open spec fn retired_form(before: Religion, after: Religion, date: u32) -> bool {
    &&& after is Extinct
    &&& after.spec_name() == before.spec_name()
    &&& after.spec_founding_date() == before.spec_founding_date()
    &&& after.spec_parent() == before.spec_parent()
    &&& after.spec_extinction_date() == Some(date)
}

/// Total living adherents over the religions of a map.
pub open spec fn population_of(m: Map<ReligionKey, Religion>) -> int
    decreases m.dom().len(),
    when m.dom().finite()
{
    if m.dom().len() == 0 {
        0
    } else {
        let k = m.dom().choose();
        proof {
            assert(m.dom().contains(k));
        }
        m[k].spec_total_population() + population_of(m.remove(k))
    }
}

/// Living adherents over the religions of `m` listed in `keys`, in order.
pub open spec fn population_over(m: Map<ReligionKey, Religion>, keys: Seq<ReligionKey>) -> int
    decreases keys.len(),
{
    if keys.len() == 0 {
        0
    } else {
        population_over(m, keys.drop_last()) + m[keys.last()].spec_total_population()
    }
}

/// Taking out any one religion leaves the rest of the population.
pub proof fn lemma_population_remove(m: Map<ReligionKey, Religion>, k: ReligionKey)
    requires
        m.dom().finite(),
        m.dom().contains(k),
    ensures
        population_of(m) == m[k].spec_total_population() + population_of(m.remove(k)),
    decreases m.dom().len(),
{
    let c = m.dom().choose();
    assert(m.dom().contains(c));
    if c != k {
        lemma_population_remove(m.remove(c), k);
        lemma_population_remove(m.remove(k), c);
        assert(m.remove(c).remove(k) =~= m.remove(k).remove(c));
        assert(m.remove(c)[k] == m[k]);
        assert(m.remove(k)[c] == m[c]);
    }
}

/// Every religion's population is non-negative, so the total is too.
pub proof fn lemma_population_nonneg(m: Map<ReligionKey, Religion>)
    requires
        m.dom().finite(),
    ensures
        population_of(m) >= 0,
        forall|k: ReligionKey|
            m.dom().contains(k) ==> 0 <= #[trigger] m[k].spec_total_population() <= population_of(m),
    decreases m.dom().len(),
{
    if m.dom().len() > 0 {
        let c = m.dom().choose();
        assert(m.dom().contains(c));
        lemma_population_nonneg(m.remove(c));
        lemma_religion_population_nonneg(m[c]);
        assert forall|k: ReligionKey| m.dom().contains(k) implies 0
            <= #[trigger] m[k].spec_total_population() <= population_of(m) by {
            lemma_religion_population_nonneg(m[k]);
            if k != c {
                assert(m.remove(c).dom().contains(k));
                assert(m.remove(c)[k] == m[k]);
            }
        }
    }
}

/// A religion's population is non-negative.
pub proof fn lemma_religion_population_nonneg(r: Religion)
    ensures
        r.spec_total_population() >= 0,
{
    if let Religion::Active { adherents, .. } = r {
        crate::histogram::lemma_grid_sum_prefix(adherents@, 0, 0, false);
    }
}

/// Summing over a duplicate-free list of exactly the map's keys gives the
/// map's population.
pub proof fn lemma_population_over_keys(m: Map<ReligionKey, Religion>, keys: Seq<ReligionKey>)
    requires
        keys.no_duplicates(),
        forall|k: ReligionKey| m.dom().contains(k) <==> keys.contains(k),
    ensures
        m.dom().finite(),
        population_over(m, keys) == population_of(m),
    decreases keys.len(),
{
    assert(m.dom() =~= keys.to_set());
    keys.lemma_cardinality_of_set();
    if keys.len() == 0 {
        assert(m.dom().len() == 0);
    } else {
        let k = keys.last();
        let rest = keys.drop_last();
        assert(keys.contains(k)) by {
            assert(keys[keys.len() - 1] == k);
        }
        assert forall|j: ReligionKey| m.remove(k).dom().contains(j) <==> rest.contains(j) by {
            if rest.contains(j) {
                let i = choose|i: int| 0 <= i < rest.len() && rest[i] == j;
                assert(keys[i] == j);
                assert(i != keys.len() - 1);
            }
            if m.remove(k).dom().contains(j) {
                assert(keys.contains(j));
                let i = choose|i: int| 0 <= i < keys.len() && keys[i] == j;
                assert(i != keys.len() - 1);
                assert(rest[i] == j);
            }
        }
        lemma_population_over_keys(m.remove(k), rest);
        lemma_population_over_same_values(m, m.remove(k), rest);
        lemma_population_remove(m, k);
    }
}

/// Two maps that agree on the listed keys give the same sum over them.
pub proof fn lemma_population_over_same_values(
    m1: Map<ReligionKey, Religion>,
    m2: Map<ReligionKey, Religion>,
    keys: Seq<ReligionKey>,
)
    requires
        forall|i: int| 0 <= i < keys.len() ==> m1[#[trigger] keys[i]] == m2[keys[i]],
    ensures
        population_over(m1, keys) == population_over(m2, keys),
    decreases keys.len(),
{
    if keys.len() > 0 {
        let rest = keys.drop_last();
        assert forall|i: int| 0 <= i < rest.len() implies m1[#[trigger] rest[i]] == m2[rest[i]] by {
            assert(rest[i] == keys[i]);
        }
        lemma_population_over_same_values(m1, m2, rest);
        assert(m1[keys[keys.len() - 1]] == m2[keys[keys.len() - 1]]);
    }
}

/// The state of a simulated world: its living religions in a slot map, the
/// religions that have died out in the order they did, how people are
/// represented, the seed the run started from, and the world clock.
pub struct Simulation {
    active_religions: ReligionSlots,
    extinct_religions: Vec<(ReligionKey, Religion)>,
    scale: SimulationScale,
    seed: u64,
    current_year: u32,
}

impl Simulation {
    /// The living religions, by key.
    pub closed spec fn active(&self) -> Map<ReligionKey, Religion> {
        religions_in(self.active_religions)
    }

    /// The keys of the living religions in the order the slot map walks them.
    pub closed spec fn key_order(&self) -> Seq<ReligionKey> {
        registry::key_order(self.active_religions)
    }

    /// The religions that have died out, with their keys, oldest death first.
    pub closed spec fn extinct(&self) -> Seq<(ReligionKey, Religion)> {
        self.extinct_religions@
    }

    /// How people are represented.
    pub closed spec fn spec_scale(&self) -> SimulationScale {
        self.scale
    }

    /// The seed the run started from.
    pub closed spec fn spec_seed(&self) -> u64 {
        self.seed
    }

    /// The world clock, in years.
    pub closed spec fn spec_current_year(&self) -> u32 {
        self.current_year
    }

    /// The invariant every simulation keeps: finitely many living religions,
    /// every one of them active, and every dead one extinct.
    pub open spec fn wf(&self) -> bool {
        &&& self.active().dom().finite()
        &&& forall|k: ReligionKey| #[trigger]
            self.active().dom().contains(k) ==> self.active()[k] is Active
        &&& forall|i: int|
            0 <= i < self.extinct().len() ==> (#[trigger] self.extinct()[i]).1 is Extinct
    }

    /// Living adherents over every living religion.
    pub open spec fn spec_total_population(&self) -> int {
        population_of(self.active())
    }

    /// A world in year zero with one root religion holding `root_adherents`,
    /// at individual scale, remembering `seed`. The root religion's name is
    /// drawn with `rng`.
    pub fn new(seed: u64, root_adherents: PopulationHistogram, rng: &mut SmallRng) -> (r: (
        Simulation,
        ReligionKey,
    ))
        ensures
            r.0.wf(),
            r.0.active().dom() == set![r.1],
            r.0.active()[r.1] matches Religion::Active {
                founding_date: f,
                parent: p,
                adherents: a,
                ..
            } && f == 0 && p is None && a == root_adherents,
            crate::religion::naming::base_name_views().contains(r.0.active()[r.1].spec_name()),
            r.0.extinct().len() == 0,
            r.0.spec_scale() == SimulationScale::Individual,
            r.0.spec_seed() == seed,
            r.0.spec_current_year() == 0,
    {
        let mut active_religions = ReligionSlots::with_key();
        let root_religion = Religion::new(None, 0, rng, root_adherents);
        let key = active_religions.insert(root_religion);
        let sim = Simulation {
            active_religions,
            extinct_religions: Vec::new(),
            scale: SimulationScale::Individual,
            seed,
            current_year: 0,
        };
        assert(sim.active().dom() =~= set![key]);
        (sim, key)
    }

    /// A world in year zero whose root religion holds one adherent for every
    /// entry of `cells`, in the (age band, heterodoxy bin) cell it names, in a
    /// histogram of `num_age_bins` bands and `num_heterodoxy_bins + 1` bins.
    /// Fails, naming the cell, when an entry lies outside that shape.
    pub fn with_starting_population(
        seed: u64,
        num_heterodoxy_bins: usize,
        num_age_bins: usize,
        cells: &Vec<(AgeBand, HeterodoxyBin)>,
        rng: &mut SmallRng,
    ) -> (r: Result<(Simulation, ReligionKey), HistogramError>)
        requires
            num_heterodoxy_bins < usize::MAX,
            cells@.len() <= i64::MAX,
        ensures
            r is Ok <==> forall|k: int|
                0 <= k < cells@.len() ==> cell_fits(
                    #[trigger] cells@[k],
                    num_heterodoxy_bins as int,
                    num_age_bins as int,
                ),
            r matches Ok(p) ==> {
                let (sim, root) = p;
                &&& sim.wf()
                &&& sim.active().dom() == set![root]
                &&& sim.active()[root] matches Religion::Active { founding_date: f, parent: par, adherents: a, .. }
                    && f == 0 && par is None && a@.len() == num_age_bins && is_rectangular(
                    a@,
                    (num_heterodoxy_bins + 1) as nat,
                ) && forall|x: int, y: int|
                    0 <= x < num_age_bins && 0 <= y <= num_heterodoxy_bins ==> #[trigger] a@[x][y].0
                        == cell_count(cells@, x, y)
                &&& sim.spec_total_population() == cells@.len()
                &&& sim.extinct().len() == 0
                &&& sim.spec_scale() == SimulationScale::Individual
                &&& sim.spec_seed() == seed
                &&& sim.spec_current_year() == 0
            },
            r matches Err(e) ==> match e {
                HistogramError::OutOfBounds { age_band, het_bin } => {
                    &&& cells@.contains((age_band, het_bin))
                    &&& !cell_fits((age_band, het_bin), num_heterodoxy_bins as int, num_age_bins as int)
                },
                HistogramError::WouldGoNegative { .. } => false,
                HistogramError::Underflow { .. } => false,
            },
    {
        let root_adherents = PopulationHistogram::tally(num_heterodoxy_bins, num_age_bins, cells)?;
        let (sim, root) = Simulation::new(seed, root_adherents, rng);
        proof {
            let m = sim.active();
            assert(m =~= Map::<ReligionKey, Religion>::empty().insert(root, m[root]));
            assert(Map::<ReligionKey, Religion>::empty().dom() =~= Set::<ReligionKey>::empty());
            lemma_population_insert_empty(root, m[root]);
        }
        Ok((sim, root))
    }

    /// The seed the run started from.
    pub fn seed(&self) -> (r: u64)
        ensures
            r == self.spec_seed(),
    {
        self.seed
    }

    /// The world clock, in years.
    pub fn current_year(&self) -> (r: u32)
        ensures
            r == self.spec_current_year(),
    {
        self.current_year
    }

    /// How people are represented.
    pub fn scale(&self) -> (r: SimulationScale)
        ensures
            r == self.spec_scale(),
    {
        self.scale
    }

    /// The keys of the living religions, each once, in the slot map's order.
    pub fn religion_keys(&self) -> (r: Vec<ReligionKey>)
        ensures
            r@ == self.key_order(),
            r@.no_duplicates(),
            forall|k: ReligionKey| self.active().dom().contains(k) <==> r@.contains(k),
    {
        self.active_religions.keys()
    }

    /// The living religion under `key`, if there is one.
    pub fn religion(&self, key: ReligionKey) -> (r: Option<&Religion>)
        ensures
            self.active().dom().contains(key) ==> r == Some(&self.active()[key]),
            !self.active().dom().contains(key) ==> r is None,
    {
        self.active_religions.get(key)
    }

    /// The religions that have died out, with their keys.
    pub fn extinct_religions(&self) -> (r: &[(ReligionKey, Religion)])
        ensures
            r@ == self.extinct(),
    {
        self.extinct_religions.as_slice()
    }

    /// Number of living adherents in every living religion.
    pub fn total_population(&self) -> (r: u64)
        requires
            self.wf(),
            self.spec_total_population() <= u64::MAX,
        ensures
            r == self.spec_total_population(),
    {
        let keys = self.active_religions.keys();
        proof {
            lemma_population_over_keys(self.active(), keys@);
            lemma_population_nonneg(self.active());
        }
        let mut total: u64 = 0;
        let mut i: usize = 0;
        while i < keys.len()
            invariant
                i <= keys@.len(),
                keys@.no_duplicates(),
                forall|k: ReligionKey| self.active().dom().contains(k) <==> keys@.contains(k),
                self.active().dom().finite(),
                population_of(self.active()) <= u64::MAX,
                total == population_over(self.active(), keys@.take(i as int)),
            decreases keys@.len() - i,
        {
            let key = keys[i];
            proof {
                assert(keys@.take(i + 1).drop_last() =~= keys@.take(i as int));
                assert(keys@.contains(key)) by {
                    assert(keys@[i as int] == key);
                }
                lemma_prefix_population_bound(self.active(), keys@, i + 1);
                lemma_religion_population_nonneg(self.active()[key]);
            }
            match self.active_religions.get(key) {
                Some(religion) => {
                    let pop = religion.total_population();
                    total = total + pop;
                },
                None => {
                    assert(false);
                },
            }
            i = i + 1;
        }
        assert(keys@.take(keys@.len() as int) =~= keys@);
        total
    }

    /// Number of living adherents in every living religion, or `None` when
    /// that number does not fit in a `u64`.
    pub fn checked_total_population(&self) -> (r: Option<u64>)
        requires
            self.wf(),
        ensures
            match r {
                Some(t) => t == self.spec_total_population(),
                None => self.spec_total_population() > u64::MAX,
            },
    {
        let keys = self.active_religions.keys();
        proof {
            lemma_population_over_keys(self.active(), keys@);
            lemma_population_nonneg(self.active());
        }
        let mut total: u64 = 0;
        let mut i: usize = 0;
        while i < keys.len()
            invariant
                i <= keys@.len(),
                keys@.no_duplicates(),
                forall|k: ReligionKey| self.active().dom().contains(k) <==> keys@.contains(k),
                self.active().dom().finite(),
                total == population_over(self.active(), keys@.take(i as int)),
            decreases keys@.len() - i,
        {
            let key = keys[i];
            proof {
                assert(keys@.take(i + 1).drop_last() =~= keys@.take(i as int));
                assert(keys@.contains(key)) by {
                    assert(keys@[i as int] == key);
                }
                lemma_prefix_population_bound(self.active(), keys@, i + 1);
                lemma_population_over_nonneg(self.active(), keys@.take(i as int));
                lemma_religion_population_nonneg(self.active()[key]);
            }
            let pop: u64 = match self.active_religions.get(key) {
                Some(religion) => match religion.checked_total_population() {
                    Some(p) => p,
                    None => {
                        return None;
                    },
                },
                None => {
                    assert(false);
                    0
                },
            };
            match total.checked_add(pop) {
                Some(t) => {
                    total = t;
                },
                None => {
                    return None;
                },
            }
            i = i + 1;
        }
        assert(keys@.take(keys@.len() as int) =~= keys@);
        Some(total)
    }

    /// Moves from individual to cohort scale once the living population
    /// exceeds `cohort_scale_threshold`; any other scale stays as it is.
    pub fn update_scale(&mut self, cohort_scale_threshold: usize)
        requires
            old(self).wf(),
            old(self).spec_total_population() <= u64::MAX,
        ensures
            final(self).wf(),
            final(self).active() == old(self).active(),
            final(self).extinct() == old(self).extinct(),
            final(self).spec_seed() == old(self).spec_seed(),
            final(self).spec_current_year() == old(self).spec_current_year(),
            old(self).spec_scale() == SimulationScale::Individual && old(self).spec_total_population()
                > cohort_scale_threshold ==> final(self).spec_scale() == SimulationScale::Cohort,
            old(self).spec_scale() == SimulationScale::Individual && old(self).spec_total_population()
                <= cohort_scale_threshold ==> final(self).spec_scale() == SimulationScale::Individual,
            old(self).spec_scale() != SimulationScale::Individual ==> final(self).spec_scale() == old(
                self,
            ).spec_scale(),
            final(self).spec_scale() == next_scale(
                old(self).spec_scale(),
                old(self).spec_total_population(),
                cohort_scale_threshold as int,
            ),
    {
        match self.scale {
            SimulationScale::Individual => {
                if self.total_population() > cohort_scale_threshold as u64 {
                    self.scale = SimulationScale::Cohort;
                }
            },
            SimulationScale::Cohort => {},
            SimulationScale::Aggregate => {},
        }
    }

    /// Takes the living religion under `key` out of its slot, leaving an
    /// empty extinct placeholder there until `put_religion` puts it back.
    pub(crate) fn take_religion(&mut self, key: ReligionKey) -> (r: Religion)
        requires
            old(self).wf(),
            old(self).active().dom().contains(key),
        ensures
            r == old(self).active()[key],
            final(self).active().dom() == old(self).active().dom(),
            final(self).active()[key] is Extinct,
            forall|k: ReligionKey|
                k != key ==> #[trigger] final(self).active()[k] == old(self).active()[k],
            final(self).extinct() == old(self).extinct(),
            final(self).spec_scale() == old(self).spec_scale(),
            final(self).spec_seed() == old(self).spec_seed(),
            final(self).spec_current_year() == old(self).spec_current_year(),
    {
        self.active_religions.replace(
            key,
            Religion::Extinct { name: String::new(), founding_date: 0, parent: None, extinction_date: 0 },
        )
    }

    /// Puts an active religion back under `key`, in place of the placeholder.
    pub(crate) fn put_religion(&mut self, key: ReligionKey, religion: Religion)
        requires
            old(self).active().dom().contains(key),
            old(self).active().dom().finite(),
            religion is Active,
            forall|k: ReligionKey| #[trigger]
                old(self).active().dom().contains(k) && k != key ==> old(self).active()[k] is Active,
            forall|i: int|
                0 <= i < old(self).extinct().len() ==> (#[trigger] old(self).extinct()[i]).1 is Extinct,
        ensures
            final(self).wf(),
            final(self).active() == old(self).active().insert(key, religion),
            final(self).extinct() == old(self).extinct(),
            final(self).spec_scale() == old(self).spec_scale(),
            final(self).spec_seed() == old(self).spec_seed(),
            final(self).spec_current_year() == old(self).spec_current_year(),
    {
        let _ = self.active_religions.replace(key, religion);
        proof {
            assert(self.active().dom() =~= old(self).active().dom());
            assert forall|k: ReligionKey| #[trigger]
                self.active().dom().contains(k) implies self.active()[k] is Active by {
                if k != key {
                    assert(old(self).active().dom().contains(k));
                }
            }
            assert(self.active().dom().finite());
            assert(self.extinct() == old(self).extinct());
            assert(forall|i: int|
                0 <= i < self.extinct().len() ==> (#[trigger] self.extinct()[i]).1 is Extinct);
        }
    }


    /// Moves the living religion under `key` to the end of the extinct
    /// list, marked extinct as of `date`.
    pub(crate) fn retire(&mut self, key: ReligionKey, date: u32)
        requires
            old(self).wf(),
            old(self).active().dom().contains(key),
        ensures
            final(self).wf(),
            final(self).active() == old(self).active().remove(key),
            final(self).extinct().len() == old(self).extinct().len() + 1,
            final(self).extinct().take(old(self).extinct().len() as int) == old(self).extinct(),
            final(self).extinct().last().0 == key,
            retired_form(old(self).active()[key], final(self).extinct().last().1, date),
            final(self).spec_scale() == old(self).spec_scale(),
            final(self).spec_seed() == old(self).spec_seed(),
            final(self).spec_current_year() == old(self).spec_current_year(),
    {
        let removed = self.active_religions.remove(key);
        match removed {
            Some(mut religion) => {
                religion.mark_extinct(date);
                self.extinct_religions.push((key, religion));
            },
            None => {
                assert(false);
            },
        }
        proof {
            assert(self.extinct().take(old(self).extinct().len() as int) =~= old(self).extinct());
            assert forall|i: int|
                0 <= i < self.extinct().len() implies (#[trigger] self.extinct()[i]).1 is Extinct by {
                if i < old(self).extinct().len() {
                    assert(self.extinct()[i] == old(self).extinct()[i]);
                }
            }
            assert forall|k: ReligionKey| #[trigger]
                self.active().dom().contains(k) implies self.active()[k] is Active by {
                assert(old(self).active().dom().contains(k));
            }
        }
    }

    /// Adds a new living religion under a fresh key and returns the key.
    pub(crate) fn add_religion(&mut self, religion: Religion) -> (r: ReligionKey)
        requires
            old(self).wf(),
            old(self).active().len() < u32::MAX - 1,
            religion is Active,
        ensures
            final(self).wf(),
            !old(self).active().dom().contains(r),
            final(self).active() == old(self).active().insert(r, religion),
            final(self).extinct() == old(self).extinct(),
            final(self).spec_scale() == old(self).spec_scale(),
            final(self).spec_seed() == old(self).spec_seed(),
            final(self).spec_current_year() == old(self).spec_current_year(),
    {
        let key = self.active_religions.insert(religion);
        proof {
            assert(self.extinct() == old(self).extinct());
            assert forall|k: ReligionKey| #[trigger]
                self.active().dom().contains(k) implies self.active()[k] is Active by {
                if k != key {
                    assert(old(self).active().dom().contains(k));
                }
            }
        }
        key
    }

    /// Advances the world clock by one generation and returns the new year.
    pub fn advance_year(&mut self, generation_length_yrs: u8) -> (r: u32)
        requires
            old(self).spec_current_year() + generation_length_yrs <= u32::MAX,
        ensures
            r == old(self).spec_current_year() + generation_length_yrs,
            final(self).spec_current_year() == r,
            final(self).active() == old(self).active(),
            final(self).extinct() == old(self).extinct(),
            final(self).spec_seed() == old(self).spec_seed(),
            final(self).spec_scale() == old(self).spec_scale(),
    {
        self.current_year = self.current_year + generation_length_yrs as u32;
        self.current_year
    }

    /// Opens a tick: settles the scale against `cohort_scale_threshold`,
    /// advances the clock by a generation, and returns the new year together
    /// with the living population the tick starts from.
    pub fn begin_tick(&mut self, cohort_scale_threshold: usize, generation_length_yrs: u8) -> (r: (
        u32,
        u64,
    ))
        requires
            old(self).wf(),
            old(self).spec_total_population() <= u64::MAX,
            old(self).spec_current_year() + generation_length_yrs <= u32::MAX,
        ensures
            final(self).wf(),
            final(self).active() == old(self).active(),
            final(self).extinct() == old(self).extinct(),
            final(self).spec_seed() == old(self).spec_seed(),
            old(self).spec_scale() == SimulationScale::Individual && old(self).spec_total_population()
                > cohort_scale_threshold ==> final(self).spec_scale() == SimulationScale::Cohort,
            old(self).spec_scale() == SimulationScale::Individual && old(self).spec_total_population()
                <= cohort_scale_threshold ==> final(self).spec_scale() == SimulationScale::Individual,
            old(self).spec_scale() != SimulationScale::Individual ==> final(self).spec_scale() == old(
                self,
            ).spec_scale(),
            final(self).spec_scale() == next_scale(
                old(self).spec_scale(),
                old(self).spec_total_population(),
                cohort_scale_threshold as int,
            ),
            final(self).spec_current_year() == old(self).spec_current_year() + generation_length_yrs,
            r.0 == final(self).spec_current_year(),
            r.1 == old(self).spec_total_population(),
    {
        self.update_scale(cohort_scale_threshold);
        let year = self.advance_year(generation_length_yrs);
        let population = self.total_population();
        (year, population)
    }
}

/// `b` is religion `a` under the same name, founding date and parent.
pub open spec fn keeps_identity(a: Religion, b: Religion) -> bool {
    &&& b.spec_name() == a.spec_name()
    &&& b.spec_founding_date() == a.spec_founding_date()
    &&& b.spec_parent() == a.spec_parent()
}

/// From world `a` to world `b` the extinct religions, the clock and the scale
/// stay as they were.
pub open spec fn history_kept(a: Simulation, b: Simulation) -> bool {
    &&& b.extinct() == a.extinct()
    &&& b.spec_current_year() == a.spec_current_year()
    &&& b.spec_scale() == a.spec_scale()
}

/// From world `a` to world `b` the clock and the scale stay as they were and
/// the extinct list only grows at its end, by religions extinct as of `date`.
pub open spec fn extinctions_recorded(a: Simulation, b: Simulation, date: u32) -> bool {
    &&& b.spec_current_year() == a.spec_current_year()
    &&& b.spec_scale() == a.spec_scale()
    &&& a.extinct().len() <= b.extinct().len()
    &&& b.extinct().take(a.extinct().len() as int) == a.extinct()
    &&& forall|i: int|
        a.extinct().len() <= i < b.extinct().len() ==> (#[trigger] b.extinct()[i]).1 is Extinct
            && b.extinct()[i].1.spec_extinction_date() == Some(date)
}

/// A step of a schism pass from world `a` to world `b`: the history stays,
/// the population stays, and every religion of `a` is still alive in `b`
/// under the same name, founding date and parent.
pub open spec fn schism_step(a: Simulation, b: Simulation) -> bool {
    &&& history_kept(a, b)
    &&& b.spec_total_population() == a.spec_total_population()
    &&& religions_kept(a, b)
}

/// Every religion alive in world `a` is alive in world `b` under the same
/// name, founding date and parent.
pub open spec fn religions_kept(a: Simulation, b: Simulation) -> bool {
    forall|k: ReligionKey|
        #![trigger a.active().dom().contains(k)]
        a.active().dom().contains(k) ==> b.active().dom().contains(k) && keeps_identity(
            a.active()[k],
            b.active()[k],
        )
}

/// A tick: it opens (`before` to `steps[0]`: the clock advances by
/// `generation_length_yrs`, the scale is settled against the population,
/// the history stays), then every later step keeps the history or records
/// extinctions as of the new year. At its end the clock stands one
/// generation later, the extinct list has only grown at its end, by
/// religions extinct as of the new year, and a scale other than individual
/// is unchanged.
pub proof fn lemma_tick_law(before: Simulation, steps: Seq<Simulation>, generation_length_yrs: u8, threshold: int)
    requires
        steps.len() > 0,
        steps[0].spec_current_year() == before.spec_current_year() + generation_length_yrs,
        steps[0].extinct() == before.extinct(),
        steps[0].spec_scale() == next_scale(before.spec_scale(), before.spec_total_population(), threshold),
        forall|i: int|
            0 <= i < steps.len() - 1 ==> history_kept(#[trigger] steps[i], steps[i + 1])
                || extinctions_recorded(steps[i], steps[i + 1], steps[0].spec_current_year()),
    ensures
        steps.last().spec_current_year() == before.spec_current_year() + generation_length_yrs,
        before.extinct().len() <= steps.last().extinct().len(),
        steps.last().extinct().take(before.extinct().len() as int) == before.extinct(),
        forall|i: int|
            before.extinct().len() <= i < steps.last().extinct().len() ==> (
            #[trigger] steps.last().extinct()[i]).1 is Extinct && steps.last().extinct()[i].1.spec_extinction_date()
                == Some((before.spec_current_year() + generation_length_yrs) as u32),
        before.spec_scale() != SimulationScale::Individual ==> steps.last().spec_scale()
            == before.spec_scale(),
    decreases steps.len(),
{
    let year = (before.spec_current_year() + generation_length_yrs) as u32;
    assert(steps[0].spec_current_year() == year);
    let n = before.extinct().len() as int;
    if steps.len() == 1 {
        assert(steps.last().extinct().take(n) =~= before.extinct());
    } else {
        let shorter = steps.drop_last();
        assert forall|i: int|
            0 <= i < shorter.len() - 1 implies history_kept(#[trigger] shorter[i], shorter[i + 1])
                || extinctions_recorded(shorter[i], shorter[i + 1], shorter[0].spec_current_year()) by {
            assert(shorter[i] == steps[i] && shorter[i + 1] == steps[i + 1]);
        }
        lemma_tick_law(before, shorter, generation_length_yrs, threshold);
        let prev = shorter.last();
        let last = steps.last();
        assert(prev == steps[steps.len() - 2]);
        assert(history_kept(prev, last) || extinctions_recorded(prev, last, year));
        if !history_kept(prev, last) {
            let m = prev.extinct().len() as int;
            assert(last.extinct().take(n) =~= last.extinct().take(m).take(n));
            assert forall|i: int| n <= i < last.extinct().len() implies (#[trigger] last.extinct()[i]).1 is Extinct
                && last.extinct()[i].1.spec_extinction_date() == Some(year) by {
                if i < m {
                    assert(last.extinct()[i] == last.extinct().take(m)[i]);
                }
            }
        }
    }
}

/// Two schism steps in a row make one.
pub(crate) proof fn lemma_schism_steps_chain(a: Simulation, b: Simulation, c: Simulation)
    requires
        schism_step(a, b),
        schism_step(b, c),
    ensures
        schism_step(a, c),
{
    lemma_religions_kept_chain(a, b, c);
}

/// Religions kept from `a` to `b` and from `b` to `c` are kept from `a` to `c`.
proof fn lemma_religions_kept_chain(a: Simulation, b: Simulation, c: Simulation)
    requires
        religions_kept(a, b),
        religions_kept(b, c),
    ensures
        religions_kept(a, c),
{
    assert forall|k: ReligionKey|
        #![trigger a.active().dom().contains(k)]
        a.active().dom().contains(k) implies c.active().dom().contains(k) && keeps_identity(
            a.active()[k],
            c.active()[k],
        ) by {
        assert(b.active().dom().contains(k) && keeps_identity(a.active()[k], b.active()[k]));
        assert(c.active().dom().contains(k) && keeps_identity(b.active()[k], c.active()[k]));
    }
}

/// A schism pass keeps the history and the population, and every religion
/// alive before it is alive after it under the same name, founding date and
/// parent, however many schisms it makes.
pub proof fn lemma_schism_pass(steps: Seq<Simulation>)
    requires
        steps.len() > 0,
        forall|i: int| 0 <= i < steps.len() - 1 ==> schism_step(#[trigger] steps[i], steps[i + 1]),
    ensures
        steps.len() > 1 ==> schism_step(steps[0], steps.last()),
    decreases steps.len(),
{
    if steps.len() > 1 {
        let shorter = steps.drop_last();
        assert forall|i: int| 0 <= i < shorter.len() - 1 implies schism_step(#[trigger] shorter[i], shorter[i + 1]) by {
            assert(shorter[i] == steps[i] && shorter[i + 1] == steps[i + 1]);
        }
        lemma_schism_pass(shorter);
        let first = steps[0];
        let prev = steps[steps.len() - 2];
        let last = steps.last();
        assert(shorter.last() == prev);
        assert(shorter[0] == first);
        assert(schism_step(prev, last));
        if steps.len() > 2 {
            lemma_schism_steps_chain(first, prev, last);
        }
    }
}

/// A scale check moves a simulation at individual scale to cohort scale
/// exactly when its population exceeds the threshold, and to no other scale;
/// it never leaves or enters aggregate scale.
pub proof fn lemma_scale_step(scale: SimulationScale, population: int, threshold: int)
    ensures
        (next_scale(SimulationScale::Individual, population, threshold) == SimulationScale::Cohort) == (
        population > threshold),
        (next_scale(SimulationScale::Individual, population, threshold) == SimulationScale::Individual)
            == (population <= threshold),
        (next_scale(scale, population, threshold) == SimulationScale::Aggregate) == (scale
            == SimulationScale::Aggregate),
{
}

/// Once a simulation has left individual scale it never returns to it:
/// every later check keeps the scale it finds.
pub proof fn lemma_scale_never_reverts(scale: SimulationScale, population: int, threshold: int)
    requires
        scale != SimulationScale::Individual,
    ensures
        next_scale(scale, population, threshold) == scale,
{
}

/// The scale after a tick's check: individual scale turns into cohort scale
/// once `population` exceeds `threshold`.
pub open spec fn next_scale(scale: SimulationScale, population: int, threshold: int) -> SimulationScale {
    match scale {
        SimulationScale::Individual => if population > threshold {
            SimulationScale::Cohort
        } else {
            SimulationScale::Individual
        },
        other => other,
    }
}

/// A world of one religion holds that religion's people.
pub proof fn lemma_population_insert_empty(k: ReligionKey, r: Religion)
    ensures
        population_of(Map::<ReligionKey, Religion>::empty().insert(k, r)) == r.spec_total_population(),
{
    let m = Map::<ReligionKey, Religion>::empty().insert(k, r);
    assert(m.dom() =~= set![k]);
    lemma_population_remove(m, k);
    assert(m.remove(k).dom() =~= Set::<ReligionKey>::empty());
    assert(m.remove(k).dom().len() == 0);
}

/// A sum over a prefix of the keys is at most the whole population.
pub proof fn lemma_prefix_population_bound(
    m: Map<ReligionKey, Religion>,
    keys: Seq<ReligionKey>,
    n: int,
)
    requires
        0 <= n <= keys.len(),
        forall|k: ReligionKey| m.dom().contains(k) <==> keys.contains(k),
        keys.no_duplicates(),
    ensures
        0 <= population_over(m, keys.take(n)) <= population_of(m),
    decreases keys.len() - n,
{
    lemma_population_over_keys(m, keys);
    if n == keys.len() {
        assert(keys.take(n) =~= keys);
        lemma_population_over_nonneg(m, keys);
    } else {
        lemma_prefix_population_bound(m, keys, n + 1);
        assert(keys.take(n + 1).drop_last() =~= keys.take(n));
        lemma_religion_population_nonneg(m[keys[n]]);
        lemma_population_over_nonneg(m, keys.take(n));
    }
}

/// A sum of populations is non-negative.
pub proof fn lemma_population_over_nonneg(m: Map<ReligionKey, Religion>, keys: Seq<ReligionKey>)
    ensures
        population_over(m, keys) >= 0,
    decreases keys.len(),
{
    if keys.len() > 0 {
        lemma_population_over_nonneg(m, keys.drop_last());
        lemma_religion_population_nonneg(m[keys.last()]);
    }
}

} // verus!
