use rand::rngs::SmallRng;
use vstd::prelude::*;

use super::adherent::{adherents_view, lemma_population_replace, same_but_adherents};
use super::{
    extinctions_recorded, lemma_population_nonneg, lemma_population_remove, population_of, retired_form,
    lemma_schism_steps_chain, schism_step, Simulation,
};
use crate::histogram::{
    lemma_grid_sum_prefix,
    fits_under, grid_total, regroup_error, regroup_fits, regrouped_grid, removal_error, rows_view,
    subtract_grid, Count,
    HeterodoxyBin, HistogramError, PopulationHistogram,
};
use crate::religion::naming::modifier_views;
use crate::religion::{Religion, ReligionKey};

verus! {

/// Adding a religion under a fresh key adds its population.
pub proof fn lemma_population_insert(m: Map<ReligionKey, Religion>, k: ReligionKey, r: Religion)
    requires
        m.dom().finite(),
        !m.dom().contains(k),
    ensures
        population_of(m.insert(k, r)) == population_of(m) + r.spec_total_population(),
{
    lemma_population_remove(m.insert(k, r), k);
    assert(m.insert(k, r).remove(k) =~= m);
}

/// Whether the religion under a key of `m` has no adherents left.
pub open spec fn has_no_adherents(m: Map<ReligionKey, Religion>) -> spec_fn(ReligionKey) -> bool {
    |k: ReligionKey| m[k].spec_total_population() == 0
}

/// The keys of the living religions of `s` that have no adherents left, in
/// the order the slot map walks them.
pub open spec fn emptied_keys(s: Simulation) -> Seq<ReligionKey> {
    s.key_order().filter(has_no_adherents(s.active()))
}

/// From `before` to `after` the religion under `parent` lost exactly the
/// `converts`, keeping its name, founding date and parent, and `sect` is a
/// new living religion founded in `year` as a sect of it, named by a
/// modifier before the parent's name, holding the converts regrouped into
/// `new_bins` in a histogram of `num_age_bins` bands and
/// `num_heterodoxy_bins + 1` bins.
pub open spec fn founded_sect(
    before: Map<ReligionKey, Religion>,
    after: Map<ReligionKey, Religion>,
    parent: ReligionKey,
    sect: ReligionKey,
    converts: Seq<Seq<Count>>,
    new_bins: Seq<HeterodoxyBin>,
    num_heterodoxy_bins: nat,
    num_age_bins: nat,
    year: u32,
) -> bool {
    &&& same_but_adherents(before[parent], after[parent])
    &&& adherents_view(after[parent]) == subtract_grid(adherents_view(before[parent]), converts)
    &&& after[sect] is Active
    &&& after[sect].spec_founding_date() == year
    &&& after[sect].spec_parent() == Some(parent)
    &&& exists|i: int|
        0 <= i < modifier_views().len() && after[sect].spec_name() == modifier_views()[i] + " "@
            + before[parent].spec_name()
    &&& adherents_view(after[sect]) == regrouped_grid(converts, new_bins, num_heterodoxy_bins, num_age_bins)
}

/// The converts drawn from one religion for a schism pass: who leaves which
/// cell of `parent`, and the heterodoxy bin each old bin maps to in the sect.
pub struct SchismPlan {
    pub parent: ReligionKey,
    pub converts: Vec<Vec<Count>>,
    pub new_bins: Vec<HeterodoxyBin>,
}

/// The converts of a plan can be handed to `schism`: every count fits a
/// signed 64-bit number, so does their total, and every bin that loses
/// someone has a bin in the sect.
pub open spec fn plan_well_shaped(p: SchismPlan) -> bool {
    &&& grid_total(rows_view(p.converts@)) <= i64::MAX
    &&& forall|i: int, j: int|
        0 <= i < p.converts@.len() && 0 <= j < p.converts@[i]@.len() ==> #[trigger] p.converts@[i]@[j].0
            <= i64::MAX
    &&& forall|i: int, j: int|
        0 <= i < p.converts@.len() && 0 <= j < p.converts@[i]@.len() && #[trigger] p.converts@[i]@[j].0
            > 0 ==> j < p.new_bins@.len()
}

/// What the pass did with plan `p`, whose outcome is `outcome`, from the
/// religions `before` the pass to those `after` it: no sect and the parent
/// untouched, or a sect founded under a key not living before.
pub open spec fn plan_done(
    before: Map<ReligionKey, Religion>,
    after: Map<ReligionKey, Religion>,
    p: SchismPlan,
    outcome: Option<ReligionKey>,
    num_heterodoxy_bins: usize,
    num_age_bins: usize,
    year: u32,
) -> bool {
    &&& (outcome is None) == (grid_total(rows_view(p.converts@)) == 0)
    &&& outcome is None ==> after[p.parent] == before[p.parent]
    &&& outcome matches Some(k) ==> !before.dom().contains(k) && after.dom().contains(k) && founded_sect(
        before,
        after,
        p.parent,
        k,
        rows_view(p.converts@),
        p.new_bins@,
        num_heterodoxy_bins as nat,
        num_age_bins as nat,
        year,
    )
}

/// A founded sect stays as it was when neither it nor its parent changes.
proof fn lemma_founded_sect_stable(
    before: Map<ReligionKey, Religion>,
    m1: Map<ReligionKey, Religion>,
    m2: Map<ReligionKey, Religion>,
    parent: ReligionKey,
    sect: ReligionKey,
    converts: Seq<Seq<Count>>,
    new_bins: Seq<HeterodoxyBin>,
    num_heterodoxy_bins: nat,
    num_age_bins: nat,
    year: u32,
)
    requires
        founded_sect(before, m1, parent, sect, converts, new_bins, num_heterodoxy_bins, num_age_bins, year),
        m2[parent] == m1[parent],
        m2[sect] == m1[sect],
    ensures
        founded_sect(before, m2, parent, sect, converts, new_bins, num_heterodoxy_bins, num_age_bins, year),
{
}

/// The converts fit in the parent and every one has a place in the sect.
pub open spec fn schism_applies(
    parent: Religion,
    converts: &Vec<Vec<Count>>,
    new_bins: &Vec<HeterodoxyBin>,
    num_heterodoxy_bins: usize,
    num_age_bins: usize,
) -> bool {
    &&& fits_under(rows_view(converts@), adherents_view(parent))
    &&& regroup_fits(rows_view(converts@), new_bins@, num_heterodoxy_bins as int, num_age_bins as int)
}

impl Simulation {
    /// Moves every living religion that has no adherents left to the end of
    /// the extinct list, marked extinct as of `current_date`; the others stay
    /// as they were. Afterwards every living religion has adherents.
    pub fn mark_extinct_religions(&mut self, current_date: u32)
        requires
            old(self).wf(),
            old(self).spec_total_population() <= u64::MAX,
        ensures
            extinctions_recorded(*old(self), *final(self), current_date),
            final(self).extinct().len() == old(self).extinct().len() + emptied_keys(*old(self)).len(),
            forall|j: int|
                0 <= j < emptied_keys(*old(self)).len() ==> final(self).extinct()[old(self).extinct().len()
                    + j].0 == #[trigger] emptied_keys(*old(self))[j],
            final(self).active().len() + final(self).extinct().len() == old(self).active().len() + old(
                self,
            ).extinct().len(),
            final(self).spec_total_population() == old(self).spec_total_population(),
            final(self).wf(),
            final(self).spec_scale() == old(self).spec_scale(),
            final(self).spec_seed() == old(self).spec_seed(),
            final(self).spec_current_year() == old(self).spec_current_year(),
            forall|k: ReligionKey|
                #[trigger] final(self).active().dom().contains(k) <==> (old(self).active().dom().contains(
                    k,
                ) && old(self).active()[k].spec_total_population() != 0),
            forall|k: ReligionKey| #[trigger]
                final(self).active().dom().contains(k) ==> final(self).active()[k] == old(
                    self,
                ).active()[k] && final(self).active()[k].spec_total_population() > 0,
            final(self).extinct().len() >= old(self).extinct().len(),
            final(self).extinct().take(old(self).extinct().len() as int) == old(self).extinct(),
            forall|i: int|
                old(self).extinct().len() <= i < final(self).extinct().len() ==> {
                    let k = (#[trigger] final(self).extinct()[i]).0;
                    &&& old(self).active().dom().contains(k)
                    &&& old(self).active()[k].spec_total_population() == 0
                    &&& retired_form(old(self).active()[k], final(self).extinct()[i].1, current_date)
                },
            forall|k: ReligionKey|
                old(self).active().dom().contains(k) && #[trigger] old(self).active()[k].spec_total_population()
                    == 0 ==> exists|i: int|
                    old(self).extinct().len() <= i < final(self).extinct().len()
                        && #[trigger] final(self).extinct()[i].0 == k,
            forall|i: int, j: int|
                old(self).extinct().len() <= i < j < final(self).extinct().len() ==> (
                #[trigger] final(self).extinct()[i]).0 != (#[trigger] final(self).extinct()[j]).0,
    {
        let ghost m0 = self.active();
        let ghost e0 = self.extinct();
        let keys = self.religion_keys();
        let ghost mut retired: Seq<ReligionKey> = Seq::empty();
        proof {
            lemma_population_nonneg(m0);
            assert(self.extinct().take(e0.len() as int) =~= e0);
            assert(keys@.take(0) =~= Seq::<ReligionKey>::empty());
            assert(Seq::<ReligionKey>::empty().filter(has_no_adherents(m0)) =~= Seq::<ReligionKey>::empty()) by {
                reveal(Seq::filter);
            }
        }
        let mut i: usize = 0;
        while i < keys.len()
            invariant
                i <= keys@.len(),
                keys@.no_duplicates(),
                forall|k: ReligionKey| m0.dom().contains(k) <==> keys@.contains(k),
                m0 == old(self).active(),
                e0 == old(self).extinct(),
                m0.dom().finite(),
                forall|k: ReligionKey|
                    m0.dom().contains(k) ==> 0 <= #[trigger] m0[k].spec_total_population()
                        <= u64::MAX,
                self.wf(),
                self.spec_scale() == old(self).spec_scale(),
                self.spec_seed() == old(self).spec_seed(),
                self.spec_current_year() == old(self).spec_current_year(),
                forall|k: ReligionKey|
                    #[trigger] self.active().dom().contains(k) <==> (m0.dom().contains(k)
                        && !retired.contains(k)),
                forall|k: ReligionKey| #[trigger]
                    self.active().dom().contains(k) ==> self.active()[k] == m0[k],
                retired.no_duplicates(),
                retired == keys@.take(i as int).filter(has_no_adherents(m0)),
                keys@ == old(self).key_order(),
                self.active().dom().finite(),
                self.spec_total_population() == population_of(m0),
                self.active().len() + self.extinct().len() == m0.len() + e0.len(),
                forall|k: ReligionKey|
                    #[trigger] retired.contains(k) <==> (keys@.take(i as int).contains(k)
                        && m0[k].spec_total_population() == 0),
                self.extinct().len() == e0.len() + retired.len(),
                self.extinct().take(e0.len() as int) == e0,
                forall|j: int|
                    0 <= j < retired.len() ==> (#[trigger] self.extinct()[e0.len() + j]).0
                        == retired[j] && retired_form(
                        m0[retired[j]],
                        self.extinct()[e0.len() + j].1,
                        current_date,
                    ),
            decreases keys@.len() - i,
        {
            let key = keys[i];
            proof {
                assert(keys@.contains(key)) by {
                    assert(keys@[i as int] == key);
                }
                assert(!keys@.take(i as int).contains(key)) by {
                    if keys@.take(i as int).contains(key) {
                        let q = choose|q: int| 0 <= q < i && keys@.take(i as int)[q] == key;
                        assert(keys@[q] == keys@[i as int]);
                    }
                }
                assert(!retired.contains(key));
                assert(self.active().dom().contains(key));
            }
            let pop: u64 = match self.religion(key) {
                Some(religion) => religion.total_population(),
                None => {
                    assert(false);
                    0
                },
            };
            let ghost ext_before = self.extinct();
            let ghost act_before = self.active();
            let ghost old_retired = retired;
            assert(pop == m0[key].spec_total_population());
            proof {
                assert(keys@.take(i + 1) =~= keys@.take(i as int).push(key));
                keys@.take(i as int).lemma_filter_push(key, has_no_adherents(m0));
            }
            if pop == 0 {
                self.retire(key, current_date);
                proof {
                    lemma_population_remove(act_before, key);
                    assert(act_before.remove(key).dom() =~= act_before.dom().remove(key));
                    retired = retired.push(key);
                    assert(self.extinct().take(e0.len() as int) =~= e0) by {
                        assert(self.extinct().take(ext_before.len() as int) == ext_before);
                        assert forall|j: int| 0 <= j < e0.len() implies self.extinct()[j] == e0[j] by {
                            assert(self.extinct()[j] == self.extinct().take(ext_before.len() as int)[j]);
                            assert(ext_before[j] == ext_before.take(e0.len() as int)[j]);
                        }
                    }
                    assert forall|j: int| 0 <= j < retired.len() implies (#[trigger] self.extinct()[e0.len()
                        + j]).0 == retired[j] && retired_form(
                        m0[retired[j]],
                        self.extinct()[e0.len() + j].1,
                        current_date,
                    ) by {
                        if j < retired.len() - 1 {
                            assert(self.extinct()[e0.len() + j] == self.extinct().take(
                                ext_before.len() as int,
                            )[e0.len() + j]);
                        }
                    }
                }
            }
            proof {
                assert forall|k: ReligionKey|
                    #[trigger] retired.contains(k) <==> (keys@.take(i + 1).contains(k)
                        && m0[k].spec_total_population() == 0) by {
                    let t1 = keys@.take(i + 1);
                    if t1.contains(k) && k != key {
                        let q = choose|q: int| 0 <= q < t1.len() && t1[q] == k;
                        assert(keys@.take(i as int)[q] == k);
                    }
                    if keys@.take(i as int).contains(k) {
                        let q = choose|q: int| 0 <= q < i && keys@.take(i as int)[q] == k;
                        assert(keys@.take(i + 1)[q] == k);
                    }
                    if k == key {
                        assert(keys@.take(i + 1)[i as int] == key);
                        if pop == 0 {
                            assert(retired[retired.len() - 1] == key);
                        } else {
                            assert(retired == old_retired);
                        }
                    } else {
                        if pop == 0 {
                            assert(retired == old_retired.push(key));
                            if old_retired.contains(k) {
                                let q = choose|q: int| 0 <= q < old_retired.len() && old_retired[q] == k;
                                assert(retired[q] == k);
                            }
                            if retired.contains(k) {
                                let q = choose|q: int| 0 <= q < retired.len() && retired[q] == k;
                                assert(q < old_retired.len());
                                assert(old_retired[q] == k);
                            }
                        }
                    }
                }
            }
            i = i + 1;
        }
        proof {
            assert(keys@.take(keys@.len() as int) =~= keys@);
            assert forall|k: ReligionKey|
                m0.dom().contains(k) && #[trigger] m0[k].spec_total_population() == 0 implies exists|
                i: int|
                e0.len() <= i < self.extinct().len() && #[trigger] self.extinct()[i].0 == k by {
                assert(retired.contains(k));
                let j = choose|j: int| 0 <= j < retired.len() && retired[j] == k;
                assert(self.extinct()[e0.len() + j].0 == k);
            }
            assert forall|p: int, q: int|
                e0.len() <= p < q < self.extinct().len() implies (#[trigger] self.extinct()[p]).0
                != (#[trigger] self.extinct()[q]).0 by {
                let a = p - e0.len();
                let b = q - e0.len();
                assert(self.extinct()[e0.len() + a].0 == retired[a]);
                assert(self.extinct()[e0.len() + b].0 == retired[b]);
            }
            assert forall|p: int|
                e0.len() <= p < self.extinct().len() implies {
                let k = (#[trigger] self.extinct()[p]).0;
                &&& m0.dom().contains(k)
                &&& m0[k].spec_total_population() == 0
                &&& retired_form(m0[k], self.extinct()[p].1, current_date)
            } by {
                let a = p - e0.len();
                assert(self.extinct()[e0.len() + a].0 == retired[a]);
                assert(retired.contains(retired[a]));
            }
            assert forall|k: ReligionKey| #[trigger]
                self.active().dom().contains(k) implies self.active()[k] == m0[k]
                && self.active()[k].spec_total_population() > 0 by {
                assert(!retired.contains(k));
                assert(keys@.contains(k));
            }
        }
    }

    /// A sect breaks away from the living religion under `parent`: the
    /// converts counted in `converts` (per age band and heterodoxy bin of
    /// the parent) leave the parent and found a new religion this year, in
    /// which a convert from bin `j` of age band `i` sits in age band `i` and
    /// bin `new_bins[j]` of a histogram of `num_age_bins` bands and
    /// `num_heterodoxy_bins + 1` bins. The sect's name is drawn with `rng`
    /// from the modifiers and the parent's name.
    ///
    /// Nothing changes, with an error, when some convert is not in the
    /// parent or has no place in the sect; nothing changes, with `Ok(None)`,
    /// when there are no converts. Otherwise the new key comes back, the
    /// parent holds exactly the people who stayed, and the world's
    /// population is unchanged.
    pub fn schism(
        &mut self,
        parent: ReligionKey,
        converts: &Vec<Vec<Count>>,
        new_bins: &Vec<HeterodoxyBin>,
        num_heterodoxy_bins: usize,
        num_age_bins: usize,
        rng: &mut SmallRng,
    ) -> (r: Result<Option<ReligionKey>, HistogramError>)
        requires
            old(self).wf(),
            old(self).active().dom().contains(parent),
            old(self).active().len() < u32::MAX - 1,
            num_heterodoxy_bins < usize::MAX,
            grid_total(rows_view(converts@)) <= i64::MAX,
            forall|i: int, j: int|
                0 <= i < converts@.len() && 0 <= j < converts@[i]@.len() ==> #[trigger] converts@[i]@[j].0
                    <= i64::MAX,
            forall|i: int, j: int|
                0 <= i < converts@.len() && 0 <= j < converts@[i]@.len() && #[trigger] converts@[i]@[j].0
                    > 0 ==> j < new_bins@.len(),
        ensures
            schism_step(*old(self), *final(self)),
            final(self).wf(),
            final(self).extinct() == old(self).extinct(),
            final(self).spec_scale() == old(self).spec_scale(),
            final(self).spec_seed() == old(self).spec_seed(),
            final(self).spec_current_year() == old(self).spec_current_year(),
            !fits_under(rows_view(converts@), adherents_view(old(self).active()[parent])) ==> (r matches Err(
                e,
            ) && removal_error(rows_view(converts@), adherents_view(old(self).active()[parent]), e))
                && final(self).active() == old(self).active(),
            fits_under(rows_view(converts@), adherents_view(old(self).active()[parent]))
                && !regroup_fits(
                rows_view(converts@),
                new_bins@,
                num_heterodoxy_bins as int,
                num_age_bins as int,
            ) ==> (r matches Err(e) && regroup_error(
                rows_view(converts@),
                new_bins@,
                num_heterodoxy_bins as int,
                num_age_bins as int,
                e,
            )) && final(self).active() == old(self).active(),
            schism_applies(old(self).active()[parent], converts, new_bins, num_heterodoxy_bins, num_age_bins)
                && grid_total(rows_view(converts@)) == 0 ==> r == Ok::<
                Option<ReligionKey>,
                HistogramError,
            >(None) && final(self).active() == old(self).active(),
            schism_applies(old(self).active()[parent], converts, new_bins, num_heterodoxy_bins, num_age_bins)
                && grid_total(rows_view(converts@)) > 0 ==> (r matches Ok(Some(k)) && {
                let before = old(self).active();
                let after = final(self).active();
                &&& !before.dom().contains(k)
                &&& after.dom() == before.dom().insert(k)
                &&& forall|j: ReligionKey|
                    before.dom().contains(j) && j != parent ==> #[trigger] after[j] == before[j]
                &&& founded_sect(
                    before,
                    after,
                    parent,
                    k,
                    rows_view(converts@),
                    new_bins@,
                    num_heterodoxy_bins as nat,
                    num_age_bins as nat,
                    old(self).spec_current_year(),
                )
                &&& final(self).spec_total_population() == old(self).spec_total_population()
            }),
    {
        let ghost m0 = self.active();
        let parent_name: String = match self.religion(parent) {
            Some(Religion::Active { adherents, name, .. }) => {
                let checked = adherents.check_removal(converts);
                if let Err(e) = checked {
                    return Err(e);
                }
                name.as_str().to_owned()
            },
            _ => {
                assert(false);
                String::new()
            },
        };
        let sect = match PopulationHistogram::regroup_converts(
            converts,
            new_bins,
            num_heterodoxy_bins,
            num_age_bins,
        ) {
            Ok(h) => h,
            Err(e) => {
                return Err(e);
            },
        };
        let converted: u64 = sect.total();
        if converted == 0 {
            return Ok(None);
        }
        let religion = self.take_religion(parent);
        let religion = match religion {
            Religion::Active { name, founding_date, parent: grandparent, mut adherents } => {
                let result = adherents.remove_counts(converts);
                assert(result is Ok);
                Religion::Active { name, founding_date, parent: grandparent, adherents }
            },
            other => other,
        };
        self.put_religion(parent, religion);
        proof {
            assert(self.active() =~= m0.insert(parent, religion));
            lemma_population_replace(m0, parent, religion);
            assert(self.active().len() == m0.len()) by {
                assert(self.active().dom() =~= m0.dom());
            }
        }
        let ghost m1 = self.active();
        let new_religion = Religion::new(
            Some((parent_name.as_str(), parent)),
            self.current_year(),
            rng,
            sect,
        );
        let key = self.add_religion(new_religion);
        proof {
            lemma_population_insert(m1, key, new_religion);
            assert(self.active().dom() =~= m0.dom().insert(key));
        }
        Ok(Some(key))
    }

    /// A schism pass: for each plan in turn, the converts leave the plan's
    /// parent and found a sect of it, as `schism` does; a plan without
    /// converts founds nothing. Stops at the first plan that does not apply,
    /// with its error. Whatever happens, the population, the history and every
    /// religion alive before (by name, founding date and parent) stay; when
    /// every plan applies, the result says what became of each.
    pub fn schism_religions(
        &mut self,
        plans: &Vec<SchismPlan>,
        num_heterodoxy_bins: usize,
        num_age_bins: usize,
        rng: &mut SmallRng,
    ) -> (r: Result<Vec<Option<ReligionKey>>, HistogramError>)
        requires
            old(self).wf(),
            old(self).active().len() + plans@.len() < u32::MAX - 1,
            num_heterodoxy_bins < usize::MAX,
            forall|i: int|
                0 <= i < plans@.len() ==> old(self).active().dom().contains((#[trigger] plans@[i]).parent)
                    && plan_well_shaped(plans@[i]),
            forall|i: int, j: int|
                0 <= i < j < plans@.len() ==> (#[trigger] plans@[i]).parent != (#[trigger] plans@[j]).parent,
        ensures
            final(self).wf(),
            schism_step(*old(self), *final(self)),
            final(self).spec_seed() == old(self).spec_seed(),
            r is Ok <==> forall|i: int|
                0 <= i < plans@.len() ==> schism_applies(
                    old(self).active()[(#[trigger] plans@[i]).parent],
                    &plans@[i].converts,
                    &plans@[i].new_bins,
                    num_heterodoxy_bins,
                    num_age_bins,
                ),
            r matches Ok(outcomes) ==> {
                &&& outcomes@.len() == plans@.len()
                &&& forall|i: int|
                    0 <= i < plans@.len() ==> plan_done(
                        old(self).active(),
                        final(self).active(),
                        #[trigger] plans@[i],
                        outcomes@[i],
                        num_heterodoxy_bins,
                        num_age_bins,
                        old(self).spec_current_year(),
                    )
                &&& forall|k: ReligionKey|
                    #[trigger] final(self).active().dom().contains(k) <==> (old(self).active().dom().contains(
                        k,
                    ) || exists|i: int| 0 <= i < outcomes@.len() && outcomes@[i] == Some(k))
                &&& forall|k: ReligionKey|
                    old(self).active().dom().contains(k) && (forall|i: int|
                        0 <= i < plans@.len() ==> (#[trigger] plans@[i]).parent != k)
                        ==> #[trigger] final(self).active()[k] == old(self).active()[k]
            },
    {
        let ghost m0 = self.active();
        let ghost s0 = *self;
        let ghost year = self.spec_current_year();
        let mut outcomes: Vec<Option<ReligionKey>> = Vec::new();
        let mut i: usize = 0;
        proof {
            assert forall|q: int| 0 <= q < plans@.len() implies m0.dom().contains((#[trigger] plans@[q]).parent)
                && plan_well_shaped(plans@[q]) by {
                assert(old(self).active().dom().contains(plans@[q].parent) && plan_well_shaped(plans@[q]));
            }
        }
        while i < plans.len()
            invariant
                i <= plans@.len(),
                m0 == old(self).active(),
                s0 == *old(self),
                year == old(self).spec_current_year(),
                num_heterodoxy_bins < usize::MAX,
                m0.len() + plans@.len() < u32::MAX - 1,
                forall|q: int|
                    0 <= q < plans@.len() ==> m0.dom().contains((#[trigger] plans@[q]).parent)
                        && plan_well_shaped(plans@[q]),
                forall|q: int, j: int|
                    0 <= q < j < plans@.len() ==> (#[trigger] plans@[q]).parent != (
                    #[trigger] plans@[j]).parent,
                self.wf(),
                schism_step(s0, *self),
                self.spec_seed() == s0.spec_seed(),
                self.active().dom().finite(),
                self.active().len() <= m0.len() + i,
                outcomes@.len() == i,
                forall|q: int|
                    0 <= q < i ==> schism_applies(
                        m0[(#[trigger] plans@[q]).parent],
                        &plans@[q].converts,
                        &plans@[q].new_bins,
                        num_heterodoxy_bins,
                        num_age_bins,
                    ),
                forall|q: int|
                    0 <= q < i ==> plan_done(
                        m0,
                        self.active(),
                        #[trigger] plans@[q],
                        outcomes@[q],
                        num_heterodoxy_bins,
                        num_age_bins,
                        year,
                    ),
                forall|k: ReligionKey|
                    #[trigger] self.active().dom().contains(k) <==> (m0.dom().contains(k) || exists|q: int|
                        0 <= q < outcomes@.len() && outcomes@[q] == Some(k)),
                forall|k: ReligionKey|
                    m0.dom().contains(k) && (forall|q: int| 0 <= q < i ==> (#[trigger] plans@[q]).parent != k)
                        ==> #[trigger] self.active()[k] == m0[k],
            decreases plans@.len() - i,
        {
            let plan = &plans[i];
            let ghost before = self.active();
            let ghost s_before = *self;
            proof {
                assert(m0.dom().contains(plan.parent) && plan_well_shaped(*plan));
                assert forall|q: int| 0 <= q < i implies (#[trigger] plans@[q]).parent != plan.parent by {
                    assert(plans@[q].parent != plans@[i as int].parent);
                }
                assert(before[plan.parent] == m0[plan.parent]);
                assert(plans@[i as int] == *plan);
            }
            let result = self.schism(
                plan.parent,
                &plan.converts,
                &plan.new_bins,
                num_heterodoxy_bins,
                num_age_bins,
                rng,
            );
            proof {
                lemma_schism_steps_chain(s0, s_before, *self);
                assert(s_before.active() == before);
                lemma_grid_sum_prefix(rows_view(plan.converts@), 0, 0, false);
            }
            match result {
                Err(e) => {
                    proof {
                        assert(!schism_applies(
                            before[plan.parent],
                            &plan.converts,
                            &plan.new_bins,
                            num_heterodoxy_bins,
                            num_age_bins,
                        ));
                        assert(!schism_applies(
                            m0[plans@[i as int].parent],
                            &plans@[i as int].converts,
                            &plans@[i as int].new_bins,
                            num_heterodoxy_bins,
                            num_age_bins,
                        ));
                    }
                    return Err(e);
                },
                Ok(outcome) => {
                    let ghost old_outcomes = outcomes@;
                    outcomes.push(outcome);
                    proof {
                        let after = self.active();
                        assert(schism_applies(
                            before[plan.parent],
                            &plan.converts,
                            &plan.new_bins,
                            num_heterodoxy_bins,
                            num_age_bins,
                        ));
                        if grid_total(rows_view(plan.converts@)) == 0 {
                            assert(after == before);
                        } else {
                            assert(outcome is Some);
                            assert(forall|j: ReligionKey|
                                before.dom().contains(j) && j != plan.parent ==> #[trigger] after[j] == before[j]);
                        }
                        assert(outcomes@ == old_outcomes.push(outcome));
                        // earlier plans: their parents and sects are untouched by this step
                        assert forall|q: int| 0 <= q < i + 1 implies plan_done(
                            m0,
                            after,
                            #[trigger] plans@[q],
                            outcomes@[q],
                            num_heterodoxy_bins,
                            num_age_bins,
                            year,
                        ) by {
                            if q < i {
                                let pq = plans@[q];
                                assert(outcomes@[q] == old_outcomes[q]);
                                assert(pq.parent != plan.parent);
                                assert(before.dom().contains(pq.parent));
                                assert(after[pq.parent] == before[pq.parent]);
                                if let Some(k) = outcomes@[q] {
                                    assert(old_outcomes[q] == Some(k));
                                    assert(before.dom().contains(k));
                                    assert(k != plan.parent);
                                    assert(after[k] == before[k]);
                                    lemma_founded_sect_stable(
                                        m0,
                                        before,
                                        after,
                                        pq.parent,
                                        k,
                                        rows_view(pq.converts@),
                                        pq.new_bins@,
                                        num_heterodoxy_bins as nat,
                                        num_age_bins as nat,
                                        year,
                                    );
                                }
                            } else {
                                assert(plans@[q] == *plan);
                                assert(outcomes@[q] == outcome);
                                if outcome is None {
                                    assert(after[plan.parent] == before[plan.parent]);
                                } else {
                                    let k = outcome.unwrap();
                                    assert(!before.dom().contains(k));
                                    assert(!m0.dom().contains(k));
                                }
                            }
                        }
                        assert forall|k: ReligionKey|
                            #[trigger] after.dom().contains(k) <==> (m0.dom().contains(k) || exists|q: int|
                                0 <= q < outcomes@.len() && outcomes@[q] == Some(k)) by {
                            if exists|q: int| 0 <= q < outcomes@.len() && outcomes@[q] == Some(k) {
                                let q = choose|q: int| 0 <= q < outcomes@.len() && outcomes@[q] == Some(k);
                                if q < i {
                                    assert(old_outcomes[q] == Some(k));
                                }
                            }
                            if before.dom().contains(k) && !m0.dom().contains(k) {
                                let q = choose|q: int| 0 <= q < old_outcomes.len() && old_outcomes[q] == Some(k);
                                assert(outcomes@[q] == Some(k));
                            }
                            if outcome == Some(k) {
                                assert(outcomes@[i as int] == Some(k));
                            }
                        }
                        assert forall|k: ReligionKey|
                            m0.dom().contains(k) && (forall|q: int| 0 <= q < i + 1 ==> (#[trigger] plans@[q]).parent
                                != k) implies #[trigger] after[k] == m0[k] by {
                            assert(plans@[i as int].parent != k);
                            assert(before.dom().contains(k));
                        }
                        assert(after.len() <= m0.len() + i + 1) by {
                            if outcome is Some {
                                assert(after.dom() =~= before.dom().insert(outcome.unwrap()));
                            } else {
                                assert(after.dom() =~= before.dom());
                            }
                        }
                    }
                },
            }
            i = i + 1;
        }
        Ok(outcomes)
    }
}

} // verus!
