use vstd::prelude::*;

use super::{history_kept, population_of, lemma_population_remove, Simulation};
use crate::histogram::{
    births_error, births_fit, column_sum, fits_under, grid_total, removal_error, rows_view, shifted,
    subtract_grid, add_births_grid, zero_row, Count, HistogramError,
};
use crate::religion::{Religion, ReligionKey};

verus! {

/// The adherents of an active religion, as a grid; nothing for an extinct one.
pub open spec fn adherents_view(r: Religion) -> Seq<Seq<Count>> {
    match r {
        Religion::Active { adherents, .. } => adherents@,
        Religion::Extinct { .. } => Seq::empty(),
    }
}

/// `b` is `a` with nothing changed but, possibly, its adherents: both active,
/// with the same name, founding date and parent.
pub open spec fn same_but_adherents(a: Religion, b: Religion) -> bool {
    &&& a is Active
    &&& b is Active
    &&& a.spec_name() == b.spec_name()
    &&& a.spec_founding_date() == b.spec_founding_date()
    &&& a.spec_parent() == b.spec_parent()
}

/// Bands a tick ages people by: a generation's years over the years per band.
pub open spec fn bands_to_advance(max_age_yrs: u8, num_age_bins: usize, generation_length_yrs: u8) -> nat {
    (generation_length_yrs as int / (max_age_yrs as int / num_age_bins as int)) as nat
}

/// A generation moves people up by the whole number of bands it spans:
/// `bands_to_advance` bands of `max_age_yrs / num_age_bins` years fit in it,
/// and one more would not.
pub proof fn lemma_generation_bands(max_age_yrs: u8, num_age_bins: usize, generation_length_yrs: u8)
    requires
        num_age_bins > 0,
        max_age_yrs as int / num_age_bins as int > 0,
    ensures
        ({
            let band_years = max_age_yrs as int / num_age_bins as int;
            let k = bands_to_advance(max_age_yrs, num_age_bins, generation_length_yrs) as int;
            &&& k * band_years <= generation_length_yrs
            &&& generation_length_yrs < (k + 1) * band_years
        }),
{
    let band_years = max_age_yrs as int / num_age_bins as int;
    let g = generation_length_yrs as int;
    vstd::arithmetic::div_mod::lemma_fundamental_div_mod(g, band_years);
    vstd::arithmetic::div_mod::lemma_mod_bound(g, band_years);
    vstd::arithmetic::div_mod::lemma_div_pos_is_pos(g, band_years);
    let q = g / band_years;
    assert((q + 1) * band_years == q * band_years + band_years) by (nonlinear_arith);
    assert(band_years * q == q * band_years) by (nonlinear_arith);
}

/// `after` is `before` aged by `k` bands of `width` cells.
pub open spec fn aged(before: Religion, after: Religion, k: nat, width: nat) -> bool {
    &&& same_but_adherents(before, after)
    &&& adherents_view(after) == shifted(adherents_view(before), k, width)
}

/// Replacing one religion of a map changes the total by the change in that religion.
pub proof fn lemma_population_replace(m: Map<ReligionKey, Religion>, k: ReligionKey, r: Religion)
    requires
        m.dom().finite(),
        m.dom().contains(k),
    ensures
        population_of(m.insert(k, r)) == population_of(m) - m[k].spec_total_population()
            + r.spec_total_population(),
{
    lemma_population_remove(m, k);
    lemma_population_remove(m.insert(k, r), k);
    assert(m.insert(k, r).remove(k) =~= m.remove(k));
}

impl Simulation {
    /// Takes `deaths[i][j]` people out of cell (`i`, `j`) of the living
    /// religion under `key`. Succeeds exactly when every positive amount fits
    /// in its cell; then the religion (and the world) loses exactly the
    /// deaths' total and nothing else changes. On failure nothing changes.
    pub fn remove_dead(&mut self, key: ReligionKey, deaths: &Vec<Vec<Count>>) -> (r: Result<
        (),
        HistogramError,
    >)
        requires
            old(self).wf(),
            old(self).active().dom().contains(key),
            forall|i: int, j: int|
                0 <= i < deaths@.len() && 0 <= j < deaths@[i]@.len() ==> #[trigger] deaths@[i]@[j].0
                    <= i64::MAX,
        ensures
            history_kept(*old(self), *final(self)),
            final(self).wf(),
            final(self).extinct() == old(self).extinct(),
            final(self).spec_scale() == old(self).spec_scale(),
            final(self).spec_seed() == old(self).spec_seed(),
            final(self).spec_current_year() == old(self).spec_current_year(),
            final(self).active().dom() == old(self).active().dom(),
            forall|k: ReligionKey|
                k != key && old(self).active().dom().contains(k) ==> #[trigger] final(self).active()[k]
                    == old(self).active()[k],
            r is Ok <==> fits_under(rows_view(deaths@), adherents_view(old(self).active()[key])),
            r is Ok ==> {
                &&& same_but_adherents(old(self).active()[key], final(self).active()[key])
                &&& adherents_view(final(self).active()[key]) == subtract_grid(
                    adherents_view(old(self).active()[key]),
                    rows_view(deaths@),
                )
                &&& final(self).spec_total_population() == old(self).spec_total_population()
                    - grid_total(rows_view(deaths@))
            },
            r is Err ==> final(self).active() == old(self).active(),
            r matches Err(e) ==> removal_error(
                rows_view(deaths@),
                adherents_view(old(self).active()[key]),
                e,
            ),
    {
        let ghost m0 = self.active();
        match self.religion(key) {
            Some(Religion::Active { adherents, .. }) => {
                let checked = adherents.check_removal(deaths);
                if let Err(e) = checked {
                    return Err(e);
                }
            },
            _ => {
                assert(false);
            },
        }
        let religion = self.take_religion(key);
        let religion = match religion {
            Religion::Active { name, founding_date, parent, mut adherents } => {
                let result = adherents.remove_counts(deaths);
                assert(result is Ok);
                Religion::Active { name, founding_date, parent, adherents }
            },
            other => other,
        };
        self.put_religion(key, religion);
        proof {
            assert(self.active() =~= m0.insert(key, religion));
            lemma_population_replace(m0, key, religion);
        }
        Ok(())
    }

    /// Ages every living religion by one generation: each moves up by
    /// `generation_length_yrs / (max_age_yrs / num_age_bins)` age bands,
    /// with that many empty youngest bands (of `num_heterodoxy_bins + 1`
    /// cells) in front and the same number of oldest bands dropped.
    pub fn increment_age(
        &mut self,
        max_age_yrs: u8,
        num_age_bins: usize,
        generation_length_yrs: u8,
        num_heterodoxy_bins: usize,
    )
        requires
            old(self).wf(),
            num_age_bins > 0,
            max_age_yrs as int / num_age_bins as int > 0,
            num_heterodoxy_bins < usize::MAX,
        ensures
            history_kept(*old(self), *final(self)),
            final(self).wf(),
            final(self).extinct() == old(self).extinct(),
            final(self).spec_scale() == old(self).spec_scale(),
            final(self).spec_seed() == old(self).spec_seed(),
            final(self).spec_current_year() == old(self).spec_current_year(),
            final(self).active().dom() == old(self).active().dom(),
            forall|k: ReligionKey| #[trigger]
                old(self).active().dom().contains(k) ==> aged(
                    old(self).active()[k],
                    final(self).active()[k],
                    bands_to_advance(max_age_yrs, num_age_bins, generation_length_yrs),
                    (num_heterodoxy_bins + 1) as nat,
                ),
            forall|k: ReligionKey| #[trigger]
                old(self).active().dom().contains(k) ==> adherents_view(final(self).active()[k]).len()
                    == adherents_view(old(self).active()[k]).len(),
            forall|k: ReligionKey, j: int|
                old(self).active().dom().contains(k) && generation_length_yrs as int / (max_age_yrs as int
                    / num_age_bins as int) <= j < adherents_view(old(self).active()[k]).len() ==> #[trigger] adherents_view(
                    final(self).active()[k],
                )[j] == adherents_view(old(self).active()[k])[j - generation_length_yrs as int / (
                max_age_yrs as int / num_age_bins as int)],
            forall|k: ReligionKey, j: int|
                old(self).active().dom().contains(k) && 0 <= j < adherents_view(old(self).active()[k]).len()
                    && j < generation_length_yrs as int / (max_age_yrs as int / num_age_bins as int)
                    ==> #[trigger] adherents_view(final(self).active()[k])[j] == zero_row(
                    (num_heterodoxy_bins + 1) as nat,
                ),
    {
        let years_per_band: usize = max_age_yrs as usize / num_age_bins;
        let bands: usize = generation_length_yrs as usize / years_per_band;
        let row_width: usize = num_heterodoxy_bins + 1;
        let ghost m0 = self.active();
        let keys = self.religion_keys();
        let mut i: usize = 0;
        while i < keys.len()
            invariant
                i <= keys@.len(),
                keys@.no_duplicates(),
                forall|k: ReligionKey| m0.dom().contains(k) <==> keys@.contains(k),
                self.wf(),
                self.active().dom() == m0.dom(),
                self.extinct() == old(self).extinct(),
                self.spec_scale() == old(self).spec_scale(),
                self.spec_seed() == old(self).spec_seed(),
                self.spec_current_year() == old(self).spec_current_year(),
                m0 == old(self).active(),
                old(self).wf(),
                bands == bands_to_advance(max_age_yrs, num_age_bins, generation_length_yrs),
                row_width == num_heterodoxy_bins + 1,
                forall|p: int|
                    0 <= p < i ==> aged(
                        m0[#[trigger] keys@[p]],
                        self.active()[keys@[p]],
                        bands as nat,
                        row_width as nat,
                    ),
                forall|k: ReligionKey|
                    m0.dom().contains(k) && !keys@.take(i as int).contains(k) ==> #[trigger] self.active()[k]
                        == m0[k],
            decreases keys@.len() - i,
        {
            let key = keys[i];
            proof {
                assert(keys@.contains(key)) by {
                    assert(keys@[i as int] == key);
                }
                assert(!keys@.take(i as int).contains(key)) by {
                    if keys@.take(i as int).contains(key) {
                        let q = choose|q: int| 0 <= q < i && keys@.take(i as int)[q] == key;
                        assert(keys@[q] == keys@[i as int]);
                    }
                }
            }
            let ghost before = self.active();
            let religion = self.take_religion(key);
            let religion = match religion {
                Religion::Active { name, founding_date, parent, mut adherents } => {
                    adherents.shift_ages(bands, row_width);
                    Religion::Active { name, founding_date, parent, adherents }
                },
                other => other,
            };
            self.put_religion(key, religion);
            proof {
                assert(self.active() =~= before.insert(key, religion));
                assert forall|p: int| 0 <= p < i + 1 implies aged(
                    m0[#[trigger] keys@[p]],
                    self.active()[keys@[p]],
                    bands as nat,
                    row_width as nat,
                ) by {
                    if p < i {
                        assert(keys@[p] != key) by {
                            assert(keys@.no_duplicates());
                        }
                    }
                }
                assert forall|k: ReligionKey|
                    m0.dom().contains(k) && !keys@.take(i + 1).contains(k) implies #[trigger] self.active()[k]
                        == m0[k] by {
                    if k == key {
                        assert(keys@.take(i + 1)[i as int] == key);
                    } else {
                        assert(!keys@.take(i as int).contains(k)) by {
                            if keys@.take(i as int).contains(k) {
                                let q = choose|q: int| 0 <= q < i && keys@.take(i as int)[q] == k;
                                assert(keys@.take(i + 1)[q] == k);
                            }
                        }
                    }
                }
            }
            i = i + 1;
        }
        proof {
            assert forall|k: ReligionKey| #[trigger] old(self).active().dom().contains(k) implies aged(
                old(self).active()[k],
                self.active()[k],
                bands as nat,
                row_width as nat,
            ) by {
                assert(keys@.contains(k));
                let q = choose|q: int| 0 <= q < keys@.len() && keys@[q] == k;
                assert(aged(m0[keys@[q]], self.active()[keys@[q]], bands as nat, row_width as nat));
            }
        }
    }

    /// Adds the newborns of the living religion under `key` to its youngest
    /// band: for every bin `j`, the sum of column `j` of `born`, where
    /// `born[i][j]` are the children of the people in cell (`i`, `j`), at most
    /// one each in a generation. Succeeds
    /// exactly when every positive amount falls in a bin of an existing
    /// youngest band; then the religion (and the world) gains exactly the
    /// newborns' total and nothing else changes. On failure nothing changes.
    pub fn add_births(&mut self, key: ReligionKey, born: &Vec<Vec<Count>>) -> (r: Result<
        (),
        HistogramError,
    >)
        requires
            old(self).wf(),
            old(self).active().dom().contains(key),
            fits_under(rows_view(born@), adherents_view(old(self).active()[key])),
            adherents_view(old(self).active()[key]).len() > 0 ==> forall|q: int|
                0 <= q < adherents_view(old(self).active()[key])[0].len() ==> adherents_view(
                    old(self).active()[key],
                )[0][q].0 + #[trigger] column_sum(rows_view(born@), q) <= i64::MAX,
        ensures
            history_kept(*old(self), *final(self)),
            final(self).wf(),
            final(self).extinct() == old(self).extinct(),
            final(self).spec_scale() == old(self).spec_scale(),
            final(self).spec_seed() == old(self).spec_seed(),
            final(self).spec_current_year() == old(self).spec_current_year(),
            final(self).active().dom() == old(self).active().dom(),
            forall|k: ReligionKey|
                k != key && old(self).active().dom().contains(k) ==> #[trigger] final(self).active()[k]
                    == old(self).active()[k],
            r is Ok <==> births_fit(rows_view(born@), adherents_view(old(self).active()[key])),
            r is Ok ==> {
                &&& same_but_adherents(old(self).active()[key], final(self).active()[key])
                &&& adherents_view(final(self).active()[key]) == add_births_grid(
                    adherents_view(old(self).active()[key]),
                    rows_view(born@),
                )
                &&& final(self).spec_total_population() == old(self).spec_total_population()
                    + grid_total(rows_view(born@))
            },
            r is Err ==> final(self).active() == old(self).active(),
            r matches Err(e) ==> births_error(rows_view(born@), adherents_view(old(self).active()[key]), e),
    {
        let ghost m0 = self.active();
        match self.religion(key) {
            Some(Religion::Active { adherents, .. }) => {
                let checked = adherents.check_births(born);
                if let Err(e) = checked {
                    return Err(e);
                }
            },
            _ => {
                assert(false);
            },
        }
        let religion = self.take_religion(key);
        let religion = match religion {
            Religion::Active { name, founding_date, parent, mut adherents } => {
                let result = adherents.add_births(born);
                assert(result is Ok);
                Religion::Active { name, founding_date, parent, adherents }
            },
            other => other,
        };
        self.put_religion(key, religion);
        proof {
            assert(self.active() =~= m0.insert(key, religion));
            lemma_population_replace(m0, key, religion);
        }
        Ok(())
    }
}

} // verus!
