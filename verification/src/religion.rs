use rand::rngs::SmallRng;
use slotmap::DefaultKey;
use vstd::prelude::*;

use crate::histogram::{grid_total, PopulationHistogram};

pub mod naming;
pub mod types;

use naming::generate_name;

verus! {

/// A key of the slot map that holds the religions.
#[verifier::external_type_specification]
#[verifier::external_body]
pub struct ExDefaultKey(DefaultKey);

/// Identifies a religion in the simulation.
pub type ReligionKey = DefaultKey;

/// A religion: alive, with a population histogram of its adherents, or
/// extinct, remembered by name, founding date, parent and extinction date.
pub enum Religion {
    Active {
        name: String,
        founding_date: u32,
        parent: Option<ReligionKey>,
        adherents: PopulationHistogram,
    },
    Extinct { name: String, founding_date: u32, parent: Option<ReligionKey>, extinction_date: u32 },
}

impl Religion {
    /// The religion's name.
    pub open spec fn spec_name(&self) -> Seq<char> {
        match self {
            Religion::Active { name, .. } => name@,
            Religion::Extinct { name, .. } => name@,
        }
    }

    /// The year the religion was founded.
    pub open spec fn spec_founding_date(&self) -> u32 {
        match self {
            Religion::Active { founding_date, .. } => *founding_date,
            Religion::Extinct { founding_date, .. } => *founding_date,
        }
    }

    /// The religion it broke away from, if any.
    pub open spec fn spec_parent(&self) -> Option<ReligionKey> {
        match self {
            Religion::Active { parent, .. } => *parent,
            Religion::Extinct { parent, .. } => *parent,
        }
    }

    /// The year it died out, if it has.
    pub open spec fn spec_extinction_date(&self) -> Option<u32> {
        match self {
            Religion::Active { .. } => None,
            Religion::Extinct { extinction_date, .. } => Some(*extinction_date),
        }
    }

    /// Its living adherents: the histogram's total while active, none once extinct.
    pub open spec fn spec_total_population(&self) -> int {
        match self {
            Religion::Active { adherents, .. } => grid_total(adherents@),
            Religion::Extinct { .. } => 0,
        }
    }

    /// Its population can be counted in a `u64`.
    pub open spec fn population_fits(&self) -> bool {
        self.spec_total_population() <= u64::MAX
    }

    /// A new active religion founded in `founding_date` with the given
    /// adherents. A root religion (no `parent`) gets one of the base names;
    /// a sect of the religion named `p` with key `k` records `k` as its parent
    /// and is named by a modifier before `p`. The name is drawn with `rng`.
    pub fn new(
        parent: Option<(&str, ReligionKey)>,
        founding_date: u32,
        rng: &mut SmallRng,
        adherents: PopulationHistogram,
    ) -> (r: Self)
        ensures
            r matches Religion::Active { founding_date: f, adherents: a, .. } && f
                == founding_date && a == adherents,
            parent is None ==> r.spec_parent() is None && naming::base_name_views().contains(
                r.spec_name(),
            ),
            parent matches Some(pk) ==> r.spec_parent() == Some(pk.1) && exists|i: int|
                0 <= i < naming::modifier_views().len() && r.spec_name()
                    == naming::modifier_views()[i] + " "@ + pk.0@,
    {
        match parent {
            None => Religion::Active {
                name: generate_name(None, rng),
                founding_date,
                parent: None,
                adherents,
            },
            Some((parent_religion_name, parent_id)) => Religion::Active {
                name: generate_name(Some(parent_religion_name), rng),
                founding_date,
                parent: Some(parent_id),
                adherents,
            },
        }
    }

    /// The religion's name.
    pub fn name(&self) -> (r: &str)
        ensures
            r@ == self.spec_name(),
    {
        match self {
            Religion::Active { name, .. } => name.as_str(),
            Religion::Extinct { name, .. } => name.as_str(),
        }
    }

    /// The year the religion was founded.
    pub fn founding_date(&self) -> (r: u32)
        ensures
            r == self.spec_founding_date(),
    {
        match self {
            Religion::Active { founding_date, .. } => *founding_date,
            Religion::Extinct { founding_date, .. } => *founding_date,
        }
    }

    /// The religion it broke away from, if any.
    pub fn parent(&self) -> (r: Option<ReligionKey>)
        ensures
            r == self.spec_parent(),
    {
        match self {
            Religion::Active { parent, .. } => *parent,
            Religion::Extinct { parent, .. } => *parent,
        }
    }

    /// Marks an active religion extinct as of `extinction_date`, dropping its
    /// adherents and keeping its name, founding date and parent. A religion
    /// that is already extinct is left as it was.
    pub fn mark_extinct(&mut self, extinction_date: u32)
        ensures
            *old(self) is Extinct ==> *final(self) == *old(self),
            *old(self) is Active ==> *final(self) is Extinct && final(self).spec_name()
                == old(self).spec_name() && final(self).spec_founding_date()
                == old(self).spec_founding_date() && final(self).spec_parent()
                == old(self).spec_parent() && final(self).spec_extinction_date() == Some(
                extinction_date,
            ),
    {
        if self.is_extinct() {
            return;
        }
        let mut current = Religion::Extinct {
            name: String::new(),
            founding_date: 0,
            parent: None,
            extinction_date: 0,
        };
        core::mem::swap(self, &mut current);
        *self = match current {
            Religion::Active { name, founding_date, parent, .. } => Religion::Extinct {
                name,
                founding_date,
                parent,
                extinction_date,
            },
            already_extinct => already_extinct,
        };
    }

    /// Number of living adherents: the histogram's total, or zero once extinct.
    pub fn total_population(&self) -> (r: u64)
        requires
            self.population_fits(),
        ensures
            r == self.spec_total_population(),
    {
        match self {
            Religion::Active { adherents, .. } => adherents.total(),
            Religion::Extinct { .. } => 0,
        }
    }

    /// Number of living adherents, or `None` when it does not fit in a `u64`.
    pub fn checked_total_population(&self) -> (r: Option<u64>)
        ensures
            match r {
                Some(t) => t == self.spec_total_population(),
                None => self.spec_total_population() > u64::MAX,
            },
    {
        match self {
            Religion::Active { adherents, .. } => adherents.checked_total(),
            Religion::Extinct { .. } => Some(0),
        }
    }

    /// Whether the religion has died out.
    pub fn is_extinct(&self) -> (r: bool)
        ensures
            r == (self is Extinct),
    {
        match self {
            Religion::Active { .. } => false,
            Religion::Extinct { .. } => true,
        }
    }

    /// The year it died out, if it has.
    pub fn extinction_date(&self) -> (r: Option<u32>)
        ensures
            r == self.spec_extinction_date(),
    {
        match self {
            Religion::Active { .. } => None,
            Religion::Extinct { extinction_date, .. } => Some(*extinction_date),
        }
    }

    /// Years from founding to `current_year`, or to extinction for an extinct
    /// religion; zero if that end lies before the founding.
    pub fn age(&self, current_year: u32) -> (r: u32)
        ensures
            r == religion_age(self.spec_founding_date(), self.spec_extinction_date(), current_year),
            ({
                let end = match self.spec_extinction_date() {
                    Some(d) => d,
                    None => current_year,
                };
                r == if end >= self.spec_founding_date() {
                    end - self.spec_founding_date()
                } else {
                    0
                }
            }),
    {
        let end_year = match self.extinction_date() {
            Some(d) => d,
            None => current_year,
        };
        end_year.saturating_sub(self.founding_date())
    }
}

/// An extinct religion's age no longer changes: it is the same whatever the
/// current year.
pub proof fn lemma_extinct_age_frozen(founding: u32, extinction: u32, year: u32, later: u32)
    ensures
        religion_age(founding, Some(extinction), year) == religion_age(founding, Some(extinction), later),
{
}

/// A living religion founded by `year` grows older by exactly the years that
/// pass.
pub proof fn lemma_living_age_grows(founding: u32, year: u32, elapsed: u32)
    requires
        founding <= year,
        year + elapsed <= u32::MAX,
    ensures
        religion_age(founding, None, (year + elapsed) as u32) == religion_age(founding, None, year)
            + elapsed,
{
}

/// Years from `founding` to the extinction date if there is one, else to
/// `current_year`; zero when that end lies before `founding`.
pub open spec fn religion_age(founding: u32, extinction: Option<u32>, current_year: u32) -> u32 {
    let end = match extinction {
        Some(d) => d,
        None => current_year,
    };
    if end >= founding {
        (end - founding) as u32
    } else {
        0
    }
}

} // verus!
