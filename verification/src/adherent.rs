use vstd::prelude::*;

verus! {

/// Whether an adherent is alive; the dead are kept, marked, rather than removed.
#[derive(Debug, Clone, Copy, PartialEq, Eq, PartialOrd, Ord, Structural)]
pub enum AdherentStatus {
    Dead,
    Alive,
}

/// An adherent at or past `max_age_yrs` cannot survive a tick.
pub fn past_age_cap(age: u8, max_age_yrs: u8) -> (r: bool)
    ensures
        r == (age >= max_age_yrs),
{
    age >= max_age_yrs
}

/// The age after one generation, saturating at `u8::MAX`.
pub fn aged_by_generation(age: u8, generation_length_yrs: u8) -> (r: u8)
    ensures
        r == if age + generation_length_yrs > u8::MAX {
            u8::MAX as int
        } else {
            age + generation_length_yrs
        },
{
    age.saturating_add(generation_length_yrs)
}

} // verus!
