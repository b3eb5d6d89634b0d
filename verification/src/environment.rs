use vstd::prelude::*;

verus! {

/// The kinds of land a simulation can start in.
#[derive(Debug, Clone, Copy, PartialEq, Eq, Structural)]
pub enum Environment {
    Desert,
    Jungle,
    Plains,
}

/// Per-environment tunables, resolved from the chosen `Environment`.
#[derive(Debug, Clone, Copy, PartialEq, Eq, Structural)]
pub struct EnvironmentConfig {
    /// carrying capacity (K): the living population the land can sustain. As
    /// the population approaches and passes it, mortality is scaled up, which
    /// bends otherwise exponential growth into an S-curve around K.
    pub carrying_capacity: u64,
}

/// The carrying capacity of each environment.
pub open spec fn carrying_capacity_of(env: Environment) -> u64 {
    match env {
        Environment::Desert => 100_000,
        Environment::Jungle => 1_000_000,
        Environment::Plains => 5_000_000,
    }
}

impl Environment {
    /// The environment's tunables: barren desert holds far fewer people than
    /// fertile plains, with jungle in between.
    pub fn config(&self) -> (r: EnvironmentConfig)
        ensures
            r.carrying_capacity == carrying_capacity_of(*self),
    {
        match self {
            Environment::Desert => EnvironmentConfig { carrying_capacity: 100_000 },
            Environment::Jungle => EnvironmentConfig { carrying_capacity: 1_000_000 },
            Environment::Plains => EnvironmentConfig { carrying_capacity: 5_000_000 },
        }
    }
}

impl Default for Environment {
    /// Plains.
    fn default() -> (r: Self)
        ensures
            r == Environment::Plains,
    {
        Environment::Plains
    }
}

impl Default for EnvironmentConfig {
    /// The tunables of the default environment, the plains.
    fn default() -> (r: Self)
        ensures
            r.carrying_capacity == carrying_capacity_of(Environment::Plains),
    {
        Environment::Plains.config()
    }
}

/// Desert holds fewer people than jungle, and jungle fewer than plains.
pub proof fn lemma_capacity_order()
    ensures
        carrying_capacity_of(Environment::Desert) < carrying_capacity_of(Environment::Jungle),
        carrying_capacity_of(Environment::Jungle) < carrying_capacity_of(Environment::Plains),
{
}

} // verus!
