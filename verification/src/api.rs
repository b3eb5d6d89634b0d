use vstd::prelude::*;

verus! {

/// The body of an error answer.
#[derive(Debug, Clone)]
pub struct ApiErrorBody {
    pub error: String,
}

/// Where the one simulation the service runs at a time stands.
#[derive(Debug, Clone)]
pub enum SimulationRunStatus {
    Idle,
    Running { generation: u32, total_generations: u32 },
    Complete { generation: u32, total_generations: u32 },
    Failed { error: String },
}

impl Default for SimulationRunStatus {
    /// Nothing has run yet.
    fn default() -> (r: Self)
        ensures
            r is Idle,
    {
        SimulationRunStatus::Idle
    }
}

impl SimulationRunStatus {
    /// Starts a run of `total_generations` generations at generation zero,
    /// unless one is already running: then the status stays as it was and
    /// the refusal says so.
    pub fn try_start(&mut self, total_generations: u32) -> (r: Result<(), ApiErrorBody>)
        ensures
            *old(self) is Running ==> (r matches Err(e) && e.error@
                == "a simulation is already running"@),
            *old(self) is Running ==> *final(self) == *old(self),
            !(*old(self) is Running) ==> r is Ok && *final(self) == (SimulationRunStatus::Running {
                generation: 0,
                total_generations,
            }),
    {
        if let SimulationRunStatus::Running { .. } = self {
            return Err(ApiErrorBody { error: "a simulation is already running".to_owned() });
        }
        *self = SimulationRunStatus::Running { generation: 0, total_generations };
        Ok(())
    }

    /// Records that `generation` of `total_generations` has finished.
    pub fn progress(&mut self, generation: u32, total_generations: u32)
        ensures
            *final(self) == (SimulationRunStatus::Running { generation, total_generations }),
    {
        *self = SimulationRunStatus::Running { generation, total_generations };
    }

    /// Records that the run finished all `total_generations` generations.
    pub fn complete(&mut self, total_generations: u32)
        ensures
            *final(self) == (SimulationRunStatus::Complete {
                generation: total_generations,
                total_generations,
            }),
    {
        *self = SimulationRunStatus::Complete { generation: total_generations, total_generations };
    }

    /// Records that the run failed with `error`.
    pub fn fail(&mut self, error: String)
        ensures
            *final(self) matches SimulationRunStatus::Failed { error: e } && e@ == error@,
    {
        *self = SimulationRunStatus::Failed { error };
    }

    /// Whether a run is in progress.
    pub fn is_running(&self) -> (r: bool)
        ensures
            r == (*self is Running),
    {
        match self {
            SimulationRunStatus::Running { .. } => true,
            _ => false,
        }
    }
}

} // verus!
