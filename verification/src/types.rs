use vstd::prelude::*;

verus! {

/// Describes whether a module completes independently or requires a stop.
#[derive(Debug, Clone, Copy, PartialEq, Eq, Structural)]
pub enum ModuleKind {
    Passive,
    Active,
}

/// The observable lifecycle state of an application.
#[derive(Debug, Clone, Copy, PartialEq, Eq, Structural)]
pub enum MicrodeApplicationState {
    Idle,
    Installing,
    Initialization,
    Setup,
    Running,
    TearDown,
    Shutdown,
    CleanUp,
    Finished,
    Failed,
}

/// The name under which a state is reported in diagnostics.
pub open spec fn state_name(state: MicrodeApplicationState) -> Seq<char> {
    match state {
        MicrodeApplicationState::Idle => "Idle"@,
        MicrodeApplicationState::Installing => "Installing"@,
        MicrodeApplicationState::Initialization => "Initialization"@,
        MicrodeApplicationState::Setup => "Setup"@,
        MicrodeApplicationState::Running => "Running"@,
        MicrodeApplicationState::TearDown => "TearDown"@,
        MicrodeApplicationState::Shutdown => "Shutdown"@,
        MicrodeApplicationState::CleanUp => "CleanUp"@,
        MicrodeApplicationState::Finished => "Finished"@,
        MicrodeApplicationState::Failed => "Failed"@,
    }
}

impl MicrodeApplicationState {
    /// The state's name, as its `Debug` output spells it.
    pub fn name(&self) -> (name: &'static str)
        ensures
            name@ == state_name(*self),
    {
        match self {
            MicrodeApplicationState::Idle => "Idle",
            MicrodeApplicationState::Installing => "Installing",
            MicrodeApplicationState::Initialization => "Initialization",
            MicrodeApplicationState::Setup => "Setup",
            MicrodeApplicationState::Running => "Running",
            MicrodeApplicationState::TearDown => "TearDown",
            MicrodeApplicationState::Shutdown => "Shutdown",
            MicrodeApplicationState::CleanUp => "CleanUp",
            MicrodeApplicationState::Finished => "Finished",
            MicrodeApplicationState::Failed => "Failed",
        }
    }

    /// Whether the lifecycle has left the installation phase.
    pub fn has_started(&self) -> (started: bool)
        ensures
            started <==> !(*self == MicrodeApplicationState::Idle
                || *self == MicrodeApplicationState::Installing),
    {
        match self {
            MicrodeApplicationState::Idle => false,
            MicrodeApplicationState::Installing => false,
            _ => true,
        }
    }
}

} // verus!
