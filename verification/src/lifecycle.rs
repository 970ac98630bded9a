use std::collections::HashSet;

use vstd::prelude::*;

use crate::error::MicrodeError;
use crate::error_record::{result_matches, ErrorPriority, ErrorRecorder, RecordedView};
use crate::execution_result::MicrodeExecutionResult;
use crate::stop_request::MicrodeStopRequest;
use crate::text::concat2;
use crate::types::{state_name, MicrodeApplicationState, ModuleKind};

verus! {

/// How far one installed module has come through the lifecycle.
#[derive(Debug, Clone, Copy, PartialEq, Eq, Structural)]
pub enum ModuleStage {
    Installed,
    Initializing,
    Initialized,
    SettingUp,
    SetUp,
    Executing,
    Executed,
    TearingDown,
    TornDown,
    ShuttingDown,
    Shutdown,
    CleaningUp,
    CleanedUp,
}

/// The position of a stage in the lifecycle.
pub open spec fn stage_rank(stage: ModuleStage) -> int {
    match stage {
        ModuleStage::Installed => 0,
        ModuleStage::Initializing => 1,
        ModuleStage::Initialized => 2,
        ModuleStage::SettingUp => 3,
        ModuleStage::SetUp => 4,
        ModuleStage::Executing => 5,
        ModuleStage::Executed => 6,
        ModuleStage::TearingDown => 7,
        ModuleStage::TornDown => 8,
        ModuleStage::ShuttingDown => 9,
        ModuleStage::Shutdown => 10,
        ModuleStage::CleaningUp => 11,
        ModuleStage::CleanedUp => 12,
    }
}

impl ModuleStage {
    /// The position of the stage in the lifecycle.
    pub fn rank(&self) -> (rank: u8)
        ensures
            rank == stage_rank(*self),
    {
        match self {
            ModuleStage::Installed => 0,
            ModuleStage::Initializing => 1,
            ModuleStage::Initialized => 2,
            ModuleStage::SettingUp => 3,
            ModuleStage::SetUp => 4,
            ModuleStage::Executing => 5,
            ModuleStage::Executed => 6,
            ModuleStage::TearingDown => 7,
            ModuleStage::TornDown => 8,
            ModuleStage::ShuttingDown => 9,
            ModuleStage::Shutdown => 10,
            ModuleStage::CleaningUp => 11,
            ModuleStage::CleanedUp => 12,
        }
    }
}

/// The lifecycle phase an application is in.
#[derive(Debug, Clone, Copy, PartialEq, Eq, Structural)]
pub enum LifecyclePhase {
    Initialization,
    Setup,
    Running,
    Stopping,
    Teardown,
    Shutdown,
    Cleanup,
    Finished,
}

/// The position of a phase in the lifecycle.
pub open spec fn phase_rank(phase: LifecyclePhase) -> int {
    match phase {
        LifecyclePhase::Initialization => 0,
        LifecyclePhase::Setup => 1,
        LifecyclePhase::Running => 2,
        LifecyclePhase::Stopping => 3,
        LifecyclePhase::Teardown => 4,
        LifecyclePhase::Shutdown => 5,
        LifecyclePhase::Cleanup => 6,
        LifecyclePhase::Finished => 7,
    }
}

/// What the runtime has to do next.
#[derive(Debug, Clone, Copy, PartialEq, Eq, Structural)]
pub enum LifecycleStep {
    /// Initialize the module at this position, then report the outcome.
    Initialize(usize),
    /// Set up the module at this position, then report the outcome.
    Setup(usize),
    /// Run every module, and the application task if there is one.
    Execute,
    /// Tear down the module at this position, then report the outcome.
    Teardown(usize),
    /// Shut down the module at this position, then report the outcome.
    Shutdown(usize),
    /// Clean up the module at this position, then report the outcome.
    Cleanup(usize),
    /// Every phase is over; the result can be computed.
    Finish,
}

/// The lifecycle of the modules of one application, as its contracts see
/// it.
pub struct LifecycleView {
    pub kinds: Seq<ModuleKind>,
    pub stages: Seq<ModuleStage>,
    pub required: Seq<bool>,
    pub phase: LifecyclePhase,
    pub cursor: int,
    pub active: Option<int>,
    pub forward_failed: bool,
    pub errors: Seq<RecordedView>,
    pub state: MicrodeApplicationState,
}

/// The last module below position `below` whose stage lies in `[lo, hi)`.
pub open spec fn last_in_stages(stages: Seq<ModuleStage>, below: int, lo: int, hi: int) -> Option<int>
    decreases below,
{
    if below <= 0 {
        None
    } else if lo <= stage_rank(stages[below - 1]) < hi {
        Some(below - 1)
    } else {
        last_in_stages(stages, below - 1, lo, hi)
    }
}

/// A module found below a position stands below it and in the range.
pub proof fn lemma_last_in_stages(stages: Seq<ModuleStage>, below: int, lo: int, hi: int)
    ensures
        last_in_stages(stages, below, lo, hi) matches Some(k) ==> 0 <= k < below && lo <= stage_rank(
            stages[k],
        ) < hi,
        last_in_stages(stages, below, lo, hi) is None ==> forall|k: int|
            0 <= k < below ==> !(lo <= #[trigger] stage_rank(stages[k]) < hi),
    decreases below,
{
    if below > 0 {
        lemma_last_in_stages(stages, below - 1, lo, hi);
    }
}

/// The lifecycle after entering `phase`, reported as `state`, with the
/// cursor at `cursor`.
pub open spec fn entered(
    v: LifecycleView,
    phase: LifecyclePhase,
    state: MicrodeApplicationState,
    cursor: int,
) -> LifecycleView {
    LifecycleView { phase, state, cursor, ..v }
}

/// The step the runtime takes next and the lifecycle after it was handed
/// out, when `stop` says whether a stop was requested.
///
/// Initialization and setup go forward, one module at a time, until a
/// module fails, a stop is requested or every module is done; only when
/// neither failure nor stop happened does the next forward phase begin.
/// Execution starts every module at once. Teardown then visits, from the
/// last module down, those that began setup and were not torn down;
/// shutdown those that began initialization and were not shut down; and
/// cleanup every module.
pub open spec fn next_step_of(v: LifecycleView, stop: bool) -> (LifecycleView, LifecycleStep)
    decreases 8 - phase_rank(v.phase),
{
    let n = v.stages.len() as int;
    match v.phase {
        LifecyclePhase::Initialization => if !v.forward_failed && !stop && v.cursor < n {
            (
                LifecycleView {
                    stages: v.stages.update(v.cursor, ModuleStage::Initializing),
                    active: Some(v.cursor),
                    ..v
                },
                LifecycleStep::Initialize(v.cursor as usize),
            )
        } else if !v.forward_failed && !stop {
            next_step_of(entered(v, LifecyclePhase::Setup, MicrodeApplicationState::Setup, 0), stop)
        } else {
            next_step_of(entered(v, LifecyclePhase::Teardown, MicrodeApplicationState::TearDown, n), stop)
        },
        LifecyclePhase::Setup => if !v.forward_failed && !stop && v.cursor < n {
            (
                LifecycleView {
                    stages: v.stages.update(v.cursor, ModuleStage::SettingUp),
                    active: Some(v.cursor),
                    ..v
                },
                LifecycleStep::Setup(v.cursor as usize),
            )
        } else if !v.forward_failed && !stop {
            (
                LifecycleView {
                    phase: LifecyclePhase::Running,
                    state: MicrodeApplicationState::Running,
                    stages: Seq::new(v.stages.len(), |k: int| ModuleStage::Executing),
                    ..v
                },
                LifecycleStep::Execute,
            )
        } else {
            next_step_of(entered(v, LifecyclePhase::Teardown, MicrodeApplicationState::TearDown, n), stop)
        },
        LifecyclePhase::Running => (v, LifecycleStep::Execute),
        LifecyclePhase::Stopping => next_step_of(
            entered(v, LifecyclePhase::Teardown, MicrodeApplicationState::TearDown, n),
            stop,
        ),
        LifecyclePhase::Teardown => match last_in_stages(v.stages, v.cursor, 3, 7) {
            Some(k) => (
                LifecycleView {
                    stages: v.stages.update(k, ModuleStage::TearingDown),
                    cursor: k,
                    active: Some(k),
                    ..v
                },
                LifecycleStep::Teardown(k as usize),
            ),
            None => next_step_of(entered(v, LifecyclePhase::Shutdown, MicrodeApplicationState::Shutdown, n), stop),
        },
        LifecyclePhase::Shutdown => match last_in_stages(v.stages, v.cursor, 1, 9) {
            Some(k) => (
                LifecycleView {
                    stages: v.stages.update(k, ModuleStage::ShuttingDown),
                    cursor: k,
                    active: Some(k),
                    ..v
                },
                LifecycleStep::Shutdown(k as usize),
            ),
            None => next_step_of(entered(v, LifecyclePhase::Cleanup, MicrodeApplicationState::CleanUp, n), stop),
        },
        LifecyclePhase::Cleanup => if v.cursor > 0 {
            (
                LifecycleView {
                    stages: v.stages.update(v.cursor - 1, ModuleStage::CleaningUp),
                    cursor: v.cursor - 1,
                    active: Some(v.cursor - 1),
                    ..v
                },
                LifecycleStep::Cleanup((v.cursor - 1) as usize),
            )
        } else {
            (LifecycleView { phase: LifecyclePhase::Finished, ..v }, LifecycleStep::Finish)
        },
        LifecyclePhase::Finished => (v, LifecycleStep::Finish),
    }
}

/// Where a backward phase resumes: below its cursor while it runs, below
/// the last module when it has yet to begin.
pub open spec fn resume_bound(v: LifecycleView, phase: LifecyclePhase) -> int {
    if v.phase == phase {
        v.cursor
    } else {
        v.stages.len() as int
    }
}

/// Where a forward phase resumes: at its cursor while it runs, at the first
/// module when it has yet to begin.
pub open spec fn resume_start(v: LifecycleView, phase: LifecyclePhase) -> int {
    if v.phase == phase {
        v.cursor
    } else {
        0
    }
}

/// Forward phases take the modules in lifecycle order, one after the
/// other. Backward phases take them in reverse order: teardown the last
/// module, below where it stopped, that began setup and was not torn down;
/// shutdown the last that began initialization and was not shut down;
/// cleanup every module, each once.
pub proof fn lemma_step_order(v: LifecycleView, stop: bool)
    requires
        lifecycle_wf(v),
        v.active is None,
    ensures
        ({
            let step = next_step_of(v, stop).1;
            let n = v.stages.len() as int;
            &&& (step matches LifecycleStep::Initialize(k) ==> k == resume_start(v, LifecyclePhase::Initialization))
            &&& (phase_rank(v.phase) > 0 ==> !(step is Initialize))
            &&& (phase_rank(v.phase) > 1 ==> !(step is Setup))
            &&& (step matches LifecycleStep::Setup(k) ==> k == resume_start(v, LifecyclePhase::Setup))
            &&& (step matches LifecycleStep::Teardown(k) ==> {
                &&& 3 <= stage_rank(v.stages[k as int]) < 7
                &&& k < resume_bound(v, LifecyclePhase::Teardown)
                &&& forall|j: int| k < j < resume_bound(v, LifecyclePhase::Teardown) ==> !(3 <= #[trigger] stage_rank(v.stages[j]) < 7)
            })
            &&& (step matches LifecycleStep::Shutdown(k) ==> {
                &&& 1 <= stage_rank(v.stages[k as int]) < 9
                &&& k < resume_bound(v, LifecyclePhase::Shutdown)
                &&& forall|j: int| k < j < resume_bound(v, LifecyclePhase::Shutdown) ==> !(1 <= #[trigger] stage_rank(v.stages[j]) < 9)
            })
            &&& (step matches LifecycleStep::Cleanup(k) ==> k == resume_bound(v, LifecyclePhase::Cleanup) - 1)
        }),
    decreases 8 - phase_rank(v.phase),
{
    let n = v.stages.len() as int;
    assert((v.cursor as usize) as int == v.cursor);
    match v.phase {
        LifecyclePhase::Initialization => {
            if !(!v.forward_failed && !stop && v.cursor < n) {
                if !v.forward_failed && !stop {
                    lemma_step_order(entered(v, LifecyclePhase::Setup, MicrodeApplicationState::Setup, 0), stop);
                } else {
                    lemma_step_order(entered(v, LifecyclePhase::Teardown, MicrodeApplicationState::TearDown, n), stop);
                }
            }
        },
        LifecyclePhase::Setup => {
            if !(!v.forward_failed && !stop) {
                lemma_step_order(entered(v, LifecyclePhase::Teardown, MicrodeApplicationState::TearDown, n), stop);
            }
        },
        LifecyclePhase::Stopping => {
            lemma_step_order(entered(v, LifecyclePhase::Teardown, MicrodeApplicationState::TearDown, n), stop);
        },
        LifecyclePhase::Teardown => {
            lemma_last_in_stages(v.stages, v.cursor, 3, 7);
            if last_in_stages(v.stages, v.cursor, 3, 7) is None {
                lemma_step_order(entered(v, LifecyclePhase::Shutdown, MicrodeApplicationState::Shutdown, n), stop);
            } else {
                lemma_last_in_stages_is_last(v.stages, v.cursor, 3, 7);
            }
        },
        LifecyclePhase::Shutdown => {
            lemma_last_in_stages(v.stages, v.cursor, 1, 9);
            if last_in_stages(v.stages, v.cursor, 1, 9) is None {
                lemma_step_order(entered(v, LifecyclePhase::Cleanup, MicrodeApplicationState::CleanUp, n), stop);
            } else {
                lemma_last_in_stages_is_last(v.stages, v.cursor, 1, 9);
            }
        },
        _ => {},
    }
}

proof fn lemma_last_in_stages_is_last(stages: Seq<ModuleStage>, below: int, lo: int, hi: int)
    ensures
        last_in_stages(stages, below, lo, hi) matches Some(k) ==> forall|j: int|
            k < j < below ==> !(lo <= #[trigger] stage_rank(stages[j]) < hi),
    decreases below,
{
    if below > 0 && !(lo <= stage_rank(stages[below - 1]) < hi) {
        lemma_last_in_stages_is_last(stages, below - 1, lo, hi);
    }
}

/// The failures recorded so far followed by `error`, if it is one, with
/// `priority`.
pub open spec fn with_outcome(
    errors: Seq<RecordedView>,
    outcome: Result<(), MicrodeError>,
    priority: ErrorPriority,
) -> Seq<RecordedView> {
    match outcome {
        Ok(()) => errors,
        Err(error) => errors.push((error@, priority)),
    }
}

/// The lifecycle after the runtime reported `outcome` for the step of the
/// active module.
///
/// A forward step that succeeds moves the module on and the cursor past
/// it; one that fails is recorded and ends the forward phases, leaving the
/// module where it was. A backward step is recorded if it fails and moves
/// the module on either way.
pub open spec fn completed(v: LifecycleView, outcome: Result<(), MicrodeError>) -> LifecycleView {
    let k = v.active.unwrap();
    let done = LifecycleView { active: None, ..v };
    match v.phase {
        LifecyclePhase::Initialization => match outcome {
            Ok(()) => LifecycleView {
                stages: v.stages.update(k, ModuleStage::Initialized),
                cursor: k + 1,
                ..done
            },
            Err(error) => LifecycleView {
                forward_failed: true,
                errors: v.errors.push((error@, ErrorPriority::Lifecycle)),
                ..done
            },
        },
        LifecyclePhase::Setup => match outcome {
            Ok(()) => LifecycleView { stages: v.stages.update(k, ModuleStage::SetUp), cursor: k + 1, ..done },
            Err(error) => LifecycleView {
                forward_failed: true,
                errors: v.errors.push((error@, ErrorPriority::Lifecycle)),
                ..done
            },
        },
        LifecyclePhase::Teardown => LifecycleView {
            stages: v.stages.update(k, ModuleStage::TornDown),
            errors: with_outcome(v.errors, outcome, ErrorPriority::Lifecycle),
            ..done
        },
        LifecyclePhase::Shutdown => LifecycleView {
            stages: v.stages.update(k, ModuleStage::Shutdown),
            errors: with_outcome(v.errors, outcome, ErrorPriority::Lifecycle),
            ..done
        },
        _ => LifecycleView {
            stages: v.stages.update(k, ModuleStage::CleanedUp),
            errors: with_outcome(v.errors, outcome, ErrorPriority::Lifecycle),
            ..done
        },
    }
}

/// Whether some module is still running.
pub open spec fn running(stages: Seq<ModuleStage>) -> bool {
    exists|k: int| 0 <= k < stages.len() && stages[k] == ModuleStage::Executing
}

/// Whether the runtime still has to wait for some module to complete.
pub open spec fn awaiting(required: Seq<bool>) -> bool {
    exists|k: int| 0 <= k < required.len() && required[k]
}

/// The state an application ends in: failed when an error was reported or
/// the exit code is not zero, finished otherwise.
pub open spec fn final_state(result: MicrodeExecutionResult) -> MicrodeApplicationState {
    if result.error is Some || result.exit_code != 0 {
        MicrodeApplicationState::Failed
    } else {
        MicrodeApplicationState::Finished
    }
}

/// The failures recorded through the lifecycle followed by the error that
/// the stop request carried, if any.
pub open spec fn with_request(errors: Seq<RecordedView>, request: Option<MicrodeStopRequest>) -> Seq<
    RecordedView,
> {
    match request {
        Some(request) => match request.error {
            Some(error) => errors.push((error@, ErrorPriority::StopRequest)),
            None => errors,
        },
        None => errors,
    }
}

/// The exit code a stop request asked for.
pub open spec fn requested_exit_code(request: Option<MicrodeStopRequest>) -> Option<i32> {
    match request {
        Some(request) => request.exit_code,
        None => None,
    }
}

/// The lifecycle after the run of the module at `index` completed with
/// `outcome`: the module has executed, the runtime no longer waits for it,
/// and a failure is recorded.
pub open spec fn run_completed(v: LifecycleView, index: int, outcome: Result<(), MicrodeError>) -> LifecycleView {
    LifecycleView {
        stages: v.stages.update(index, ModuleStage::Executed),
        required: v.required.update(index, false),
        errors: with_outcome(v.errors, outcome, ErrorPriority::Execution),
        ..v
    }
}

/// The lifecycle once execution ends: it waits for every passive module
/// that has not completed.
pub open spec fn stopping_begun(v: LifecycleView) -> LifecycleView {
    LifecycleView {
        phase: LifecyclePhase::Stopping,
        required: Seq::new(
            v.kinds.len(),
            |k: int| v.kinds[k] == ModuleKind::Passive && v.stages[k] != ModuleStage::Executed,
        ),
        ..v
    }
}

/// The lifecycle after the module at `index` was asked to stop with
/// `outcome`: a failure is recorded; after a stop that succeeded the
/// runtime also waits for the module if it has not completed.
pub open spec fn stop_completed(v: LifecycleView, index: int, outcome: Result<(), MicrodeError>) -> LifecycleView {
    match outcome {
        Ok(()) => LifecycleView {
            required: v.required.update(
                index,
                v.required[index] || v.stages[index] != ModuleStage::Executed,
            ),
            ..v
        },
        Err(error) => LifecycleView { errors: v.errors.push((error@, ErrorPriority::Stop)), ..v },
    }
}

/// Drives the lifecycle of an application's modules: it decides which
/// module takes which step, tracks the stage of every module, and collects
/// the failures into the final result. The runtime performs each step and
/// reports its outcome.
pub struct Lifecycle {
    kinds: Vec<ModuleKind>,
    stages: Vec<ModuleStage>,
    required: HashSet<usize>,
    phase: LifecyclePhase,
    cursor: usize,
    active: Option<usize>,
    forward_failed: bool,
    errors: ErrorRecorder,
    state: MicrodeApplicationState,
}

impl View for Lifecycle {
    type V = LifecycleView;

    closed spec fn view(&self) -> LifecycleView {
        LifecycleView {
            kinds: self.kinds@,
            stages: self.stages@,
            required: Seq::new(self.kinds@.len(), |k: int| self.required@.contains(k as usize)),
            phase: self.phase,
            cursor: self.cursor as int,
            active: match self.active {
                Some(k) => Some(k as int),
                None => None,
            },
            forward_failed: self.forward_failed,
            errors: self.errors@,
            state: self.state,
        }
    }
}

/// The shape every lifecycle keeps: one stage and one completion flag per
/// module, the cursor within the modules, and the active module among them.
/// Cleanup goes from the last module down, so the modules above the cursor
/// are cleaned up; once the lifecycle has finished, every module is.
pub open spec fn lifecycle_wf(v: LifecycleView) -> bool {
    &&& v.stages.len() == v.kinds.len()
    &&& v.required.len() == v.kinds.len()
    &&& 0 <= v.cursor <= v.kinds.len()
    &&& v.kinds.len() < usize::MAX
    &&& (v.active matches Some(k) ==> 0 <= k < v.kinds.len())
    &&& (v.phase == LifecyclePhase::Cleanup ==> match v.active {
        None => forall|j: int| v.cursor <= j < v.kinds.len() ==> v.stages[j] == ModuleStage::CleanedUp,
        Some(k) => {
            &&& k == v.cursor
            &&& v.stages[k] == ModuleStage::CleaningUp
            &&& forall|j: int| k < j < v.kinds.len() ==> v.stages[j] == ModuleStage::CleanedUp
        },
    })
    &&& (v.phase == LifecyclePhase::Finished ==> forall|j: int|
        0 <= j < v.kinds.len() ==> v.stages[j] == ModuleStage::CleanedUp)
}

/// How far a forward phase has come while it runs: the modules before
/// the cursor are done with it, those after the cursor have not begun it,
/// and the module at the cursor has not begun it, is taking the step, or
/// failed it.
pub open spec fn forward_progress(v: LifecycleView) -> bool {
    &&& v.phase == LifecyclePhase::Initialization ==> forward_phase_progress(
        v,
        ModuleStage::Installed,
        ModuleStage::Initializing,
        ModuleStage::Initialized,
    )
    &&& v.phase == LifecyclePhase::Setup ==> forward_phase_progress(
        v,
        ModuleStage::Initialized,
        ModuleStage::SettingUp,
        ModuleStage::SetUp,
    )
}

/// The progress of a forward phase that moves modules from `before`
/// through `during` to `after`.
pub open spec fn forward_phase_progress(
    v: LifecycleView,
    before: ModuleStage,
    during: ModuleStage,
    after: ModuleStage,
) -> bool {
    let n = v.stages.len() as int;
    &&& forall|j: int| 0 <= j < v.cursor ==> v.stages[j] == after
    &&& forall|j: int| v.cursor < j < n ==> v.stages[j] == before
    &&& v.cursor < n ==> (v.stages[v.cursor] == before || (v.stages[v.cursor] == during && (v.active
        == Some(v.cursor) || v.forward_failed)))
    &&& (v.active matches Some(k) ==> k == v.cursor && v.stages[k] == during)
}

impl Lifecycle {
    /// The lifecycle of modules of the given kinds, in lifecycle order,
    /// about to be initialized.
    pub fn new(kinds: Vec<ModuleKind>) -> (lifecycle: Self)
        requires
            kinds@.len() < usize::MAX,
        ensures
            lifecycle_wf(lifecycle@),
            lifecycle@.kinds == kinds@,
            lifecycle@.stages == Seq::new(kinds@.len(), |k: int| ModuleStage::Installed),
            lifecycle@.required == Seq::new(kinds@.len(), |k: int| false),
            lifecycle@.phase == LifecyclePhase::Initialization,
            lifecycle@.cursor == 0,
            lifecycle@.active is None,
            !lifecycle@.forward_failed,
            lifecycle@.errors.len() == 0,
            lifecycle@.state == MicrodeApplicationState::Initialization,
            forward_progress(lifecycle@),
    {
        let n = kinds.len();
        let mut stages: Vec<ModuleStage> = Vec::new();
        let required: HashSet<usize> = HashSet::new();
        let mut k: usize = 0;
        while k < n
            invariant
                k <= n,
                stages@ == Seq::new(k as nat, |j: int| ModuleStage::Installed),
            decreases n - k,
        {
            stages.push(ModuleStage::Installed);
            k = k + 1;
            proof {
                assert(stages@ =~= Seq::new(k as nat, |j: int| ModuleStage::Installed));
            }
        }
        let lifecycle = Lifecycle {
            kinds,
            stages,
            required,
            phase: LifecyclePhase::Initialization,
            cursor: 0,
            active: None,
            forward_failed: false,
            errors: ErrorRecorder::new(),
            state: MicrodeApplicationState::Initialization,
        };
        proof {
            assert(lifecycle@.required =~= Seq::new(lifecycle@.kinds.len(), |k: int| false));
        }
        lifecycle
    }

    /// Marks whether the runtime waits for the module at `index`.
    fn set_required(&mut self, index: usize, waits: bool)
        requires
            index < old(self)@.kinds.len(),
        ensures
            final(self)@ == (LifecycleView { required: old(self)@.required.update(index as int, waits), ..old(self)@ }),
    {
        broadcast use vstd::std_specs::hash::group_hash_axioms;

        let ghost before = self.required@;
        if waits {
            self.required.insert(index);
            assert(self.required@ == before.insert(index));
        } else {
            self.required.remove(&index);
            assert(self.required@ == before.remove(index));
        }
        let len = self.kinds.len();
        proof {
            let n = self@.kinds.len();
            assert(n == len);
            assert forall|j: int| 0 <= j < n implies #[trigger] self@.required[j] == old(self)@.required.update(
                index as int,
                waits,
            )[j] by {
                assert((j as usize) as int == j);
            }
            assert(self@.required =~= old(self)@.required.update(index as int, waits));
        }
    }

    /// Whether the runtime waits for the module at `index`.
    fn is_required(&self, index: usize) -> (waits: bool)
        requires
            index < self@.kinds.len(),
        ensures
            waits == self@.required[index as int],
    {
        broadcast use vstd::std_specs::hash::group_hash_axioms;

        self.required.contains(&index)
    }

    /// The application state to report.
    pub fn state(&self) -> (state: MicrodeApplicationState)
        ensures
            state == self@.state,
    {
        self.state
    }

    /// The current phase.
    pub fn phase(&self) -> (phase: LifecyclePhase)
        ensures
            phase == self@.phase,
    {
        self.phase
    }

    /// The stage of the module at `index`.
    pub fn stage(&self, index: usize) -> (stage: ModuleStage)
        requires
            lifecycle_wf(self@),
            index < self@.kinds.len(),
        ensures
            stage == self@.stages[index as int],
    {
        self.stages[index]
    }

    /// Moves the module at `index` to `stage`.
    pub fn set_stage(&mut self, index: usize, stage: ModuleStage)
        requires
            lifecycle_wf(old(self)@),
            index < old(self)@.kinds.len(),
            old(self)@.phase != LifecyclePhase::Cleanup,
            old(self)@.phase != LifecyclePhase::Finished,
        ensures
            lifecycle_wf(final(self)@),
            final(self)@ == (LifecycleView { stages: old(self)@.stages.update(index as int, stage), ..old(self)@ }),
    {
        self.stages.set(index, stage);
    }

    /// The last module below the cursor whose stage lies in `[lo, hi)`.
    fn last_between(&self, lo: u8, hi: u8) -> (found: Option<usize>)
        requires
            lifecycle_wf(self@),
        ensures
            match found {
                Some(k) => last_in_stages(self@.stages, self@.cursor, lo as int, hi as int) == Some(k as int),
                None => last_in_stages(self@.stages, self@.cursor, lo as int, hi as int) is None,
            },
            found matches Some(k) ==> k < self@.cursor,
    {
        proof {
            lemma_last_in_stages(self@.stages, self@.cursor, lo as int, hi as int);
        }
        let mut below: usize = self.cursor;
        while below > 0
            invariant
                lifecycle_wf(self@),
                below <= self@.cursor,
                last_in_stages(self@.stages, self@.cursor, lo as int, hi as int) == last_in_stages(
                    self@.stages,
                    below as int,
                    lo as int,
                    hi as int,
                ),
            decreases below,
        {
            let rank = self.stages[below - 1].rank();
            if lo <= rank && rank < hi {
                return Some(below - 1);
            }
            below = below - 1;
        }
        None
    }

    /// Hands out the next step, given whether a stop was requested, and
    /// moves the module it concerns to the stage of that step.
    pub fn next_step(&mut self, stop_requested: bool) -> (step: LifecycleStep)
        requires
            lifecycle_wf(old(self)@),
            old(self)@.active is None,
            old(self)@.phase != LifecyclePhase::Running,
        ensures
            lifecycle_wf(final(self)@),
            (final(self)@, step) == next_step_of(old(self)@, stop_requested),
            step is Finish ==> forall|j: int|
                0 <= j < final(self)@.kinds.len() ==> final(self)@.stages[j] == ModuleStage::CleanedUp,
            forward_progress(old(self)@) ==> forward_progress(final(self)@),
            forward_progress(old(self)@) && step is Execute && old(self)@.phase != LifecyclePhase::Running
                ==> forall|j: int| 0 <= j < old(self)@.kinds.len() ==> old(self)@.stages[j] == ModuleStage::SetUp,
    {
        let n = self.stages.len();
        loop
            invariant
                lifecycle_wf(self@),
                n == self@.stages.len(),
                self@.active is None,
                self@.phase != LifecyclePhase::Running,
                next_step_of(self@, stop_requested) == next_step_of(old(self)@, stop_requested),
                self@.stages == old(self)@.stages,
                lifecycle_wf(old(self)@),
                forward_progress(old(self)@) ==> forward_progress(self@),
            decreases 8 - phase_rank(self@.phase),
        {
            match self.phase {
                LifecyclePhase::Initialization => {
                    if !self.forward_failed && !stop_requested && self.cursor < n {
                        let k = self.cursor;
                        self.stages.set(k, ModuleStage::Initializing);
                        self.active = Some(k);
                        return LifecycleStep::Initialize(k);
                    } else if !self.forward_failed && !stop_requested {
                        self.phase = LifecyclePhase::Setup;
                        self.state = MicrodeApplicationState::Setup;
                        self.cursor = 0;
                    } else {
                        self.phase = LifecyclePhase::Teardown;
                        self.state = MicrodeApplicationState::TearDown;
                        self.cursor = n;
                    }
                },
                LifecyclePhase::Setup => {
                    if !self.forward_failed && !stop_requested && self.cursor < n {
                        let k = self.cursor;
                        self.stages.set(k, ModuleStage::SettingUp);
                        self.active = Some(k);
                        return LifecycleStep::Setup(k);
                    } else if !self.forward_failed && !stop_requested {
                        let ghost before = self@;
                        proof {
                            if forward_progress(old(self)@) {
                                assert(forall|j: int| 0 <= j < n ==> old(self)@.stages[j] == ModuleStage::SetUp);
                            }
                        }
                        let mut k: usize = 0;
                        while k < n
                            invariant
                                n == self.stages@.len(),
                                k <= n,
                                self@ == (LifecycleView { stages: self@.stages, ..before }),
                                forall|j: int| 0 <= j < k ==> self.stages@[j] == ModuleStage::Executing,
                                n == old(self)@.stages.len(),
                                forward_progress(old(self)@) ==> forall|j: int|
                                    0 <= j < n ==> old(self)@.stages[j] == ModuleStage::SetUp,
                            decreases n - k,
                        {
                            self.stages.set(k, ModuleStage::Executing);
                            k = k + 1;
                        }
                        self.phase = LifecyclePhase::Running;
                        self.state = MicrodeApplicationState::Running;
                        proof {
                            assert(self.stages@ =~= Seq::new(before.stages.len(), |j: int| ModuleStage::Executing));
                        }
                        return LifecycleStep::Execute;
                    } else {
                        self.phase = LifecyclePhase::Teardown;
                        self.state = MicrodeApplicationState::TearDown;
                        self.cursor = n;
                    }
                },
                LifecyclePhase::Running => {
                    return LifecycleStep::Execute;
                },
                LifecyclePhase::Stopping => {
                    self.phase = LifecyclePhase::Teardown;
                    self.state = MicrodeApplicationState::TearDown;
                    self.cursor = n;
                },
                LifecyclePhase::Teardown => {
                    match self.last_between(3, 7) {
                        Some(k) => {
                            self.stages.set(k, ModuleStage::TearingDown);
                            self.cursor = k;
                            self.active = Some(k);
                            return LifecycleStep::Teardown(k);
                        },
                        None => {
                            self.phase = LifecyclePhase::Shutdown;
                            self.state = MicrodeApplicationState::Shutdown;
                            self.cursor = n;
                        },
                    }
                },
                LifecyclePhase::Shutdown => {
                    match self.last_between(1, 9) {
                        Some(k) => {
                            self.stages.set(k, ModuleStage::ShuttingDown);
                            self.cursor = k;
                            self.active = Some(k);
                            return LifecycleStep::Shutdown(k);
                        },
                        None => {
                            self.phase = LifecyclePhase::Cleanup;
                            self.state = MicrodeApplicationState::CleanUp;
                            self.cursor = n;
                        },
                    }
                },
                LifecyclePhase::Cleanup => {
                    if self.cursor > 0 {
                        let k = self.cursor - 1;
                        self.stages.set(k, ModuleStage::CleaningUp);
                        self.cursor = k;
                        self.active = Some(k);
                        return LifecycleStep::Cleanup(k);
                    } else {
                        self.phase = LifecyclePhase::Finished;
                        return LifecycleStep::Finish;
                    }
                },
                LifecyclePhase::Finished => {
                    return LifecycleStep::Finish;
                },
            }
        }
    }

    /// Takes the outcome of the step of the active module.
    pub fn complete_step(&mut self, outcome: Result<(), MicrodeError>)
        requires
            lifecycle_wf(old(self)@),
            old(self)@.active is Some,
        ensures
            lifecycle_wf(final(self)@),
            final(self)@ == completed(old(self)@, outcome),
            forward_progress(old(self)@) ==> forward_progress(final(self)@),
    {
        let k = self.active.unwrap();
        self.active = None;
        match self.phase {
            LifecyclePhase::Initialization => {
                match outcome {
                    Ok(()) => {
                        self.stages.set(k, ModuleStage::Initialized);
                        self.cursor = k + 1;
                    },
                    Err(error) => {
                        self.errors.record(error, ErrorPriority::Lifecycle);
                        self.forward_failed = true;
                    },
                }
            },
            LifecyclePhase::Setup => {
                match outcome {
                    Ok(()) => {
                        self.stages.set(k, ModuleStage::SetUp);
                        self.cursor = k + 1;
                    },
                    Err(error) => {
                        self.errors.record(error, ErrorPriority::Lifecycle);
                        self.forward_failed = true;
                    },
                }
            },
            LifecyclePhase::Teardown => {
                self.record_outcome(outcome, ErrorPriority::Lifecycle);
                self.stages.set(k, ModuleStage::TornDown);
            },
            LifecyclePhase::Shutdown => {
                self.record_outcome(outcome, ErrorPriority::Lifecycle);
                self.stages.set(k, ModuleStage::Shutdown);
            },
            _ => {
                self.record_outcome(outcome, ErrorPriority::Lifecycle);
                self.stages.set(k, ModuleStage::CleanedUp);
            },
        }
    }

    /// Records the error of an outcome, if it is one.
    fn record_outcome(&mut self, outcome: Result<(), MicrodeError>, priority: ErrorPriority)
        ensures
            final(self)@ == (LifecycleView {
                errors: with_outcome(old(self)@.errors, outcome, priority),
                ..old(self)@
            }),
    {
        match outcome {
            Ok(()) => {},
            Err(error) => {
                self.errors.record(error, priority);
            },
        }
    }

    /// Whether some module is still running.
    pub fn has_running_modules(&self) -> (any: bool)
        requires
            lifecycle_wf(self@),
        ensures
            any == running(self@.stages),
    {
        let n = self.stages.len();
        let mut k: usize = 0;
        while k < n
            invariant
                n == self@.stages.len(),
                k <= n,
                forall|j: int| 0 <= j < k ==> self@.stages[j] != ModuleStage::Executing,
            decreases n - k,
        {
            if self.stages[k] == ModuleStage::Executing {
                return true;
            }
            k = k + 1;
        }
        false
    }

    /// Takes the outcome of the run of the module at `index`, and says
    /// whether the application should stop: an active module completed, or
    /// a run failed.
    pub fn run_finished(&mut self, index: usize, outcome: Result<(), MicrodeError>) -> (stop: bool)
        requires
            lifecycle_wf(old(self)@),
            index < old(self)@.kinds.len(),
            old(self)@.phase == LifecyclePhase::Running || old(self)@.phase == LifecyclePhase::Stopping,
        ensures
            lifecycle_wf(final(self)@),
            stop == (old(self)@.kinds[index as int] == ModuleKind::Active || outcome is Err),
            final(self)@ == run_completed(old(self)@, index as int, outcome),
    {
        let failed = outcome.is_err();
        self.stages.set(index, ModuleStage::Executed);
        self.set_required(index, false);
        self.record_outcome(outcome, ErrorPriority::Execution);
        self.kinds[index] == ModuleKind::Active || failed
    }

    /// Takes the outcome of the application task, and says that the
    /// application stops: its task has completed, whether or not it failed.
    pub fn main_finished(&mut self, outcome: Result<(), MicrodeError>) -> (stop: bool)
        requires
            lifecycle_wf(old(self)@),
        ensures
            stop,
            lifecycle_wf(final(self)@),
            final(self)@ == (LifecycleView {
                errors: with_outcome(old(self)@.errors, outcome, ErrorPriority::Execution),
                ..old(self)@
            }),
    {
        self.record_outcome(outcome, ErrorPriority::Execution);
        true
    }

    /// Ends execution: every module is asked to stop, from the last one
    /// down, and the runtime waits for the passive modules that have not
    /// completed yet. Returns the positions in the order to stop them.
    pub fn begin_stopping(&mut self) -> (order: Vec<usize>)
        requires
            lifecycle_wf(old(self)@),
            old(self)@.phase == LifecyclePhase::Running,
        ensures
            lifecycle_wf(final(self)@),
            final(self)@ == stopping_begun(old(self)@),
            order@.len() == old(self)@.kinds.len(),
            forall|i: int| 0 <= i < order@.len() ==> order@[i] == order@.len() - 1 - i,
    {
        let ghost before = self@;
        let n = self.kinds.len();
        let mut k: usize = 0;
        while k < n
            invariant
                n == self@.kinds.len(),
                k <= n,
                self@ == (LifecycleView { required: self@.required, ..before }),
                lifecycle_wf(self@),
                forall|j: int| 0 <= j < k ==> self@.required[j] == (before.kinds[j] == ModuleKind::Passive && before.stages[j] != ModuleStage::Executed),
            decreases n - k,
        {
            let waits = self.kinds[k] == ModuleKind::Passive && self.stages[k] != ModuleStage::Executed;
            self.set_required(k, waits);
            k = k + 1;
        }
        self.phase = LifecyclePhase::Stopping;
        proof {
            assert(self@.required =~= Seq::new(
                before.kinds.len(),
                |j: int| before.kinds[j] == ModuleKind::Passive && before.stages[j] != ModuleStage::Executed,
            ));
        }
        let mut order: Vec<usize> = Vec::new();
        let mut i: usize = 0;
        while i < n
            invariant
                i <= n,
                order@.len() == i,
                forall|j: int| 0 <= j < i ==> order@[j] == n - 1 - j,
            decreases n - i,
        {
            order.push(n - 1 - i);
            i = i + 1;
        }
        order
    }

    /// Takes the outcome of asking the module at `index` to stop: a failure
    /// is recorded; after a stop that succeeded the runtime waits for the
    /// module if it has not completed.
    pub fn stop_finished(&mut self, index: usize, outcome: Result<(), MicrodeError>)
        requires
            lifecycle_wf(old(self)@),
            index < old(self)@.kinds.len(),
        ensures
            lifecycle_wf(final(self)@),
            final(self)@ == stop_completed(old(self)@, index as int, outcome),
    {
        match outcome {
            Ok(()) => {
                let waits = self.is_required(index) || self.stages[index] != ModuleStage::Executed;
                self.set_required(index, waits);
            },
            Err(error) => {
                self.errors.record(error, ErrorPriority::Stop);
            },
        }
    }

    /// Whether the runtime still waits for some module to complete.
    pub fn awaits_completions(&self) -> (waits: bool)
        requires
            lifecycle_wf(self@),
        ensures
            waits == awaiting(self@.required),
    {
        let n = self.kinds.len();
        let mut k: usize = 0;
        while k < n
            invariant
                n == self@.required.len(),
                k <= n,
                forall|j: int| 0 <= j < k ==> !self@.required[j],
            decreases n - k,
        {
            if self.is_required(k) {
                return true;
            }
            k = k + 1;
        }
        false
    }

    /// The execution result, with the stop request that ended the
    /// lifecycle if there was one, and the state the application ends in.
    pub fn finish(self, stop_request: Option<MicrodeStopRequest>) -> (outcome: (
        MicrodeExecutionResult,
        MicrodeApplicationState,
    ))
        requires
            self@.phase == LifecyclePhase::Finished,
        ensures
            result_matches(
                outcome.0,
                with_request(self@.errors, stop_request),
                requested_exit_code(stop_request),
            ),
            outcome.1 == final_state(outcome.0),
    {
        let mut errors = self.errors;
        let exit_code = match &stop_request {
            Some(request) => request.exit_code,
            None => None,
        };
        match stop_request {
            Some(request) => match request.error {
                Some(error) => errors.record(error, ErrorPriority::StopRequest),
                None => {},
            },
            None => {},
        }
        let result = errors.into_result(exit_code);
        let state = if result.error.is_some() || result.exit_code != 0 {
            MicrodeApplicationState::Failed
        } else {
            MicrodeApplicationState::Finished
        };
        (result, state)
    }
}

/// The diagnostic for stopping an application that has not started.
pub open spec fn not_started_message(state: MicrodeApplicationState) -> Seq<char> {
    "cannot stop application before it has started; current state: "@ + state_name(state)
}

/// Refuses a stop before the lifecycle has started.
pub fn ensure_stoppable(state: MicrodeApplicationState) -> (result: Result<(), MicrodeError>)
    ensures
        match result {
            Ok(()) => !(state == MicrodeApplicationState::Idle || state == MicrodeApplicationState::Installing),
            Err(e) => (state == MicrodeApplicationState::Idle || state == MicrodeApplicationState::Installing)
                && e@ == not_started_message(state),
        },
{
    if state.has_started() {
        Ok(())
    } else {
        Err(MicrodeError::from_message(concat2("cannot stop application before it has started; current state: ", state.name())))
    }
}

/// The request a latch holds after `request` arrives while it held `held`:
/// the one it held, if any, else `request`.
pub open spec fn latched(held: Option<MicrodeStopRequest>, request: MicrodeStopRequest) -> Option<
    MicrodeStopRequest,
> {
    match held {
        Some(_) => held,
        None => Some(request),
    }
}

/// The request a latch holds after `requests` arrive one after the other
/// while it held `held`.
pub open spec fn latched_all(held: Option<MicrodeStopRequest>, requests: Seq<MicrodeStopRequest>) -> Option<
    MicrodeStopRequest,
>
    decreases requests.len(),
{
    if requests.len() == 0 {
        held
    } else {
        latched_all(latched(held, requests[0]), requests.drop_first())
    }
}

/// The first stop request wins: a latch keeps the request it holds, and a
/// latch that holds none keeps the first of the requests that arrive.
pub proof fn lemma_first_request_wins(held: Option<MicrodeStopRequest>, requests: Seq<MicrodeStopRequest>)
    ensures
        latched_all(held, requests) == match held {
            Some(_) => held,
            None => if requests.len() == 0 {
                None
            } else {
                Some(requests[0])
            },
        },
    decreases requests.len(),
{
    if requests.len() > 0 {
        lemma_first_request_wins(latched(held, requests[0]), requests.drop_first());
    }
}

/// Holds the stop request of an application: the first one that arrives.
pub struct StopLatch {
    pub request: Option<MicrodeStopRequest>,
}

impl StopLatch {
    /// A latch that holds no request.
    pub fn new() -> (latch: Self)
        ensures
            latch.request is None,
    {
        StopLatch { request: None }
    }

    /// Keeps `request` if no stop was requested before, and says whether
    /// it was kept; a later request changes nothing.
    pub fn request_stop(&mut self, request: MicrodeStopRequest) -> (first: bool)
        ensures
            first == old(self).request is None,
            final(self).request == latched(old(self).request, request),
    {
        if self.request.is_none() {
            self.request = Some(request);
            true
        } else {
            false
        }
    }

    /// Whether a stop was requested.
    pub fn stop_requested(&self) -> (requested: bool)
        ensures
            requested == self.request is Some,
    {
        self.request.is_some()
    }
}

} // verus!
