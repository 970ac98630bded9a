use vstd::prelude::*;

use crate::error::MicrodeError;
use crate::error_record::{ErrorPriority, RecordedView};
use crate::lifecycle::{
    awaiting, completed, entered, forward_progress, last_in_stages, lifecycle_wf, next_step_of,
    phase_rank, run_completed, stage_rank, stop_completed, stopping_begun, with_outcome,
    LifecyclePhase, LifecycleStep, LifecycleView, ModuleStage,
};
use crate::types::{MicrodeApplicationState, ModuleKind};

verus! {

/// The failures among `outcomes`, in their order, each with `priority`.
pub open spec fn outcome_errors(outcomes: Seq<Result<(), MicrodeError>>, priority: ErrorPriority) -> Seq<
    RecordedView,
>
    decreases outcomes.len(),
{
    if outcomes.len() == 0 {
        Seq::empty()
    } else {
        with_outcome(Seq::empty(), outcomes[0], priority) + outcome_errors(outcomes.drop_first(), priority)
    }
}

/// The lifecycle after the modules from position `top` down were asked to
/// stop, one after the other, with `outcomes` in turn.
pub open spec fn stops_completed(v: LifecycleView, outcomes: Seq<Result<(), MicrodeError>>, top: int) -> LifecycleView
    decreases outcomes.len(),
{
    if outcomes.len() == 0 {
        v
    } else {
        stops_completed(stop_completed(v, top, outcomes[0]), outcomes.drop_first(), top - 1)
    }
}

proof fn lemma_stops_completed(v: LifecycleView, outcomes: Seq<Result<(), MicrodeError>>, top: int)
    requires
        top < v.required.len(),
        top - outcomes.len() >= -1,
        v.stages.len() == v.required.len(),
    ensures
        ({
            let w = stops_completed(v, outcomes, top);
            &&& w == (LifecycleView { required: w.required, errors: w.errors, ..v })
            &&& w.required.len() == v.required.len()
            &&& forall|k: int|
                0 <= k < v.required.len() ==> #[trigger] w.required[k] == if top - outcomes.len() < k <= top {
                    v.required[k] || (outcomes[top - k] is Ok && v.stages[k] != ModuleStage::Executed)
                } else {
                    v.required[k]
                }
            &&& w.errors == v.errors + outcome_errors(outcomes, ErrorPriority::Stop)
        }),
    decreases outcomes.len(),
{
    if outcomes.len() == 0 {
        assert(v.errors + outcome_errors(outcomes, ErrorPriority::Stop) =~= v.errors);
    } else {
        let v1 = stop_completed(v, top, outcomes[0]);
        let rest = outcomes.drop_first();
        lemma_stops_completed(v1, rest, top - 1);
        let w = stops_completed(v, outcomes, top);
        assert forall|k: int| 0 <= k < v.required.len() implies #[trigger] w.required[k] == if top
            - outcomes.len() < k <= top {
            v.required[k] || (outcomes[top - k] is Ok && v.stages[k] != ModuleStage::Executed)
        } else {
            v.required[k]
        } by {
            if top - outcomes.len() < k < top {
                assert(rest[top - 1 - k] == outcomes[top - k]);
            }
        }
        assert(v1.errors == v.errors + with_outcome(Seq::empty(), outcomes[0], ErrorPriority::Stop));
        assert(w.errors =~= v.errors + outcome_errors(outcomes, ErrorPriority::Stop));
    }
}

/// The positions below `below` whose stage lies in `[lo, hi)`, from the
/// last one down.
pub open spec fn positions_in_stages(stages: Seq<ModuleStage>, below: int, lo: int, hi: int) -> Seq<int>
    decreases below,
{
    if below <= 0 {
        Seq::empty()
    } else if lo <= stage_rank(stages[below - 1]) < hi {
        seq![below - 1] + positions_in_stages(stages, below - 1, lo, hi)
    } else {
        positions_in_stages(stages, below - 1, lo, hi)
    }
}

/// The positions listed are exactly those below `below` whose stage lies in
/// `[lo, hi)`, each once, from the last one down.
pub proof fn lemma_positions_in_stages(stages: Seq<ModuleStage>, below: int, lo: int, hi: int)
    ensures
        ({
            let ks = positions_in_stages(stages, below, lo, hi);
            &&& forall|i: int, j: int| 0 <= i < j < ks.len() ==> ks[i] > ks[j]
            &&& forall|k: int| ks.contains(k) <==> (0 <= k < below && lo <= stage_rank(stages[k]) < hi)
        }),
    decreases below,
{
    if below > 0 {
        lemma_positions_in_stages(stages, below - 1, lo, hi);
        let ks = positions_in_stages(stages, below, lo, hi);
        let rest = positions_in_stages(stages, below - 1, lo, hi);
        if lo <= stage_rank(stages[below - 1]) < hi {
            assert forall|k: int| ks.contains(k) <==> (0 <= k < below && lo <= stage_rank(stages[k]) < hi) by {
                if ks.contains(k) {
                    let i = choose|i: int| 0 <= i < ks.len() && ks[i] == k;
                    if i > 0 {
                        assert(rest[i - 1] == k);
                        assert(rest.contains(k));
                    }
                }
                if 0 <= k < below - 1 && lo <= stage_rank(stages[k]) < hi {
                    assert(rest.contains(k));
                    let i = choose|i: int| 0 <= i < rest.len() && rest[i] == k;
                    assert(ks[i + 1] == rest[i]);
                    assert(ks.contains(k));
                }
                if k == below - 1 {
                    assert(ks[0] == k);
                }
            }
            assert forall|i: int, j: int| 0 <= i < j < ks.len() implies ks[i] > ks[j] by {
                if i == 0 {
                    assert(rest.contains(ks[j]));
                } else {
                    assert(ks[i] == rest[i - 1] && ks[j] == rest[j - 1]);
                }
            }
        }
    }
}

/// The first position listed is the module `last_in_stages` finds, and the
/// others are those below it.
proof fn lemma_positions_first(stages: Seq<ModuleStage>, below: int, lo: int, hi: int)
    ensures
        ({
            let ks = positions_in_stages(stages, below, lo, hi);
            &&& ks.len() == 0 <==> last_in_stages(stages, below, lo, hi) is None
            &&& ks.len() > 0 ==> last_in_stages(stages, below, lo, hi) == Some(ks[0])
                && ks.drop_first() == positions_in_stages(stages, ks[0], lo, hi)
                && 0 <= ks[0] < below
        }),
    decreases below,
{
    if below > 0 && !(lo <= stage_rank(stages[below - 1]) < hi) {
        lemma_positions_first(stages, below - 1, lo, hi);
    }
    if below > 0 && lo <= stage_rank(stages[below - 1]) < hi {
        let ks = positions_in_stages(stages, below, lo, hi);
        assert(ks.drop_first() =~= positions_in_stages(stages, below - 1, lo, hi));
    }
}

/// Changing the stage of a module leaves the positions below it as they
/// were.
proof fn lemma_positions_update(stages: Seq<ModuleStage>, k: int, stage: ModuleStage, below: int, lo: int, hi: int)
    requires
        0 <= k < stages.len(),
        below <= k,
    ensures
        positions_in_stages(stages.update(k, stage), below, lo, hi) == positions_in_stages(stages, below, lo, hi),
    decreases below,
{
    if below > 0 {
        lemma_positions_update(stages, k, stage, below - 1, lo, hi);
    }
}

/// The lifecycle after the runtime took, one after the other, the steps
/// that `Lifecycle::next_step` hands out while `stop` says whether a stop
/// was requested, and reported `outcomes` for them in turn through
/// `Lifecycle::complete_step`, with the steps it took; it ends early at a
/// step that concerns no single module.
pub open spec fn driven(v: LifecycleView, stop: bool, outcomes: Seq<Result<(), MicrodeError>>) -> (
    LifecycleView,
    Seq<LifecycleStep>,
)
    decreases outcomes.len(),
{
    if outcomes.len() == 0 {
        (v, Seq::empty())
    } else {
        let (w, step) = next_step_of(v, stop);
        if step is Execute || step is Finish {
            (v, Seq::empty())
        } else {
            let rest = driven(completed(w, outcomes[0]), stop, outcomes.drop_first());
            (rest.0, seq![step] + rest.1)
        }
    }
}

/// The stages a backward phase visits: from teardown on, those that began
/// setup and were not torn down; from shutdown on, those that began
/// initialization and were not shut down; in cleanup, every stage.
pub open spec fn unwind_low(phase: LifecyclePhase) -> int {
    match phase {
        LifecyclePhase::Teardown => 3,
        LifecyclePhase::Shutdown => 1,
        _ => 0,
    }
}

/// The upper end of the stages a backward phase visits.
pub open spec fn unwind_high(phase: LifecyclePhase) -> int {
    match phase {
        LifecyclePhase::Teardown => 7,
        LifecyclePhase::Shutdown => 9,
        _ => 13,
    }
}

/// The stage a backward phase leaves a module in.
pub open spec fn unwind_done(phase: LifecyclePhase) -> ModuleStage {
    match phase {
        LifecyclePhase::Teardown => ModuleStage::TornDown,
        LifecyclePhase::Shutdown => ModuleStage::Shutdown,
        _ => ModuleStage::CleanedUp,
    }
}

/// The step of a backward phase for the module at position `k`.
pub open spec fn unwind_step(phase: LifecyclePhase, k: int) -> LifecycleStep {
    match phase {
        LifecyclePhase::Teardown => LifecycleStep::Teardown(k as usize),
        LifecyclePhase::Shutdown => LifecycleStep::Shutdown(k as usize),
        _ => LifecycleStep::Cleanup(k as usize),
    }
}

/// Whether the phase is one of the backward phases.
pub open spec fn is_unwinding(phase: LifecyclePhase) -> bool {
    phase == LifecyclePhase::Teardown || phase == LifecyclePhase::Shutdown || phase == LifecyclePhase::Cleanup
}

proof fn lemma_unwind_run(v: LifecycleView, stop: bool, outcomes: Seq<Result<(), MicrodeError>>)
    requires
        is_unwinding(v.phase),
        v.active is None,
        v.stages.len() == v.kinds.len(),
        0 <= v.cursor <= v.kinds.len(),
        v.kinds.len() < usize::MAX,
        outcomes.len() == positions_in_stages(v.stages, v.cursor, unwind_low(v.phase), unwind_high(v.phase)).len(),
    ensures
        ({
            let lo = unwind_low(v.phase);
            let hi = unwind_high(v.phase);
            let ks = positions_in_stages(v.stages, v.cursor, lo, hi);
            let (w, steps) = driven(v, stop, outcomes);
            &&& steps.len() == ks.len()
            &&& forall|i: int| 0 <= i < ks.len() ==> #[trigger] steps[i] == unwind_step(v.phase, ks[i])
            &&& w.stages.len() == v.stages.len()
            &&& forall|j: int|
                0 <= j < v.stages.len() ==> #[trigger] w.stages[j] == if ks.contains(j) {
                    unwind_done(v.phase)
                } else {
                    v.stages[j]
                }
            &&& w.errors == v.errors + outcome_errors(outcomes, ErrorPriority::Lifecycle)
            &&& w == (LifecycleView { stages: w.stages, errors: w.errors, cursor: w.cursor, ..v })
            &&& 0 <= w.cursor <= v.cursor
            &&& positions_in_stages(w.stages, w.cursor, lo, hi).len() == 0
        }),
    decreases outcomes.len(),
{
    let lo = unwind_low(v.phase);
    let hi = unwind_high(v.phase);
    let ks = positions_in_stages(v.stages, v.cursor, lo, hi);
    lemma_positions_first(v.stages, v.cursor, lo, hi);
    lemma_positions_in_stages(v.stages, v.cursor, lo, hi);
    if outcomes.len() == 0 {
        assert(v.errors + outcome_errors(outcomes, ErrorPriority::Lifecycle) =~= v.errors);
        assert(v.stages =~= Seq::new(v.stages.len(), |j: int| v.stages[j]));
    } else {
        let k = ks[0];
        assert((k as usize) as int == k);
        if v.phase == LifecyclePhase::Cleanup {
            assert(0 <= stage_rank(v.stages[v.cursor - 1]) < 13);
        }
        let (w0, step) = next_step_of(v, stop);
        assert(step == unwind_step(v.phase, k));
        let v1 = completed(w0, outcomes[0]);
        assert(v1.stages == v.stages.update(k, unwind_done(v.phase)));
        assert(v1.cursor == k);
        lemma_positions_update(v.stages, k, unwind_done(v.phase), k, lo, hi);
        lemma_unwind_run(v1, stop, outcomes.drop_first());
        let (w, steps) = driven(v, stop, outcomes);
        let rest = driven(v1, stop, outcomes.drop_first());
        assert(w == rest.0);
        assert(steps == seq![step] + rest.1);
        let ks1 = ks.drop_first();
        assert forall|i: int| 0 <= i < ks.len() implies #[trigger] steps[i] == unwind_step(v.phase, ks[i]) by {
            if i > 0 {
                assert(steps[i] == rest.1[i - 1]);
                assert(ks[i] == ks1[i - 1]);
            }
        }
        assert forall|j: int| 0 <= j < v.stages.len() implies #[trigger] w.stages[j] == if ks.contains(j) {
            unwind_done(v.phase)
        } else {
            v.stages[j]
        } by {
            lemma_positions_in_stages(v.stages, k, lo, hi);
            if ks1.contains(j) {
                assert(ks.contains(j));
            } else if j == k {
                assert(ks.contains(j));
            } else if ks.contains(j) {
                let i = choose|i: int| 0 <= i < ks.len() && ks[i] == j;
                assert(i != 0);
                assert(ks1[i - 1] == j);
            }
        }
        assert(v1.errors == v.errors + with_outcome(Seq::empty(), outcomes[0], ErrorPriority::Lifecycle));
        assert(w.errors =~= v.errors + outcome_errors(outcomes, ErrorPriority::Lifecycle));
    }
}

/// In cleanup every position below the cursor is listed, from the last one
/// down.
proof fn lemma_positions_all(stages: Seq<ModuleStage>, below: int)
    requires
        0 <= below,
    ensures
        positions_in_stages(stages, below, 0, 13) == Seq::new(below as nat, |i: int| below - 1 - i),
    decreases below,
{
    if below > 0 {
        assert(0 <= stage_rank(stages[below - 1]) < 13);
        lemma_positions_all(stages, below - 1);
        assert(positions_in_stages(stages, below, 0, 13) =~= Seq::new(below as nat, |i: int| below - 1 - i));
    }
}

/// A backward phase, from wherever it stands until it ends, visits each
/// module it concerns exactly once, from the last one down: teardown the
/// modules that began setup and were not torn down, shutdown those that
/// began initialization and were not shut down, cleanup every module below
/// its cursor. A failure does not skip the modules after it: each visited
/// module ends in the stage the phase leaves it in, the other modules keep
/// theirs, and the failures are recorded in the order of the calls after
/// those recorded before. Then teardown goes on to shutdown, shutdown to
/// cleanup, and cleanup ends the lifecycle with every module cleaned up.
pub proof fn lemma_backward_phase(v: LifecycleView, stop: bool, outcomes: Seq<Result<(), MicrodeError>>)
    requires
        lifecycle_wf(v),
        is_unwinding(v.phase),
        v.active is None,
        outcomes.len() == positions_in_stages(v.stages, v.cursor, unwind_low(v.phase), unwind_high(v.phase)).len(),
    ensures
        ({
            let n = v.kinds.len() as int;
            let lo = unwind_low(v.phase);
            let hi = unwind_high(v.phase);
            let ks = positions_in_stages(v.stages, v.cursor, lo, hi);
            let (w, steps) = driven(v, stop, outcomes);
            &&& forall|i: int, j: int| 0 <= i < j < ks.len() ==> ks[i] > ks[j]
            &&& forall|k: int| ks.contains(k) <==> (0 <= k < v.cursor && lo <= stage_rank(v.stages[k]) < hi)
            &&& v.phase == LifecyclePhase::Cleanup ==> ks == Seq::new(v.cursor as nat, |i: int| v.cursor - 1 - i)
            &&& steps.len() == ks.len()
            &&& forall|i: int| 0 <= i < ks.len() ==> #[trigger] steps[i] == unwind_step(v.phase, ks[i])
            &&& w.stages.len() == n
            &&& forall|j: int|
                0 <= j < n ==> #[trigger] w.stages[j] == if ks.contains(j) {
                    unwind_done(v.phase)
                } else {
                    v.stages[j]
                }
            &&& w.errors == v.errors + outcome_errors(outcomes, ErrorPriority::Lifecycle)
            &&& w == (LifecycleView { stages: w.stages, errors: w.errors, cursor: w.cursor, ..v })
            &&& v.phase == LifecyclePhase::Teardown ==> next_step_of(w, stop) == next_step_of(
                entered(w, LifecyclePhase::Shutdown, MicrodeApplicationState::Shutdown, n),
                stop,
            )
            &&& v.phase == LifecyclePhase::Shutdown ==> next_step_of(w, stop) == next_step_of(
                entered(w, LifecyclePhase::Cleanup, MicrodeApplicationState::CleanUp, n),
                stop,
            )
            &&& v.phase == LifecyclePhase::Cleanup ==> next_step_of(w, stop).1 == LifecycleStep::Finish
                && forall|j: int| 0 <= j < n ==> w.stages[j] == ModuleStage::CleanedUp
        }),
{
    let lo = unwind_low(v.phase);
    let hi = unwind_high(v.phase);
    lemma_positions_in_stages(v.stages, v.cursor, lo, hi);
    lemma_unwind_run(v, stop, outcomes);
    let (w, steps) = driven(v, stop, outcomes);
    lemma_positions_first(w.stages, w.cursor, lo, hi);
    if v.phase == LifecyclePhase::Cleanup {
        lemma_positions_all(v.stages, v.cursor);
        lemma_positions_all(w.stages, w.cursor);
        let ks = positions_in_stages(v.stages, v.cursor, lo, hi);
        assert forall|j: int| 0 <= j < v.kinds.len() implies w.stages[j] == ModuleStage::CleanedUp by {
            if j < v.cursor {
                assert(ks[v.cursor - 1 - j] == j);
                assert(ks.contains(j));
            }
        }
    }
}

/// Whether the phase is one of the forward phases.
pub open spec fn is_forward(phase: LifecyclePhase) -> bool {
    phase == LifecyclePhase::Initialization || phase == LifecyclePhase::Setup
}

/// The stage a module is in before a forward phase reaches it.
pub open spec fn forward_before(phase: LifecyclePhase) -> ModuleStage {
    if phase == LifecyclePhase::Initialization {
        ModuleStage::Installed
    } else {
        ModuleStage::Initialized
    }
}

/// The stage a forward phase leaves a module in when its step succeeds.
pub open spec fn forward_after(phase: LifecyclePhase) -> ModuleStage {
    if phase == LifecyclePhase::Initialization {
        ModuleStage::Initialized
    } else {
        ModuleStage::SetUp
    }
}

/// The step of a forward phase for the module at position `k`.
pub open spec fn forward_step(phase: LifecyclePhase, k: int) -> LifecycleStep {
    if phase == LifecyclePhase::Initialization {
        LifecycleStep::Initialize(k as usize)
    } else {
        LifecycleStep::Setup(k as usize)
    }
}

/// The stages of `n` modules while a forward phase stands at position `k`:
/// those before it are done, it is `at`, those after it have not begun.
pub open spec fn forward_stages(phase: LifecyclePhase, n: int, k: int, at: ModuleStage) -> Seq<ModuleStage> {
    Seq::new(
        n as nat,
        |j: int|
            if j < k {
                forward_after(phase)
            } else if j == k {
                at
            } else {
                forward_before(phase)
            },
    )
}

proof fn lemma_forward_steps(v: LifecycleView, outcomes: Seq<Result<(), MicrodeError>>)
    requires
        is_forward(v.phase),
        v.active is None,
        !v.forward_failed,
        v.stages.len() == v.kinds.len(),
        v.kinds.len() < usize::MAX,
        0 <= v.cursor,
        v.cursor + outcomes.len() <= v.kinds.len(),
        v.stages == forward_stages(v.phase, v.kinds.len() as int, v.cursor, forward_before(v.phase)),
        forall|i: int| 0 <= i < outcomes.len() ==> #[trigger] outcomes[i] is Ok,
    ensures
        ({
            let n = v.kinds.len() as int;
            let m = outcomes.len() as int;
            let (w, steps) = driven(v, false, outcomes);
            &&& steps.len() == m
            &&& forall|i: int| 0 <= i < m ==> #[trigger] steps[i] == forward_step(v.phase, v.cursor + i)
            &&& w == (LifecycleView {
                stages: forward_stages(v.phase, n, v.cursor + m, forward_before(v.phase)),
                cursor: v.cursor + m,
                ..v
            })
        }),
    decreases outcomes.len(),
{
    let n = v.kinds.len() as int;
    if outcomes.len() > 0 {
        let c = v.cursor;
        let (w0, step) = next_step_of(v, false);
        assert(step == forward_step(v.phase, c));
        assert(outcomes[0] is Ok);
        let v1 = completed(w0, outcomes[0]);
        assert(v1.stages =~= forward_stages(v.phase, n, c + 1, forward_before(v.phase)));
        assert(v1 == (LifecycleView {
            stages: forward_stages(v.phase, n, c + 1, forward_before(v.phase)),
            cursor: c + 1,
            ..v
        }));
        lemma_forward_steps(v1, outcomes.drop_first());
        let (w, steps) = driven(v, false, outcomes);
        let rest = driven(v1, false, outcomes.drop_first());
        assert(steps == seq![step] + rest.1);
        assert forall|i: int| 0 <= i < outcomes.len() implies #[trigger] steps[i] == forward_step(v.phase, c + i) by {
            if i > 0 {
                assert(steps[i] == rest.1[i - 1]);
            }
        }
    }
}

/// The stages of `n` modules that have not begun the lifecycle.
pub open spec fn all_installed(n: int) -> Seq<ModuleStage> {
    Seq::new(n as nat, |j: int| ModuleStage::Installed)
}

/// The forward phases of a lifecycle that has just been created, when
/// every outcome reported is a success and no stop is requested: the steps
/// handed out and where the lifecycle stands after them.
proof fn lemma_forward_prefix(v: LifecycleView, outcomes: Seq<Result<(), MicrodeError>>)
    requires
        lifecycle_wf(v),
        v.phase == LifecyclePhase::Initialization,
        v.cursor == 0,
        v.active is None,
        !v.forward_failed,
        v.stages == all_installed(v.kinds.len() as int),
        outcomes.len() <= 2 * v.kinds.len(),
        forall|i: int| 0 <= i < outcomes.len() ==> #[trigger] outcomes[i] is Ok,
    ensures
        ({
            let n = v.kinds.len() as int;
            let m = outcomes.len() as int;
            let (w, steps) = driven(v, false, outcomes);
            &&& steps.len() == m
            &&& forall|i: int| 0 <= i < m && i < n ==> #[trigger] steps[i] == LifecycleStep::Initialize(i as usize)
            &&& forall|i: int| n <= i < m ==> #[trigger] steps[i] == LifecycleStep::Setup((i - n) as usize)
            &&& m <= n ==> w == (LifecycleView {
                stages: forward_stages(LifecyclePhase::Initialization, n, m, ModuleStage::Installed),
                cursor: m,
                ..v
            })
            &&& m > n ==> w == (LifecycleView {
                phase: LifecyclePhase::Setup,
                state: MicrodeApplicationState::Setup,
                stages: forward_stages(LifecyclePhase::Setup, n, m - n, ModuleStage::Initialized),
                cursor: m - n,
                ..v
            })
        }),
{
    let n = v.kinds.len() as int;
    let m = outcomes.len() as int;
    assert(v.stages =~= forward_stages(LifecyclePhase::Initialization, n, 0, ModuleStage::Installed));
    if m <= n {
        lemma_forward_steps(v, outcomes);
    } else {
        let a = outcomes.subrange(0, n);
        let b = outcomes.subrange(n, m);
        assert(outcomes =~= a + b);
        lemma_forward_steps(v, a);
        lemma_driven_append(v, false, a, b);
        let (w1, st1) = driven(v, false, a);
        let u = entered(w1, LifecyclePhase::Setup, MicrodeApplicationState::Setup, 0);
        assert(u.stages =~= forward_stages(LifecyclePhase::Setup, n, 0, ModuleStage::Initialized));
        assert(next_step_of(w1, false) == next_step_of(u, false));
        lemma_forward_steps(u, b);
        assert(driven(w1, false, b) == driven(u, false, b));
        let (w, steps) = driven(v, false, outcomes);
        let st2 = driven(u, false, b).1;
        assert(steps == st1 + st2);
        assert forall|i: int| n <= i < m implies #[trigger] steps[i] == LifecycleStep::Setup((i - n) as usize) by {
            assert(steps[i] == st2[i - n]);
        }
    }
}

/// When every module initializes and sets up successfully and no stop is
/// requested, the lifecycle initializes every module in lifecycle order,
/// then sets up every module in the same order, and then runs them all;
/// no failure is recorded on the way.
pub proof fn lemma_successful_start(v: LifecycleView, outcomes: Seq<Result<(), MicrodeError>>)
    requires
        lifecycle_wf(v),
        v.phase == LifecyclePhase::Initialization,
        v.cursor == 0,
        v.active is None,
        !v.forward_failed,
        v.stages == all_installed(v.kinds.len() as int),
        outcomes.len() == 2 * v.kinds.len(),
        forall|i: int| 0 <= i < outcomes.len() ==> #[trigger] outcomes[i] is Ok,
    ensures
        ({
            let n = v.kinds.len() as int;
            let (w, steps) = driven(v, false, outcomes);
            &&& steps.len() == 2 * n
            &&& forall|i: int| 0 <= i < n ==> #[trigger] steps[i] == LifecycleStep::Initialize(i as usize)
            &&& forall|i: int| 0 <= i < n ==> #[trigger] steps[n + i] == LifecycleStep::Setup(i as usize)
            &&& forall|j: int| 0 <= j < n ==> #[trigger] w.stages[j] == ModuleStage::SetUp
            &&& w.errors == v.errors
            &&& next_step_of(w, false).1 == LifecycleStep::Execute
        }),
{
    let n = v.kinds.len() as int;
    lemma_forward_prefix(v, outcomes);
    let (w, steps) = driven(v, false, outcomes);
    assert forall|i: int| 0 <= i < n implies #[trigger] steps[n + i] == LifecycleStep::Setup(i as usize) by {
        assert(steps[n + i] == LifecycleStep::Setup(((n + i) - n) as usize));
    }
    if n == 0 {
        assert(next_step_of(w, false) == next_step_of(
            entered(w, LifecyclePhase::Setup, MicrodeApplicationState::Setup, 0),
            false,
        ));
    }
}

/// A forward step that fails, with no stop requested, ends the forward
/// phases: when the modules before it in the lifecycle succeeded, the
/// module at position `p` fails to initialize (or, after every module
/// initialized, to set up), the steps handed out so far are those of the
/// modules up to it in turn, the failed module stays in the stage of its
/// step, the failure is recorded, and the backward phases begin, so that
/// setup (or execution) never runs.
pub proof fn lemma_forward_failure(v: LifecycleView, outcomes: Seq<Result<(), MicrodeError>>)
    requires
        lifecycle_wf(v),
        v.phase == LifecyclePhase::Initialization,
        v.cursor == 0,
        v.active is None,
        !v.forward_failed,
        v.stages == all_installed(v.kinds.len() as int),
        0 < outcomes.len() <= 2 * v.kinds.len(),
        forall|i: int| 0 <= i < outcomes.len() - 1 ==> #[trigger] outcomes[i] is Ok,
        outcomes.last() is Err,
    ensures
        ({
            let n = v.kinds.len() as int;
            let m = outcomes.len() - 1;
            let (w, steps) = driven(v, false, outcomes);
            &&& steps.len() == m + 1
            &&& forall|i: int| 0 <= i <= m && i < n ==> #[trigger] steps[i] == LifecycleStep::Initialize(i as usize)
            &&& forall|i: int| n <= i <= m ==> #[trigger] steps[i] == LifecycleStep::Setup((i - n) as usize)
            &&& m < n ==> w.stages == forward_stages(LifecyclePhase::Initialization, n, m, ModuleStage::Initializing)
            &&& m >= n ==> w.stages == forward_stages(LifecyclePhase::Setup, n, m - n, ModuleStage::SettingUp)
            &&& w.forward_failed
            &&& w.errors == v.errors + outcome_errors(outcomes, ErrorPriority::Lifecycle)
            &&& lifecycle_wf(w)
            &&& w.active is None
            &&& forward_progress(w)
            &&& forall|stop: bool| #[trigger] unwinding_begins(w, stop)
        }),
{
    let n = v.kinds.len() as int;
    let m = outcomes.len() - 1;
    let a = outcomes.drop_last();
    let b = seq![outcomes.last()];
    assert(outcomes =~= a + b);
    assert forall|i: int| 0 <= i < a.len() implies #[trigger] a[i] is Ok by {
        assert(a[i] == outcomes[i]);
    }
    lemma_forward_prefix(v, a);
    lemma_driven_append(v, false, a, b);
    let (w1, st1) = driven(v, false, a);
    let u = if m < n {
        w1
    } else {
        LifecycleView {
            phase: LifecyclePhase::Setup,
            state: MicrodeApplicationState::Setup,
            stages: forward_stages(LifecyclePhase::Setup, n, m - n, ModuleStage::Initialized),
            cursor: m - n,
            ..v
        }
    };
    if m == n {
        assert(w1.stages =~= u.stages);
        assert(next_step_of(w1, false) == next_step_of(u, false));
    }
    let (u0, step) = next_step_of(u, false);
    assert(step == forward_step(u.phase, u.cursor));
    let z = completed(u0, outcomes.last());
    assert(next_step_of(w1, false) == (u0, step));
    assert(b[0] == outcomes.last());
    assert(b.drop_first() =~= Seq::<Result<(), MicrodeError>>::empty());
    assert(seq![step] + Seq::<LifecycleStep>::empty() =~= seq![step]);
    assert(driven(z, false, b.drop_first()) == (z, Seq::<LifecycleStep>::empty()));
    assert(driven(w1, false, b) == (z, seq![step]));
    let (w, steps) = driven(v, false, outcomes);
    assert(w == z);
    assert(steps == st1 + seq![step]);
    if m < n {
        assert(z.stages =~= forward_stages(LifecyclePhase::Initialization, n, m, ModuleStage::Initializing));
    } else {
        assert(z.stages =~= forward_stages(LifecyclePhase::Setup, n, m - n, ModuleStage::SettingUp));
    }
    assert(outcome_errors(a, ErrorPriority::Lifecycle) =~= Seq::empty()) by {
        lemma_ok_outcomes_record_nothing(a);
    }
    lemma_outcome_errors_append(a, b, ErrorPriority::Lifecycle);
    assert(outcome_errors(b, ErrorPriority::Lifecycle) == with_outcome(Seq::empty(), outcomes.last(), ErrorPriority::Lifecycle) + outcome_errors(b.drop_first(), ErrorPriority::Lifecycle));
    assert(outcome_errors(b.drop_first(), ErrorPriority::Lifecycle) =~= Seq::empty());
    assert(w.errors =~= v.errors + outcome_errors(outcomes, ErrorPriority::Lifecycle));
}

proof fn lemma_ok_outcomes_record_nothing(outcomes: Seq<Result<(), MicrodeError>>)
    requires
        forall|i: int| 0 <= i < outcomes.len() ==> #[trigger] outcomes[i] is Ok,
    ensures
        outcome_errors(outcomes, ErrorPriority::Lifecycle) == Seq::<RecordedView>::empty(),
    decreases outcomes.len(),
{
    if outcomes.len() > 0 {
        assert(outcomes[0] is Ok);
        let rest = outcomes.drop_first();
        assert forall|i: int| 0 <= i < rest.len() implies #[trigger] rest[i] is Ok by {
            assert(rest[i] == outcomes[i + 1]);
        }
        lemma_ok_outcomes_record_nothing(rest);
        assert(outcome_errors(outcomes, ErrorPriority::Lifecycle) =~= Seq::<RecordedView>::empty());
    }
}

/// The failures among two runs of outcomes are those of the first followed
/// by those of the second.
pub proof fn lemma_outcome_errors_append(
    a: Seq<Result<(), MicrodeError>>,
    b: Seq<Result<(), MicrodeError>>,
    priority: ErrorPriority,
)
    ensures
        outcome_errors(a + b, priority) == outcome_errors(a, priority) + outcome_errors(b, priority),
    decreases a.len(),
{
    if a.len() == 0 {
        assert(a + b =~= b);
        assert(outcome_errors(a, priority) + outcome_errors(b, priority) =~= outcome_errors(b, priority));
    } else {
        assert((a + b)[0] == a[0]);
        assert((a + b).drop_first() =~= a.drop_first() + b);
        lemma_outcome_errors_append(a.drop_first(), b, priority);
        let h = with_outcome(Seq::empty(), a[0], priority);
        assert(h + (outcome_errors(a.drop_first(), priority) + outcome_errors(b, priority)) =~= (h
            + outcome_errors(a.drop_first(), priority)) + outcome_errors(b, priority));
    }
}

/// Which phases run, given failures and stop requests. Initialization and
/// setup steps, and execution, are handed out only while no forward step
/// failed and no stop is requested: a module is set up only once every
/// module is initialized and those before it are set up, and the modules
/// run only once every module is set up. When initialization is over
/// without failure or stop, setup begins at the first module. A failure or
/// a stop request in a forward phase, or the end of execution, begins the
/// backward phases at teardown, from the last module down; those then run
/// one after the other (see `lemma_backward_phase`), and the lifecycle
/// finishes only once every module is cleaned up.
pub proof fn lemma_phase_gates(v: LifecycleView, stop: bool)
    requires
        lifecycle_wf(v),
        v.active is None,
        forward_progress(v),
        v.phase != LifecyclePhase::Running,
    ensures
        ({
            let n = v.kinds.len() as int;
            let (w, step) = next_step_of(v, stop);
            &&& (step is Initialize || step is Setup || step is Execute) ==> !v.forward_failed && !stop
            &&& (step matches LifecycleStep::Setup(k) ==> forall|j: int|
                0 <= j < n ==> #[trigger] v.stages[j] == if j < k {
                    ModuleStage::SetUp
                } else {
                    ModuleStage::Initialized
                })
            &&& step is Execute ==> forall|j: int| 0 <= j < n ==> #[trigger] v.stages[j] == ModuleStage::SetUp
            &&& (v.forward_failed || stop) && (v.phase == LifecyclePhase::Initialization || v.phase
                == LifecyclePhase::Setup) ==> next_step_of(v, stop) == next_step_of(
                entered(v, LifecyclePhase::Teardown, MicrodeApplicationState::TearDown, n),
                stop,
            )
            &&& v.phase == LifecyclePhase::Stopping ==> next_step_of(v, stop) == next_step_of(
                entered(v, LifecyclePhase::Teardown, MicrodeApplicationState::TearDown, n),
                stop,
            )
            &&& !v.forward_failed && !stop && v.phase == LifecyclePhase::Initialization && v.cursor == n
                ==> next_step_of(v, stop) == next_step_of(
                entered(v, LifecyclePhase::Setup, MicrodeApplicationState::Setup, 0),
                stop,
            )
            &&& step is Finish ==> forall|j: int| 0 <= j < n ==> #[trigger] w.stages[j] == ModuleStage::CleanedUp
        }),
    decreases 8 - phase_rank(v.phase),
{
    let n = v.kinds.len() as int;
    match v.phase {
        LifecyclePhase::Initialization => {
            if !(!v.forward_failed && !stop && v.cursor < n) {
                if !v.forward_failed && !stop {
                    let u = entered(v, LifecyclePhase::Setup, MicrodeApplicationState::Setup, 0);
                    assert(forall|j: int| 0 <= j < n ==> v.stages[j] == ModuleStage::Initialized);
                    lemma_phase_gates(u, stop);
                } else {
                    lemma_phase_gates(entered(v, LifecyclePhase::Teardown, MicrodeApplicationState::TearDown, n), stop);
                }
            }
        },
        LifecyclePhase::Setup => {
            if !(!v.forward_failed && !stop) {
                lemma_phase_gates(entered(v, LifecyclePhase::Teardown, MicrodeApplicationState::TearDown, n), stop);
            }
        },
        LifecyclePhase::Stopping => {
            lemma_phase_gates(entered(v, LifecyclePhase::Teardown, MicrodeApplicationState::TearDown, n), stop);
        },
        LifecyclePhase::Teardown => {
            if last_in_stages(v.stages, v.cursor, 3, 7) is None {
                lemma_phase_gates(entered(v, LifecyclePhase::Shutdown, MicrodeApplicationState::Shutdown, n), stop);
            }
        },
        LifecyclePhase::Shutdown => {
            if last_in_stages(v.stages, v.cursor, 1, 9) is None {
                lemma_phase_gates(entered(v, LifecyclePhase::Cleanup, MicrodeApplicationState::CleanUp, n), stop);
            }
        },
        _ => {},
    }
}

proof fn lemma_driven_append(
    v: LifecycleView,
    stop: bool,
    a: Seq<Result<(), MicrodeError>>,
    b: Seq<Result<(), MicrodeError>>,
)
    requires
        driven(v, stop, a).1.len() == a.len(),
    ensures
        ({
            let (w, first) = driven(v, stop, a);
            driven(v, stop, a + b) == (driven(w, stop, b).0, first + driven(w, stop, b).1)
        }),
    decreases a.len(),
{
    if a.len() == 0 {
        assert(a + b =~= b);
        assert(driven(v, stop, a).1 + driven(v, stop, b).1 =~= driven(v, stop, b).1);
    } else {
        let (w0, step) = next_step_of(v, stop);
        let v1 = completed(w0, a[0]);
        assert((a + b)[0] == a[0]);
        assert((a + b).drop_first() =~= a.drop_first() + b);
        lemma_driven_append(v1, stop, a.drop_first(), b);
        let (w, first) = driven(v, stop, a);
        let r1 = driven(v1, stop, a.drop_first()).1;
        let r2 = driven(w, stop, b).1;
        assert(seq![step] + (r1 + r2) =~= (seq![step] + r1) + r2);
    }
}

/// The lifecycle begins the backward phases: execution has ended, or a
/// forward step failed or a stop was requested during a forward phase.
pub open spec fn unwinding_begins(v: LifecycleView, stop: bool) -> bool {
    ||| v.phase == LifecyclePhase::Stopping
    ||| (v.phase == LifecyclePhase::Initialization || v.phase == LifecyclePhase::Setup) && (v.forward_failed
        || stop)
}

/// Once the backward phases begin, teardown, shutdown and cleanup always
/// run, one after the other and each from the last module down: teardown
/// visits the modules that began setup and were not torn down, shutdown
/// then those that began initialization and were not shut down, cleanup
/// every module; then the lifecycle finishes, with every module cleaned up
/// and every failure recorded after those recorded before, in the order
/// of the calls.
pub proof fn lemma_unwinding(
    v: LifecycleView,
    stop: bool,
    torn: Seq<Result<(), MicrodeError>>,
    shut: Seq<Result<(), MicrodeError>>,
    cleaned: Seq<Result<(), MicrodeError>>,
)
    requires
        lifecycle_wf(v),
        v.active is None,
        forward_progress(v),
        unwinding_begins(v, stop),
        torn.len() == positions_in_stages(v.stages, v.kinds.len() as int, 3, 7).len(),
        shut.len() == positions_in_stages(
            Seq::new(
                v.kinds.len(),
                |j: int|
                    if positions_in_stages(v.stages, v.kinds.len() as int, 3, 7).contains(j) {
                        ModuleStage::TornDown
                    } else {
                        v.stages[j]
                    },
            ),
            v.kinds.len() as int,
            1,
            9,
        ).len(),
        cleaned.len() == v.kinds.len(),
    ensures
        ({
            let n = v.kinds.len() as int;
            let t = positions_in_stages(v.stages, n, 3, 7);
            let after_teardown = Seq::new(
                n as nat,
                |j: int|
                    if t.contains(j) {
                        ModuleStage::TornDown
                    } else {
                        v.stages[j]
                    },
            );
            let s = positions_in_stages(after_teardown, n, 1, 9);
            let (w, steps) = driven(v, stop, torn + shut + cleaned);
            &&& steps.len() == t.len() + s.len() + n
            &&& forall|i: int| 0 <= i < t.len() ==> #[trigger] steps[i] == LifecycleStep::Teardown(t[i] as usize)
            &&& forall|i: int|
                0 <= i < s.len() ==> #[trigger] steps[t.len() + i] == LifecycleStep::Shutdown(s[i] as usize)
            &&& forall|i: int|
                0 <= i < n ==> #[trigger] steps[t.len() + s.len() + i] == LifecycleStep::Cleanup(
                    (n - 1 - i) as usize,
                )
            &&& forall|j: int| 0 <= j < n ==> #[trigger] w.stages[j] == ModuleStage::CleanedUp
            &&& w.errors == v.errors + outcome_errors(torn, ErrorPriority::Lifecycle) + outcome_errors(
                shut,
                ErrorPriority::Lifecycle,
            ) + outcome_errors(cleaned, ErrorPriority::Lifecycle)
            &&& next_step_of(w, stop).1 == LifecycleStep::Finish
        }),
{
    let n = v.kinds.len() as int;
    lemma_phase_gates(v, stop);
    let u = entered(v, LifecyclePhase::Teardown, MicrodeApplicationState::TearDown, n);
    assert(next_step_of(v, stop) == next_step_of(u, stop));
    lemma_backward_phase(u, stop, torn);
    let (w1, st1) = driven(u, stop, torn);
    let t = positions_in_stages(v.stages, n, 3, 7);
    let after_teardown = Seq::new(n as nat, |j: int| if t.contains(j) { ModuleStage::TornDown } else { v.stages[j] });
    assert(w1.stages =~= after_teardown);
    let u2 = entered(w1, LifecyclePhase::Shutdown, MicrodeApplicationState::Shutdown, n);
    lemma_backward_phase(u2, stop, shut);
    let (w2, st2) = driven(u2, stop, shut);
    let u3 = entered(w2, LifecyclePhase::Cleanup, MicrodeApplicationState::CleanUp, n);
    lemma_positions_all(w2.stages, n);
    lemma_backward_phase(u3, stop, cleaned);
    let (w3, st3) = driven(u3, stop, cleaned);
    lemma_driven_append(u, stop, torn, shut + cleaned);
    lemma_driven_append(u2, stop, shut, cleaned);
    assert(torn + shut + cleaned =~= torn + (shut + cleaned));
    if n == 0 {
        assert(torn.len() == 0 && shut.len() == 0 && cleaned.len() == 0);
        assert(v.errors + outcome_errors(torn, ErrorPriority::Lifecycle) + outcome_errors(
            shut,
            ErrorPriority::Lifecycle,
        ) + outcome_errors(cleaned, ErrorPriority::Lifecycle) =~= v.errors);
        assert(next_step_of(v, stop) == next_step_of(u3, stop));
    } else {
        assert(driven(v, stop, torn + shut + cleaned) == driven(u, stop, torn + shut + cleaned));
        if shut.len() + cleaned.len() > 0 {
            assert(driven(w1, stop, shut + cleaned) == driven(u2, stop, shut + cleaned));
        }
        assert(driven(w2, stop, cleaned) == driven(u3, stop, cleaned));
        let (w, steps) = driven(v, stop, torn + shut + cleaned);
        assert(w == w3);
        assert(steps =~= st1 + (st2 + st3));
        let s = positions_in_stages(after_teardown, n, 1, 9);
        assert forall|i: int| 0 <= i < s.len() implies #[trigger] steps[t.len() + i] == LifecycleStep::Shutdown(
            s[i] as usize,
        ) by {
            assert(steps[t.len() + i] == st2[i]);
        }
        assert forall|i: int| 0 <= i < n implies #[trigger] steps[t.len() + s.len() + i] == LifecycleStep::Cleanup(
            (n - 1 - i) as usize,
        ) by {
            assert(steps[t.len() + s.len() + i] == st3[i]);
        }
    }
}

/// When the modules whose stage lies in `[lo, hi)` are exactly those up to
/// position `last`, the positions listed are `last` down to the first.
proof fn lemma_positions_prefix(stages: Seq<ModuleStage>, below: int, lo: int, hi: int, last: int)
    requires
        -1 <= last < below,
        below <= stages.len(),
        forall|j: int| 0 <= j < below ==> ((lo <= #[trigger] stage_rank(stages[j]) < hi) <==> j <= last),
    ensures
        positions_in_stages(stages, below, lo, hi) == Seq::new((last + 1) as nat, |i: int| last - i),
    decreases below,
{
    if below > 0 {
        assert((lo <= stage_rank(stages[below - 1]) < hi) <==> below - 1 <= last);
        if below - 1 > last {
            lemma_positions_prefix(stages, below - 1, lo, hi, last);
        } else {
            lemma_positions_prefix(stages, below - 1, lo, hi, last - 1);
            assert(positions_in_stages(stages, below, lo, hi) =~= Seq::new((last + 1) as nat, |i: int| last - i));
        }
    } else {
        assert(positions_in_stages(stages, below, lo, hi) =~= Seq::new((last + 1) as nat, |i: int| last - i));
    }
}

/// A whole lifecycle in which a forward step fails, with no stop
/// requested: the modules up to the failed one are initialized (and, after
/// every module initialized, set up) in lifecycle order; then, from the last
/// module down, teardown visits every module that began setup, shutdown
/// every module that began initialization, cleanup every module; then the
/// lifecycle finishes with every module cleaned up. Every failure is
/// recorded in the order of the calls, the forward one first.
pub proof fn lemma_failed_lifecycle(
    v: LifecycleView,
    forward: Seq<Result<(), MicrodeError>>,
    torn: Seq<Result<(), MicrodeError>>,
    shut: Seq<Result<(), MicrodeError>>,
    cleaned: Seq<Result<(), MicrodeError>>,
)
    requires
        lifecycle_wf(v),
        v.phase == LifecyclePhase::Initialization,
        v.cursor == 0,
        v.active is None,
        !v.forward_failed,
        v.stages == all_installed(v.kinds.len() as int),
        0 < forward.len() <= 2 * v.kinds.len(),
        forall|i: int| 0 <= i < forward.len() - 1 ==> #[trigger] forward[i] is Ok,
        forward.last() is Err,
        forward.len() <= v.kinds.len() ==> torn.len() == 0 && shut.len() == forward.len(),
        forward.len() > v.kinds.len() ==> torn.len() == forward.len() - v.kinds.len() && shut.len()
            == v.kinds.len(),
        cleaned.len() == v.kinds.len(),
    ensures
        ({
            let n = v.kinds.len() as int;
            let f = forward.len() as int;
            let t = torn.len() as int;
            let s = shut.len() as int;
            let (w, steps) = driven(v, false, forward + torn + shut + cleaned);
            &&& steps.len() == f + t + s + n
            &&& forall|i: int| 0 <= i < f && i < n ==> #[trigger] steps[i] == LifecycleStep::Initialize(i as usize)
            &&& forall|i: int| n <= i < f ==> #[trigger] steps[i] == LifecycleStep::Setup((i - n) as usize)
            &&& forall|i: int| 0 <= i < t ==> #[trigger] steps[f + i] == LifecycleStep::Teardown((t - 1 - i) as usize)
            &&& forall|i: int| 0 <= i < s ==> #[trigger] steps[f + t + i] == LifecycleStep::Shutdown((s - 1 - i) as usize)
            &&& forall|i: int| 0 <= i < n ==> #[trigger] steps[f + t + s + i] == LifecycleStep::Cleanup((n - 1 - i) as usize)
            &&& forall|j: int| 0 <= j < n ==> #[trigger] w.stages[j] == ModuleStage::CleanedUp
            &&& w.errors == v.errors + outcome_errors(forward, ErrorPriority::Lifecycle) + outcome_errors(
                torn,
                ErrorPriority::Lifecycle,
            ) + outcome_errors(shut, ErrorPriority::Lifecycle) + outcome_errors(cleaned, ErrorPriority::Lifecycle)
            &&& next_step_of(w, false).1 == LifecycleStep::Finish
        }),
{
    let n = v.kinds.len() as int;
    let f = forward.len() as int;
    let m = f - 1;
    lemma_forward_failure(v, forward);
    let (wf, stf) = driven(v, false, forward);
    assert(unwinding_begins(wf, false));
    let t_pos = positions_in_stages(wf.stages, n, 3, 7);
    if m < n {
        lemma_positions_prefix(wf.stages, n, 3, 7, -1);
    } else {
        lemma_positions_prefix(wf.stages, n, 3, 7, m - n);
    }
    let after_teardown = Seq::new(
        n as nat,
        |j: int|
            if t_pos.contains(j) {
                ModuleStage::TornDown
            } else {
                wf.stages[j]
            },
    );
    lemma_positions_in_stages(wf.stages, n, 3, 7);
    if m < n {
        lemma_positions_prefix(after_teardown, n, 1, 9, m);
    } else {
        lemma_positions_prefix(after_teardown, n, 1, 9, n - 1);
    }
    lemma_unwinding(wf, false, torn, shut, cleaned);
    let rest = torn + shut + cleaned;
    lemma_driven_append(v, false, forward, rest);
    assert(forward + torn + shut + cleaned =~= forward + rest);
    let (w, steps) = driven(v, false, forward + torn + shut + cleaned);
    let (wu, stu) = driven(wf, false, rest);
    assert(steps == stf + stu);
    let t = torn.len() as int;
    let s = shut.len() as int;
    let s_pos = positions_in_stages(after_teardown, n, 1, 9);
    assert forall|i: int| 0 <= i < t implies #[trigger] steps[f + i] == LifecycleStep::Teardown((t - 1 - i) as usize) by {
        assert(steps[f + i] == stu[i]);
        assert(t_pos[i] == t - 1 - i);
    }
    assert forall|i: int| 0 <= i < s implies #[trigger] steps[f + t + i] == LifecycleStep::Shutdown((s - 1 - i) as usize) by {
        assert(steps[f + t + i] == stu[t + i]);
        assert(s_pos[i] == s - 1 - i);
    }
    assert forall|i: int| 0 <= i < n implies #[trigger] steps[f + t + s + i] == LifecycleStep::Cleanup((n - 1 - i) as usize) by {
        assert(steps[f + t + s + i] == stu[t + s + i]);
    }
    assert forall|i: int| 0 <= i < f && i < n implies #[trigger] steps[i] == LifecycleStep::Initialize(i as usize) by {
        assert(steps[i] == stf[i]);
    }
    assert forall|i: int| n <= i < f implies #[trigger] steps[i] == LifecycleStep::Setup((i - n) as usize) by {
        assert(steps[i] == stf[i]);
    }
    assert(wf.errors + outcome_errors(torn, ErrorPriority::Lifecycle) + outcome_errors(shut, ErrorPriority::Lifecycle)
        + outcome_errors(cleaned, ErrorPriority::Lifecycle) =~= v.errors + outcome_errors(forward, ErrorPriority::Lifecycle)
        + outcome_errors(torn, ErrorPriority::Lifecycle) + outcome_errors(shut, ErrorPriority::Lifecycle)
        + outcome_errors(cleaned, ErrorPriority::Lifecycle));
}

/// After execution, every module ran, so the backward phases visit every
/// module three times over: teardown, shutdown and cleanup each go from the
/// last module down to the first; then the lifecycle finishes with every
/// module cleaned up and every failure recorded in the order of the calls.
pub proof fn lemma_lifecycle_after_execution(
    v: LifecycleView,
    stop: bool,
    torn: Seq<Result<(), MicrodeError>>,
    shut: Seq<Result<(), MicrodeError>>,
    cleaned: Seq<Result<(), MicrodeError>>,
)
    requires
        lifecycle_wf(v),
        v.phase == LifecyclePhase::Stopping,
        v.active is None,
        forall|j: int|
            0 <= j < v.kinds.len() ==> #[trigger] v.stages[j] == ModuleStage::Executing || v.stages[j]
                == ModuleStage::Executed,
        torn.len() == v.kinds.len(),
        shut.len() == v.kinds.len(),
        cleaned.len() == v.kinds.len(),
    ensures
        ({
            let n = v.kinds.len() as int;
            let (w, steps) = driven(v, stop, torn + shut + cleaned);
            &&& steps.len() == 3 * n
            &&& forall|i: int| 0 <= i < n ==> #[trigger] steps[i] == LifecycleStep::Teardown((n - 1 - i) as usize)
            &&& forall|i: int| 0 <= i < n ==> #[trigger] steps[n + i] == LifecycleStep::Shutdown((n - 1 - i) as usize)
            &&& forall|i: int| 0 <= i < n ==> #[trigger] steps[2 * n + i] == LifecycleStep::Cleanup((n - 1 - i) as usize)
            &&& forall|j: int| 0 <= j < n ==> #[trigger] w.stages[j] == ModuleStage::CleanedUp
            &&& w.errors == v.errors + outcome_errors(torn, ErrorPriority::Lifecycle) + outcome_errors(
                shut,
                ErrorPriority::Lifecycle,
            ) + outcome_errors(cleaned, ErrorPriority::Lifecycle)
            &&& next_step_of(w, stop).1 == LifecycleStep::Finish
        }),
{
    let n = v.kinds.len() as int;
    lemma_positions_prefix(v.stages, n, 3, 7, n - 1);
    let t_pos = positions_in_stages(v.stages, n, 3, 7);
    let after_teardown = Seq::new(
        n as nat,
        |j: int|
            if t_pos.contains(j) {
                ModuleStage::TornDown
            } else {
                v.stages[j]
            },
    );
    lemma_positions_in_stages(v.stages, n, 3, 7);
    lemma_positions_prefix(after_teardown, n, 1, 9, n - 1);
    lemma_unwinding(v, stop, torn, shut, cleaned);
    let (w, steps) = driven(v, stop, torn + shut + cleaned);
    let s_pos = positions_in_stages(after_teardown, n, 1, 9);
    assert forall|i: int| 0 <= i < n implies #[trigger] steps[i] == LifecycleStep::Teardown((n - 1 - i) as usize) by {
        assert(t_pos[i] == n - 1 - i);
    }
    assert forall|i: int| 0 <= i < n implies #[trigger] steps[n + i] == LifecycleStep::Shutdown((n - 1 - i) as usize) by {
        assert(s_pos[i] == n - 1 - i);
    }
    assert forall|i: int| 0 <= i < n implies #[trigger] steps[2 * n + i] == LifecycleStep::Cleanup((n - 1 - i) as usize) by {
        assert(steps[2 * n + i] == steps[n + n + i]);
    }
}

/// The runtime waits for exactly those modules that have not completed and
/// that `waits` marks.
pub open spec fn awaits_exactly(v: LifecycleView, waits: Seq<bool>) -> bool {
    &&& waits.len() == v.kinds.len()
    &&& forall|k: int|
        0 <= k < v.kinds.len() ==> #[trigger] v.required[k] == (v.stages[k] != ModuleStage::Executed && waits[k])
}

/// When execution ends the runtime waits for the passive modules that have
/// not completed; each stop that succeeds adds the module it stopped; each
/// completion removes the module that completed. So once the runtime waits
/// for no module, every passive module and every module whose stop
/// succeeded has completed, whatever the order in which stops and
/// completions came.
pub proof fn lemma_awaited_modules(
    v: LifecycleView,
    waits: Seq<bool>,
    index: int,
    outcome: Result<(), MicrodeError>,
)
    requires
        lifecycle_wf(v),
        0 <= index < v.kinds.len(),
    ensures
        awaits_exactly(
            stopping_begun(v),
            Seq::new(v.kinds.len(), |k: int| v.kinds[k] == ModuleKind::Passive),
        ),
        awaits_exactly(v, waits) ==> awaits_exactly(
            stop_completed(v, index, outcome),
            waits.update(index, waits[index] || outcome is Ok),
        ),
        awaits_exactly(v, waits) ==> awaits_exactly(run_completed(v, index, outcome), waits),
        awaits_exactly(v, waits) && !awaiting(v.required) ==> forall|k: int|
            0 <= k < v.kinds.len() && #[trigger] waits[k] ==> v.stages[k] == ModuleStage::Executed,
{
    if awaits_exactly(v, waits) && !awaiting(v.required) {
        assert forall|k: int| 0 <= k < v.kinds.len() && #[trigger] waits[k] implies v.stages[k]
            == ModuleStage::Executed by {
            assert(!v.required[k]);
        }
    }
}

/// The execution phase ends by asking every module to stop, from the last
/// one down: each stop that fails is recorded, in the order of the calls,
/// after the failures recorded before; the runtime then waits for every
/// module that has not completed and is passive or stopped successfully,
/// and for no other. Nothing else changes.
pub proof fn lemma_stopping_phase(v: LifecycleView, outcomes: Seq<Result<(), MicrodeError>>)
    requires
        lifecycle_wf(v),
        outcomes.len() == v.kinds.len(),
    ensures
        ({
            let n = v.kinds.len() as int;
            let w = stops_completed(stopping_begun(v), outcomes, n - 1);
            &&& w == (LifecycleView {
                phase: LifecyclePhase::Stopping,
                required: w.required,
                errors: w.errors,
                ..v
            })
            &&& w.required.len() == n
            &&& forall|k: int|
                0 <= k < n ==> #[trigger] w.required[k] == (v.stages[k] != ModuleStage::Executed && (
                v.kinds[k] == ModuleKind::Passive || outcomes[n - 1 - k] is Ok))
            &&& w.errors == v.errors + outcome_errors(outcomes, ErrorPriority::Stop)
        }),
{
    let n = v.kinds.len() as int;
    let b = stopping_begun(v);
    lemma_stops_completed(b, outcomes, n - 1);
}

} // verus!
