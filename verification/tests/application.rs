use std::any::TypeId;
use std::collections::HashMap;
use std::sync::Arc;

use microde::{
    ensure_stoppable, Composition, Dependency, Lifecycle, LifecyclePhase, LifecycleStep,
    MicrodeApplicationState, MicrodeError, MicrodeExecutionResult, MicrodeStopRequest, ModuleHandle,
    ModuleHandleIdentity, ModuleInstanceId, ModuleKind, ModuleRecord, ModuleStage, Port, Provider,
    Reference, RelationshipDescriptor, RelationshipSlot, RunContext, SetupContext, StopLatch, Wiring,
};

const IDLE: MicrodeApplicationState = MicrodeApplicationState::Idle;

// ---------------------------------------------------------------------------
// A composition driven the way the runtime drives it.

fn install_named<M: 'static>(
    composition: &mut Composition,
    id: &str,
    relationships: Vec<RelationshipDescriptor>,
    providers: Vec<Provider>,
) -> Result<ModuleHandle<M>, MicrodeError> {
    let id = composition.reserve_named_id(IDLE, id)?;
    Ok(composition.add_module(ModuleRecord {
        id,
        kind: ModuleKind::Passive,
        relationships,
        providers,
        module_type: TypeId::of::<M>(),
    }))
}

fn install_anonymous<M: 'static>(
    composition: &mut Composition,
    state: MicrodeApplicationState,
    kind: ModuleKind,
) -> Result<(), MicrodeError> {
    composition.ensure_installable(state)?;
    let id = composition.anonymous_id();
    composition.add_module::<M>(ModuleRecord {
        id,
        kind,
        relationships: Vec::new(),
        providers: Vec::new(),
        module_type: TypeId::of::<M>(),
    });
    Ok(())
}

fn bind<A, B>(
    composition: &mut Composition,
    consumer: &ModuleHandle<A>,
    slot: &dyn RelationshipSlot,
    target: &ModuleHandle<B>,
) -> Result<(), MicrodeError> {
    composition.bind(
        IDLE,
        consumer.module_instance_id(),
        consumer.composition_owner(),
        &slot.descriptor(),
        target.module_instance_id(),
        target.composition_owner(),
    )
}

fn start_error(composition: &mut Composition, state: MicrodeApplicationState) -> String {
    match composition.start(state) {
        Ok(_) => panic!("the composition started"),
        Err(error) => error.to_string(),
    }
}

fn order(composition: &Composition) -> Vec<String> {
    composition.ids().iter().map(|id| id.as_str().to_owned()).collect()
}

// ---------------------------------------------------------------------------
// Modules whose every step succeeds unless told otherwise, and a runtime that
// performs the steps the lifecycle hands out.

#[derive(Clone)]
struct Sim {
    name: String,
    kind: ModuleKind,
    failures: Vec<(&'static str, String)>,
    requests: Vec<(&'static str, MicrodeStopRequest)>,
    settles: bool,
}

impl Sim {
    fn passive(name: &str) -> Sim {
        Sim {
            name: name.to_owned(),
            kind: ModuleKind::Passive,
            failures: Vec::new(),
            requests: Vec::new(),
            settles: true,
        }
    }

    fn active(name: &str) -> Sim {
        Sim { kind: ModuleKind::Active, settles: false, ..Sim::passive(name) }
    }

    fn immediate(mut self) -> Sim {
        self.settles = true;
        self
    }

    fn failing(mut self, phase: &'static str, message: &str) -> Sim {
        self.failures.push((phase, message.to_owned()));
        self
    }

    fn requesting(mut self, phase: &'static str, request: MicrodeStopRequest) -> Sim {
        self.requests.push((phase, request));
        self
    }

    fn outcome(&self, phase: &str) -> Result<(), MicrodeError> {
        match self.failures.iter().find(|(failing, _)| *failing == phase) {
            Some((_, message)) => Err(MicrodeError::new(message)),
            None => Ok(()),
        }
    }
}

struct Trace {
    events: Vec<String>,
    result: MicrodeExecutionResult,
    state: MicrodeApplicationState,
    stages: Vec<ModuleStage>,
    states: Vec<MicrodeApplicationState>,
}

fn apply_requests(module: &Sim, phase: &str, latch: &mut StopLatch) {
    for (when, request) in &module.requests {
        if *when == phase {
            latch.request_stop(request.clone());
        }
    }
}

fn perform(module: &Sim, phase: &'static str, latch: &mut StopLatch, events: &mut Vec<String>) -> Result<(), MicrodeError> {
    events.push(format!("{}:{phase}", module.name));
    apply_requests(module, phase, latch);
    module.outcome(phase)
}

fn execute(
    lifecycle: &mut Lifecycle,
    modules: &[Sim],
    main: &mut Option<Result<(), MicrodeError>>,
    latch: &mut StopLatch,
    events: &mut Vec<String>,
) {
    // Every run starts; a run that completes on its own is ready at once,
    // and makes its stop requests when it completes. The others make them
    // when they are first polled.
    let mut ready: Vec<usize> = Vec::new();
    for (index, module) in modules.iter().enumerate() {
        events.push(format!("{}:run", module.name));
        if module.settles {
            ready.push(index);
        }
    }
    for module in modules.iter().filter(|module| !module.settles) {
        apply_requests(module, "run", latch);
    }
    loop {
        if !lifecycle.has_running_modules() {
            match main.take() {
                None => break,
                Some(outcome) => {
                    if !latch.stop_requested() {
                        lifecycle.main_finished(outcome);
                    }
                    break;
                }
            }
        }
        if latch.stop_requested() {
            break;
        }
        if let Some(outcome) = main.take() {
            lifecycle.main_finished(outcome);
            break;
        }
        assert!(!ready.is_empty(), "the runtime would wait forever");
        let index = ready.remove(0);
        apply_requests(&modules[index], "run", latch);
        if lifecycle.run_finished(index, modules[index].outcome("run")) {
            break;
        }
    }
    let stops = lifecycle.begin_stopping();
    for &index in stops.iter() {
        let outcome = perform(&modules[index], "stop", latch, events);
        if outcome.is_ok() && !modules[index].settles && lifecycle.stage(index) != ModuleStage::Executed {
            ready.push(index);
        }
        lifecycle.stop_finished(index, outcome);
    }
    while lifecycle.awaits_completions() {
        assert!(!ready.is_empty(), "the runtime would wait forever");
        let index = ready.remove(0);
        if !modules[index].settles {
            events.push(format!("{}:complete", modules[index].name));
        }
        lifecycle.run_finished(index, modules[index].outcome("run"));
    }
}

fn drive_from(
    mut lifecycle: Lifecycle,
    modules: &[Sim],
    mut main: Option<Result<(), MicrodeError>>,
    mut latch: StopLatch,
    requests_at_execution: Vec<MicrodeStopRequest>,
) -> Trace {
    let mut events = Vec::new();
    let mut states = vec![lifecycle.state()];
    let mut requests_at_execution = requests_at_execution;
    loop {
        let step = lifecycle.next_step(latch.stop_requested());
        if *states.last().unwrap() != lifecycle.state() {
            states.push(lifecycle.state());
        }
        let (index, phase) = match step {
            LifecycleStep::Initialize(index) => (index, "initialize"),
            LifecycleStep::Setup(index) => (index, "setup"),
            LifecycleStep::Teardown(index) => (index, "teardown"),
            LifecycleStep::Shutdown(index) => (index, "shutdown"),
            LifecycleStep::Cleanup(index) => (index, "cleanup"),
            LifecycleStep::Execute => {
                for request in requests_at_execution.drain(..) {
                    latch.request_stop(request);
                }
                execute(&mut lifecycle, modules, &mut main, &mut latch, &mut events);
                continue;
            }
            LifecycleStep::Finish => break,
        };
        let outcome = perform(&modules[index], phase, &mut latch, &mut events);
        lifecycle.complete_step(outcome);
    }
    let stages = (0..modules.len()).map(|index| lifecycle.stage(index)).collect();
    let (result, state) = lifecycle.finish(latch.request.clone());
    states.push(state);
    Trace { events, result, state, stages, states }
}

fn drive(modules: &[Sim]) -> Trace {
    let kinds = modules.iter().map(|module| module.kind).collect();
    drive_from(Lifecycle::new(kinds), modules, None, StopLatch::new(), Vec::new())
}

fn drive_with(
    modules: &[Sim],
    main: Option<Result<(), MicrodeError>>,
    request_at_execution: Option<MicrodeStopRequest>,
) -> Trace {
    let kinds = modules.iter().map(|module| module.kind).collect();
    let requests = request_at_execution.into_iter().collect();
    drive_from(Lifecycle::new(kinds), modules, main, StopLatch::new(), requests)
}

fn events(values: &[&str]) -> Vec<String> {
    values.iter().map(|value| (*value).to_owned()).collect()
}

/// Starts the composition and drives the lifecycle of its modules, found
/// by identifier among `modules`.
fn serve(composition: &mut Composition, modules: &[Sim]) -> Result<Trace, MicrodeError> {
    composition.start(IDLE)?;
    let arranged: Vec<Sim> = order(composition)
        .iter()
        .map(|id| modules.iter().find(|module| &module.name == id).unwrap().clone())
        .collect();
    Ok(drive(&arranged))
}

// ---------------------------------------------------------------------------
// Composition and wiring.

struct ProviderModule;
struct ConsumerModule;
struct GraphNode;
struct PassiveGraphNode;
struct ConcreteImpostor;
struct Worker;

#[derive(Clone, Debug, PartialEq)]
struct Database(&'static str);

#[test]
fn binds_exact_providers_and_applies_dependency_first_order() {
    let port = Port::new("database");
    let dependency = Dependency::new("database", port.clone());
    let mut service = Composition::new(1);
    let consumer =
        install_named::<ConsumerModule>(&mut service, "consumer", vec![dependency.descriptor()], vec![]).unwrap();
    let provider = install_named::<ProviderModule>(
        &mut service,
        "provider",
        vec![],
        vec![Provider::new(port, Database("primary"))],
    )
    .unwrap();

    bind(&mut service, &consumer, &dependency, &provider).unwrap();
    let trace = serve(&mut service, &[Sim::passive("consumer"), Sim::passive("provider")]).unwrap();
    assert_eq!(trace.result.exit_code, 0);
    let initialized: Vec<String> =
        trace.events.iter().filter(|event| event.ends_with(":initialize")).cloned().collect();
    assert_eq!(initialized, events(&["provider:initialize", "consumer:initialize"]));
}

#[test]
fn rejects_duplicate_missing_incompatible_and_foreign_bindings() {
    let port = Port::new("database");
    let dependency = Dependency::new("database", port.clone());
    let mut service = Composition::new(1);
    let consumer =
        install_named::<ConsumerModule>(&mut service, "consumer", vec![dependency.descriptor()], vec![]).unwrap();
    let provider = install_named::<ProviderModule>(
        &mut service,
        "provider",
        vec![],
        vec![Provider::new(port.clone(), Database("primary"))],
    )
    .unwrap();
    bind(&mut service, &consumer, &dependency, &provider).unwrap();
    assert_eq!(
        bind(&mut service, &consumer, &dependency, &provider).unwrap_err().to_string(),
        "relationship 'consumer.database' is already bound"
    );

    let missing = Dependency::new("missing", port.clone());
    assert_eq!(
        bind(&mut service, &consumer, &missing, &provider).unwrap_err().to_string(),
        "unknown relationship 'consumer.missing'"
    );

    let other_port = Port::<Database>::new("other");
    let other_dependency = Dependency::new("other", other_port);
    let other_consumer = install_named::<ConsumerModule>(
        &mut service,
        "other-consumer",
        vec![other_dependency.descriptor()],
        vec![],
    )
    .unwrap();
    assert_eq!(
        bind(&mut service, &other_consumer, &other_dependency, &provider).unwrap_err().to_string(),
        "module 'provider' does not provide port 'other'"
    );

    let mut foreign_service = Composition::new(2);
    let foreign = install_named::<ProviderModule>(
        &mut foreign_service,
        "foreign",
        vec![],
        vec![Provider::new(port, Database("foreign"))],
    )
    .unwrap();
    assert_eq!(
        bind(&mut service, &consumer, &dependency, &foreign).unwrap_err().to_string(),
        "module handle 'foreign' belongs to another application"
    );
}

#[test]
fn missing_binding_rejects_run_before_lifecycle_execution() {
    let port = Port::<Database>::new("database");
    let dependency = Dependency::new("database", port);
    let mut service = Composition::new(1);
    install_named::<ConsumerModule>(&mut service, "consumer", vec![dependency.descriptor()], vec![]).unwrap();

    assert_eq!(
        start_error(&mut service, IDLE),
        "missing binding for relationship 'consumer.database'"
    );
    assert_eq!(order(&service), events(&["consumer"]));
}

#[test]
fn exposes_dependencies_in_setup_and_both_relationship_kinds_in_run() {
    let port = Port::new("database-access");
    let database = Dependency::new("database", port.clone());
    let peer = Reference::new("peer", port.clone());
    let mut service = Composition::new(1);
    let consumer = install_named::<ConsumerModule>(
        &mut service,
        "consumer",
        vec![database.descriptor(), peer.descriptor()],
        vec![],
    )
    .unwrap();
    let provider = install_named::<ProviderModule>(
        &mut service,
        "provider",
        vec![],
        vec![Provider::new(port, Database("primary"))],
    )
    .unwrap();
    bind(&mut service, &consumer, &database, &provider).unwrap();
    bind(&mut service, &consumer, &peer, &provider).unwrap();

    let Wiring { resolutions, .. } = service.start(IDLE).unwrap();
    let resolutions = Arc::new(resolutions);
    let owner = ModuleInstanceId::new("consumer");
    let mut values = Vec::new();
    let setup = SetupContext::new(owner.clone(), resolutions.clone());
    values.push(format!("setup:{}", setup.use_dependency(&database).unwrap().0));
    let run = RunContext::new(owner, resolutions);
    let database: Database = run.use_relationship(&database).unwrap();
    let peer: Database = run.use_relationship(&peer).unwrap();
    values.push(format!("run:{}", database.0));
    values.push(format!("reference:{}", peer.0));
    assert_eq!(values, events(&["setup:primary", "run:primary", "reference:primary"]));
}

#[test]
fn rejects_dependency_cycles_but_allows_reference_cycles() {
    let port = Port::<String>::new("cycle");
    let a_dependency = Dependency::new("peer", port.clone());
    let b_dependency = Dependency::new("peer", port.clone());
    let mut cyclic = Composition::new(1);
    let a = install_named::<GraphNode>(
        &mut cyclic,
        "a",
        vec![a_dependency.descriptor()],
        vec![Provider::new(port.clone(), "a".to_owned())],
    )
    .unwrap();
    let b = install_named::<GraphNode>(
        &mut cyclic,
        "b",
        vec![b_dependency.descriptor()],
        vec![Provider::new(port.clone(), "b".to_owned())],
    )
    .unwrap();
    bind(&mut cyclic, &a, &a_dependency, &b).unwrap();
    bind(&mut cyclic, &b, &b_dependency, &a).unwrap();
    assert_eq!(start_error(&mut cyclic, IDLE), "dependency cycle detected: a -> b -> a");

    let a_reference = Reference::new("peer", port.clone());
    let b_reference = Reference::new("peer", port.clone());
    let mut referenced = Composition::new(2);
    let a = install_named::<GraphNode>(
        &mut referenced,
        "a",
        vec![a_reference.descriptor()],
        vec![Provider::new(port.clone(), "a".to_owned())],
    )
    .unwrap();
    let b = install_named::<GraphNode>(
        &mut referenced,
        "b",
        vec![b_reference.descriptor()],
        vec![Provider::new(port, "b".to_owned())],
    )
    .unwrap();
    bind(&mut referenced, &a, &a_reference, &b).unwrap();
    bind(&mut referenced, &b, &b_reference, &a).unwrap();
    let trace = serve(&mut referenced, &[Sim::passive("a"), Sim::passive("b")]).unwrap();
    assert_eq!(trace.result.exit_code, 0);
}

#[test]
fn rejects_binding_after_lifecycle_execution_and_foreign_consumers() {
    let port = Port::<String>::new("binding-state");
    let dependency = Dependency::new("peer", port.clone());
    let mut service = Composition::new(1);
    let provider = install_named::<ProviderModule>(
        &mut service,
        "provider",
        vec![],
        vec![Provider::new(Port::new("unused"), Database("value"))],
    )
    .unwrap();
    serve(&mut service, &[Sim::passive("provider")]).unwrap();
    assert!(bind(&mut service, &provider, &dependency, &provider).is_err());

    let mut first = Composition::new(2);
    let foreign = install_named::<GraphNode>(
        &mut first,
        "foreign",
        vec![dependency.descriptor()],
        vec![Provider::new(port.clone(), "foreign".to_owned())],
    )
    .unwrap();
    let mut second = Composition::new(3);
    let local = install_named::<GraphNode>(
        &mut second,
        "local",
        vec![dependency.descriptor()],
        vec![Provider::new(port, "local".to_owned())],
    )
    .unwrap();
    assert_eq!(
        bind(&mut second, &foreign, &dependency, &local).unwrap_err().to_string(),
        "module handle 'foreign' belongs to another application"
    );
}

#[test]
fn provider_creation_failure_is_atomic_and_permanently_seals_composition() {
    let port = Port::<String>::new("factory");
    let dependency = Dependency::new("provider", port.clone());
    let mut service = Composition::new(1);
    let consumer = install_named::<GraphNode>(
        &mut service,
        "consumer",
        vec![dependency.descriptor()],
        vec![Provider::new(port.clone(), "consumer".to_owned())],
    )
    .unwrap();
    let provider = install_named::<GraphNode>(
        &mut service,
        "provider",
        vec![],
        vec![Provider::try_new(port.clone(), || Err::<String, _>(MicrodeError::new("provider creation failed")))],
    )
    .unwrap();
    bind(&mut service, &consumer, &dependency, &provider).unwrap();

    assert_eq!(start_error(&mut service, IDLE), "provider creation failed");
    assert!(install_named::<PassiveGraphNode>(&mut service, "late", vec![], vec![]).is_err());
    assert!(bind(&mut service, &consumer, &dependency, &provider).is_err());
    assert_eq!(
        start_error(&mut service, IDLE),
        "cannot start application more than once; composition is sealed"
    );
    assert_eq!(order(&service), events(&["consumer", "provider"]));
}

#[test]
fn the_first_failing_provider_in_module_and_relationship_order_is_reported() {
    let first_port = Port::<String>::new("first");
    let second_port = Port::<String>::new("second");
    let first = Dependency::new("first", first_port.clone());
    let second = Dependency::new("second", second_port.clone());
    let mut service = Composition::new(1);
    let late_provider = install_named::<GraphNode>(
        &mut service,
        "late-provider",
        vec![],
        vec![Provider::try_new(second_port.clone(), || Err::<String, _>(MicrodeError::new("second provider failed")))],
    )
    .unwrap();
    let early_provider = install_named::<GraphNode>(
        &mut service,
        "early-provider",
        vec![],
        vec![Provider::try_new(first_port.clone(), || Err::<String, _>(MicrodeError::new("first provider failed")))],
    )
    .unwrap();
    let consumer = install_named::<GraphNode>(
        &mut service,
        "consumer",
        vec![first.descriptor(), second.descriptor()],
        vec![],
    )
    .unwrap();
    bind(&mut service, &consumer, &first, &early_provider).unwrap();
    bind(&mut service, &consumer, &second, &late_provider).unwrap();

    assert_eq!(start_error(&mut service, IDLE), "first provider failed");
}

#[test]
fn validates_concrete_module_requirements_without_exposing_modules() {
    let port = Port::<Database>::for_module::<ProviderModule>("concrete-database", "application::ProviderModule");
    let dependency = Dependency::new("database", port.clone());
    let mut valid = Composition::new(1);
    let consumer =
        install_named::<ConsumerModule>(&mut valid, "consumer", vec![dependency.descriptor()], vec![]).unwrap();
    let provider = install_named::<ProviderModule>(
        &mut valid,
        "provider",
        vec![],
        vec![Provider::new(port.clone(), Database("primary"))],
    )
    .unwrap();
    bind(&mut valid, &consumer, &dependency, &provider).unwrap();

    let mut invalid = Composition::new(2);
    let invalid_consumer =
        install_named::<ConsumerModule>(&mut invalid, "consumer", vec![dependency.descriptor()], vec![]).unwrap();
    let impostor = install_named::<ConcreteImpostor>(
        &mut invalid,
        "impostor",
        vec![],
        vec![Provider::new(port, Database("impostor"))],
    )
    .unwrap();
    assert_eq!(
        bind(&mut invalid, &invalid_consumer, &dependency, &impostor).unwrap_err().to_string(),
        "module 'impostor' does not satisfy concrete module requirement 'ProviderModule'"
    );
}

#[test]
fn named_installation_returns_an_opaque_stable_handle() {
    let mut service = Composition::new(1);

    let first = install_named::<Worker>(&mut service, "first", vec![], vec![]).unwrap();
    let second = install_named::<Worker>(&mut service, "second", vec![], vec![]).unwrap();

    assert_eq!(first.id().as_str(), "first");
    assert_eq!(second.id().as_str(), "second");
    assert_ne!(first.id(), second.id());
    assert_eq!(first.debug_text(), "ModuleHandle { id: ModuleInstanceId(\"first\"), .. }");
    assert_eq!(first.composition_owner(), service.id());
}

#[test]
fn duplicate_named_installation_is_rejected_before_factory_evaluation() {
    let mut service = Composition::new(1);
    install_named::<Worker>(&mut service, "worker", vec![], vec![]).unwrap();

    let error = service.reserve_named_id(IDLE, "worker").unwrap_err();

    assert_eq!(error.to_string(), "module instance ID 'worker' is already installed");
    assert_eq!(service.len(), 1);
}

#[test]
fn anonymous_installations_are_numbered_by_position() {
    let mut service = Composition::new(1);
    install_anonymous::<Worker>(&mut service, IDLE, ModuleKind::Passive).unwrap();
    install_anonymous::<Worker>(&mut service, IDLE, ModuleKind::Active).unwrap();
    assert_eq!(order(&service), events(&["@installation/0", "@installation/1"]));
    assert_eq!(service.kinds(), vec![ModuleKind::Passive, ModuleKind::Active]);
}

#[test]
fn installation_is_refused_once_the_lifecycle_has_started() {
    let mut service = Composition::new(1);
    let error = install_anonymous::<Worker>(&mut service, MicrodeApplicationState::Running, ModuleKind::Passive)
        .unwrap_err();
    assert_eq!(error.to_string(), "cannot install module after application has started; current state: Running");
    let named = service.reserve_named_id(MicrodeApplicationState::Running, "named").unwrap_err();
    assert_eq!(named, error);
    assert_eq!(service.len(), 0);
}

#[test]
fn a_second_start_is_refused() {
    let mut service = Composition::new(1);
    install_anonymous::<Worker>(&mut service, IDLE, ModuleKind::Passive).unwrap();
    assert_eq!(
        start_error(&mut service, MicrodeApplicationState::Finished),
        "cannot start application more than once; current state: Finished"
    );
    assert!(!service.is_sealed());
    service.start(IDLE).unwrap();
    assert!(service.is_sealed());
    assert_eq!(
        start_error(&mut service, IDLE),
        "cannot start application more than once; composition is sealed"
    );
}

#[test]
fn a_provider_is_created_once_per_module_and_port() {
    let port = Port::<Arc<String>>::new("shared");
    let first = Dependency::new("first", port.clone());
    let second = Dependency::new("second", port.clone());
    let mut service = Composition::new(1);
    let consumer = install_named::<ConsumerModule>(
        &mut service,
        "consumer",
        vec![first.descriptor(), second.descriptor()],
        vec![],
    )
    .unwrap();
    let created = Arc::new(std::sync::atomic::AtomicUsize::new(0));
    let counter = created.clone();
    let provider = install_named::<ProviderModule>(
        &mut service,
        "provider",
        vec![],
        vec![Provider::try_new(port, move || {
            counter.fetch_add(1, std::sync::atomic::Ordering::SeqCst);
            Ok(Arc::new("value".to_owned()))
        })],
    )
    .unwrap();
    bind(&mut service, &consumer, &first, &provider).unwrap();
    bind(&mut service, &consumer, &second, &provider).unwrap();
    let wiring = service.start(IDLE).unwrap();
    assert_eq!(created.load(std::sync::atomic::Ordering::SeqCst), 1);
    let run = RunContext::new(ModuleInstanceId::new("consumer"), Arc::new(wiring.resolutions));
    let a: Arc<String> = run.use_relationship(&first).unwrap();
    let b: Arc<String> = run.use_relationship(&second).unwrap();
    assert!(Arc::ptr_eq(&a, &b));
    assert_eq!(wiring.positions, vec![1, 0]);
}

// ---------------------------------------------------------------------------
// Lifecycle order across the phases.

#[derive(Clone, Copy)]
enum EdgeKind {
    Dependency,
    Reference,
}

struct Edge<'a> {
    consumer: &'a str,
    target: &'a str,
    kind: EdgeKind,
}

fn run_fixture(edges: &[Edge<'_>], permutation: &[&str], fail_setup: Option<&str>) -> (Vec<String>, Option<MicrodeError>) {
    let port = Port::<String>::new("fixture");
    let mut slots: HashMap<String, Vec<Box<dyn RelationshipSlot>>> = HashMap::new();
    for edge in edges {
        let slot: Box<dyn RelationshipSlot> = match edge.kind {
            EdgeKind::Dependency => Box::new(Dependency::new(&format!("to-{}", edge.target), port.clone())),
            EdgeKind::Reference => Box::new(Reference::new(&format!("to-{}", edge.target), port.clone())),
        };
        slots.entry(edge.consumer.to_owned()).or_default().push(slot);
    }
    let mut service = Composition::new(7);
    let mut handles: HashMap<String, ModuleHandle<GraphNode>> = HashMap::new();
    let mut sims = Vec::new();
    for name in permutation {
        let provided = (*name).to_owned();
        let relationships = slots
            .get(*name)
            .map(|items| items.iter().map(|slot| slot.descriptor()).collect())
            .unwrap_or_default();
        let handle = install_named::<GraphNode>(
            &mut service,
            name,
            relationships,
            vec![Provider::try_new(port.clone(), move || Ok(provided.clone()))],
        )
        .unwrap();
        handles.insert((*name).to_owned(), handle);
        let sim = Sim::passive(name);
        sims.push(if fail_setup == Some(*name) { sim.failing("setup", &format!("setup:{name}")) } else { sim });
    }
    for edge in edges {
        let slot = slots[edge.consumer]
            .iter()
            .find(|slot| slot.descriptor().name() == format!("to-{}", edge.target))
            .unwrap();
        bind(&mut service, &handles[edge.consumer], slot.as_ref(), &handles[edge.target]).unwrap();
    }
    let trace = serve(&mut service, &sims).unwrap();
    let captured = trace
        .events
        .iter()
        .map(|event| {
            let (name, phase) = event.split_once(':').unwrap();
            format!("{phase}:{name}")
        })
        .collect();
    (captured, trace.result.error)
}

fn successful_trace(order: &[&str]) -> Vec<String> {
    let reverse = order.iter().rev().copied().collect::<Vec<_>>();
    ["initialize", "setup", "run"]
        .into_iter()
        .flat_map(|phase| order.iter().map(move |name| format!("{phase}:{name}")))
        .chain(
            ["stop", "teardown", "shutdown", "cleanup"]
                .into_iter()
                .flat_map(|phase| reverse.iter().map(move |name| format!("{phase}:{name}"))),
        )
        .collect()
}

fn edge<'a>(consumer: &'a str, target: &'a str, kind: EdgeKind) -> Edge<'a> {
    Edge { consumer, target, kind }
}

#[test]
fn graph_fixtures_are_installation_order_independent() {
    let (d, r) = (EdgeKind::Dependency, EdgeKind::Reference);
    let fixtures = vec![
        (vec!["a", "b", "c"], vec![edge("a", "b", d), edge("b", "c", d)], vec!["c", "b", "a"]),
        (vec!["a", "b", "c"], vec![edge("a", "c", d), edge("b", "c", d)], vec!["c", "a", "b"]),
        (
            vec!["a", "b", "c", "d"],
            vec![edge("a", "b", d), edge("a", "c", d), edge("b", "d", d), edge("c", "d", d)],
            vec!["d", "b", "c", "a"],
        ),
        (vec!["a", "b", "c"], vec![edge("a", "b", d), edge("a", "c", r), edge("c", "a", r)], vec!["b", "a", "c"]),
        (
            vec!["orders", "reports", "primary", "analytics"],
            vec![edge("orders", "primary", d), edge("reports", "analytics", d)],
            vec!["analytics", "primary", "orders", "reports"],
        ),
    ];
    for (names, edges, order) in fixtures {
        let forward = run_fixture(&edges, &names, None).0;
        let reversed_names = names.iter().rev().copied().collect::<Vec<_>>();
        let reversed = run_fixture(&edges, &reversed_names, None).0;
        assert_eq!(forward, successful_trace(&order));
        assert_eq!(reversed, forward);
    }
}

#[test]
fn setup_failure_unwinds_by_graph_stage_and_reverse_order() {
    let d = EdgeKind::Dependency;
    let edges = vec![edge("a", "b", d), edge("b", "c", d)];
    let (trace, error) = run_fixture(&edges, &["a", "c", "b"], Some("b"));
    assert_eq!(error, Some(MicrodeError::new("setup:b")));
    assert_eq!(
        trace,
        events(&[
            "initialize:c",
            "initialize:b",
            "initialize:a",
            "setup:c",
            "setup:b",
            "teardown:b",
            "teardown:c",
            "shutdown:a",
            "shutdown:b",
            "shutdown:c",
            "cleanup:a",
            "cleanup:b",
            "cleanup:c",
        ])
    );
}

// ---------------------------------------------------------------------------
// Unwinding.

fn unwind_from(stages: &[(Sim, ModuleStage)]) -> Trace {
    let modules: Vec<Sim> = stages.iter().map(|(sim, _)| sim.clone()).collect();
    let mut lifecycle = Lifecycle::new(modules.iter().map(|module| module.kind).collect());
    for (index, (_, stage)) in stages.iter().enumerate() {
        lifecycle.set_stage(index, *stage);
    }
    let mut latch = StopLatch::new();
    latch.request_stop(MicrodeStopRequest::success());
    drive_from(lifecycle, &modules, None, latch, Vec::new())
}

#[test]
fn unwind_phases_run_in_reverse_order_and_reach_final_stages() {
    let trace = unwind_from(&[
        (Sim::passive("first"), ModuleStage::Executed),
        (Sim::passive("second"), ModuleStage::Executed),
    ]);
    assert_eq!(trace.result.error, None);
    assert!(trace.stages.iter().all(|stage| *stage == ModuleStage::CleanedUp));
    assert_eq!(
        trace.events,
        events(&[
            "second:teardown",
            "first:teardown",
            "second:shutdown",
            "first:shutdown",
            "second:cleanup",
            "first:cleanup"
        ])
    );
}

#[test]
fn teardown_and_shutdown_only_run_for_eligible_stages_but_cleanup_runs_for_all() {
    let trace = unwind_from(&[
        (Sim::passive("installed"), ModuleStage::Installed),
        (Sim::passive("initializing"), ModuleStage::Initializing),
        (Sim::passive("setting-up"), ModuleStage::SettingUp),
    ]);
    assert_eq!(trace.result.error, None);
    assert_eq!(
        trace.events,
        events(&[
            "setting-up:teardown",
            "setting-up:shutdown",
            "initializing:shutdown",
            "setting-up:cleanup",
            "initializing:cleanup",
            "installed:cleanup"
        ])
    );
}

#[test]
fn unwind_failures_are_collected_without_stopping_later_modules() {
    let trace = unwind_from(&[
        (Sim::passive("first"), ModuleStage::Executed),
        (
            Sim::passive("second")
                .failing("teardown", "teardown failed")
                .failing("shutdown", "shutdown failed")
                .failing("cleanup", "cleanup failed"),
            ModuleStage::Executed,
        ),
    ]);
    assert_eq!(
        trace.result.errors,
        Some(vec![
            MicrodeError::new("teardown failed"),
            MicrodeError::new("shutdown failed"),
            MicrodeError::new("cleanup failed"),
        ])
    );
    assert!(trace.stages.iter().all(|stage| *stage == ModuleStage::CleanedUp));
    assert_eq!(
        trace.events,
        events(&[
            "second:teardown",
            "first:teardown",
            "second:shutdown",
            "first:shutdown",
            "second:cleanup",
            "first:cleanup"
        ])
    );
}

// ---------------------------------------------------------------------------
// Forward phases.

fn step(lifecycle: &mut Lifecycle, stop_requested: bool) -> LifecycleStep {
    lifecycle.next_step(stop_requested)
}

#[test]
fn initializes_and_sets_up_in_installation_order_with_stage_tracking() {
    let names = ["first", "second"];
    let mut lifecycle = Lifecycle::new(vec![ModuleKind::Passive, ModuleKind::Passive]);
    let mut seen = Vec::new();
    for expected in 0..2 {
        assert_eq!(step(&mut lifecycle, false), LifecycleStep::Initialize(expected));
        assert_eq!(lifecycle.stage(expected), ModuleStage::Initializing);
        seen.push(format!("{}:initialize", names[expected]));
        lifecycle.complete_step(Ok(()));
    }
    assert!((0..2).all(|index| lifecycle.stage(index) == ModuleStage::Initialized));
    for expected in 0..2 {
        assert_eq!(step(&mut lifecycle, false), LifecycleStep::Setup(expected));
        seen.push(format!("{}:setup", names[expected]));
        lifecycle.complete_step(Ok(()));
    }
    assert!((0..2).all(|index| lifecycle.stage(index) == ModuleStage::SetUp));
    assert_eq!(seen, events(&["first:initialize", "second:initialize", "first:setup", "second:setup"]));
    assert_eq!(step(&mut lifecycle, false), LifecycleStep::Execute);
    assert_eq!(lifecycle.state(), MicrodeApplicationState::Running);
}

#[test]
fn initialization_failure_stops_forward_progress_and_preserves_stage() {
    let modules = [Sim::passive("first"), Sim::passive("second")];
    let mut lifecycle = Lifecycle::new(vec![ModuleKind::Passive, ModuleKind::Passive]);
    assert_eq!(step(&mut lifecycle, false), LifecycleStep::Initialize(0));
    lifecycle.complete_step(Err(MicrodeError::new("initialization failed")));

    assert_eq!(lifecycle.stage(0), ModuleStage::Initializing);
    assert_eq!(lifecycle.stage(1), ModuleStage::Installed);
    let rest = drive_from(lifecycle, &modules, None, StopLatch::new(), Vec::new());
    assert_eq!(rest.result.error, Some(MicrodeError::new("initialization failed")));
    assert!(!rest.events.iter().any(|event| event.ends_with(":initialize")));
}

#[test]
fn setup_failure_stops_forward_progress_and_preserves_stage() {
    let modules = [Sim::passive("first"), Sim::passive("second")];
    let mut lifecycle = Lifecycle::new(vec![ModuleKind::Passive, ModuleKind::Passive]);
    for expected in 0..2 {
        assert_eq!(step(&mut lifecycle, false), LifecycleStep::Initialize(expected));
        lifecycle.complete_step(Ok(()));
    }
    assert_eq!(step(&mut lifecycle, false), LifecycleStep::Setup(0));
    lifecycle.complete_step(Err(MicrodeError::new("setup failed")));

    assert_eq!(lifecycle.stage(0), ModuleStage::SettingUp);
    assert_eq!(lifecycle.stage(1), ModuleStage::Initialized);
    let rest = drive_from(lifecycle, &modules, None, StopLatch::new(), Vec::new());
    assert_eq!(rest.result.error, Some(MicrodeError::new("setup failed")));
    assert!(!rest.events.iter().any(|event| event.ends_with(":setup")));
}

#[test]
fn stop_requested_during_initialization_skips_remaining_modules() {
    let mut latch = StopLatch::new();
    let mut lifecycle = Lifecycle::new(vec![ModuleKind::Passive, ModuleKind::Passive]);
    assert_eq!(step(&mut lifecycle, latch.stop_requested()), LifecycleStep::Initialize(0));
    latch.request_stop(MicrodeStopRequest::success());
    lifecycle.complete_step(Ok(()));

    assert!(latch.stop_requested());
    assert_eq!(lifecycle.stage(0), ModuleStage::Initialized);
    assert_eq!(lifecycle.stage(1), ModuleStage::Installed);
    assert_eq!(step(&mut lifecycle, latch.stop_requested()), LifecycleStep::Shutdown(0));
}

#[test]
fn stop_requested_during_setup_skips_remaining_modules_and_first_request_wins() {
    let mut latch = StopLatch::new();
    let mut lifecycle = Lifecycle::new(vec![ModuleKind::Passive, ModuleKind::Passive]);
    for expected in 0..2 {
        assert_eq!(step(&mut lifecycle, latch.stop_requested()), LifecycleStep::Initialize(expected));
        lifecycle.complete_step(Ok(()));
    }
    assert_eq!(step(&mut lifecycle, latch.stop_requested()), LifecycleStep::Setup(0));
    latch.request_stop(MicrodeStopRequest::success());
    lifecycle.complete_step(Ok(()));
    latch.request_stop(MicrodeStopRequest::with_exit_code(99));

    assert_eq!(latch.request, Some(MicrodeStopRequest::success()));
    assert_eq!(lifecycle.stage(0), ModuleStage::SetUp);
    assert_eq!(lifecycle.stage(1), ModuleStage::Initialized);
    assert_eq!(step(&mut lifecycle, latch.stop_requested()), LifecycleStep::Teardown(0));
}

#[test]
fn a_full_lifecycle_reports_every_state_in_turn() {
    let trace = drive(&[Sim::passive("first"), Sim::passive("second")]);
    assert_eq!(trace.result, MicrodeExecutionResult { exit_code: 0, error: None, errors: None });
    assert_eq!(trace.state, MicrodeApplicationState::Finished);
    assert_eq!(
        trace.states,
        vec![
            MicrodeApplicationState::Initialization,
            MicrodeApplicationState::Setup,
            MicrodeApplicationState::Running,
            MicrodeApplicationState::TearDown,
            MicrodeApplicationState::Shutdown,
            MicrodeApplicationState::CleanUp,
            MicrodeApplicationState::Finished,
        ]
    );
}

#[test]
fn an_initialization_failure_unwinds_what_was_initialized() {
    let trace = drive(&[
        Sim::passive("first"),
        Sim::passive("second").failing("initialize", "initialize failed"),
        Sim::passive("third"),
    ]);
    assert_eq!(trace.result.error, Some(MicrodeError::new("initialize failed")));
    assert_eq!(trace.result.exit_code, 1);
    assert_eq!(trace.state, MicrodeApplicationState::Failed);
    assert_eq!(
        trace.events,
        events(&[
            "first:initialize",
            "second:initialize",
            "second:shutdown",
            "first:shutdown",
            "third:cleanup",
            "second:cleanup",
            "first:cleanup",
        ])
    );
}

#[test]
fn a_stop_request_with_an_exit_code_fails_the_application() {
    let trace = drive(&[
        Sim::passive("first").requesting("initialize", MicrodeStopRequest::with_exit_code(3)),
        Sim::passive("second"),
    ]);
    assert_eq!(trace.result.exit_code, 3);
    assert_eq!(trace.result.error, None);
    assert_eq!(trace.state, MicrodeApplicationState::Failed);
    assert_eq!(
        trace.events,
        events(&["first:initialize", "first:shutdown", "second:cleanup", "first:cleanup"])
    );
}

// ---------------------------------------------------------------------------
// Execution.

fn execution_events(trace: &Trace) -> Vec<String> {
    trace
        .events
        .iter()
        .filter(|event| event.ends_with(":run") || event.ends_with(":stop") || event.ends_with(":complete"))
        .cloned()
        .collect()
}

#[test]
fn all_passive_runs_settle_and_execution_failures_are_collected() {
    let trace = drive(&[Sim::passive("first"), Sim::passive("second").failing("run", "passive failed")]);
    assert_eq!(trace.result.error, Some(MicrodeError::new("passive failed")));
    assert_eq!(trace.result.errors, None);
    assert_eq!(execution_events(&trace), events(&["first:run", "second:run", "second:stop", "first:stop"]));
}

#[test]
fn an_active_completion_stops_active_modules_in_reverse_order() {
    let trace = drive(&[Sim::active("first"), Sim::active("second").immediate()]);
    assert_eq!(trace.result.error, None);
    assert_eq!(
        execution_events(&trace),
        events(&["first:run", "second:run", "second:stop", "first:stop", "first:complete"])
    );
}

#[test]
fn passive_success_does_not_end_execution_while_an_active_run_remains() {
    let trace = drive(&[Sim::passive("passive"), Sim::active("active").immediate()]);
    assert_eq!(trace.result.error, None);
    assert_eq!(
        execution_events(&trace),
        events(&["passive:run", "active:run", "active:stop", "passive:stop"])
    );
}

#[test]
fn a_stop_request_stops_and_awaits_an_active_run() {
    let trace = drive_with(&[Sim::active("active")], None, Some(MicrodeStopRequest::with_exit_code(4)));
    assert_eq!(trace.result.exit_code, 4);
    assert_eq!(execution_events(&trace), events(&["active:run", "active:stop", "active:complete"]));
}

#[test]
fn a_passive_failure_triggers_active_shutdown() {
    let trace = drive(&[Sim::active("active"), Sim::passive("passive").failing("run", "passive failed")]);
    assert_eq!(trace.result.error, Some(MicrodeError::new("passive failed")));
    assert_eq!(
        execution_events(&trace),
        events(&["active:run", "passive:run", "passive:stop", "active:stop", "active:complete"])
    );
}

#[test]
fn stop_failures_are_recorded_while_successful_stops_are_awaited() {
    let trace = drive_with(
        &[Sim::active("first"), Sim::active("second").failing("stop", "second stop failed")],
        None,
        Some(MicrodeStopRequest::success()),
    );
    assert_eq!(trace.result.error, Some(MicrodeError::new("second stop failed")));
    assert_eq!(trace.result.errors, None);
    assert_eq!(
        execution_events(&trace),
        events(&["first:run", "second:run", "second:stop", "first:stop", "first:complete"])
    );
}

#[test]
fn multiple_stop_failures_follow_reverse_installation_order() {
    let trace = drive_with(
        &[
            Sim::active("first").failing("stop", "first stop failed"),
            Sim::active("second").failing("stop", "second stop failed"),
        ],
        None,
        Some(MicrodeStopRequest::success()),
    );
    assert_eq!(
        trace.result.errors,
        Some(vec![MicrodeError::new("second stop failed"), MicrodeError::new("first stop failed")])
    );
    assert_eq!(execution_events(&trace), events(&["first:run", "second:run", "second:stop", "first:stop"]));
}

#[test]
fn application_main_failure_is_an_execution_error() {
    let trace = drive_with(&[], Some(Err(MicrodeError::new("main failed"))), None);
    assert_eq!(trace.result.exit_code, 1);
    assert_eq!(trace.result.error, Some(MicrodeError::new("main failed")));
    assert_eq!(trace.state, MicrodeApplicationState::Failed);
}

#[test]
fn application_main_completion_stops_active_modules() {
    let trace = drive_with(&[Sim::active("active")], Some(Ok(())), Some(MicrodeStopRequest::success()));
    assert_eq!(trace.result.exit_code, 0);
    assert_eq!(trace.state, MicrodeApplicationState::Finished);
    assert_eq!(execution_events(&trace), events(&["active:run", "active:stop", "active:complete"]));
}

#[test]
fn a_main_task_that_fails_stops_active_modules() {
    let trace = drive_with(&[Sim::active("active")], Some(Err(MicrodeError::new("main failed"))), None);
    assert_eq!(trace.result.error, Some(MicrodeError::new("main failed")));
    assert_eq!(execution_events(&trace), events(&["active:run", "active:stop", "active:complete"]));
}

#[test]
fn run_completes_the_full_empty_lifecycle_once() {
    let mut service = Composition::new(1);
    let trace = serve(&mut service, &[]).unwrap();
    assert_eq!(trace.result, MicrodeExecutionResult { exit_code: 0, error: None, errors: None });
    assert_eq!(trace.state, MicrodeApplicationState::Finished);
    assert_eq!(
        start_error(&mut service, trace.state),
        "cannot start application more than once; current state: Finished"
    );
}

#[test]
fn stop_can_wait_for_an_owned_run_future_and_first_request_wins() {
    let modules = [Sim::active("active")];
    let trace = drive_from(
        Lifecycle::new(vec![ModuleKind::Active]),
        &modules,
        None,
        StopLatch::new(),
        vec![MicrodeStopRequest::with_exit_code(7), MicrodeStopRequest::with_exit_code(9)],
    );
    assert_eq!(trace.result, MicrodeExecutionResult { exit_code: 7, error: None, errors: None });
    assert_eq!(trace.state, MicrodeApplicationState::Failed);
}

#[test]
fn initialization_and_setup_failures_are_returned_after_unwind() {
    let initialization = drive(&[Sim::passive("module").failing("initialize", "initialize failed")]);
    assert_eq!(initialization.result.error, Some(MicrodeError::new("initialize failed")));
    assert_eq!(initialization.state, MicrodeApplicationState::Failed);

    let setup = drive(&[Sim::passive("module").failing("setup", "setup failed")]);
    assert_eq!(setup.result.error, Some(MicrodeError::new("setup failed")));
    assert_eq!(setup.state, MicrodeApplicationState::Failed);
}

#[test]
fn execution_and_active_stop_failures_use_their_runtime_priorities() {
    let execution = drive(&[Sim::passive("module").failing("run", "run failed")]);
    assert_eq!(execution.result.error, Some(MicrodeError::new("run failed")));

    let stop = drive_with(
        &[Sim::active("active").failing("stop", "stop failed")],
        None,
        Some(MicrodeStopRequest::success()),
    );
    assert_eq!(
        stop.result,
        MicrodeExecutionResult { exit_code: 1, error: Some(MicrodeError::new("stop failed")), errors: None }
    );
}

#[test]
fn every_unwind_failure_is_retained_in_lifecycle_sequence() {
    let trace = drive(&[Sim::passive("module")
        .failing("teardown", "teardown failed")
        .failing("shutdown", "shutdown failed")
        .failing("cleanup", "cleanup failed")]);
    assert_eq!(trace.result.exit_code, 1);
    assert_eq!(trace.result.error, Some(MicrodeError::new("teardown failed")));
    assert_eq!(
        trace.result.errors,
        Some(vec![
            MicrodeError::new("teardown failed"),
            MicrodeError::new("shutdown failed"),
            MicrodeError::new("cleanup failed"),
        ])
    );
    assert_eq!(trace.state, MicrodeApplicationState::Failed);
}

#[test]
fn a_stop_request_error_has_highest_priority_in_the_final_result() {
    let stop_error = MicrodeError::new("requested failure");
    let trace = drive_with(&[Sim::active("active")], None, Some(MicrodeStopRequest::with_error(stop_error.clone())));
    assert_eq!(trace.result, MicrodeExecutionResult { exit_code: 1, error: Some(stop_error), errors: None });
    assert_eq!(trace.state, MicrodeApplicationState::Failed);
}

#[test]
fn a_requested_error_outranks_a_cleanup_failure() {
    let trace = drive(&[
        Sim::passive("first")
            .failing("cleanup", "cleanup failed")
            .requesting("setup", MicrodeStopRequest::with_exit_code_and_error(6, MicrodeError::new("requested"))),
        Sim::passive("second"),
    ]);
    assert_eq!(trace.result.exit_code, 6);
    assert_eq!(trace.result.error, Some(MicrodeError::new("requested")));
    assert_eq!(
        trace.result.errors,
        Some(vec![MicrodeError::new("requested"), MicrodeError::new("cleanup failed")])
    );
}

#[test]
fn simultaneous_error_categories_follow_priority() {
    let trace = drive_with(
        &[
            Sim::passive("first").failing("teardown", "teardown failed"),
            Sim::active("second").failing("stop", "stop failed"),
            Sim::passive("third").failing("run", "run failed"),
        ],
        None,
        None,
    );
    assert_eq!(
        trace.result.errors,
        Some(vec![
            MicrodeError::new("stop failed"),
            MicrodeError::new("run failed"),
            MicrodeError::new("teardown failed"),
        ])
    );
    assert_eq!(trace.state, MicrodeApplicationState::Failed);
}

// ---------------------------------------------------------------------------
// Stops.

#[test]
fn stop_before_run_is_rejected() {
    assert_eq!(
        ensure_stoppable(IDLE).unwrap_err().to_string(),
        "cannot stop application before it has started; current state: Idle"
    );
    assert_eq!(
        ensure_stoppable(MicrodeApplicationState::Installing).unwrap_err().to_string(),
        "cannot stop application before it has started; current state: Installing"
    );
    assert!(ensure_stoppable(MicrodeApplicationState::Running).is_ok());
    assert!(ensure_stoppable(MicrodeApplicationState::Finished).is_ok());
}

#[test]
fn the_first_stop_request_wins() {
    let mut latch = StopLatch::new();
    assert!(!latch.stop_requested());
    assert!(latch.request_stop(MicrodeStopRequest::with_exit_code(1)));
    assert!(!latch.request_stop(MicrodeStopRequest::with_exit_code(2)));
    assert!(latch.stop_requested());
    assert_eq!(latch.request, Some(MicrodeStopRequest::with_exit_code(1)));
}

#[test]
fn an_empty_application_goes_through_every_phase() {
    let trace = drive(&[]);
    assert!(trace.events.is_empty());
    assert_eq!(trace.result, MicrodeExecutionResult { exit_code: 0, error: None, errors: None });
    assert_eq!(trace.state, MicrodeApplicationState::Finished);
}

#[test]
fn a_finished_lifecycle_hands_out_nothing_more() {
    let mut lifecycle = Lifecycle::new(vec![]);
    assert_eq!(lifecycle.phase(), LifecyclePhase::Initialization);
    assert_eq!(lifecycle.next_step(false), LifecycleStep::Execute);
    assert_eq!(lifecycle.phase(), LifecyclePhase::Running);
    assert!(lifecycle.begin_stopping().is_empty());
    assert_eq!(lifecycle.next_step(false), LifecycleStep::Finish);
    assert_eq!(lifecycle.next_step(false), LifecycleStep::Finish);
    assert_eq!(lifecycle.phase(), LifecyclePhase::Finished);
    let (result, state) = lifecycle.finish(Some(MicrodeStopRequest::with_exit_code(0)));
    assert_eq!(result.exit_code, 0);
    assert_eq!(state, MicrodeApplicationState::Finished);
}

#[test]
fn the_stop_order_is_the_reverse_of_the_lifecycle_order() {
    let mut lifecycle = Lifecycle::new(vec![ModuleKind::Active, ModuleKind::Passive, ModuleKind::Active]);
    for _ in 0..3 {
        match lifecycle.next_step(false) {
            LifecycleStep::Initialize(_) => lifecycle.complete_step(Ok(())),
            other => panic!("unexpected {other:?}"),
        }
    }
    for _ in 0..3 {
        match lifecycle.next_step(false) {
            LifecycleStep::Setup(_) => lifecycle.complete_step(Ok(())),
            other => panic!("unexpected {other:?}"),
        }
    }
    assert_eq!(lifecycle.next_step(false), LifecycleStep::Execute);
    assert!(lifecycle.has_running_modules());
    assert!(!lifecycle.run_finished(1, Ok(())));
    assert_eq!(lifecycle.begin_stopping(), vec![2, 1, 0]);
    assert!(!lifecycle.awaits_completions());
    lifecycle.stop_finished(2, Ok(()));
    assert!(lifecycle.awaits_completions());
    assert!(lifecycle.run_finished(2, Ok(())));
    assert!(!lifecycle.awaits_completions());
}

#[test]
fn stop_failures_keep_call_order_and_only_passive_or_stopped_modules_are_awaited() {
    let mut lifecycle = Lifecycle::new(vec![ModuleKind::Active, ModuleKind::Passive, ModuleKind::Active]);
    for _ in 0..6 {
        match lifecycle.next_step(false) {
            LifecycleStep::Initialize(_) | LifecycleStep::Setup(_) => lifecycle.complete_step(Ok(())),
            other => panic!("unexpected {other:?}"),
        }
    }
    assert_eq!(lifecycle.next_step(false), LifecycleStep::Execute);
    assert_eq!(lifecycle.begin_stopping(), vec![2, 1, 0]);
    assert!(lifecycle.awaits_completions());
    lifecycle.stop_finished(2, Err(MicrodeError::new("third stop failed")));
    lifecycle.stop_finished(1, Err(MicrodeError::new("second stop failed")));
    lifecycle.stop_finished(0, Ok(()));
    assert!(!lifecycle.run_finished(1, Ok(())));
    assert!(lifecycle.awaits_completions());
    assert!(lifecycle.run_finished(0, Ok(())));
    assert!(!lifecycle.awaits_completions());
    assert!(lifecycle.run_finished(2, Ok(())));
    let mut steps = Vec::new();
    loop {
        let step = lifecycle.next_step(false);
        if step == LifecycleStep::Finish {
            break;
        }
        steps.push(step);
        lifecycle.complete_step(Ok(()));
    }
    assert_eq!(
        steps,
        vec![
            LifecycleStep::Teardown(2),
            LifecycleStep::Teardown(1),
            LifecycleStep::Teardown(0),
            LifecycleStep::Shutdown(2),
            LifecycleStep::Shutdown(1),
            LifecycleStep::Shutdown(0),
            LifecycleStep::Cleanup(2),
            LifecycleStep::Cleanup(1),
            LifecycleStep::Cleanup(0),
        ]
    );
    let (result, state) = lifecycle.finish(None);
    assert_eq!(result.exit_code, 1);
    assert_eq!(result.error, Some(MicrodeError::new("third stop failed")));
    assert_eq!(
        result.errors,
        Some(vec![MicrodeError::new("third stop failed"), MicrodeError::new("second stop failed")])
    );
    assert_eq!(state, MicrodeApplicationState::Failed);
}

// ---------------------------------------------------------------------------
// The same scenarios as the runtime's parity suite.

fn recorded(trace: &Trace, phases: &[&str]) -> Vec<String> {
    trace
        .events
        .iter()
        .filter(|event| phases.iter().any(|phase| event.ends_with(&format!(":{phase}"))))
        .cloned()
        .collect()
}

const PASSIVE_PHASES: [&str; 5] = ["initialize", "setup", "run", "stop", "cleanup"];

#[test]
fn parity_01_two_passive_modules_complete_successfully() {
    let trace = drive(&[Sim::passive("first"), Sim::passive("second")]);
    assert_eq!(trace.result.exit_code, 0);
    assert!(trace.result.error.is_none());
    assert_eq!(trace.state, MicrodeApplicationState::Finished);
    assert_eq!(
        recorded(&trace, &PASSIVE_PHASES),
        events(&[
            "first:initialize",
            "second:initialize",
            "first:setup",
            "second:setup",
            "first:run",
            "second:run",
            "second:stop",
            "first:stop",
            "second:cleanup",
            "first:cleanup"
        ])
    );
}

#[test]
fn parity_02_active_module_receives_stop() {
    let trace = drive(&[Sim::active("active").immediate()]);
    assert_eq!(trace.result.exit_code, 0);
    assert_eq!(recorded(&trace, &["run", "stop"]), events(&["active:run", "active:stop"]));
}

#[test]
fn parity_03_multiple_active_modules_stop_in_reverse_order() {
    let trace = drive(&[Sim::active("first"), Sim::active("second").immediate()]);
    assert_eq!(
        recorded(&trace, &["run", "stop"]),
        events(&["first:run", "second:run", "second:stop", "first:stop"])
    );
}

#[test]
fn parity_04_initialization_failure() {
    let trace = drive(&[Sim::passive("module").failing("initialize", "initialize failed")]);
    assert_eq!(trace.result.error, Some(MicrodeError::new("initialize failed")));
}

#[test]
fn parity_05_setup_failure() {
    let trace = drive(&[Sim::passive("module").failing("setup", "setup failed")]);
    assert_eq!(trace.result.error, Some(MicrodeError::new("setup failed")));
}

#[test]
fn parity_06_execution_failure() {
    let trace = drive(&[Sim::passive("module").failing("run", "run failed")]);
    assert_eq!(trace.result.error, Some(MicrodeError::new("run failed")));
}

#[test]
fn parity_07_stop_failure() {
    let trace = drive(&[Sim::active("active").immediate().failing("stop", "stop failed")]);
    assert_eq!(trace.result.error, Some(MicrodeError::new("stop failed")));
}

#[test]
fn parity_08_cleanup_failure() {
    let trace = drive(&[Sim::passive("module").failing("cleanup", "cleanup failed")]);
    assert_eq!(trace.result.error, Some(MicrodeError::new("cleanup failed")));
}

#[test]
fn parity_09_simultaneous_error_categories_follow_priority() {
    let trace = drive(&[
        Sim::active("active").failing("stop", "stop failed").failing("cleanup", "cleanup failed"),
        Sim::passive("passive")
            .failing("run", "run failed")
            .requesting("run", MicrodeStopRequest::with_error(MicrodeError::new("requested failure"))),
    ]);
    assert_eq!(trace.result.error, Some(MicrodeError::new("requested failure")));
    assert_eq!(
        trace.result.errors,
        Some(vec![
            MicrodeError::new("requested failure"),
            MicrodeError::new("stop failed"),
            MicrodeError::new("run failed"),
            MicrodeError::new("cleanup failed"),
        ])
    );
}

#[test]
fn parity_10_explicit_stop_exit_code() {
    let trace = drive_with(&[Sim::active("active")], None, Some(MicrodeStopRequest::with_exit_code(42)));
    assert_eq!(trace.result.exit_code, 42);
}

#[test]
fn parity_11_explicit_stop_error() {
    let failure = MicrodeError::new("explicit stop error");
    let trace = drive_with(&[Sim::active("active")], None, Some(MicrodeStopRequest::with_error(failure.clone())));
    assert_eq!(trace.result.error, Some(failure));
}

#[test]
fn parity_12_module_initiated_shutdown_request() {
    let trace = drive(&[Sim::passive("module").requesting("run", MicrodeStopRequest::with_exit_code(23))]);
    assert_eq!(trace.result.exit_code, 23);
    assert_eq!(trace.state, MicrodeApplicationState::Failed);
}

#[test]
fn handle_text_escapes_the_identifier_as_debug_does() {
    let mut service = Composition::new(1);
    let handle = install_named::<Worker>(&mut service, "odd \"name\"", vec![], vec![]).unwrap();
    assert_eq!(handle.debug_text(), format!("ModuleHandle {{ id: {:?}, .. }}", handle.id()));
    assert_eq!(handle.debug_text(), "ModuleHandle { id: ModuleInstanceId(\"odd \\\"name\\\"\"), .. }");
}

#[test]
fn a_failing_factory_fails_the_start_with_its_own_error() {
    let port = Port::<String>::new("factory");
    let first = Dependency::new("first", port.clone());
    let second = Dependency::new("second", port.clone());
    let mut service = Composition::new(1);
    let consumer = install_named::<ConsumerModule>(
        &mut service,
        "consumer",
        vec![first.descriptor(), second.descriptor()],
        vec![],
    )
    .unwrap();
    let calls = Arc::new(std::sync::atomic::AtomicUsize::new(0));
    let counter = calls.clone();
    let provider = install_named::<ProviderModule>(
        &mut service,
        "provider",
        vec![],
        vec![Provider::try_new(port, move || {
            counter.fetch_add(1, std::sync::atomic::Ordering::SeqCst);
            Err::<String, _>(MicrodeError::new("no database"))
        })],
    )
    .unwrap();
    bind(&mut service, &consumer, &first, &provider).unwrap();
    bind(&mut service, &consumer, &second, &provider).unwrap();
    assert_eq!(start_error(&mut service, IDLE), "no database");
    assert_eq!(calls.load(std::sync::atomic::Ordering::SeqCst), 1);
}

#[test]
fn a_fixed_provider_hands_out_the_value_it_was_built_with() {
    let shared = Arc::new(String::from("primary"));
    let provider = Provider::new(Port::<Arc<String>>::new("database"), shared.clone());
    let first = provider.resolve().unwrap();
    let second = provider.duplicate().resolve().unwrap();
    assert!(Arc::ptr_eq(first.downcast_ref::<Arc<String>>().unwrap(), &shared));
    assert!(Arc::ptr_eq(second.downcast_ref::<Arc<String>>().unwrap(), &shared));
}
