use microde::{MicrodeApplicationState, MicrodeError, MicrodeStopRequest, ModuleKind, ModuleStage};

#[test]
fn module_kinds_are_distinct_copyable_values() {
    let passive = ModuleKind::Passive;
    let copied = passive;

    assert_eq!(passive, copied);
    assert_ne!(passive, ModuleKind::Active);
    assert_eq!(format!("{passive:?}"), "Passive");
}

#[test]
fn lifecycle_states_preserve_the_runtime_vocabulary() {
    let states = [
        MicrodeApplicationState::Idle,
        MicrodeApplicationState::Installing,
        MicrodeApplicationState::Initialization,
        MicrodeApplicationState::Setup,
        MicrodeApplicationState::Running,
        MicrodeApplicationState::TearDown,
        MicrodeApplicationState::Shutdown,
        MicrodeApplicationState::CleanUp,
        MicrodeApplicationState::Finished,
        MicrodeApplicationState::Failed,
    ];

    assert_eq!(states.len(), 10);
    assert_eq!(states[0], MicrodeApplicationState::Idle);
    assert_eq!(states[9], MicrodeApplicationState::Failed);
}

#[test]
fn constructors_capture_each_supported_shape() {
    let error = MicrodeError::new("stop failed");

    assert_eq!(MicrodeStopRequest::success(), MicrodeStopRequest::default());
    assert_eq!(
        MicrodeStopRequest::with_exit_code(42),
        MicrodeStopRequest {
            exit_code: Some(42),
            error: None,
        }
    );
    assert_eq!(
        MicrodeStopRequest::with_error(error.clone()),
        MicrodeStopRequest {
            exit_code: None,
            error: Some(error.clone()),
        }
    );
    assert_eq!(
        MicrodeStopRequest::with_exit_code_and_error(7, error.clone()),
        MicrodeStopRequest {
            exit_code: Some(7),
            error: Some(error),
        }
    );
}

#[test]
fn state_names_match_their_debug_spelling() {
    let states = [
        MicrodeApplicationState::Idle,
        MicrodeApplicationState::Installing,
        MicrodeApplicationState::Initialization,
        MicrodeApplicationState::Setup,
        MicrodeApplicationState::Running,
        MicrodeApplicationState::TearDown,
        MicrodeApplicationState::Shutdown,
        MicrodeApplicationState::CleanUp,
        MicrodeApplicationState::Finished,
        MicrodeApplicationState::Failed,
    ];
    for state in states {
        assert_eq!(state.name(), format!("{state:?}"));
    }
    assert!(!MicrodeApplicationState::Idle.has_started());
    assert!(!MicrodeApplicationState::Installing.has_started());
    assert!(MicrodeApplicationState::Initialization.has_started());
    assert!(MicrodeApplicationState::Failed.has_started());
}

#[test]
fn errors_keep_their_message() {
    let error = MicrodeError::new("boom");
    assert_eq!(error.to_string(), "boom");
    assert_eq!(MicrodeError::from_message(String::from("owned")).to_string(), "owned");
    assert_eq!(error.duplicate(), error);
}

#[test]
fn stages_are_ranked_in_lifecycle_order() {
    let stages = [
        ModuleStage::Installed,
        ModuleStage::Initializing,
        ModuleStage::Initialized,
        ModuleStage::SettingUp,
        ModuleStage::SetUp,
        ModuleStage::Executing,
        ModuleStage::Executed,
        ModuleStage::TearingDown,
        ModuleStage::TornDown,
        ModuleStage::ShuttingDown,
        ModuleStage::Shutdown,
        ModuleStage::CleaningUp,
        ModuleStage::CleanedUp,
    ];
    for (index, stage) in stages.iter().enumerate() {
        assert_eq!(stage.rank() as usize, index);
    }
}
