use std::collections::HashMap;
use std::sync::Arc;

use microde::{
    Dependency, ErasedValue, ModuleInstanceId, Port, Provider, Reference, RelationshipKind,
    RelationshipSlot, ResolvedRelationship, RunContext, SetupContext,
};

trait Database: Send + Sync {}

fn resolved(owner: &str, name: &str, kind: RelationshipKind, value: ErasedValue) -> ResolvedRelationship {
    ResolvedRelationship {
        owner: ModuleInstanceId::new(owner),
        name: name.to_owned(),
        kind,
        value,
    }
}

#[test]
fn declares_independent_typed_relationship_slots() {
    let port = Port::<dyn Database>::new("database");
    let first = Dependency::new("database", port.clone());
    let second = Dependency::new("database", port.clone());
    let peer = Reference::new("peer", port);

    assert_eq!(first.name(), "database");
    assert_eq!(first.port().description(), "database");
    assert_ne!(first.slot_id(), second.slot_id());
    assert_eq!(peer.name(), "peer");
    assert_eq!(peer.port().description(), "database");
}

#[test]
fn reports_unresolved_wrong_phase_and_provider_type_errors() {
    let dependency = Dependency::new("database", Port::<String>::new("database"));
    let mut values = HashMap::new();
    values.insert(
        dependency.slot_id(),
        resolved("other", "database", RelationshipKind::Dependency, ErasedValue::new("value".to_owned())),
    );
    let context = SetupContext::new(ModuleInstanceId::new("consumer"), Arc::new(values));
    assert_eq!(
        context.use_dependency(&dependency).unwrap_err().to_string(),
        "relationship 'consumer.database' is not resolved for this module"
    );

    let mut values = HashMap::new();
    values.insert(
        dependency.slot_id(),
        resolved("consumer", "database", RelationshipKind::Reference, ErasedValue::new("value".to_owned())),
    );
    let context = SetupContext::new(ModuleInstanceId::new("consumer"), Arc::new(values));
    assert_eq!(
        context.use_dependency(&dependency).unwrap_err().to_string(),
        "relationship 'consumer.database' is not available during setup"
    );

    let mut values = HashMap::new();
    values.insert(
        dependency.slot_id(),
        resolved("consumer", "database", RelationshipKind::Dependency, ErasedValue::new(7_u8)),
    );
    let context = RunContext::new(ModuleInstanceId::new("consumer"), Arc::new(values));
    assert_eq!(
        context.use_relationship::<String, _>(&dependency).unwrap_err().to_string(),
        "provider type mismatch for relationship 'consumer.database'"
    );
}

#[test]
fn resolved_values_reach_their_owner() {
    let dependency = Dependency::new("database", Port::<String>::new("database"));
    let reference = Reference::new("peer", Port::<String>::new("peer"));
    let mut values = HashMap::new();
    values.insert(
        dependency.slot_id(),
        resolved("consumer", "database", RelationshipKind::Dependency, ErasedValue::new("primary".to_owned())),
    );
    values.insert(
        reference.slot_id(),
        resolved("consumer", "peer", RelationshipKind::Reference, ErasedValue::new("replica".to_owned())),
    );
    let values = Arc::new(values);
    let setup = SetupContext::new(ModuleInstanceId::new("consumer"), values.clone());
    assert_eq!(setup.use_dependency(&dependency).unwrap(), "primary");
    let run = RunContext::new(ModuleInstanceId::new("consumer"), values);
    assert_eq!(run.use_relationship::<String, _>(&dependency).unwrap(), "primary");
    assert_eq!(run.use_relationship::<String, _>(&reference).unwrap(), "replica");
}

#[test]
fn a_reference_is_unresolved_for_another_module_at_run() {
    let reference = Reference::new("peer", Port::<String>::new("peer"));
    let mut values = HashMap::new();
    values.insert(
        reference.slot_id(),
        resolved("owner", "peer", RelationshipKind::Reference, ErasedValue::new("x".to_owned())),
    );
    let run = RunContext::new(ModuleInstanceId::new("intruder"), Arc::new(values));
    assert_eq!(
        run.use_relationship::<String, _>(&reference).unwrap_err().to_string(),
        "relationship 'intruder.peer' is not resolved for this module"
    );
}

#[test]
fn descriptors_carry_the_slot_port_and_kind() {
    let port = Port::<String>::new("cache");
    let dependency = Dependency::new("cache", port.clone());
    let reference = Reference::new("mirror", port.clone());
    let first = dependency.descriptor();
    let second = reference.descriptor();
    assert_eq!(first.slot_id(), dependency.slot_id());
    assert_eq!(first.name(), "cache");
    assert_eq!(first.port_description(), "cache");
    assert_eq!(first.kind(), RelationshipKind::Dependency);
    assert_eq!(second.kind(), RelationshipKind::Reference);
    assert_eq!(first.port_id(), second.port_id());
    assert!(first.module_type().is_none());
    assert_eq!(dependency.clone().slot_id(), dependency.slot_id());
}

struct Owner;

#[test]
fn ports_for_a_module_remember_the_required_module() {
    let port = Port::<String>::for_module::<Owner>("owned", "tests::Owner");
    assert_eq!(port.description(), "owned");
    let descriptor = Dependency::new("owned", port.clone()).descriptor();
    let required = descriptor.module_type().as_ref().unwrap();
    assert_eq!(required.0, std::any::TypeId::of::<Owner>());
    assert_eq!(required.1, "tests::Owner");
    assert_ne!(Port::<String>::new("a").clone().description(), "b");
}

#[test]
fn providers_resolve_fixed_values_and_factory_results() {
    let port = Port::<String>::new("values");
    let fixed = Provider::new(port.clone(), "fixed".to_owned());
    let made = Provider::try_new(port.clone(), || Ok("made".to_owned()));
    let failing = Provider::try_new(port.clone(), || Err::<String, _>(microde::MicrodeError::new("no value")));
    assert_eq!(fixed.port_id(), made.port_id());
    assert_eq!(fixed.resolve().unwrap().downcast_ref::<String>().unwrap(), "fixed");
    assert_eq!(made.resolve().unwrap().downcast_ref::<String>().unwrap(), "made");
    assert!(made.resolve().unwrap().downcast_ref::<u8>().is_none());
    match failing.resolve() {
        Ok(_) => panic!("the factory failed"),
        Err(error) => assert_eq!(error.to_string(), "no value"),
    }
    assert_eq!(fixed.duplicate().port_id(), fixed.port_id());
}

#[test]
fn distinct_ports_get_distinct_identities() {
    let first = Port::<String>::new("same");
    let second = Port::<String>::new("same");
    let a = Provider::new(first, String::new());
    let b = Provider::new(second, String::new());
    assert_ne!(a.port_id(), b.port_id());
}
