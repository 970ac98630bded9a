use vstd::prelude::*;
use std::collections::HashMap;
use std::sync::Arc;

use crate::composition::ModuleInstanceId;
use crate::error::MicrodeError;
use crate::relationship::{Dependency, ErasedValue, Reference, RelationshipKind};
use crate::text::concat5;

verus! {

/// A relationship slot whose provider has been created: the consumer that
/// declared it, its name and kind, and the provided value.
#[derive(Clone)]
pub struct ResolvedRelationship {
    pub owner: ModuleInstanceId,
    pub name: String,
    pub kind: RelationshipKind,
    pub value: ErasedValue,
}

/// The diagnostic for a slot that is not resolved for the asking module.
pub open spec fn unresolved_message(owner: Seq<char>, name: Seq<char>) -> Seq<char> {
    "relationship '"@ + owner + "."@ + name + "' is not resolved for this module"@
}

/// The diagnostic for a reference used during setup.
pub open spec fn setup_unavailable_message(owner: Seq<char>, name: Seq<char>) -> Seq<char> {
    "relationship '"@ + owner + "."@ + name + "' is not available during setup"@
}

/// The diagnostic for a provided value of another type than asked for.
pub open spec fn type_mismatch_message(owner: Seq<char>, name: Seq<char>) -> Seq<char> {
    "provider type mismatch for relationship '"@ + owner + "."@ + name + "'"@
}

/// What resolving slot `slot_id`, named `name`, for module `owner` gives,
/// as far as it does not depend on the provided value's type: the error
/// that comes before the value is read, or `None` when the value is read.
pub open spec fn resolution_error(
    resolutions: Map<u64, ResolvedRelationship>,
    owner: Seq<char>,
    slot_id: u64,
    name: Seq<char>,
    expected_kind: Option<RelationshipKind>,
) -> Option<Seq<char>> {
    if !resolutions.contains_key(slot_id) || resolutions[slot_id].owner@ != owner {
        Some(unresolved_message(owner, name))
    } else if expected_kind matches Some(kind) && resolutions[slot_id].kind != kind {
        Some(setup_unavailable_message(owner, resolutions[slot_id].name@))
    } else {
        None
    }
}

/// The outcome of a resolution: the early error when there is one;
/// otherwise the value, or the type mismatch when the value has another
/// type.
pub open spec fn resolution_matches<T>(
    result: Result<T, MicrodeError>,
    resolutions: Map<u64, ResolvedRelationship>,
    owner: Seq<char>,
    slot_id: u64,
    name: Seq<char>,
    expected_kind: Option<RelationshipKind>,
) -> bool {
    match resolution_error(resolutions, owner, slot_id, name, expected_kind) {
        Some(message) => result matches Err(e) && e@ == message,
        None => result is Ok || (result matches Err(e) && e@ == type_mismatch_message(
            owner,
            resolutions[slot_id].name@,
        )),
    }
}

fn resolve<T: Clone + Send + Sync + 'static>(
    owner: &ModuleInstanceId,
    resolutions: &HashMap<u64, ResolvedRelationship>,
    slot_id: u64,
    name: &str,
    expected_kind: Option<RelationshipKind>,
) -> (result: Result<T, MicrodeError>)
    ensures
        resolution_matches(result, resolutions@, owner@, slot_id, name@, expected_kind),
{
    broadcast use vstd::std_specs::hash::group_hash_axioms;

    let resolved = match resolutions.get(&slot_id) {
        Some(resolved) => {
            if resolved.owner.same_as(owner) {
                resolved
            } else {
                return Err(
                    MicrodeError::from_message(
                        concat5(
                            "relationship '",
                            owner.as_str(),
                            ".",
                            name,
                            "' is not resolved for this module",
                        ),
                    ),
                );
            }
        },
        None => {
            return Err(
                MicrodeError::from_message(
                    concat5(
                        "relationship '",
                        owner.as_str(),
                        ".",
                        name,
                        "' is not resolved for this module",
                    ),
                ),
            );
        },
    };
    match expected_kind {
        Some(kind) => {
            if resolved.kind != kind {
                return Err(
                    MicrodeError::from_message(
                        concat5(
                            "relationship '",
                            owner.as_str(),
                            ".",
                            resolved.name.as_str(),
                            "' is not available during setup",
                        ),
                    ),
                );
            }
        },
        None => {},
    }
    match resolved.value.downcast_ref::<T>() {
        Some(value) => Ok(value.clone()),
        None => Err(
            MicrodeError::from_message(
                concat5(
                    "provider type mismatch for relationship '",
                    owner.as_str(),
                    ".",
                    resolved.name.as_str(),
                    "'",
                ),
            ),
        ),
    }
}

/// What a module may use while it is set up: the values bound to its
/// dependencies.
#[derive(Clone)]
pub struct SetupContext {
    owner: ModuleInstanceId,
    resolutions: Arc<HashMap<u64, ResolvedRelationship>>,
}

/// What a module may use while it runs: the values bound to its
/// dependencies and references.
#[derive(Clone)]
pub struct RunContext {
    owner: ModuleInstanceId,
    resolutions: Arc<HashMap<u64, ResolvedRelationship>>,
}

/// A relationship slot that a module may use while it runs.
pub trait RunRelationship<T> {
    spec fn spec_slot_id(&self) -> u64;

    spec fn spec_name(&self) -> Seq<char>;

    fn slot_id(&self) -> (id: u64)
        ensures
            id == self.spec_slot_id(),
    ;

    fn name(&self) -> (name: &str)
        ensures
            name@ == self.spec_name(),
    ;
}

impl<T> RunRelationship<T> for Dependency<T> {
    open spec fn spec_slot_id(&self) -> u64 {
        Dependency::<T>::spec_slot_id(self)
    }

    open spec fn spec_name(&self) -> Seq<char> {
        Dependency::<T>::spec_name(self)
    }

    fn slot_id(&self) -> (id: u64) {
        Dependency::<T>::slot_id(self)
    }

    fn name(&self) -> (name: &str) {
        Dependency::<T>::name(self)
    }
}

impl<T> RunRelationship<T> for Reference<T> {
    open spec fn spec_slot_id(&self) -> u64 {
        Reference::<T>::spec_slot_id(self)
    }

    open spec fn spec_name(&self) -> Seq<char> {
        Reference::<T>::spec_name(self)
    }

    fn slot_id(&self) -> (id: u64) {
        Reference::<T>::slot_id(self)
    }

    fn name(&self) -> (name: &str) {
        Reference::<T>::name(self)
    }
}

impl SetupContext {
    /// The module the context belongs to.
    pub closed spec fn spec_owner(&self) -> Seq<char> {
        self.owner@
    }

    /// The resolved relationships, by slot.
    pub closed spec fn spec_resolutions(&self) -> Map<u64, ResolvedRelationship> {
        self.resolutions@
    }

    /// A context for module `owner` over the given resolutions.
    pub fn new(owner: ModuleInstanceId, resolutions: Arc<HashMap<u64, ResolvedRelationship>>) -> (context: Self)
        ensures
            context.spec_owner() == owner@,
            context.spec_resolutions() == resolutions@,
    {
        SetupContext { owner, resolutions }
    }

    /// The value bound to one of the module's dependencies. References are
    /// not available during setup.
    pub fn use_dependency<T: Clone + Send + Sync + 'static>(&self, relationship: &Dependency<T>) -> (result: Result<
        T,
        MicrodeError,
    >)
        ensures
            resolution_matches(
                result,
                self.spec_resolutions(),
                self.spec_owner(),
                relationship.spec_slot_id(),
                relationship.spec_name(),
                Some(RelationshipKind::Dependency),
            ),
    {
        resolve(
            &self.owner,
            &self.resolutions,
            relationship.slot_id(),
            relationship.name(),
            Some(RelationshipKind::Dependency),
        )
    }
}

impl RunContext {
    /// The module the context belongs to.
    pub closed spec fn spec_owner(&self) -> Seq<char> {
        self.owner@
    }

    /// The resolved relationships, by slot.
    pub closed spec fn spec_resolutions(&self) -> Map<u64, ResolvedRelationship> {
        self.resolutions@
    }

    /// A context for module `owner` over the given resolutions.
    pub fn new(owner: ModuleInstanceId, resolutions: Arc<HashMap<u64, ResolvedRelationship>>) -> (context: Self)
        ensures
            context.spec_owner() == owner@,
            context.spec_resolutions() == resolutions@,
    {
        RunContext { owner, resolutions }
    }

    /// The value bound to one of the module's dependencies or references.
    pub fn use_relationship<T: Clone + Send + Sync + 'static, Slot: RunRelationship<T>>(
        &self,
        relationship: &Slot,
    ) -> (result: Result<T, MicrodeError>)
        ensures
            resolution_matches(
                result,
                self.spec_resolutions(),
                self.spec_owner(),
                relationship.spec_slot_id(),
                relationship.spec_name(),
                None,
            ),
    {
        resolve(&self.owner, &self.resolutions, relationship.slot_id(), relationship.name(), None)
    }
}

} // verus!
