use vstd::prelude::*;
use vstd::string::*;
use std::any::{Any, TypeId};
use std::hash::RandomState;
use std::marker::PhantomData;
use std::sync::Arc;

use crate::error::MicrodeError;

verus! {

/// `std::any::TypeId`: the identity of a concrete type.
#[verifier::external_type_specification]
#[verifier::external_body]
pub struct ExTypeId(TypeId);

/// Calls `std::hash::RandomState::new`; nothing is claimed of the keys.
#[verifier::external_body]
fn random_state() -> RandomState {
    RandomState::new()
}

/// Calls `std::hash::BuildHasher::hash_one` on the unit value. Its result
/// depends on the randomly drawn keys of `state`, so nothing is claimed of it.
#[verifier::external_body]
fn hash_of_unit(state: &RandomState) -> u64 {
    std::hash::BuildHasher::hash_one(state, ())
}

/// A fresh identity: the hash of a fixed value under newly drawn random
/// keys.
fn fresh_identity() -> u64 {
    let state = random_state();
    hash_of_unit(&state)
}

/// Calls `std::any::TypeId::of::<T>()`; nothing is claimed of the result.
#[verifier::external_body]
pub(crate) fn type_identity<T: ?Sized + 'static>() -> TypeId {
    TypeId::of::<T>()
}

/// Calls `<TypeId as PartialEq>::eq`, which holds exactly for equal type
/// identities.
#[verifier::external_body]
pub(crate) fn same_type(left: &TypeId, right: &TypeId) -> (same: bool)
    ensures
        same == (*left == *right),
{
    *left == *right
}

/// A value shared behind `Arc<dyn Any + Send + Sync>`, whose type is only
/// known when it is read back.
#[verifier::external_body]
pub struct ErasedValue {
    value: Arc<dyn Any + Send + Sync>,
}

impl Clone for ErasedValue {
    /// Calls `Arc::clone`: the copy shares the same value.
    #[verifier::external_body]
    fn clone(&self) -> (copy: Self)
        ensures
            copy == *self,
    {
        ErasedValue { value: Arc::clone(&self.value) }
    }
}

impl ErasedValue {
    /// Calls `Arc::new` on `value` and erases its type; nothing is claimed
    /// of the result.
    #[verifier::external_body]
    pub fn new<T: Send + Sync + 'static>(value: T) -> ErasedValue {
        ErasedValue { value: Arc::new(value) }
    }

    /// Calls `<dyn Any>::downcast_ref::<T>()`, which gives the value exactly
    /// when it was created with type `T`; which type that was is not stated.
    #[verifier::external_body]
    pub fn downcast_ref<T: 'static>(&self) -> Option<&T> {
        self.value.downcast_ref::<T>()
    }
}

/// A factory for values of one type whose results are handed out with their
/// type erased.
pub trait ErasedFactory: Send + Sync {
    /// Whether the factory may be called.
    spec fn ready(&self) -> bool;

    /// Whether `produced` is an outcome that the factory may hand out.
    spec fn may_produce(&self, produced: Result<ErasedValue, MicrodeError>) -> bool;

    fn produce(&self) -> (produced: Result<ErasedValue, MicrodeError>)
        requires
            self.ready(),
        ensures
            self.may_produce(produced),
    ;
}

/// Calls the closure `factory`, which is the user's code, under the
/// closure's own precondition. The result is one that the closure may
/// return when called without arguments.
fn call_factory<T, Factory: Fn() -> Result<T, MicrodeError>>(factory: &Factory) -> (outcome: Result<
    T,
    MicrodeError,
>)
    requires
        call_requires(*factory, ()),
    ensures
        call_ensures(*factory, (), outcome),
{
    factory()
}

/// Whether `produced` hands out the outcome of a factory with the type of
/// its value erased: a value when the factory made one, and the factory's
/// own error when it failed.
pub open spec fn erased_outcome<T>(
    outcome: Result<T, MicrodeError>,
    produced: Result<ErasedValue, MicrodeError>,
) -> bool {
    match outcome {
        Ok(_) => produced is Ok,
        Err(error) => produced == Err::<ErasedValue, MicrodeError>(error),
    }
}

/// Whether `produced` is what a factory that calls `factory` may hand out:
/// an outcome of `factory` with the type of its value erased.
pub open spec fn factory_may_produce<T, Factory: Fn() -> Result<T, MicrodeError>>(
    factory: Factory,
    produced: Result<ErasedValue, MicrodeError>,
) -> bool {
    exists|outcome: Result<T, MicrodeError>| call_ensures(factory, (), outcome) && erased_outcome(outcome, produced)
}

/// A user's factory closure together with the type it produces.
pub struct TypedFactory<T, Factory> {
    factory: Factory,
    produced: PhantomData<T>,
}

impl<T, Factory> TypedFactory<T, Factory> {
    /// The user's closure.
    pub closed spec fn spec_factory(&self) -> Factory {
        self.factory
    }

    /// Pairs the closure `factory` with the type it produces.
    pub fn new(factory: Factory) -> (typed: Self)
        ensures
            typed.spec_factory() == factory,
    {
        TypedFactory { factory, produced: PhantomData }
    }
}

impl<T: Send + Sync + 'static, Factory: Fn() -> Result<T, MicrodeError> + Send + Sync> ErasedFactory for TypedFactory<
    T,
    Factory,
> {
    open spec fn ready(&self) -> bool {
        call_requires(self.spec_factory(), ())
    }

    open spec fn may_produce(&self, produced: Result<ErasedValue, MicrodeError>) -> bool {
        factory_may_produce::<T, Factory>(self.spec_factory(), produced)
    }

    fn produce(&self) -> (produced: Result<ErasedValue, MicrodeError>) {
        let outcome = call_factory(&self.factory);
        let ghost made = outcome;
        let produced = match outcome {
            Ok(value) => Ok(ErasedValue::new(value)),
            Err(error) => Err(error),
        };
        proof {
            assert(call_ensures(self.spec_factory(), (), made) && erased_outcome(made, produced));
        }
        produced
    }
}

/// A factory shared behind `Arc<dyn ErasedFactory>`.
pub struct FactoryHandle {
    factory: Arc<dyn ErasedFactory + 'static>,
}

impl Clone for FactoryHandle {
    /// Calls `Arc::clone`: the copy shares the same factory.
    #[verifier::external_body]
    fn clone(&self) -> (copy: Self)
        ensures
            copy == *self,
    {
        let factory = self.factory.clone();
        FactoryHandle { factory }
    }
}

impl FactoryHandle {
    /// Whether the shared factory may be called.
    pub closed spec fn ready(&self) -> bool {
        self.factory.ready()
    }

    /// Whether `produced` is an outcome that the shared factory may hand
    /// out.
    pub closed spec fn may_produce(&self, produced: Result<ErasedValue, MicrodeError>) -> bool {
        self.factory.may_produce(produced)
    }

    /// Calls `Arc::new` on `factory` and coerces it to
    /// `Arc<dyn ErasedFactory>`. Calls through the trait object reach
    /// `factory`'s own methods, so the handle may be called, and may hand
    /// out a result, exactly when `factory` may.
    #[verifier::external_body]
    fn new<Factory: ErasedFactory + 'static>(factory: Factory) -> (handle: FactoryHandle)
        ensures
            handle.ready() == factory.ready(),
            forall|produced: Result<ErasedValue, MicrodeError>|
                #[trigger] handle.may_produce(produced) == factory.may_produce(produced),
    {
        FactoryHandle { factory: Arc::new(factory) }
    }

    /// Asks the shared factory for a value.
    fn produce(&self) -> (produced: Result<ErasedValue, MicrodeError>)
        requires
            self.ready(),
        ensures
            self.may_produce(produced),
    {
        self.factory.produce()
    }
}

/// A concrete module type that a port requires: its type identity and the
/// name under which diagnostics mention it.
pub type ModuleType = (TypeId, String);

/// A copy of a concrete module requirement.
fn copy_module_type(module_type: &Option<ModuleType>) -> (copy: Option<ModuleType>)
    ensures
        copy == *module_type,
{
    match module_type {
        Some((id, name)) => Some((*id, name.clone())),
        None => None,
    }
}

/// Nominal runtime identity for a provider contract.
pub struct Port<T: ?Sized> {
    id: u64,
    description: String,
    contract: PhantomData<T>,
    module_type: Option<ModuleType>,
}

impl<T: ?Sized> Port<T> {
    /// The port's identity.
    pub closed spec fn spec_id(&self) -> u64 {
        self.id
    }

    /// The port's description.
    pub closed spec fn spec_description(&self) -> Seq<char> {
        self.description@
    }

    /// The concrete module type that providers of this port must have.
    pub closed spec fn spec_module_type(&self) -> Option<ModuleType> {
        self.module_type
    }

    /// A port with a fresh identity: a 64-bit value drawn at random, so two
    /// ports share one only by a chance too small to matter, which nothing
    /// here rules out.
    pub fn new(description: &str) -> (port: Self)
        ensures
            port.spec_description() == description@,
            port.spec_module_type() is None,
    {
        Port {
            id: fresh_identity(),
            description: String::from_str(description),
            contract: PhantomData,
            module_type: None,
        }
    }

    /// The port's description.
    pub fn description(&self) -> (description: &str)
        ensures
            description@ == self.spec_description(),
    {
        self.description.as_str()
    }

    /// A port with a fresh identity, drawn at random as for `new`, that only
    /// modules of type `Module` may provide; `module_name` names that type in
    /// diagnostics.
    pub fn for_module<Module: 'static>(description: &str, module_name: &str) -> (port: Self)
        ensures
            port.spec_description() == description@,
            port.spec_module_type() matches Some((_, name)) && name@ == module_name@,
    {
        Port {
            id: fresh_identity(),
            description: String::from_str(description),
            contract: PhantomData,
            module_type: Some((type_identity::<Module>(), String::from_str(module_name))),
        }
    }
}

impl<T: ?Sized> Clone for Port<T> {
    fn clone(&self) -> (copy: Self)
        ensures
            copy.spec_id() == self.spec_id(),
            copy.spec_description() == self.spec_description(),
            copy.spec_module_type() == self.spec_module_type(),
    {
        Port {
            id: self.id,
            description: self.description.clone(),
            contract: PhantomData,
            module_type: copy_module_type(&self.module_type),
        }
    }
}

/// Whether a relationship must be resolved before setup or only before
/// execution.
#[derive(Debug, Clone, Copy, PartialEq, Eq, Structural)]
pub enum RelationshipKind {
    Dependency,
    Reference,
}

/// What a composition knows of a relationship slot.
pub struct DescriptorView {
    pub slot_id: u64,
    pub name: Seq<char>,
    pub port_id: u64,
    pub port_description: Seq<char>,
    pub kind: RelationshipKind,
    pub module_type: Option<ModuleType>,
}

/// A relationship slot as a composition sees it.
#[derive(Debug, Clone, PartialEq, Eq)]
pub struct RelationshipDescriptor {
    pub(crate) slot_id: u64,
    pub(crate) name: String,
    pub(crate) port_id: u64,
    pub(crate) port_description: String,
    pub(crate) kind: RelationshipKind,
    pub(crate) module_type: Option<ModuleType>,
}

impl View for RelationshipDescriptor {
    type V = DescriptorView;

    closed spec fn view(&self) -> DescriptorView {
        DescriptorView {
            slot_id: self.slot_id,
            name: self.name@,
            port_id: self.port_id,
            port_description: self.port_description@,
            kind: self.kind,
            module_type: self.module_type,
        }
    }
}

impl RelationshipDescriptor {
    /// The slot's identity.
    pub fn slot_id(&self) -> (id: u64)
        ensures
            id == self@.slot_id,
    {
        self.slot_id
    }

    /// The slot's name.
    pub fn name(&self) -> (name: &str)
        ensures
            name@ == self@.name,
    {
        self.name.as_str()
    }

    /// The port the slot consumes.
    pub fn port_id(&self) -> (id: u64)
        ensures
            id == self@.port_id,
    {
        self.port_id
    }

    /// The description of the port the slot consumes.
    pub fn port_description(&self) -> (description: &str)
        ensures
            description@ == self@.port_description,
    {
        self.port_description.as_str()
    }

    /// The concrete module type the port requires, if any.
    pub fn module_type(&self) -> (module_type: &Option<ModuleType>)
        ensures
            *module_type == self@.module_type,
    {
        &self.module_type
    }

    /// The slot's kind.
    pub fn kind(&self) -> (kind: RelationshipKind)
        ensures
            kind == self@.kind,
    {
        self.kind
    }

    /// A copy of this descriptor.
    pub fn duplicate(&self) -> (copy: Self)
        ensures
            copy@ == self@,
    {
        RelationshipDescriptor {
            slot_id: self.slot_id,
            name: self.name.clone(),
            port_id: self.port_id,
            port_description: self.port_description.clone(),
            kind: self.kind,
            module_type: copy_module_type(&self.module_type),
        }
    }
}

/// A typed relationship slot that a module declares and a composition
/// binds.
pub trait RelationshipSlot {
    fn descriptor(&self) -> RelationshipDescriptor;
}

/// A relationship that must be resolved before the consumer is set up.
pub struct Dependency<T: ?Sized> {
    slot_id: u64,
    name: String,
    port: Port<T>,
}

/// A relationship that is only available while the consumer runs, and may
/// therefore form cycles.
pub struct Reference<T: ?Sized> {
    slot_id: u64,
    name: String,
    port: Port<T>,
}

impl<T: ?Sized> Dependency<T> {
    /// The slot's identity.
    pub closed spec fn spec_slot_id(&self) -> u64 {
        self.slot_id
    }

    /// The slot's name.
    pub closed spec fn spec_name(&self) -> Seq<char> {
        self.name@
    }

    /// The port the slot consumes.
    pub closed spec fn spec_port(&self) -> Port<T> {
        self.port
    }

    /// A new slot with a fresh identity: a 64-bit value drawn at random, so
    /// two slots share one only by a chance too small to matter, which
    /// nothing here rules out.
    pub fn new(name: &str, port: Port<T>) -> (slot: Self)
        ensures
            slot.spec_name() == name@,
            slot.spec_port() == port,
    {
        Dependency { slot_id: fresh_identity(), name: String::from_str(name), port }
    }

    /// The slot's name.
    pub fn name(&self) -> (name: &str)
        ensures
            name@ == self.spec_name(),
    {
        self.name.as_str()
    }

    /// The port the slot consumes.
    pub fn port(&self) -> (port: &Port<T>)
        ensures
            *port == self.spec_port(),
    {
        &self.port
    }

    /// The slot's identity.
    pub fn slot_id(&self) -> (id: u64)
        ensures
            id == self.spec_slot_id(),
    {
        self.slot_id
    }
}

impl<T: ?Sized> Clone for Dependency<T> {
    fn clone(&self) -> (copy: Self)
        ensures
            copy.spec_slot_id() == self.spec_slot_id(),
            copy.spec_name() == self.spec_name(),
            copy.spec_port().spec_id() == self.spec_port().spec_id(),
            copy.spec_port().spec_description() == self.spec_port().spec_description(),
            copy.spec_port().spec_module_type() == self.spec_port().spec_module_type(),
    {
        Dependency { slot_id: self.slot_id, name: self.name.clone(), port: self.port.clone() }
    }
}

impl<T: ?Sized> RelationshipSlot for Dependency<T> {
    fn descriptor(&self) -> (descriptor: RelationshipDescriptor)
        ensures
            descriptor@.slot_id == self.spec_slot_id(),
            descriptor@.name == self.spec_name(),
            descriptor@.port_id == self.spec_port().spec_id(),
            descriptor@.port_description == self.spec_port().spec_description(),
            descriptor@.kind == RelationshipKind::Dependency,
            descriptor@.module_type == self.spec_port().spec_module_type(),
    {
        RelationshipDescriptor {
            slot_id: self.slot_id,
            name: self.name.clone(),
            port_id: self.port.id,
            port_description: self.port.description.clone(),
            kind: RelationshipKind::Dependency,
            module_type: copy_module_type(&self.port.module_type),
        }
    }
}

impl<T: ?Sized> Reference<T> {
    /// The slot's identity.
    pub closed spec fn spec_slot_id(&self) -> u64 {
        self.slot_id
    }

    /// The slot's name.
    pub closed spec fn spec_name(&self) -> Seq<char> {
        self.name@
    }

    /// The port the slot consumes.
    pub closed spec fn spec_port(&self) -> Port<T> {
        self.port
    }

    /// A new slot with a fresh identity: a 64-bit value drawn at random, so
    /// two slots share one only by a chance too small to matter, which
    /// nothing here rules out.
    pub fn new(name: &str, port: Port<T>) -> (slot: Self)
        ensures
            slot.spec_name() == name@,
            slot.spec_port() == port,
    {
        Reference { slot_id: fresh_identity(), name: String::from_str(name), port }
    }

    /// The slot's name.
    pub fn name(&self) -> (name: &str)
        ensures
            name@ == self.spec_name(),
    {
        self.name.as_str()
    }

    /// The port the slot consumes.
    pub fn port(&self) -> (port: &Port<T>)
        ensures
            *port == self.spec_port(),
    {
        &self.port
    }

    /// The slot's identity.
    pub fn slot_id(&self) -> (id: u64)
        ensures
            id == self.spec_slot_id(),
    {
        self.slot_id
    }
}

impl<T: ?Sized> Clone for Reference<T> {
    fn clone(&self) -> (copy: Self)
        ensures
            copy.spec_slot_id() == self.spec_slot_id(),
            copy.spec_name() == self.spec_name(),
            copy.spec_port().spec_id() == self.spec_port().spec_id(),
            copy.spec_port().spec_description() == self.spec_port().spec_description(),
            copy.spec_port().spec_module_type() == self.spec_port().spec_module_type(),
    {
        Reference { slot_id: self.slot_id, name: self.name.clone(), port: self.port.clone() }
    }
}

impl<T: ?Sized> RelationshipSlot for Reference<T> {
    fn descriptor(&self) -> (descriptor: RelationshipDescriptor)
        ensures
            descriptor@.slot_id == self.spec_slot_id(),
            descriptor@.name == self.spec_name(),
            descriptor@.port_id == self.spec_port().spec_id(),
            descriptor@.port_description == self.spec_port().spec_description(),
            descriptor@.kind == RelationshipKind::Reference,
            descriptor@.module_type == self.spec_port().spec_module_type(),
    {
        RelationshipDescriptor {
            slot_id: self.slot_id,
            name: self.name.clone(),
            port_id: self.port.id,
            port_description: self.port.description.clone(),
            kind: RelationshipKind::Reference,
            module_type: copy_module_type(&self.port.module_type),
        }
    }
}

/// Where a provider's value comes from.
#[derive(Clone)]
enum ValueSource {
    Fixed(ErasedValue),
    Factory(FactoryHandle),
}

/// A value that a module provides on one port.
pub struct Provider {
    port_id: u64,
    source: ValueSource,
}

impl Clone for Provider {
    fn clone(&self) -> (copy: Self)
        ensures
            copy == *self,
    {
        self.duplicate()
    }
}

impl Provider {
    /// A provider's factory may always be called.
    #[verifier::type_invariant]
    spec fn callable(self) -> bool {
        match self.source {
            ValueSource::Fixed(_) => true,
            ValueSource::Factory(factory) => factory.ready(),
        }
    }

    /// The port this provider serves.
    pub closed spec fn spec_port_id(&self) -> u64 {
        self.port_id
    }

    /// Whether this provider hands out one fixed value.
    pub closed spec fn is_fixed(&self) -> bool {
        self.source is Fixed
    }

    /// The value a fixed provider hands out.
    pub closed spec fn spec_value(&self) -> ErasedValue {
        match self.source {
            ValueSource::Fixed(value) => value,
            ValueSource::Factory(_) => arbitrary(),
        }
    }

    /// Whether `outcome` is what resolving this provider may give: its
    /// fixed value, or an outcome of its factory with the value's type
    /// erased.
    pub closed spec fn may_resolve_to(&self, outcome: Result<ErasedValue, MicrodeError>) -> bool {
        match self.source {
            ValueSource::Fixed(value) => outcome == Ok::<ErasedValue, MicrodeError>(value),
            ValueSource::Factory(factory) => factory.may_produce(outcome),
        }
    }

    /// A fixed provider hands out exactly the value it was built with.
    pub proof fn lemma_fixed_outcome(&self, outcome: Result<ErasedValue, MicrodeError>)
        requires
            self.is_fixed(),
        ensures
            self.may_resolve_to(outcome) <==> outcome == Ok::<ErasedValue, MicrodeError>(self.spec_value()),
    {
    }

    /// The port this provider serves.
    pub fn port_id(&self) -> (id: u64)
        ensures
            id == self.spec_port_id(),
    {
        self.port_id
    }

    /// A provider that hands out `value` on `port`, the same shared value
    /// on every resolution.
    pub fn new<T: Send + Sync + 'static>(port: Port<T>, value: T) -> (provider: Self)
        ensures
            provider.spec_port_id() == port.spec_id(),
            provider.is_fixed(),
            forall|outcome: Result<ErasedValue, MicrodeError>|
                #[trigger] provider.may_resolve_to(outcome) == (outcome == Ok::<ErasedValue, MicrodeError>(
                    provider.spec_value(),
                )),
    {
        Provider { port_id: port.id, source: ValueSource::Fixed(ErasedValue::new(value)) }
    }

    /// A provider that creates its value with `factory` each time it is
    /// resolved; creating the provider does not call `factory`.
    pub fn try_new<T, Factory>(port: Port<T>, factory: Factory) -> (provider: Self) where
        T: Send + Sync + 'static,
        Factory: Fn() -> Result<T, MicrodeError> + Send + Sync + 'static,

        requires
            call_requires(factory, ()),
        ensures
            provider.spec_port_id() == port.spec_id(),
            !provider.is_fixed(),
            forall|outcome: Result<ErasedValue, MicrodeError>|
                #[trigger] provider.may_resolve_to(outcome) == factory_may_produce::<T, Factory>(
                    factory,
                    outcome,
                ),
    {
        let typed = TypedFactory::<T, Factory>::new(factory);
        Provider { port_id: port.id, source: ValueSource::Factory(FactoryHandle::new(typed)) }
    }

    /// The provided value: the fixed value itself, or what the factory
    /// creates when it is called once, with nothing handed to it. An error
    /// is the factory's own.
    pub fn resolve(&self) -> (value: Result<ErasedValue, MicrodeError>)
        ensures
            self.may_resolve_to(value),
            self.is_fixed() ==> value == Ok::<ErasedValue, MicrodeError>(self.spec_value()),
    {
        proof {
            use_type_invariant(self);
        }
        match &self.source {
            ValueSource::Fixed(value) => Ok(value.clone()),
            ValueSource::Factory(factory) => factory.produce(),
        }
    }

    /// A copy of this provider for the same port.
    pub fn duplicate(&self) -> (copy: Self)
        ensures
            copy == *self,
    {
        proof {
            use_type_invariant(self);
        }
        let source = match &self.source {
            ValueSource::Fixed(value) => ValueSource::Fixed(value.clone()),
            ValueSource::Factory(factory) => ValueSource::Factory(factory.clone()),
        };
        Provider { port_id: self.port_id, source }
    }
}

} // verus!
