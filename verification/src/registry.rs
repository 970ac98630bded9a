use vstd::prelude::*;
use vstd::string::*;
use std::any::TypeId;
use std::collections::HashMap;

use crate::composition::{id_texts, ModuleHandle, ModuleInstanceId};
use crate::dependency_graph::{
    adjacency, cycle_message, dependencies_of, graph_closed, graph_wf, lemma_sorted_listing_unique,
    lemma_sorted_no_duplicates, names, DependencyGraph, GraphView,
};
use crate::graph_order::dfs_order;
use crate::lifecycle_order::{
    is_lifecycle_order, lifecycle_before, lifecycle_positions, lists, permute, permuted, rank,
    lemma_lifecycle_order_distinct, lemma_lifecycle_order_follows_order,
};
use crate::error::MicrodeError;
use crate::lifecycle_context::ResolvedRelationship;
use crate::relationship::{same_type, ErasedValue, DescriptorView, Provider, RelationshipDescriptor, RelationshipKind};
use crate::text::{
    all_digits, concat2, concat3, concat5, decimal, decimal_value, last_path_segment, last_segment,
    lemma_decimal_reads_back, push_decimal,
};
use crate::types::{state_name, MicrodeApplicationState, ModuleKind};

verus! {

/// What a composition keeps of an installed module.
pub struct ModuleRecord {
    pub id: ModuleInstanceId,
    pub kind: ModuleKind,
    pub relationships: Vec<RelationshipDescriptor>,
    pub providers: Vec<Provider>,
    pub module_type: TypeId,
}

/// A module record as the composition's contracts see it.
pub struct RecordView {
    pub id: Seq<char>,
    pub kind: ModuleKind,
    pub relationships: Seq<DescriptorView>,
    pub providers: Seq<Provider>,
    pub module_type: TypeId,
}

impl View for ModuleRecord {
    type V = RecordView;

    open spec fn view(&self) -> RecordView {
        RecordView {
            id: self.id@,
            kind: self.kind,
            relationships: self.relationships@.map_values(|d: RelationshipDescriptor| d@),
            providers: self.providers@,
            module_type: self.module_type,
        }
    }
}

/// A bound relationship slot: the consumer that bound it, the module that
/// serves it, the port, and that module's provider for the port.
pub struct Binding {
    owner: ModuleInstanceId,
    target: ModuleInstanceId,
    port_id: u64,
    provider: Provider,
}

/// A binding as the composition's contracts see it.
pub struct BindingView {
    pub owner: Seq<char>,
    pub target: Seq<char>,
    pub port_id: u64,
    pub provider: Provider,
}

impl View for Binding {
    type V = BindingView;

    closed spec fn view(&self) -> BindingView {
        BindingView {
            owner: self.owner@,
            target: self.target@,
            port_id: self.port_id,
            provider: self.provider,
        }
    }
}

/// The modules installed in an application and the bindings between
/// their relationship slots.
pub struct Composition {
    composition_id: u64,
    modules: Vec<ModuleRecord>,
    bindings: HashMap<u64, Binding>,
    sealed: bool,
}

/// A composition as its contracts see it.
pub struct CompositionView {
    pub id: u64,
    pub modules: Seq<RecordView>,
    pub bindings: Map<u64, BindingView>,
    pub sealed: bool,
}

impl View for Composition {
    type V = CompositionView;

    closed spec fn view(&self) -> CompositionView {
        CompositionView {
            id: self.composition_id,
            modules: self.modules@.map_values(|r: ModuleRecord| r@),
            bindings: self.bindings@.map_values(|b: Binding| b@),
            sealed: self.sealed,
        }
    }
}

/// What wiring a composition yields: the positions of the installed
/// modules in lifecycle order, and the value of every declared
/// relationship slot.
pub struct Wiring {
    pub positions: Vec<usize>,
    pub resolutions: HashMap<u64, ResolvedRelationship>,
    /// The module and port of each provider that wiring asked for a value,
    /// in the order it asked them.
    pub asked: Ghost<Seq<(Seq<char>, u64)>>,
}

/// Whether some installed module has the identifier `id`.
pub open spec fn installed(c: CompositionView, id: Seq<char>) -> bool {
    exists|k: int| 0 <= k < c.modules.len() && #[trigger] c.modules[k].id == id
}

/// The first installed module with identifier `id`.
#[verifier::opaque]
pub open spec fn first_module(c: CompositionView, id: Seq<char>) -> int {
    choose|k: int|
        0 <= k < c.modules.len() && c.modules[k].id == id && forall|j: int|
            0 <= j < k ==> c.modules[j].id != id
}

/// Every binding joins two installed modules.
pub open spec fn composition_wf(c: CompositionView) -> bool {
    forall|slot: u64| #[trigger]
        c.bindings.contains_key(slot) ==> {
            &&& installed(c, c.bindings[slot].owner)
            &&& installed(c, c.bindings[slot].target)
            &&& c.bindings[slot].provider == provider_of(c, c.bindings[slot].target, c.bindings[slot].port_id)
        }
}

/// The provider that the module installed as `target` hands out on `port`:
/// the first such provider of the first module with that identifier.
pub open spec fn provider_of(c: CompositionView, target: Seq<char>, port: u64) -> Provider {
    let record = c.modules[first_module(c, target)];
    record.providers[first_provider(record, port)]
}

/// The diagnostic for installing after the lifecycle started.
pub open spec fn started_message(state: MicrodeApplicationState) -> Seq<char> {
    "cannot install module after application has started; current state: "@ + state_name(state)
}

/// The diagnostic for changing a sealed composition.
pub open spec fn sealed_message() -> Seq<char> {
    "cannot modify composition after it is sealed"@
}

/// The diagnostic for installing an identifier twice.
pub open spec fn duplicate_id_message(id: Seq<char>) -> Seq<char> {
    "module instance ID '"@ + id + "' is already installed"@
}

/// The identifier given to the module installed at position `n` without a
/// name.
pub open spec fn anonymous_id(n: nat) -> Seq<char> {
    "@installation/"@ + decimal(n)
}

/// The identifier of the module installed at position `n` without a name
/// is `@installation/` followed by `n` in standard decimal notation: digits
/// only, no leading zero, and read with the most significant digit first it
/// gives back `n`.
pub proof fn lemma_anonymous_id_reads_back(n: nat)
    ensures
        anonymous_id(n).take(14) == "@installation/"@,
        anonymous_id(n).len() > 14,
        all_digits(anonymous_id(n).skip(14)),
        anonymous_id(n)[14] == '0' ==> n == 0,
        decimal_value(anonymous_id(n).skip(14)) == n,
{
    reveal_strlit("@installation/");
    lemma_decimal_reads_back(n);
    assert(anonymous_id(n).take(14) =~= "@installation/"@);
    assert(anonymous_id(n).skip(14) =~= decimal(n));
}

/// Why the composition refuses changes in `state`, if it does.
pub open spec fn installable_error(c: CompositionView, state: MicrodeApplicationState) -> Option<
    Seq<char>,
> {
    if state != MicrodeApplicationState::Idle {
        Some(started_message(state))
    } else if c.sealed {
        Some(sealed_message())
    } else {
        None
    }
}

/// Whether a module declares the slot `slot`.
pub open spec fn declares_slot(record: RecordView, slot: u64) -> bool {
    exists|k: int| 0 <= k < record.relationships.len() && #[trigger] record.relationships[k].slot_id == slot
}

/// Whether a module provides port `port`.
pub open spec fn provides_port(record: RecordView, port: u64) -> bool {
    exists|k: int| 0 <= k < record.providers.len() && #[trigger] record.providers[k].spec_port_id() == port
}

/// The module's first provider for port `port`.
#[verifier::opaque]
pub open spec fn first_provider(record: RecordView, port: u64) -> int {
    choose|k: int|
        0 <= k < record.providers.len() && record.providers[k].spec_port_id() == port && forall|j: int|
            0 <= j < k ==> record.providers[j].spec_port_id() != port
}

/// The diagnostic for a handle that another composition issued.
pub open spec fn foreign_handle_message(id: Seq<char>) -> Seq<char> {
    "module handle '"@ + id + "' belongs to another application"@
}

/// The diagnostic for a slot that the consumer does not declare.
pub open spec fn unknown_relationship_message(consumer: Seq<char>, name: Seq<char>) -> Seq<char> {
    "unknown relationship '"@ + consumer + "."@ + name + "'"@
}

/// The diagnostic for binding a slot twice.
pub open spec fn already_bound_message(consumer: Seq<char>, name: Seq<char>) -> Seq<char> {
    "relationship '"@ + consumer + "."@ + name + "' is already bound"@
}

/// The diagnostic for a target of another concrete type than the port
/// requires.
pub open spec fn concrete_requirement_message(target: Seq<char>, module_name: Seq<char>) -> Seq<char> {
    "module '"@ + target + "' does not satisfy concrete module requirement '"@ + last_segment(module_name) + "'"@
}

/// The diagnostic for a target that does not provide the slot's port.
pub open spec fn missing_port_message(target: Seq<char>, port: Seq<char>) -> Seq<char> {
    "module '"@ + target + "' does not provide port '"@ + port + "'"@
}

/// Why the handles of a bind are refused, if they are.
pub open spec fn handle_error(
    c: CompositionView,
    state: MicrodeApplicationState,
    consumer: Seq<char>,
    consumer_owner: u64,
    target: Seq<char>,
    target_owner: u64,
) -> Option<Seq<char>> {
    match installable_error(c, state) {
        Some(message) => Some(message),
        None => if consumer_owner != c.id {
            Some(foreign_handle_message(consumer))
        } else if target_owner != c.id {
            Some(foreign_handle_message(target))
        } else {
            None
        },
    }
}

/// Why binding `slot` of installed module `consumer` to installed module
/// `target` is refused, if it is.
pub open spec fn slot_error(
    c: CompositionView,
    consumer: Seq<char>,
    slot: DescriptorView,
    target: Seq<char>,
) -> Option<Seq<char>> {
    if !declares_slot(c.modules[first_module(c, consumer)], slot.slot_id) {
        Some(unknown_relationship_message(consumer, slot.name))
    } else if c.bindings.contains_key(slot.slot_id) {
        Some(already_bound_message(consumer, slot.name))
    } else if slot.module_type is Some && c.modules[first_module(c, target)].module_type
        != slot.module_type.unwrap().0 {
        Some(concrete_requirement_message(target, slot.module_type.unwrap().1@))
    } else if !provides_port(c.modules[first_module(c, target)], slot.port_id) {
        Some(missing_port_message(target, slot.port_description))
    } else {
        None
    }
}

/// Why binding `slot` of `consumer` to `target` is refused, if it is: the
/// first of these that holds: the composition refuses changes, a handle was
/// issued by another composition, the consumer does not declare the slot,
/// the slot is already bound, the target is not of the concrete type the
/// port requires, or the target does not provide the port.
#[verifier::opaque]
pub open spec fn bind_error(
    c: CompositionView,
    state: MicrodeApplicationState,
    consumer: Seq<char>,
    consumer_owner: u64,
    slot: DescriptorView,
    target: Seq<char>,
    target_owner: u64,
) -> Option<Seq<char>> {
    match handle_error(c, state, consumer, consumer_owner, target, target_owner) {
        Some(message) => Some(message),
        None => slot_error(c, consumer, slot, target),
    }
}

/// The binding that a successful bind records.
pub open spec fn new_binding(
    c: CompositionView,
    consumer: Seq<char>,
    slot: DescriptorView,
    target: Seq<char>,
) -> BindingView {
    let record = c.modules[first_module(c, target)];
    BindingView {
        owner: consumer,
        target,
        port_id: slot.port_id,
        provider: record.providers[first_provider(record, slot.port_id)],
    }
}

/// Whether relationship `r` of module `m` exists and has no binding.
pub open spec fn missing_at(c: CompositionView, m: int, r: int) -> bool {
    &&& 0 <= m < c.modules.len()
    &&& 0 <= r < c.modules[m].relationships.len()
    &&& !c.bindings.contains_key(c.modules[m].relationships[r].slot_id)
}

/// Whether some declared relationship has no binding.
pub open spec fn has_missing(c: CompositionView) -> bool {
    exists|m: int, r: int| missing_at(c, m, r)
}

/// Whether pair `(m, r)` comes before pair `(m2, r2)` in the order in which
/// modules, and within a module its relationships, are listed.
pub open spec fn pair_before(m: int, r: int, m2: int, r2: int) -> bool {
    m < m2 || (m == m2 && r < r2)
}

/// Whether relationship `r` of module `m` is the first one without a
/// binding.
pub open spec fn first_missing_at(c: CompositionView, m: int, r: int) -> bool {
    &&& missing_at(c, m, r)
    &&& forall|m2: int, r2: int| pair_before(m2, r2, m, r) ==> !missing_at(c, m2, r2)
}

/// The diagnostic for a declared relationship without a binding.
pub open spec fn missing_binding_message(id: Seq<char>, name: Seq<char>) -> Seq<char> {
    "missing binding for relationship '"@ + id + "."@ + name + "'"@
}

/// Whether relationship `r` of module `m` is a bound dependency that makes
/// module `a` depend on module `b`.
pub open spec fn edge_at(c: CompositionView, m: int, r: int, a: Seq<char>, b: Seq<char>) -> bool {
    &&& 0 <= m < c.modules.len()
    &&& 0 <= r < c.modules[m].relationships.len()
    &&& c.modules[m].relationships[r].kind == RelationshipKind::Dependency
    &&& c.bindings.contains_key(c.modules[m].relationships[r].slot_id)
    &&& c.bindings[c.modules[m].relationships[r].slot_id].owner == a
    &&& c.bindings[c.modules[m].relationships[r].slot_id].target == b
}

/// The modules that bound dependencies before pair `(m, r)` make `a`
/// depend on.
pub open spec fn edges_before(c: CompositionView, m: int, r: int, a: Seq<char>) -> Set<Seq<char>> {
    Set::new(|b: Seq<char>| exists|m2: int, r2: int| pair_before(m2, r2, m, r) && edge_at(c, m2, r2, a, b))
}

/// The modules that the bound dependencies make `a` depend on.
pub open spec fn depends_on(c: CompositionView, a: Seq<char>) -> Set<Seq<char>> {
    Set::new(|b: Seq<char>| exists|m2: int, r2: int| edge_at(c, m2, r2, a, b))
}

/// The identifiers of the installed modules.
pub open spec fn module_ids(c: CompositionView) -> Set<Seq<char>> {
    Set::new(|a: Seq<char>| installed(c, a))
}

/// Whether `g` is the dependency graph of the composition.
pub open spec fn is_wiring_graph(c: CompositionView, g: GraphView) -> bool {
    &&& graph_wf(g)
    &&& g.ids.to_set() == module_ids(c)
    &&& forall|a: Seq<char>| #![trigger dependencies_of(g, a)] dependencies_of(g, a) == depends_on(c, a)
}

/// The dependency graph of the composition: its modules, each depending on
/// the targets of its bound dependencies.
pub open spec fn wiring_graph(c: CompositionView) -> GraphView {
    choose|g: GraphView| is_wiring_graph(c, g)
}

/// A composition has one dependency graph.
pub proof fn lemma_wiring_graph_unique(c: CompositionView, g1: GraphView, g2: GraphView)
    requires
        is_wiring_graph(c, g1),
        is_wiring_graph(c, g2),
    ensures
        g1 == g2,
{
    lemma_sorted_listing_unique(g1.ids, g2.ids);
    assert forall|i: int| 0 <= i < g1.deps.len() implies #[trigger] g1.deps[i] == g2.deps[i] by {
        let a = g1.ids[i];
        assert(g1.ids.contains(a));
        lemma_sorted_no_duplicates(g1.ids);
        g1.ids.index_of_first_ensures(a);
        let k = g1.ids.index_of(a);
        assert(k == i) by {
            if k != i {
                assert(g1.ids[k] == g1.ids[i]);
            }
        }
        assert(dependencies_of(g1, a) == dependencies_of(g2, a));
        lemma_sorted_listing_unique(g1.deps[i], g2.deps[i]);
    }
    assert(g1.deps =~= g2.deps);
}

/// The order in which modules were installed does not matter: two
/// compositions with the same modules and the same bound dependencies have
/// the same dependency graph, hence the same dependency-first order.
pub proof fn lemma_wiring_graph_ignores_installation_order(c1: CompositionView, c2: CompositionView)
    requires
        is_wiring_graph(c1, wiring_graph(c1)),
        is_wiring_graph(c2, wiring_graph(c2)),
        module_ids(c1) == module_ids(c2),
        forall|a: Seq<char>| #[trigger] depends_on(c1, a) == depends_on(c2, a),
    ensures
        wiring_graph(c1) == wiring_graph(c2),
{
    let g = wiring_graph(c1);
    assert forall|a: Seq<char>| #![trigger dependencies_of(g, a)] dependencies_of(g, a) == depends_on(c2, a) by {
        assert(dependencies_of(g, a) == depends_on(c1, a));
        assert(depends_on(c1, a) == depends_on(c2, a));
    }
    assert(is_wiring_graph(c2, g));
    lemma_wiring_graph_unique(c2, g, wiring_graph(c2));
}

/// Whether relationship `r` of module `m` declares slot `slot`.
pub open spec fn declares_at(c: CompositionView, m: int, r: int, slot: u64) -> bool {
    &&& 0 <= m < c.modules.len()
    &&& 0 <= r < c.modules[m].relationships.len()
    &&& c.modules[m].relationships[r].slot_id == slot
}

/// The slots declared before pair `(m, r)`.
pub open spec fn slots_before(c: CompositionView, m: int, r: int) -> Set<u64> {
    Set::new(|slot: u64| exists|m2: int, r2: int| pair_before(m2, r2, m, r) && declares_at(c, m2, r2, slot))
}

/// The slots that the installed modules declare.
pub open spec fn declared_slots(c: CompositionView) -> Set<u64> {
    Set::new(|slot: u64| exists|m2: int, r2: int| declares_at(c, m2, r2, slot))
}

/// Whether `entry` describes relationship `r` of module `m`.
pub open spec fn describes(c: CompositionView, m: int, r: int, entry: ResolvedRelationship) -> bool {
    &&& entry.owner@ == c.modules[m].id
    &&& entry.name@ == c.modules[m].relationships[r].name
    &&& entry.kind == c.modules[m].relationships[r].kind
}

/// Whether `entry` describes the last declaration, among the pairs before
/// `(m, r)`, of slot `slot`.
pub open spec fn describes_last_before(
    c: CompositionView,
    m: int,
    r: int,
    slot: u64,
    entry: ResolvedRelationship,
) -> bool {
    exists|m2: int, r2: int|
        #![trigger declares_at(c, m2, r2, slot)]
        pair_before(m2, r2, m, r) && declares_at(c, m2, r2, slot) && describes(c, m2, r2, entry)
            && forall|m3: int, r3: int|
            pair_before(m2, r2, m3, r3) && pair_before(m3, r3, m, r) ==> !declares_at(c, m3, r3, slot)
}

/// Whether `entry` describes the last declaration of slot `slot`.
pub open spec fn describes_last(c: CompositionView, slot: u64, entry: ResolvedRelationship) -> bool {
    exists|m2: int, r2: int|
        #![trigger declares_at(c, m2, r2, slot)]
        declares_at(c, m2, r2, slot) && describes(c, m2, r2, entry) && forall|m3: int, r3: int|
            pair_before(m2, r2, m3, r3) ==> !declares_at(c, m3, r3, slot)
}

/// Whether `resolutions` resolves every declared slot: each entry
/// describes the last declaration of its slot, and slots bound to the same
/// port of the same module share one value.
pub open spec fn resolutions_match(c: CompositionView, resolutions: Map<u64, ResolvedRelationship>) -> bool {
    &&& resolutions.dom() == declared_slots(c)
    &&& forall|slot: u64| #[trigger] resolutions.contains_key(slot) ==> c.bindings[slot].provider.may_resolve_to(
        Ok(resolutions[slot].value),
    )
    &&& forall|slot: u64|
        #[trigger] resolutions.contains_key(slot) && c.bindings[slot].provider.is_fixed()
            ==> resolutions[slot].value == c.bindings[slot].provider.spec_value()
    &&& forall|slot: u64| #[trigger] resolutions.contains_key(slot) ==> describes_last(c, slot, resolutions[slot])
    &&& forall|s1: u64, s2: u64|
        #[trigger] resolutions.contains_key(s1) && #[trigger] resolutions.contains_key(s2)
            && c.bindings[s1].target == c.bindings[s2].target && c.bindings[s1].port_id
            == c.bindings[s2].port_id ==> resolutions[s1].value == resolutions[s2].value
}

/// Whether `error` is the failure of the first provider, in the order in
/// which the modules and their relationships are listed, that could not
/// create its value: the provider bound to relationship `r` of module `m`
/// may fail with `error`, and the providers bound to every relationship
/// listed before it created their values.
pub open spec fn is_provider_error(c: CompositionView, error: MicrodeError) -> bool {
    exists|m: int, r: int, slot: u64|
        #[trigger] declares_at(c, m, r, slot) && c.bindings.contains_key(slot)
            && c.bindings[slot].provider.may_resolve_to(Err(error))
            && forall|earlier: u64| #[trigger] slots_before(c, m, r).contains(earlier) ==> exists|value: ErasedValue|
                c.bindings[earlier].provider.may_resolve_to(Ok(value))
}

/// Whether `asked` lists the module and port of the provider bound to each
/// declared slot, each exactly once.
pub open spec fn asks_each_provider_once(c: CompositionView, asked: Seq<(Seq<char>, u64)>) -> bool {
    &&& asked.no_duplicates()
    &&& forall|key: (Seq<char>, u64)|
        #[trigger] asked.contains(key) <==> exists|slot: u64|
            declared_slots(c).contains(slot) && key == (c.bindings[slot].target, c.bindings[slot].port_id)
}

/// Whether some staged slot is bound to port `port` of module `target`.
spec fn staged_for(c: CompositionView, staged: Map<u64, ResolvedRelationship>, target: Seq<char>, port: u64) -> bool {
    exists|slot: u64| #[trigger] staged.contains_key(slot) && c.bindings[slot].target == target && c.bindings[slot].port_id == port
}

/// The module and port of each cached provider value.
spec fn cache_keys(cache: Seq<(ModuleInstanceId, u64, ErasedValue)>) -> Seq<(Seq<char>, u64)> {
    cache.map_values(|entry: (ModuleInstanceId, u64, ErasedValue)| (entry.0@, entry.1))
}

/// Whether every bound provider hands out a fixed value.
pub open spec fn all_providers_fixed(c: CompositionView) -> bool {
    forall|slot: u64| #[trigger] c.bindings.contains_key(slot) ==> c.bindings[slot].provider.is_fixed()
}

/// The identifiers of the installed modules, in installation order.
pub open spec fn module_texts(c: CompositionView) -> Seq<Seq<char>> {
    c.modules.map_values(|r: RecordView| r.id)
}

/// Whether `message` names the first declared relationship without a
/// binding.
pub open spec fn is_missing_error(c: CompositionView, message: Seq<char>) -> bool {
    exists|m: int, r: int|
        first_missing_at(c, m, r) && message == missing_binding_message(
            c.modules[m].id,
            c.modules[m].relationships[r].name,
        )
}

/// Whether every module of `modules` comes after the modules that its
/// bound dependencies in `c` name.
pub open spec fn dependencies_first(c: CompositionView, modules: Seq<RecordView>) -> bool {
    forall|i: int, d: Seq<char>|
        0 <= i < modules.len() && #[trigger] depends_on(c, modules[i].id).contains(d) ==> exists|q: int|
            0 <= q < i && #[trigger] modules[q].id == d
}

/// Whether wiring `c` gave `wired`: the modules in the lifecycle order
/// `positions` of `order`, bindings unchanged, and `resolutions` for every
/// declared slot.
pub open spec fn is_wired(
    c: CompositionView,
    order: Seq<Seq<char>>,
    positions: Seq<usize>,
    resolutions: Map<u64, ResolvedRelationship>,
    wired: CompositionView,
) -> bool {
    &&& is_lifecycle_order(module_texts(c), order, positions)
    &&& wired == (CompositionView { modules: permuted(c.modules, positions), ..c })
    &&& resolutions_match(c, resolutions)
}

/// What wiring `c` gives: the first relationship without a binding is
/// reported; else the first dependency cycle; else, unless a provider
/// fails, the modules in lifecycle order with every slot resolved, which
/// can fail only where a provider creates its value. A failure leaves the
/// composition as it was.
pub open spec fn wiring_outcome(
    c: CompositionView,
    result: Result<Wiring, MicrodeError>,
    after: CompositionView,
) -> bool {
    &&& has_missing(c) ==> (result matches Err(e) && is_missing_error(c, e@)) && after == c
    &&& !has_missing(c) ==> is_wiring_graph(c, wiring_graph(c))
    &&& !has_missing(c) ==> match dfs_order(adjacency(wiring_graph(c))) {
        Err(cycle) => (result matches Err(e) && e@ == cycle_message(names(wiring_graph(c), cycle)))
            && after == c,
        Ok(order) => {
            &&& all_providers_fixed(c) ==> result is Ok
            &&& result is Err ==> after == c
            &&& result matches Err(e) ==> is_provider_error(c, e)
            &&& result matches Ok(w) ==> is_wired(
                c,
                names(wiring_graph(c), order),
                w.positions@,
                w.resolutions@,
                after,
            )
            &&& result matches Ok(w) ==> asks_each_provider_once(c, w.asked@)
            &&& result is Ok && module_texts(c).no_duplicates() ==> module_texts(after) == names(
                wiring_graph(c),
                order,
            )
        },
    }
    &&& result is Ok ==> dependencies_first(c, after.modules)
}

/// The diagnostic for starting an application twice, if `state` or the
/// composition shows that it already started.
pub open spec fn start_error(c: CompositionView, state: MicrodeApplicationState) -> Option<Seq<char>> {
    if state != MicrodeApplicationState::Idle {
        Some("cannot start application more than once; current state: "@ + state_name(state))
    } else if c.sealed {
        Some("cannot start application more than once; composition is sealed"@)
    } else {
        None
    }
}

/// A started composition stays sealed: whatever the application state,
/// it refuses further installations, bindings and starts.
pub proof fn lemma_sealed_composition_refuses_changes(
    c: CompositionView,
    state: MicrodeApplicationState,
    consumer: Seq<char>,
    consumer_owner: u64,
    slot: DescriptorView,
    target: Seq<char>,
    target_owner: u64,
)
    requires
        c.sealed,
    ensures
        installable_error(c, state) is Some,
        bind_error(c, state, consumer, consumer_owner, slot, target, target_owner) is Some,
        start_error(c, state) is Some,
{
    reveal(bind_error);
}

/// In lifecycle order, every module comes after the modules that it
/// depends on: a dependency-first order of the identifiers, spread over the
/// installed modules, starts each dependency before its consumers.
pub proof fn lemma_lifecycle_order_dependencies_first(
    c: CompositionView,
    g: GraphView,
    order: Seq<Seq<char>>,
    positions: Seq<usize>,
)
    requires
        is_wiring_graph(c, g),
        order.no_duplicates(),
        order.to_set() == g.ids.to_set(),
        forall|p: int| 0 <= p < order.len() ==> dependencies_of(g, #[trigger] order[p]).subset_of(order.take(p).to_set()),
        is_lifecycle_order(module_texts(c), order, positions),
    ensures
        dependencies_first(c, permuted(c.modules, positions)),
{
    let ids = module_texts(c);
    let modules = permuted(c.modules, positions);
    assert forall|i: int, d: Seq<char>|
        0 <= i < modules.len() && #[trigger] depends_on(c, modules[i].id).contains(d) implies exists|q: int|
            0 <= q < i && #[trigger] modules[q].id == d by {
        let k = positions[i] as int;
        let a = ids[k];
        assert(modules[i].id == a);
        assert(installed(c, a));
        assert(module_ids(c).contains(a));
        assert(order.to_set().contains(a));
        let ra = rank(order, a);
        assert(0 <= ra < order.len() && order[ra] == a);
        assert(dependencies_of(g, a) == depends_on(c, a));
        assert(order.take(ra).to_set().contains(d));
        let t = choose|t: int| 0 <= t < order.take(ra).len() && order.take(ra)[t] == d;
        assert(order[t] == d);
        let rd = rank(order, d);
        assert(0 <= rd < order.len() && order[rd] == d);
        assert(rd == t);
        assert(rd < ra);
        assert(order.to_set().contains(d));
        assert(module_ids(c).contains(d));
        let kd = choose|kd: int| 0 <= kd < c.modules.len() && #[trigger] c.modules[kd].id == d;
        assert(ids[kd] == d);
        assert(lists(positions, kd));
        let q = choose|q: int| 0 <= q < positions.len() && positions[q] == kd;
        assert(modules[q].id == d);
        if q >= i {
            if q == i {
                assert(a == d);
            } else {
                assert(lifecycle_before(ids, order, positions[i] as int, positions[q] as int));
            }
            assert(false);
        }
    }
}

proof fn lemma_same_modules(c1: CompositionView, c2: CompositionView)
    requires
        c1.modules == c2.modules,
    ensures
        forall|id: Seq<char>| #[trigger] first_module(c1, id) == first_module(c2, id),
        forall|id: Seq<char>, port: u64| #[trigger] provider_of(c1, id, port) == provider_of(c2, id, port),
{
    reveal(first_module);
}

/// Appending a module keeps the first module of every installed
/// identifier.
proof fn lemma_first_module_after_push(c0: CompositionView, c1: CompositionView, record: RecordView)
    requires
        c1.modules == c0.modules.push(record),
    ensures
        forall|id: Seq<char>| installed(c0, id) ==> #[trigger] first_module(c1, id) == first_module(c0, id),
        forall|id: Seq<char>, port: u64| installed(c0, id) ==> #[trigger] provider_of(c1, id, port) == provider_of(c0, id, port),
{
    assert forall|id: Seq<char>| installed(c0, id) implies #[trigger] first_module(c1, id) == first_module(c0, id) by {
        lemma_first_module(c0, id);
        let k = first_module(c0, id);
        assert(c1.modules[k] == c0.modules[k]);
        lemma_first_module_at(c1, id, k);
    }
    assert forall|id: Seq<char>, port: u64| installed(c0, id) implies #[trigger] provider_of(c1, id, port) == provider_of(c0, id, port) by {
        lemma_first_module(c0, id);
        assert(first_module(c1, id) == first_module(c0, id));
        assert(c1.modules[first_module(c0, id)] == c0.modules[first_module(c0, id)]);
    }
}

/// Arranging the modules in lifecycle order keeps, for every identifier,
/// the module that comes first among those that carry it.
proof fn lemma_first_module_after_arranging(
    c: CompositionView,
    c1: CompositionView,
    order: Seq<Seq<char>>,
    positions: Seq<usize>,
)
    requires
        is_lifecycle_order(module_texts(c), order, positions),
        c1.modules == permuted(c.modules, positions),
    ensures
        forall|id: Seq<char>, port: u64| installed(c, id) ==> #[trigger] provider_of(c1, id, port) == provider_of(c, id, port),
{
    let ids = module_texts(c);
    assert forall|id: Seq<char>, port: u64| installed(c, id) implies #[trigger] provider_of(c1, id, port) == provider_of(c, id, port) by {
        lemma_first_module(c, id);
        let k0 = first_module(c, id);
        assert(ids[k0] == id);
        assert(lists(positions, k0));
        let i0 = choose|i: int| 0 <= i < positions.len() && positions[i] == k0;
        assert(c1.modules[i0] == c.modules[k0]);
        assert forall|i: int| 0 <= i < i0 implies c1.modules[i].id != id by {
            let q = positions[i] as int;
            assert(lifecycle_before(ids, order, q, k0));
            assert(c1.modules[i] == c.modules[q]);
            if c.modules[q].id == id {
                assert(ids[q] == id);
                assert(q < k0);
            }
        }
        lemma_first_module_at(c1, id, i0);
    }
}

proof fn lemma_first_module_at(c: CompositionView, id: Seq<char>, k: int)
    requires
        0 <= k < c.modules.len(),
        c.modules[k].id == id,
        forall|j: int| 0 <= j < k ==> c.modules[j].id != id,
    ensures
        first_module(c, id) == k,
{
    lemma_first_module(c, id);
    let f = first_module(c, id);
    if f < k {
        assert(c.modules[f].id == id);
    } else if f > k {
        assert(c.modules[k].id == id);
    }
}

proof fn lemma_first_module(c: CompositionView, id: Seq<char>)
    requires
        installed(c, id),
    ensures
        0 <= first_module(c, id) < c.modules.len(),
        c.modules[first_module(c, id)].id == id,
        forall|j: int| 0 <= j < first_module(c, id) ==> c.modules[j].id != id,
{
    reveal(first_module);
    let k = choose|k: int| 0 <= k < c.modules.len() && #[trigger] c.modules[k].id == id;
    lemma_least_index(c, id, k);
}

proof fn lemma_least_index(c: CompositionView, id: Seq<char>, k: int)
    requires
        0 <= k < c.modules.len(),
        c.modules[k].id == id,
    ensures
        exists|m: int|
            0 <= m < c.modules.len() && c.modules[m].id == id && forall|j: int|
                0 <= j < m ==> c.modules[j].id != id,
    decreases k,
{
    if exists|j: int| 0 <= j < k && c.modules[j].id == id {
        let j = choose|j: int| 0 <= j < k && c.modules[j].id == id;
        lemma_least_index(c, id, j);
    } else {
        assert(forall|j: int| 0 <= j < k ==> c.modules[j].id != id);
    }
}

impl Composition {
    /// An empty, open composition with the given identity.
    pub fn new(composition_id: u64) -> (composition: Self)
        ensures
            composition@.id == composition_id,
            composition@.modules.len() == 0,
            composition@.bindings.is_empty(),
            !composition@.sealed,
            composition_wf(composition@),
    {
        let c = Composition {
            composition_id,
            modules: Vec::new(),
            bindings: HashMap::new(),
            sealed: false,
        };
        assert(c@.bindings =~= Map::<u64, BindingView>::empty());
        c
    }

    /// The composition's identity.
    pub fn id(&self) -> (id: u64)
        ensures
            id == self@.id,
    {
        self.composition_id
    }

    /// The number of installed modules.
    pub fn len(&self) -> (n: usize)
        ensures
            n == self@.modules.len(),
    {
        self.modules.len()
    }

    /// The kinds of the installed modules, in their current order.
    pub fn kinds(&self) -> (kinds: Vec<ModuleKind>)
        ensures
            kinds@.len() == self@.modules.len(),
            forall|k: int| 0 <= k < kinds@.len() ==> kinds@[k] == #[trigger] self@.modules[k].kind,
    {
        let mut kinds: Vec<ModuleKind> = Vec::new();
        let n = self.modules.len();
        let mut k: usize = 0;
        while k < n
            invariant
                n == self@.modules.len(),
                k <= n,
                kinds@.len() == k,
                forall|j: int| 0 <= j < k ==> kinds@[j] == #[trigger] self@.modules[j].kind,
            decreases n - k,
        {
            kinds.push(self.modules[k].kind);
            k = k + 1;
        }
        kinds
    }

    /// The identifiers of the installed modules, in their current order.
    pub fn ids(&self) -> (ids: Vec<ModuleInstanceId>)
        ensures
            ids@.len() == self@.modules.len(),
            forall|k: int| 0 <= k < ids@.len() ==> (#[trigger] ids@[k])@ == self@.modules[k].id,
    {
        let mut ids: Vec<ModuleInstanceId> = Vec::new();
        let n = self.modules.len();
        let mut k: usize = 0;
        while k < n
            invariant
                n == self@.modules.len(),
                k <= n,
                ids@.len() == k,
                forall|j: int| 0 <= j < k ==> (#[trigger] ids@[j])@ == self@.modules[j].id,
            decreases n - k,
        {
            ids.push(self.modules[k].id.duplicate());
            k = k + 1;
        }
        ids
    }

    /// Whether the composition has been sealed by a start.
    pub fn is_sealed(&self) -> (sealed: bool)
        ensures
            sealed == self@.sealed,
    {
        self.sealed
    }

    /// Refuses changes once the lifecycle has started or the composition
    /// is sealed.
    pub fn ensure_installable(&self, state: MicrodeApplicationState) -> (result: Result<
        (),
        MicrodeError,
    >)
        ensures
            match installable_error(self@, state) {
                Some(message) => result matches Err(e) && e@ == message,
                None => result is Ok,
            },
    {
        if state != MicrodeApplicationState::Idle {
            return Err(
                MicrodeError::from_message(
                    concat2(
                        "cannot install module after application has started; current state: ",
                        state.name(),
                    ),
                ),
            );
        }
        if self.sealed {
            return Err(MicrodeError::new("cannot modify composition after it is sealed"));
        }
        Ok(())
    }

    /// Whether a module with identifier `id` is installed, and the first
    /// position that holds it.
    fn find(&self, id: &ModuleInstanceId) -> (found: Option<usize>)
        ensures
            match found {
                Some(k) => installed(self@, id@) && k == first_module(self@, id@),
                None => !installed(self@, id@),
            },
    {
        let n = self.modules.len();
        let mut k: usize = 0;
        while k < n
            invariant
                n == self@.modules.len(),
                k <= n,
                forall|j: int| 0 <= j < k ==> self@.modules[j].id != id@,
            decreases n - k,
        {
            if self.modules[k].id.same_as(id) {
                proof {
                    assert(self@.modules[k as int].id == id@);
                    assert(installed(self@, id@));
                    lemma_first_module(self@, id@);
                    let m = first_module(self@, id@);
                    if m < k {
                        assert(self@.modules[m].id != id@);
                    }
                }
                return Some(k);
            }
            k = k + 1;
        }
        None
    }

    /// The first position that holds an installed module.
    fn position_of(&self, id: &ModuleInstanceId) -> (k: usize)
        requires
            installed(self@, id@),
        ensures
            k == first_module(self@, id@),
            k < self@.modules.len(),
    {
        proof {
            lemma_first_module(self@, id@);
        }
        let n = self.modules.len();
        let mut k: usize = 0;
        while k < n
            invariant
                n == self@.modules.len(),
                k <= first_module(self@, id@),
                0 <= first_module(self@, id@) < n,
                self@.modules[first_module(self@, id@)].id == id@,
                forall|j: int| 0 <= j < first_module(self@, id@) ==> self@.modules[j].id != id@,
            decreases n - k,
        {
            if self.modules[k].id.same_as(id) {
                proof {
                    assert(self@.modules[k as int] == self.modules@[k as int]@);
                }
                return k;
            }
            k = k + 1;
        }
        k
    }

    /// Whether module `index` declares slot `slot_id`.
    fn declares(&self, index: usize, slot_id: u64) -> (known: bool)
        requires
            index < self@.modules.len(),
        ensures
            known == declares_slot(self@.modules[index as int], slot_id),
    {
        let declared = &self.modules[index].relationships;
        let m = declared.len();
        let mut k: usize = 0;
        while k < m
            invariant
                m == declared@.len(),
                k <= m,
                index < self.modules@.len(),
                declared@ == self.modules@[index as int].relationships@,
                forall|j: int| 0 <= j < k ==> (#[trigger] declared@[j])@.slot_id != slot_id,
            decreases m - k,
        {
            if declared[k].slot_id() == slot_id {
                proof {
                    let record = self@.modules[index as int];
                    assert(record == self.modules@[index as int]@);
                    assert(record.relationships[k as int] == declared@[k as int]@);
                    assert(record.relationships[k as int].slot_id == slot_id);
                }
                return true;
            }
            k = k + 1;
        }
        proof {
            let record = self@.modules[index as int];
            assert(record == self.modules@[index as int]@);
            if declares_slot(record, slot_id) {
                let j = choose|j: int| 0 <= j < record.relationships.len() && #[trigger] record.relationships[j].slot_id == slot_id;
                assert(declared@[j]@.slot_id == slot_id);
            }
        }
        false
    }

    /// A copy of module `index`'s first provider for `port`, if it has one.
    fn provider_for(&self, index: usize, port: u64) -> (found: Option<Provider>)
        requires
            index < self@.modules.len(),
        ensures
            match found {
                Some(provider) => {
                    let record = self@.modules[index as int];
                    provides_port(record, port) && provider == record.providers[first_provider(record, port)]
                },
                None => !provides_port(self@.modules[index as int], port),
            },
    {
        let providers = &self.modules[index].providers;
        proof {
            assert(self@.modules[index as int] == self.modules@[index as int]@);
        }
        let p = providers.len();
        let mut q: usize = 0;
        while q < p
            invariant
                p == providers@.len(),
                index < self@.modules.len(),
                providers@ == self@.modules[index as int].providers,
                q <= p,
                forall|j: int| 0 <= j < q ==> (#[trigger] providers@[j]).spec_port_id() != port,
            decreases p - q,
        {
            if providers[q].port_id() == port {
                proof {
                    reveal(first_provider);
                    let record = self@.modules[index as int];
                    assert(provides_port(record, port));
                    let f = first_provider(record, port);
                    if f < q {
                        assert(providers@[f].spec_port_id() != port);
                    } else if f > q {
                        assert(record.providers[q as int].spec_port_id() == port);
                    }
                }
                return Some(providers[q].duplicate());
            }
            q = q + 1;
        }
        None
    }

    /// Reserves `value` as the identifier of the next module.
    pub fn reserve_named_id(&self, state: MicrodeApplicationState, value: &str) -> (result: Result<
        ModuleInstanceId,
        MicrodeError,
    >)
        ensures
            match installable_error(self@, state) {
                Some(message) => result matches Err(e) && e@ == message,
                None => if installed(self@, value@) {
                    result matches Err(e) && e@ == duplicate_id_message(value@)
                } else {
                    result matches Ok(id) && id@ == value@
                },
            },
    {
        match self.ensure_installable(state) {
            Ok(()) => {},
            Err(error) => {
                return Err(error);
            },
        }
        let id = ModuleInstanceId::new(value);
        match self.find(&id) {
            Some(_) => Err(
                MicrodeError::from_message(
                    concat3("module instance ID '", value, "' is already installed"),
                ),
            ),
            None => Ok(id),
        }
    }

    /// The identifier for the next module installed without a name.
    pub fn anonymous_id(&self) -> (id: ModuleInstanceId)
        ensures
            id@ == anonymous_id(self@.modules.len() as nat),
    {
        let mut text = String::from_str("@installation/");
        push_decimal(&mut text, self.modules.len());
        ModuleInstanceId::from_string(text)
    }

    /// Binds `slot` of module `consumer` to the provider of module `target`
    /// for the slot's port. The owners are the compositions that issued the
    /// handles of the two modules.
    pub fn bind(
        &mut self,
        state: MicrodeApplicationState,
        consumer: &ModuleInstanceId,
        consumer_owner: u64,
        slot: &RelationshipDescriptor,
        target: &ModuleInstanceId,
        target_owner: u64,
    ) -> (result: Result<(), MicrodeError>)
        requires
            composition_wf(old(self)@),
            consumer_owner == old(self)@.id ==> installed(old(self)@, consumer@),
            target_owner == old(self)@.id ==> installed(old(self)@, target@),
        ensures
            composition_wf(final(self)@),
            match bind_error(old(self)@, state, consumer@, consumer_owner, slot@, target@, target_owner) {
                Some(message) => (result matches Err(e) && e@ == message) && final(self)@ == old(self)@,
                None => result is Ok && final(self)@ == (CompositionView {
                    bindings: old(self)@.bindings.insert(
                        slot@.slot_id,
                        new_binding(old(self)@, consumer@, slot@, target@),
                    ),
                    ..old(self)@
                }),
            },
    {
        broadcast use vstd::std_specs::hash::group_hash_axioms;

        let ghost c0 = self@;
        let binding = match self.prepare_binding(state, consumer, consumer_owner, slot, target, target_owner) {
            Ok(binding) => binding,
            Err(error) => {
                return Err(error);
            },
        };
        let slot_id = slot.slot_id();
        self.bindings.insert(slot_id, binding);
        proof {
            let c1 = self@;
            assert(c1.bindings =~= c0.bindings.insert(slot_id, new_binding(c0, consumer@, slot@, target@)));
            assert(c1.modules == c0.modules);
            lemma_same_modules(c1, c0);
            reveal(bind_error);
            assert forall|s: u64| #[trigger] c1.bindings.contains_key(s) implies {
                &&& installed(c1, c1.bindings[s].owner)
                &&& installed(c1, c1.bindings[s].target)
                &&& c1.bindings[s].provider == provider_of(c1, c1.bindings[s].target, c1.bindings[s].port_id)
            } by {
                if s != slot_id {
                    assert(c0.bindings.contains_key(s));
                    assert(provider_of(c1, c0.bindings[s].target, c0.bindings[s].port_id) == provider_of(c0, c0.bindings[s].target, c0.bindings[s].port_id));
                } else {
                    assert(provider_of(c1, target@, slot@.port_id) == provider_of(c0, target@, slot@.port_id));
                }
            }
        }
        Ok(())
    }

    /// The binding that `bind` would record, or why it refuses.
    fn prepare_binding(
        &self,
        state: MicrodeApplicationState,
        consumer: &ModuleInstanceId,
        consumer_owner: u64,
        slot: &RelationshipDescriptor,
        target: &ModuleInstanceId,
        target_owner: u64,
    ) -> (result: Result<Binding, MicrodeError>)
        requires
            consumer_owner == self@.id ==> installed(self@, consumer@),
            target_owner == self@.id ==> installed(self@, target@),
        ensures
            match bind_error(self@, state, consumer@, consumer_owner, slot@, target@, target_owner) {
                Some(message) => result matches Err(e) && e@ == message,
                None => result matches Ok(binding) && binding@ == new_binding(self@, consumer@, slot@, target@),
            },
            result is Ok ==> consumer_owner == self@.id && target_owner == self@.id,
    {
        reveal(bind_error);
        match self.check_handles(state, consumer, consumer_owner, target, target_owner) {
            Ok(()) => {},
            Err(error) => {
                return Err(error);
            },
        }
        self.check_slot(consumer, slot, target)
    }

    /// Refuses a bind while the composition refuses changes or when a
    /// handle was issued by another composition.
    fn check_handles(
        &self,
        state: MicrodeApplicationState,
        consumer: &ModuleInstanceId,
        consumer_owner: u64,
        target: &ModuleInstanceId,
        target_owner: u64,
    ) -> (result: Result<(), MicrodeError>)
        ensures
            match handle_error(self@, state, consumer@, consumer_owner, target@, target_owner) {
                Some(message) => result matches Err(e) && e@ == message,
                None => result is Ok,
            },
    {
        match self.ensure_installable(state) {
            Ok(()) => {},
            Err(error) => {
                return Err(error);
            },
        }
        if consumer_owner != self.composition_id {
            return Err(
                MicrodeError::from_message(
                    concat3("module handle '", consumer.as_str(), "' belongs to another application"),
                ),
            );
        }
        if target_owner != self.composition_id {
            return Err(
                MicrodeError::from_message(
                    concat3("module handle '", target.as_str(), "' belongs to another application"),
                ),
            );
        }
        Ok(())
    }

    /// The binding of `slot` of installed module `consumer` to installed
    /// module `target`, or why it is refused.
    fn check_slot(
        &self,
        consumer: &ModuleInstanceId,
        slot: &RelationshipDescriptor,
        target: &ModuleInstanceId,
    ) -> (result: Result<Binding, MicrodeError>)
        requires
            installed(self@, consumer@),
            installed(self@, target@),
        ensures
            match slot_error(self@, consumer@, slot@, target@) {
                Some(message) => result matches Err(e) && e@ == message,
                None => result matches Ok(binding) && binding@ == new_binding(self@, consumer@, slot@, target@),
            },
    {
        broadcast use vstd::std_specs::hash::group_hash_axioms;

        let consumer_index = self.position_of(consumer);
        let slot_id = slot.slot_id();
        if !self.declares(consumer_index, slot_id) {
            return Err(
                MicrodeError::from_message(
                    concat5("unknown relationship '", consumer.as_str(), ".", slot.name(), "'"),
                ),
            );
        }
        if self.bindings.contains_key(&slot_id) {
            return Err(
                MicrodeError::from_message(
                    concat5("relationship '", consumer.as_str(), ".", slot.name(), "' is already bound"),
                ),
            );
        }
        let target_index = self.position_of(target);
        match slot.module_type() {
            Some((required, name)) => {
                proof {
                    assert(self@.modules[target_index as int] == self.modules@[target_index as int]@);
                }
                if !same_type(&self.modules[target_index].module_type, required) {
                    return Err(
                        MicrodeError::from_message(
                            concat5(
                                "module '",
                                target.as_str(),
                                "' does not satisfy concrete module requirement '",
                                last_path_segment(name.as_str()),
                                "'",
                            ),
                        ),
                    );
                }
            },
            None => {},
        }
        let provider = match self.provider_for(target_index, slot.port_id()) {
            Some(provider) => provider,
            None => {
                return Err(
                    MicrodeError::from_message(
                        concat5(
                            "module '",
                            target.as_str(),
                            "' does not provide port '",
                            slot.port_description(),
                            "'",
                        ),
                    ),
                );
            },
        };
        Ok(Binding {
            owner: consumer.duplicate(),
            target: target.duplicate(),
            port_id: slot.port_id(),
            provider,
        })
    }

    /// Refuses wiring when a declared relationship has no binding, naming
    /// the first such relationship.
    fn check_bindings(&self) -> (result: Result<(), MicrodeError>)
        ensures
            result is Ok <==> !has_missing(self@),
            result matches Err(e) ==> exists|m: int, r: int|
                first_missing_at(self@, m, r) && e@ == missing_binding_message(
                    self@.modules[m].id,
                    self@.modules[m].relationships[r].name,
                ),
    {
        broadcast use vstd::std_specs::hash::group_hash_axioms;

        let ghost c = self@;
        let n = self.modules.len();
        let mut m: usize = 0;
        while m < n
            invariant
                c == self@,
                n == c.modules.len(),
                m <= n,
                forall|m2: int, r2: int| m2 < m ==> !missing_at(c, m2, r2),
            decreases n - m,
        {
            let declared = &self.modules[m].relationships;
            proof {
                assert(c.modules[m as int] == self.modules@[m as int]@);
            }
            let k = declared.len();
            let mut r: usize = 0;
            while r < k
                invariant
                    c == self@,
                    n == c.modules.len(),
                    m < n,
                    k == declared@.len(),
                    declared@ == self.modules@[m as int].relationships@,
                    c.modules[m as int] == self.modules@[m as int]@,
                    r <= k,
                    forall|m2: int, r2: int| pair_before(m2, r2, m as int, r as int) ==> !missing_at(c, m2, r2),
                decreases k - r,
            {
                proof {
                    assert(c.modules[m as int].relationships[r as int] == declared@[r as int]@);
                }
                if !self.bindings.contains_key(&declared[r].slot_id()) {
                    let id = self.modules[m].id.as_str();
                    proof {
                        assert(missing_at(c, m as int, r as int));
                        assert(first_missing_at(c, m as int, r as int));
                        assert(has_missing(c));
                    }
                    return Err(
                        MicrodeError::from_message(
                            concat5("missing binding for relationship '", id, ".", declared[r].name(), "'"),
                        ),
                    );
                }
                r = r + 1;
            }
            proof {
                assert forall|m2: int, r2: int| m2 < m + 1 implies !missing_at(c, m2, r2) by {
                    if m2 == m && 0 <= r2 < k {
                        assert(pair_before(m2, r2, m as int, r as int));
                    }
                }
            }
            m = m + 1;
        }
        Ok(())
    }

    /// The dependency graph of the composition.
    fn build_graph(&self) -> (graph: DependencyGraph)
        requires
            composition_wf(self@),
        ensures
            is_wiring_graph(self@, graph@),
            graph@ == wiring_graph(self@),
            graph_closed(graph@),
    {
        broadcast use vstd::std_specs::hash::group_hash_axioms;

        let ghost c = self@;
        let ids = self.ids();
        let mut graph = DependencyGraph::new(ids);
        proof {
            assert(graph@.ids.to_set() =~= module_ids(c)) by {
                assert forall|a: Seq<char>| graph@.ids.to_set().contains(a) implies module_ids(c).contains(a) by {
                    assert(id_texts(ids@).to_set().contains(a));
                    let k = choose|k: int| 0 <= k < id_texts(ids@).len() && id_texts(ids@)[k] == a;
                    assert(c.modules[k].id == a);
                }
                assert forall|a: Seq<char>| module_ids(c).contains(a) implies graph@.ids.to_set().contains(a) by {
                    let k = choose|k: int| 0 <= k < c.modules.len() && #[trigger] c.modules[k].id == a;
                    assert(id_texts(ids@)[k] == a);
                    assert(id_texts(ids@).to_set().contains(a));
                }
            }
            assert forall|a: Seq<char>| #![trigger dependencies_of(graph@, a)] dependencies_of(graph@, a) == edges_before(c, 0, 0, a) by {
                if graph@.ids.contains(a) {
                    let i = graph@.ids.index_of(a);
                    graph@.ids.index_of_first_ensures(a);
                    assert(graph@.deps[i].len() == 0);
                    assert(graph@.deps[i].to_set() =~= Set::<Seq<char>>::empty());
                }
                assert(edges_before(c, 0, 0, a) =~= Set::<Seq<char>>::empty());
            }
        }
        let n = self.modules.len();
        let mut m: usize = 0;
        while m < n
            invariant
                c == self@,
                composition_wf(c),
                n == c.modules.len(),
                m <= n,
                graph_wf(graph@),
                graph_closed(graph@),
                graph@.ids.to_set() == module_ids(c),
                forall|a: Seq<char>| #![trigger dependencies_of(graph@, a)] dependencies_of(graph@, a) == edges_before(c, m as int, 0, a),
            decreases n - m,
        {
            let declared = &self.modules[m].relationships;
            proof {
                assert(c.modules[m as int] == self.modules@[m as int]@);
            }
            let k = declared.len();
            let mut r: usize = 0;
            while r < k
                invariant
                    c == self@,
                    composition_wf(c),
                    n == c.modules.len(),
                    m < n,
                    k == declared@.len(),
                    declared@ == self.modules@[m as int].relationships@,
                    c.modules[m as int] == self.modules@[m as int]@,
                    r <= k,
                    graph_wf(graph@),
                    graph_closed(graph@),
                    graph@.ids.to_set() == module_ids(c),
                    forall|a: Seq<char>| #![trigger dependencies_of(graph@, a)] dependencies_of(graph@, a) == edges_before(c, m as int, r as int, a),
                decreases k - r,
            {
                let relationship = &declared[r];
                proof {
                    assert(c.modules[m as int].relationships[r as int] == relationship@);
                }
                let ghost before = graph@;
                if relationship.kind() == RelationshipKind::Dependency {
                    match self.bindings.get(&relationship.slot_id()) {
                        Some(binding) => {
                            proof {
                                let slot = relationship@.slot_id;
                                assert(c.bindings.contains_key(slot));
                                assert(c.bindings[slot] == binding@);
                                assert(installed(c, binding@.target));
                                assert(module_ids(c).contains(binding@.target));
                                assert(before.ids.to_set().contains(binding@.target));
                            }
                            graph.add_validated_dependency(&binding.owner, &binding.target);
                            proof {
                                let slot = relationship@.slot_id;
                                assert(installed(c, binding@.owner));
                                assert(module_ids(c).contains(binding@.owner));
                                assert(graph@.ids.to_set() =~= module_ids(c));
                                assert forall|a: Seq<char>| #![trigger dependencies_of(graph@, a)] dependencies_of(graph@, a) == edges_before(c, m as int, r + 1, a) by {
                                    assert(dependencies_of(before, a) == edges_before(c, m as int, r as int, a));
                                    assert(dependencies_of(graph@, a) == if a == binding.owner@ {
                                        dependencies_of(before, a).insert(binding.target@)
                                    } else {
                                        dependencies_of(before, a)
                                    });
                                    assert forall|b: Seq<char>| #[trigger] dependencies_of(graph@, a).contains(b) == edges_before(c, m as int, r + 1, a).contains(b) by {
                                        if a == binding@.owner && b == binding@.target {
                                            assert(edge_at(c, m as int, r as int, a, b));
                                            assert(pair_before(m as int, r as int, m as int, r + 1));
                                        }
                                        if edges_before(c, m as int, r + 1, a).contains(b) {
                                            let (m2, r2) = choose|m2: int, r2: int| pair_before(m2, r2, m as int, r + 1) && edge_at(c, m2, r2, a, b);
                                            if !(m2 == m && r2 == r) {
                                                assert(pair_before(m2, r2, m as int, r as int));
                                            }
                                        }
                                        if edges_before(c, m as int, r as int, a).contains(b) {
                                            let (m2, r2) = choose|m2: int, r2: int| pair_before(m2, r2, m as int, r as int) && edge_at(c, m2, r2, a, b);
                                            assert(pair_before(m2, r2, m as int, r + 1));
                                        }
                                    }
                                    assert(dependencies_of(graph@, a) =~= edges_before(c, m as int, r + 1, a));
                                }
                            }
                        },
                        None => {
                            proof {
                                assert forall|a: Seq<char>| #![trigger dependencies_of(graph@, a)] dependencies_of(graph@, a) == edges_before(c, m as int, r + 1, a) by {
                                    assert forall|b: Seq<char>| edges_before(c, m as int, r + 1, a).contains(b) == edges_before(c, m as int, r as int, a).contains(b) by {
                                        if edges_before(c, m as int, r + 1, a).contains(b) {
                                            let (m2, r2) = choose|m2: int, r2: int| pair_before(m2, r2, m as int, r + 1) && edge_at(c, m2, r2, a, b);
                                            if !(m2 == m && r2 == r) {
                                                assert(pair_before(m2, r2, m as int, r as int));
                                            }
                                        }
                                        if edges_before(c, m as int, r as int, a).contains(b) {
                                            let (m2, r2) = choose|m2: int, r2: int| pair_before(m2, r2, m as int, r as int) && edge_at(c, m2, r2, a, b);
                                            assert(pair_before(m2, r2, m as int, r + 1));
                                        }
                                    }
                                    assert(edges_before(c, m as int, r + 1, a) =~= edges_before(c, m as int, r as int, a));
                                }
                            }
                        },
                    }
                } else {
                    proof {
                        assert forall|a: Seq<char>| #![trigger dependencies_of(graph@, a)] dependencies_of(graph@, a) == edges_before(c, m as int, r + 1, a) by {
                            assert forall|b: Seq<char>| edges_before(c, m as int, r + 1, a).contains(b) == edges_before(c, m as int, r as int, a).contains(b) by {
                                if edges_before(c, m as int, r + 1, a).contains(b) {
                                    let (m2, r2) = choose|m2: int, r2: int| pair_before(m2, r2, m as int, r + 1) && edge_at(c, m2, r2, a, b);
                                    if !(m2 == m && r2 == r) {
                                        assert(pair_before(m2, r2, m as int, r as int));
                                    }
                                }
                                if edges_before(c, m as int, r as int, a).contains(b) {
                                    let (m2, r2) = choose|m2: int, r2: int| pair_before(m2, r2, m as int, r as int) && edge_at(c, m2, r2, a, b);
                                    assert(pair_before(m2, r2, m as int, r + 1));
                                }
                            }
                            assert(edges_before(c, m as int, r + 1, a) =~= edges_before(c, m as int, r as int, a));
                        }
                    }
                }
                r = r + 1;
            }
            proof {
                assert forall|a: Seq<char>| #![trigger dependencies_of(graph@, a)] dependencies_of(graph@, a) == edges_before(c, m + 1, 0, a) by {
                    assert forall|b: Seq<char>| edges_before(c, m + 1, 0, a).contains(b) == edges_before(c, m as int, k as int, a).contains(b) by {
                        if edges_before(c, m + 1, 0, a).contains(b) {
                            let (m2, r2) = choose|m2: int, r2: int| pair_before(m2, r2, m + 1, 0) && edge_at(c, m2, r2, a, b);
                            assert(pair_before(m2, r2, m as int, k as int));
                        }
                        if edges_before(c, m as int, k as int, a).contains(b) {
                            let (m2, r2) = choose|m2: int, r2: int| pair_before(m2, r2, m as int, k as int) && edge_at(c, m2, r2, a, b);
                            assert(pair_before(m2, r2, m + 1, 0));
                        }
                    }
                    assert(edges_before(c, m + 1, 0, a) =~= edges_before(c, m as int, k as int, a));
                }
            }
            m = m + 1;
        }
        proof {
            assert forall|a: Seq<char>| #![trigger dependencies_of(graph@, a)] dependencies_of(graph@, a) == depends_on(c, a) by {
                assert forall|b: Seq<char>| depends_on(c, a).contains(b) == edges_before(c, n as int, 0, a).contains(b) by {
                    if depends_on(c, a).contains(b) {
                        let (m2, r2) = choose|m2: int, r2: int| edge_at(c, m2, r2, a, b);
                        assert(pair_before(m2, r2, n as int, 0));
                    }
                }
                assert(depends_on(c, a) =~= edges_before(c, n as int, 0, a));
            }
            assert(is_wiring_graph(c, graph@));
            lemma_wiring_graph_unique(c, graph@, wiring_graph(c));
        }
        graph
    }

    /// Creates the value of every declared slot: each bound provider is asked
    /// once per module and port, and the value is shared by every slot bound
    /// to that port of that module.
    fn resolve_all(&self) -> (result: Result<(HashMap<u64, ResolvedRelationship>, Ghost<Seq<(Seq<char>, u64)>>), MicrodeError>)
        requires
            !has_missing(self@),
            composition_wf(self@),
        ensures
            result matches Ok((resolutions, asked)) ==> resolutions_match(self@, resolutions@)
                && asks_each_provider_once(self@, asked@),
            all_providers_fixed(self@) ==> result is Ok,
            result matches Err(e) ==> is_provider_error(self@, e),
    {
        broadcast use vstd::std_specs::hash::group_hash_axioms;

        let ghost c = self@;
        let mut staged: HashMap<u64, ResolvedRelationship> = HashMap::new();
        let mut cache: Vec<(ModuleInstanceId, u64, ErasedValue)> = Vec::new();
        let n = self.modules.len();
        let mut m: usize = 0;
        proof {
            assert(staged@.dom() =~= slots_before(c, 0, 0));
        }
        while m < n
            invariant
                c == self@,
                !has_missing(c),
                n == c.modules.len(),
                m <= n,
                staged@.dom() == slots_before(c, m as int, 0),
                forall|slot: u64| #[trigger] staged@.contains_key(slot) ==> describes_last_before(c, m as int, 0, slot, staged@[slot]),
                forall|slot: u64| #[trigger] staged@.contains_key(slot) ==> exists|j: int|
                    0 <= j < cache@.len() && cache@[j].0@ == c.bindings[slot].target && cache@[j].1 == c.bindings[slot].port_id && cache@[j].2 == staged@[slot].value,
                forall|j1: int, j2: int| 0 <= j1 < cache@.len() && 0 <= j2 < cache@.len() && j1 != j2 ==> !(#[trigger] cache@[j1].0@ == #[trigger] cache@[j2].0@ && cache@[j1].1 == cache@[j2].1),
                composition_wf(c),
                forall|slot: u64| #[trigger] staged@.contains_key(slot) ==> c.bindings[slot].provider.may_resolve_to(Ok(staged@[slot].value)),
                forall|j: int| 0 <= j < cache@.len() ==> provider_of(c, #[trigger] cache@[j].0@, cache@[j].1).may_resolve_to(Ok(cache@[j].2)),
                forall|j: int| 0 <= j < cache@.len() ==> staged_for(c, staged@, #[trigger] cache@[j].0@, cache@[j].1),
            decreases n - m,
        {
            let declared = &self.modules[m].relationships;
            proof {
                assert(c.modules[m as int] == self.modules@[m as int]@);
            }
            let k = declared.len();
            let mut r: usize = 0;
            while r < k
                invariant
                    c == self@,
                    !has_missing(c),
                    n == c.modules.len(),
                    m < n,
                    k == declared@.len(),
                    declared@ == self.modules@[m as int].relationships@,
                    c.modules[m as int] == self.modules@[m as int]@,
                    r <= k,
                    staged@.dom() == slots_before(c, m as int, r as int),
                    forall|slot: u64| #[trigger] staged@.contains_key(slot) ==> describes_last_before(c, m as int, r as int, slot, staged@[slot]),
                    forall|slot: u64| #[trigger] staged@.contains_key(slot) ==> exists|j: int|
                        0 <= j < cache@.len() && cache@[j].0@ == c.bindings[slot].target && cache@[j].1 == c.bindings[slot].port_id && cache@[j].2 == staged@[slot].value,
                    forall|j1: int, j2: int| 0 <= j1 < cache@.len() && 0 <= j2 < cache@.len() && j1 != j2 ==> !(#[trigger] cache@[j1].0@ == #[trigger] cache@[j2].0@ && cache@[j1].1 == cache@[j2].1),
                    composition_wf(c),
                    forall|slot: u64| #[trigger] staged@.contains_key(slot) ==> c.bindings[slot].provider.may_resolve_to(Ok(staged@[slot].value)),
                    forall|j: int| 0 <= j < cache@.len() ==> provider_of(c, #[trigger] cache@[j].0@, cache@[j].1).may_resolve_to(Ok(cache@[j].2)),
                    forall|j: int| 0 <= j < cache@.len() ==> staged_for(c, staged@, #[trigger] cache@[j].0@, cache@[j].1),
                decreases k - r,
            {
                let relationship = &declared[r];
                let slot = relationship.slot_id();
                proof {
                    assert(c.modules[m as int].relationships[r as int] == relationship@);
                    assert(!missing_at(c, m as int, r as int));
                }
                let binding = self.bindings.get(&slot).unwrap();
                proof {
                    assert(c.bindings[slot] == binding@);
                }
                // Look the provided value up among those created so far.
                let cached = cache.len();
                let mut j: usize = 0;
                while j < cached && !(cache[j].0.same_as(&binding.target) && cache[j].1 == binding.port_id)
                    invariant
                        cached == cache@.len(),
                        j <= cached,
                        forall|q: int| 0 <= q < j ==> !(cache@[q].0@ == binding@.target && cache@[q].1 == binding@.port_id),
                    decreases cached - j,
                {
                    j = j + 1;
                }
                let ghost cache_before = cache@;
                let value = if j < cached {
                    cache[j].2.clone()
                } else {
                    let created = match binding.provider.resolve() {
                        Ok(created) => created,
                        Err(error) => {
                            proof {
                                assert(declares_at(c, m as int, r as int, slot));
                                assert forall|earlier: u64| #[trigger] slots_before(c, m as int, r as int).contains(earlier) implies exists|value: ErasedValue|
                                    c.bindings[earlier].provider.may_resolve_to(Ok(value)) by {
                                    assert(staged@.contains_key(earlier));
                                    assert(c.bindings[earlier].provider.may_resolve_to(Ok(staged@[earlier].value)));
                                }
                            }
                            return Err(error);
                        },
                    };
                    cache.push((binding.target.duplicate(), binding.port_id, created.clone()));
                    created
                };
                let ghost key_index: int = j as int;
                proof {
                    assert(0 <= key_index < cache@.len());
                    assert(cache@[key_index].0@ == binding@.target && cache@[key_index].1 == binding@.port_id && cache@[key_index].2 == value);
                    assert(binding@.provider == provider_of(c, binding@.target, binding@.port_id));
                    assert(binding@.provider.may_resolve_to(Ok(value)));
                    assert forall|q: int| 0 <= q < cache@.len() implies provider_of(c, #[trigger] cache@[q].0@, cache@[q].1).may_resolve_to(Ok(cache@[q].2)) by {
                        if q < cache_before.len() {
                            assert(cache@[q] == cache_before[q]);
                        }
                    }
                    assert forall|q: int| 0 <= q < cache_before.len() implies cache@[q] == cache_before[q] by {}
                    assert forall|j1: int, j2: int| 0 <= j1 < cache@.len() && 0 <= j2 < cache@.len() && j1 != j2 implies !(#[trigger] cache@[j1].0@ == #[trigger] cache@[j2].0@ && cache@[j1].1 == cache@[j2].1) by {
                        if j1 < cache_before.len() && j2 < cache_before.len() {
                            assert(cache@[j1] == cache_before[j1] && cache@[j2] == cache_before[j2]);
                        }
                    }
                }
                let entry = ResolvedRelationship {
                    owner: self.modules[m].id.duplicate(),
                    name: String::from_str(relationship.name()),
                    kind: relationship.kind(),
                    value,
                };
                let ghost staged_before = staged@;
                staged.insert(slot, entry);
                proof {
                    assert(describes(c, m as int, r as int, staged@[slot]));
                    assert(declares_at(c, m as int, r as int, slot));
                    assert(staged@.dom() =~= slots_before(c, m as int, r + 1)) by {
                        assert forall|x: u64| slots_before(c, m as int, r + 1).contains(x) implies staged@.dom().contains(x) by {
                            let (m2, r2) = choose|m2: int, r2: int| pair_before(m2, r2, m as int, r + 1) && declares_at(c, m2, r2, x);
                            if !(m2 == m && r2 == r) {
                                assert(pair_before(m2, r2, m as int, r as int));
                                assert(slots_before(c, m as int, r as int).contains(x));
                            }
                        }
                        assert forall|x: u64| staged@.dom().contains(x) implies slots_before(c, m as int, r + 1).contains(x) by {
                            if x != slot {
                                assert(staged_before.contains_key(x));
                                assert(slots_before(c, m as int, r as int).contains(x));
                                let (m2, r2) = choose|m2: int, r2: int| pair_before(m2, r2, m as int, r as int) && declares_at(c, m2, r2, x);
                                assert(pair_before(m2, r2, m as int, r + 1));
                            } else {
                                assert(pair_before(m as int, r as int, m as int, r + 1));
                            }
                        }
                    }
                    assert forall|x: u64| #[trigger] staged@.contains_key(x) implies describes_last_before(c, m as int, r + 1, x, staged@[x]) by {
                        if x == slot {
                            assert(pair_before(m as int, r as int, m as int, r + 1));
                            assert forall|m3: int, r3: int| pair_before(m as int, r as int, m3, r3) && pair_before(m3, r3, m as int, r + 1) implies !declares_at(c, m3, r3, x) by {}
                        } else {
                            assert(staged_before.contains_key(x));
                            assert(describes_last_before(c, m as int, r as int, x, staged_before[x]));
                            let (m2, r2) = choose|m2: int, r2: int| #![trigger declares_at(c, m2, r2, x)] pair_before(m2, r2, m as int, r as int) && declares_at(c, m2, r2, x) && describes(c, m2, r2, staged_before[x]) && forall|m3: int, r3: int| pair_before(m2, r2, m3, r3) && pair_before(m3, r3, m as int, r as int) ==> !declares_at(c, m3, r3, x);
                            assert(pair_before(m2, r2, m as int, r + 1));
                            assert forall|m3: int, r3: int| pair_before(m2, r2, m3, r3) && pair_before(m3, r3, m as int, r + 1) implies !declares_at(c, m3, r3, x) by {
                                if !(m3 == m && r3 == r) {
                                    assert(pair_before(m3, r3, m as int, r as int));
                                }
                            }
                            assert(staged@[x] == staged_before[x]);
                        }
                    }
                    assert forall|q: int| 0 <= q < cache@.len() implies staged_for(c, staged@, #[trigger] cache@[q].0@, cache@[q].1) by {
                        if q < cache_before.len() {
                            assert(cache@[q] == cache_before[q]);
                            assert(staged_for(c, staged_before, cache_before[q].0@, cache_before[q].1));
                            let w = choose|w: u64| #[trigger] staged_before.contains_key(w) && c.bindings[w].target == cache_before[q].0@ && c.bindings[w].port_id == cache_before[q].1;
                            assert(staged@.contains_key(w));
                        } else {
                            assert(staged@.contains_key(slot));
                        }
                    }
                    assert forall|x: u64| #[trigger] staged@.contains_key(x) implies exists|q: int|
                        0 <= q < cache@.len() && cache@[q].0@ == c.bindings[x].target && cache@[q].1 == c.bindings[x].port_id && cache@[q].2 == staged@[x].value by {
                        if x == slot {
                            assert(cache@[key_index].2 == staged@[x].value);
                        } else {
                            assert(staged_before.contains_key(x));
                            let q = choose|q: int| 0 <= q < cache_before.len() && cache_before[q].0@ == c.bindings[x].target && cache_before[q].1 == c.bindings[x].port_id && cache_before[q].2 == staged_before[x].value;
                            assert(cache@[q] == cache_before[q]);
                        }
                    }
                }
                r = r + 1;
            }
            proof {
                assert(slots_before(c, m + 1, 0) =~= slots_before(c, m as int, k as int)) by {
                    assert forall|x: u64| slots_before(c, m + 1, 0).contains(x) implies slots_before(c, m as int, k as int).contains(x) by {
                        let (m2, r2) = choose|m2: int, r2: int| pair_before(m2, r2, m + 1, 0) && declares_at(c, m2, r2, x);
                        assert(pair_before(m2, r2, m as int, k as int));
                    }
                    assert forall|x: u64| slots_before(c, m as int, k as int).contains(x) implies slots_before(c, m + 1, 0).contains(x) by {
                        let (m2, r2) = choose|m2: int, r2: int| pair_before(m2, r2, m as int, k as int) && declares_at(c, m2, r2, x);
                        assert(pair_before(m2, r2, m + 1, 0));
                    }
                }
                assert forall|x: u64| #[trigger] staged@.contains_key(x) implies describes_last_before(c, m + 1, 0, x, staged@[x]) by {
                    let (m2, r2) = choose|m2: int, r2: int| #![trigger declares_at(c, m2, r2, x)] pair_before(m2, r2, m as int, k as int) && declares_at(c, m2, r2, x) && describes(c, m2, r2, staged@[x]) && forall|m3: int, r3: int| pair_before(m2, r2, m3, r3) && pair_before(m3, r3, m as int, k as int) ==> !declares_at(c, m3, r3, x);
                    assert(pair_before(m2, r2, m + 1, 0));
                    assert forall|m3: int, r3: int| pair_before(m2, r2, m3, r3) && pair_before(m3, r3, m + 1, 0) implies !declares_at(c, m3, r3, x) by {
                        if m3 < m || (m3 == m && r3 < k) {
                            assert(pair_before(m3, r3, m as int, k as int));
                        } else if m3 == m {
                            assert(c.modules[m as int].relationships.len() == k);
                        }
                    }
                }
            }
            m = m + 1;
        }
        proof {
            assert(staged@.dom() =~= declared_slots(c)) by {
                assert forall|x: u64| declared_slots(c).contains(x) implies staged@.dom().contains(x) by {
                    let (m2, r2) = choose|m2: int, r2: int| declares_at(c, m2, r2, x);
                    assert(pair_before(m2, r2, n as int, 0));
                }
                assert forall|x: u64| staged@.dom().contains(x) implies declared_slots(c).contains(x) by {
                    let (m2, r2) = choose|m2: int, r2: int| pair_before(m2, r2, n as int, 0) && declares_at(c, m2, r2, x);
                }
            }
            assert forall|x: u64| #[trigger] staged@.contains_key(x) implies describes_last(c, x, staged@[x]) by {
                let (m2, r2) = choose|m2: int, r2: int| #![trigger declares_at(c, m2, r2, x)] pair_before(m2, r2, n as int, 0) && declares_at(c, m2, r2, x) && describes(c, m2, r2, staged@[x]) && forall|m3: int, r3: int| pair_before(m2, r2, m3, r3) && pair_before(m3, r3, n as int, 0) ==> !declares_at(c, m3, r3, x);
                assert forall|m3: int, r3: int| pair_before(m2, r2, m3, r3) implies !declares_at(c, m3, r3, x) by {
                    if m3 < n {
                        assert(pair_before(m3, r3, n as int, 0));
                    }
                }
            }
            assert forall|s1: u64, s2: u64|
                #[trigger] staged@.contains_key(s1) && #[trigger] staged@.contains_key(s2)
                    && c.bindings[s1].target == c.bindings[s2].target && c.bindings[s1].port_id
                    == c.bindings[s2].port_id implies staged@[s1].value == staged@[s2].value by {
                let q1 = choose|q: int| 0 <= q < cache@.len() && cache@[q].0@ == c.bindings[s1].target && cache@[q].1 == c.bindings[s1].port_id && cache@[q].2 == staged@[s1].value;
                let q2 = choose|q: int| 0 <= q < cache@.len() && cache@[q].0@ == c.bindings[s2].target && cache@[q].1 == c.bindings[s2].port_id && cache@[q].2 == staged@[s2].value;
                if q1 != q2 {
                    assert(cache@[q1].0@ == cache@[q2].0@);
                }
            }
        }
        let ghost asked = cache_keys(cache@);
        proof {
            assert forall|slot: u64|
                #[trigger] staged@.contains_key(slot) && c.bindings[slot].provider.is_fixed()
                    implies staged@[slot].value == c.bindings[slot].provider.spec_value() by {
                c.bindings[slot].provider.lemma_fixed_outcome(Ok(staged@[slot].value));
            }
            assert(asked.no_duplicates()) by {
                assert forall|a: int, b: int| 0 <= a < asked.len() && 0 <= b < asked.len() && a != b implies asked[a] != asked[b] by {
                    assert(asked[a] == (cache@[a].0@, cache@[a].1));
                    assert(asked[b] == (cache@[b].0@, cache@[b].1));
                }
            }
            assert forall|key: (Seq<char>, u64)|
                #[trigger] asked.contains(key) <==> exists|slot: u64|
                    declared_slots(c).contains(slot) && key == (c.bindings[slot].target, c.bindings[slot].port_id) by {
                if asked.contains(key) {
                    let j = choose|j: int| 0 <= j < asked.len() && asked[j] == key;
                    assert(asked[j] == (cache@[j].0@, cache@[j].1));
                    assert(staged_for(c, staged@, cache@[j].0@, cache@[j].1));
                    let slot = choose|slot: u64| #[trigger] staged@.contains_key(slot) && c.bindings[slot].target == cache@[j].0@ && c.bindings[slot].port_id == cache@[j].1;
                    assert(declared_slots(c).contains(slot));
                }
                if exists|slot: u64| declared_slots(c).contains(slot) && key == (c.bindings[slot].target, c.bindings[slot].port_id) {
                    let slot = choose|slot: u64| declared_slots(c).contains(slot) && key == (c.bindings[slot].target, c.bindings[slot].port_id);
                    assert(staged@.contains_key(slot));
                    let j = choose|j: int|
                        0 <= j < cache@.len() && cache@[j].0@ == c.bindings[slot].target && cache@[j].1 == c.bindings[slot].port_id && cache@[j].2 == staged@[slot].value;
                    assert(asked[j] == key);
                }
            }
        }
        Ok((staged, Ghost(asked)))
    }

    /// Checks that every declared relationship is bound, orders the modules
    /// so that each comes after the modules it depends on, and resolves the
    /// value of every slot. On success the modules stand in lifecycle order;
    /// on failure the composition is unchanged.
    pub fn wire(&mut self) -> (result: Result<Wiring, MicrodeError>)
        requires
            composition_wf(old(self)@),
        ensures
            composition_wf(final(self)@),
            wiring_outcome(old(self)@, result, final(self)@),
    {
        let ghost c = self@;
        match self.check_bindings() {
            Ok(()) => {},
            Err(error) => {
                return Err(error);
            },
        }
        let graph = self.build_graph();
        let order = match graph.order() {
            Ok(order) => order,
            Err(error) => {
                return Err(error);
            },
        };
        let (resolutions, asked) = match self.resolve_all() {
            Ok(resolved) => resolved,
            Err(error) => {
                return Err(error);
            },
        };
        let ids = self.ids();
        proof {
            let g = graph@;
            assert(id_texts(ids@) =~= module_texts(c));
            assert forall|k: int| 0 <= k < ids@.len() implies id_texts(order@).contains(#[trigger] ids@[k]@) by {
                assert(c.modules[k].id == ids@[k]@);
                assert(installed(c, ids@[k]@));
                assert(module_ids(c).contains(ids@[k]@));
                assert(g.ids.to_set().contains(ids@[k]@));
                assert(id_texts(order@).to_set().contains(ids@[k]@));
            }
        }
        let positions = lifecycle_positions(&ids, &order);
        proof {
            lemma_lifecycle_order_distinct(module_texts(c), id_texts(order@), positions@);
        }
        let mut modules: Vec<ModuleRecord> = Vec::new();
        std::mem::swap(&mut modules, &mut self.modules);
        let arranged = permute(modules, &positions);
        self.modules = arranged;
        proof {
            let c1 = self@;
            let g = graph@;
            assert(c1.modules =~= permuted(c.modules, positions@));
            assert(c1 == (CompositionView { modules: permuted(c.modules, positions@), ..c }));
            lemma_lifecycle_order_dependencies_first(c, g, id_texts(order@), positions@);
            if module_texts(c).no_duplicates() {
                assert(module_texts(c).to_set() =~= id_texts(order@).to_set()) by {
                    assert forall|a: Seq<char>| module_texts(c).to_set().contains(a) implies id_texts(order@).to_set().contains(a) by {
                        let k = choose|k: int| 0 <= k < module_texts(c).len() && module_texts(c)[k] == a;
                        assert(c.modules[k].id == a);
                        assert(module_ids(c).contains(a));
                    }
                    assert forall|a: Seq<char>| id_texts(order@).to_set().contains(a) implies module_texts(c).to_set().contains(a) by {
                        assert(g.ids.to_set().contains(a));
                        assert(module_ids(c).contains(a));
                        let k = choose|k: int| 0 <= k < c.modules.len() && #[trigger] c.modules[k].id == a;
                        assert(module_texts(c)[k] == a);
                    }
                }
                lemma_lifecycle_order_follows_order(module_texts(c), id_texts(order@), positions@);
                assert(module_texts(c1) =~= permuted(module_texts(c), positions@));
            }
            lemma_first_module_after_arranging(c, c1, id_texts(order@), positions@);
            assert forall|slot: u64| #[trigger] c1.bindings.contains_key(slot) implies {
                &&& installed(c1, c1.bindings[slot].owner)
                &&& installed(c1, c1.bindings[slot].target)
                &&& c1.bindings[slot].provider == provider_of(c1, c1.bindings[slot].target, c1.bindings[slot].port_id)
            } by {
                assert(provider_of(c1, c.bindings[slot].target, c.bindings[slot].port_id) == provider_of(c, c.bindings[slot].target, c.bindings[slot].port_id));
                let ko = choose|k: int| 0 <= k < c.modules.len() && #[trigger] c.modules[k].id == c.bindings[slot].owner;
                assert(module_texts(c)[ko] == c.modules[ko].id);
                assert(lists(positions@, ko));
                let qo = choose|q: int| 0 <= q < positions@.len() && positions@[q] == ko;
                assert(c1.modules[qo].id == c1.bindings[slot].owner);
                let kt = choose|k: int| 0 <= k < c.modules.len() && #[trigger] c.modules[k].id == c.bindings[slot].target;
                assert(module_texts(c)[kt] == c.modules[kt].id);
                assert(lists(positions@, kt));
                let qt = choose|q: int| 0 <= q < positions@.len() && positions@[q] == kt;
                assert(c1.modules[qt].id == c1.bindings[slot].target);
            }
        }
        Ok(Wiring { positions, resolutions, asked })
    }

    /// Starts the application: refuses a second start, seals the
    /// composition against further changes, and wires it.
    pub fn start(&mut self, state: MicrodeApplicationState) -> (result: Result<Wiring, MicrodeError>)
        requires
            composition_wf(old(self)@),
        ensures
            composition_wf(final(self)@),
            match start_error(old(self)@, state) {
                Some(message) => (result matches Err(e) && e@ == message) && final(self)@ == old(self)@,
                None => wiring_outcome(CompositionView { sealed: true, ..old(self)@ }, result, final(self)@),
            },
    {
        if state != MicrodeApplicationState::Idle {
            return Err(
                MicrodeError::from_message(
                    concat2("cannot start application more than once; current state: ", state.name()),
                ),
            );
        }
        if self.sealed {
            return Err(MicrodeError::new("cannot start application more than once; composition is sealed"));
        }
        let ghost c0 = self@;
        self.sealed = true;
        proof {
            lemma_same_modules(self@, c0);
            assert forall|slot: u64| #[trigger] self@.bindings.contains_key(slot) implies
                self@.bindings[slot].provider == provider_of(self@, self@.bindings[slot].target, self@.bindings[slot].port_id) by {
                assert(c0.bindings.contains_key(slot));
            }
        }
        self.wire()
    }

    /// Appends a module and returns the handle that names it in bindings.
    pub fn add_module<Module>(&mut self, record: ModuleRecord) -> (handle: ModuleHandle<Module>)
        requires
            composition_wf(old(self)@),
        ensures
            final(self)@ == (CompositionView {
                modules: old(self)@.modules.push(record@),
                ..old(self)@
            }),
            composition_wf(final(self)@),
            handle.spec_id() == record@.id,
            handle.spec_owner() == old(self)@.id,
    {
        let handle = ModuleHandle::new(record.id.duplicate(), self.composition_id);
        let ghost c0 = self@;
        self.modules.push(record);
        proof {
            let c1 = self@;
            assert(c1.modules =~= c0.modules.push(record@));
            lemma_first_module_after_push(c0, c1, record@);
            assert forall|slot: u64| #[trigger] c1.bindings.contains_key(slot) implies {
                &&& installed(c1, c1.bindings[slot].owner)
                &&& installed(c1, c1.bindings[slot].target)
                &&& c1.bindings[slot].provider == provider_of(c1, c1.bindings[slot].target, c1.bindings[slot].port_id)
            } by {
                let ko = choose|k: int| 0 <= k < c0.modules.len() && #[trigger] c0.modules[k].id == c0.bindings[slot].owner;
                assert(c1.modules[ko].id == c1.bindings[slot].owner);
                let kt = choose|k: int| 0 <= k < c0.modules.len() && #[trigger] c0.modules[k].id == c0.bindings[slot].target;
                assert(c1.modules[kt].id == c1.bindings[slot].target);
                assert(provider_of(c1, c0.bindings[slot].target, c0.bindings[slot].port_id) == provider_of(c0, c0.bindings[slot].target, c0.bindings[slot].port_id));
            }
        }
        handle
    }
}

} // verus!
