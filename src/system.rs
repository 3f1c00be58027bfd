use vstd::prelude::*;
use crate::codec::node_id_bytes;
use crate::entity_type::EntityType;
use crate::non_fungible_bucket::NonFungibleLocalId;
use crate::track::{bytes_eq, current, ModuleId, RuntimeSubstate, TrackedKey};
use crate::track_store::{addresses_unique, find, is_at, view_of, Track, TrackEntry};
use crate::types::NodeId;

verus! {

/// The module of an object that a node stands for when an object is globalized.
#[derive(Clone, Copy, Debug, PartialEq, Eq, Structural)]
pub enum ObjectModuleId {
    Main,
    Metadata,
    Royalty,
    AccessRules,
}

/// A blueprint: the package it lives in and its name.
#[derive(Clone, Debug)]
pub struct Blueprint {
    pub package_address: NodeId,
    pub blueprint_name: Vec<u8>,
}

#[derive(Clone, Copy, Debug, PartialEq, Eq, Structural)]
pub enum SystemError {
    InvalidModuleSet,
    InvalidModuleType,
    CannotGlobalize,
    WrongNumberOfSubstates,
    InvalidSubstateWrite,
    InvalidKeyValueStoreOwnership,
    CallMethodOnKeyValueStore,
}

#[derive(Clone, Copy, Debug, PartialEq, Eq, Structural)]
pub enum EventError {
    SchemaNotFound,
}

pub open spec fn spec_resource_package() -> NodeId {
    NodeId { entity_byte: 0x0d, high: 0, low: 1 }
}

pub fn resource_package() -> (r: NodeId)
    ensures
        r == spec_resource_package(),
{
    NodeId { entity_byte: 0x0d, high: 0, low: 1 }
}

pub open spec fn spec_account_package() -> NodeId {
    NodeId { entity_byte: 0x0d, high: 0, low: 2 }
}

pub fn account_package() -> (r: NodeId)
    ensures
        r == spec_account_package(),
{
    NodeId { entity_byte: 0x0d, high: 0, low: 2 }
}

pub open spec fn spec_metadata_module_package() -> NodeId {
    NodeId { entity_byte: 0x0d, high: 0, low: 3 }
}

pub fn metadata_module_package() -> (r: NodeId)
    ensures
        r == spec_metadata_module_package(),
{
    NodeId { entity_byte: 0x0d, high: 0, low: 3 }
}

pub open spec fn spec_royalty_module_package() -> NodeId {
    NodeId { entity_byte: 0x0d, high: 0, low: 4 }
}

pub fn royalty_module_package() -> (r: NodeId)
    ensures
        r == spec_royalty_module_package(),
{
    NodeId { entity_byte: 0x0d, high: 0, low: 4 }
}

pub open spec fn spec_access_rules_module_package() -> NodeId {
    NodeId { entity_byte: 0x0d, high: 0, low: 5 }
}

pub fn access_rules_module_package() -> (r: NodeId)
    ensures
        r == spec_access_rules_module_package(),
{
    NodeId { entity_byte: 0x0d, high: 0, low: 5 }
}

pub open spec fn spec_fungible_vault_blueprint() -> Seq<u8> {
    seq![70u8, 117u8, 110u8, 103u8, 105u8, 98u8, 108u8, 101u8, 86u8, 97u8, 117u8, 108u8, 116u8]
}

/// The name `FungibleVault`, as bytes.
pub fn fungible_vault_blueprint() -> (r: Vec<u8>)
    ensures
        r@ == spec_fungible_vault_blueprint(),
{
    let r: Vec<u8> = vec![70u8, 117u8, 110u8, 103u8, 105u8, 98u8, 108u8, 101u8, 86u8, 97u8, 117u8, 108u8, 116u8];
    proof {
        assert(r@ =~= spec_fungible_vault_blueprint());
    }
    r
}

pub open spec fn spec_non_fungible_vault_blueprint() -> Seq<u8> {
    seq![78u8, 111u8, 110u8, 70u8, 117u8, 110u8, 103u8, 105u8, 98u8, 108u8, 101u8, 86u8, 97u8, 117u8, 108u8, 116u8]
}

/// The name `NonFungibleVault`, as bytes.
pub fn non_fungible_vault_blueprint() -> (r: Vec<u8>)
    ensures
        r@ == spec_non_fungible_vault_blueprint(),
{
    let r: Vec<u8> = vec![78u8, 111u8, 110u8, 70u8, 117u8, 110u8, 103u8, 105u8, 98u8, 108u8, 101u8, 86u8, 97u8, 117u8, 108u8, 116u8];
    proof {
        assert(r@ =~= spec_non_fungible_vault_blueprint());
    }
    r
}

pub open spec fn spec_account_blueprint() -> Seq<u8> {
    seq![65u8, 99u8, 99u8, 111u8, 117u8, 110u8, 116u8]
}

/// The name `Account`, as bytes.
pub fn account_blueprint() -> (r: Vec<u8>)
    ensures
        r@ == spec_account_blueprint(),
{
    let r: Vec<u8> = vec![65u8, 99u8, 99u8, 111u8, 117u8, 110u8, 116u8];
    proof {
        assert(r@ =~= spec_account_blueprint());
    }
    r
}

pub open spec fn spec_metadata_blueprint() -> Seq<u8> {
    seq![77u8, 101u8, 116u8, 97u8, 100u8, 97u8, 116u8, 97u8]
}

/// The name `Metadata`, as bytes.
pub fn metadata_blueprint() -> (r: Vec<u8>)
    ensures
        r@ == spec_metadata_blueprint(),
{
    let r: Vec<u8> = vec![77u8, 101u8, 116u8, 97u8, 100u8, 97u8, 116u8, 97u8];
    proof {
        assert(r@ =~= spec_metadata_blueprint());
    }
    r
}

pub open spec fn spec_component_royalty_blueprint() -> Seq<u8> {
    seq![67u8, 111u8, 109u8, 112u8, 111u8, 110u8, 101u8, 110u8, 116u8, 82u8, 111u8, 121u8, 97u8, 108u8, 116u8, 121u8]
}

/// The name `ComponentRoyalty`, as bytes.
pub fn component_royalty_blueprint() -> (r: Vec<u8>)
    ensures
        r@ == spec_component_royalty_blueprint(),
{
    let r: Vec<u8> = vec![67u8, 111u8, 109u8, 112u8, 111u8, 110u8, 101u8, 110u8, 116u8, 82u8, 111u8, 121u8, 97u8, 108u8, 116u8, 121u8];
    proof {
        assert(r@ =~= spec_component_royalty_blueprint());
    }
    r
}

pub open spec fn spec_access_rules_blueprint() -> Seq<u8> {
    seq![65u8, 99u8, 99u8, 101u8, 115u8, 115u8, 82u8, 117u8, 108u8, 101u8, 115u8]
}

/// The name `AccessRules`, as bytes.
pub fn access_rules_blueprint() -> (r: Vec<u8>)
    ensures
        r@ == spec_access_rules_blueprint(),
{
    let r: Vec<u8> = vec![65u8, 99u8, 99u8, 101u8, 115u8, 115u8, 82u8, 117u8, 108u8, 101u8, 115u8];
    proof {
        assert(r@ =~= spec_access_rules_blueprint());
    }
    r
}

/// Whether two blueprints are the same.
pub fn blueprint_eq(a: &Blueprint, b: &Blueprint) -> (r: bool)
    ensures
        r == (a.package_address == b.package_address && a.blueprint_name@ == b.blueprint_name@),
{
    a.package_address == b.package_address && bytes_eq(&a.blueprint_name, &b.blueprint_name)
}

/// The entity type of a new object of a blueprint: vaults and accounts of the
/// native packages have their own kinds, every other object is a generic component.
pub open spec fn spec_entity_type_for(package: NodeId, blueprint: Seq<u8>) -> EntityType {
    if package == spec_resource_package() && blueprint == spec_fungible_vault_blueprint() {
        EntityType::InternalFungibleVault
    } else if package == spec_resource_package() && blueprint == spec_non_fungible_vault_blueprint() {
        EntityType::InternalNonFungibleVault
    } else if package == spec_account_package() && blueprint == spec_account_blueprint() {
        EntityType::InternalAccount
    } else {
        EntityType::InternalGenericComponent
    }
}

pub fn entity_type_for(package: NodeId, blueprint: &Vec<u8>) -> (r: EntityType)
    ensures
        r == spec_entity_type_for(package, blueprint@),
{
    if package == resource_package() && bytes_eq(blueprint, &fungible_vault_blueprint()) {
        EntityType::InternalFungibleVault
    } else if package == resource_package() && bytes_eq(blueprint, &non_fungible_vault_blueprint()) {
        EntityType::InternalNonFungibleVault
    } else if package == account_package() && bytes_eq(blueprint, &account_blueprint()) {
        EntityType::InternalAccount
    } else {
        EntityType::InternalGenericComponent
    }
}

/// The type-info substate of an object: its global flag, then its blueprint's
/// package and name.
pub open spec fn type_info_bytes(global: bool, package: NodeId, blueprint: Seq<u8>) -> Seq<u8> {
    seq![if global { 1u8 } else { 0u8 }] + node_id_bytes(package) + blueprint
}

/// The key of the type-info substate, and of the field at offset 0.
pub open spec fn type_info_key() -> Seq<u8> {
    seq![0u8]
}

fn type_info_value(global: bool, package: &NodeId, blueprint: &Vec<u8>) -> (r: Vec<u8>)
    ensures
        r@ == type_info_bytes(global, *package, blueprint@),
{
    let mut r: Vec<u8> = Vec::new();
    r.push(if global { 1u8 } else { 0u8 });
    let mut p = package.to_bytes();
    r.append(&mut p);
    let mut b = blueprint.clone();
    r.append(&mut b);
    proof {
        assert(r@ =~= type_info_bytes(global, *package, blueprint@));
    }
    r
}

/// Creates an object of `blueprint` with `fields` under the fresh id `node_id`:
/// field `i` goes to key `[i]` of the object module, and a type-info substate
/// marks the object as not global.
pub fn new_object(
    track: &mut Track,
    node_id: NodeId,
    package: NodeId,
    blueprint: Vec<u8>,
    fields: Vec<Vec<u8>>,
    field_count: usize,
) -> (r: Result<NodeId, SystemError>)
    requires
        old(track).wf(),
        field_count <= 256,
        forall|i: int| 0 <= i < old(track).entries@.len() ==> (#[trigger] old(track).entries@[i]).node_id != node_id,
    ensures
        final(track).wf(),
        fields@.len() != field_count ==> r == Err::<NodeId, SystemError>(SystemError::WrongNumberOfSubstates)
            && final(track).entries@ == old(track).entries@,
        fields@.len() == field_count ==> {
            let n = old(track).entries@.len();
            &&& r == Ok::<NodeId, SystemError>(node_id)
            &&& final(track).entries@.len() == n + field_count + 1
            &&& final(track).entries@.take(n as int) == old(track).entries@
            &&& forall|i: int| 0 <= i < field_count ==> {
                let e = #[trigger] final(track).entries@[n + i];
                is_at(e, node_id, ModuleId::Object, seq![i as u8]) && view_of(e.key_state) == (
                    Some(fields@[i]@), None::<Option<Seq<u8>>>, false, true)
            }
            &&& is_at(final(track).entries@[n + field_count], node_id, ModuleId::TypeInfo, type_info_key())
            &&& view_of(final(track).entries@[n + field_count].key_state) == (
                Some(type_info_bytes(false, package, blueprint@)), None::<Option<Seq<u8>>>, false, true)
        },
        final(track).locks@ == old(track).locks@,
        final(track).force_writes@ == old(track).force_writes@,
        final(track).substate_db == old(track).substate_db,
{
    if fields.len() != field_count {
        return Err(SystemError::WrongNumberOfSubstates);
    }
    let ghost f0 = fields@;
    let type_info = type_info_value(false, &package, &blueprint);
    let mut substates: Vec<(ModuleId, Vec<u8>, Vec<u8>)> = Vec::new();
    let mut rest = fields;
    let mut i: usize = 0;
    proof {
        assert(rest@ =~= f0.skip(0));
    }
    while rest.len() > 0
        invariant
            i <= f0.len(),
            f0.len() == field_count,
            field_count <= 256,
            rest@ == f0.skip(i as int),
            substates@.len() == i,
            forall|x: int| 0 <= x < i ==> (#[trigger] substates@[x]).0 == ModuleId::Object && substates@[x].1@ == seq![x as u8]
                && substates@[x].2@ == f0[x]@,
        decreases rest@.len(),
    {
        let v = rest.remove(0);
        proof {
            assert(rest@ =~= f0.skip(i + 1));
        }
        let key: Vec<u8> = vec![i as u8];
        proof {
            assert(key@ =~= seq![i as u8]);
        }
        substates.push((ModuleId::Object, key, v));
        i = i + 1;
    }
    let key: Vec<u8> = vec![0u8];
    proof {
        assert(key@ =~= type_info_key());
    }
    substates.push((ModuleId::TypeInfo, key, type_info));
    proof {
        assert forall|a: int, b: int| 0 <= a < b < substates@.len() implies !((#[trigger] substates@[a]).0 == (#[trigger] substates@[b]).0
            && substates@[a].1@ == substates@[b].1@) by {
            if b < field_count {
                assert(substates@[a].1@[0] == a as u8);
                assert(substates@[b].1@[0] == b as u8);
            }
        }
    }
    let ghost n = track.entries@.len();
    track.create_node(node_id, substates);
    Ok(node_id)
}

/// Decides whether a write to a key-value store entry stands: the value must
/// match the store's schema (`schema_ok`), and may own nodes (`owned`) only
/// where the store can own them.
pub fn check_substate_write(schema_ok: bool, owned: &Vec<NodeId>, can_own: bool) -> (r: Result<(), SystemError>)
    ensures
        !schema_ok ==> r == Err::<(), SystemError>(SystemError::InvalidSubstateWrite),
        schema_ok && owned@.len() > 0 && !can_own ==> r == Err::<(), SystemError>(SystemError::InvalidKeyValueStoreOwnership),
        schema_ok && (owned@.len() == 0 || can_own) ==> r is Ok,
{
    if !schema_ok {
        return Err(SystemError::InvalidSubstateWrite);
    }
    if !can_own && owned.len() > 0 {
        return Err(SystemError::InvalidKeyValueStoreOwnership);
    }
    Ok(())
}

/// Who emitted an event: a method of a node's module, or a blueprint function.
#[derive(Clone, Debug)]
pub enum Emitter {
    Method(NodeId, ObjectModuleId),
    Function(NodeId, ObjectModuleId, Vec<u8>),
}

/// Position of the first event named `name` in a blueprint's event schema; -1 where
/// there is none.
pub open spec fn event_index(events: Seq<(Vec<u8>, u32)>, name: Seq<u8>) -> int
    decreases events.len(),
{
    if events.len() == 0 {
        -1
    } else if event_index(events.drop_last(), name) >= 0 {
        event_index(events.drop_last(), name)
    } else if events.last().0@ == name {
        events.len() - 1
    } else {
        -1
    }
}

/// The identifier of an event named `name` emitted by `emitter`: the emitter with
/// the event's local type index from the blueprint's event schema `events`.
pub fn event_type_identifier(emitter: Emitter, name: &Vec<u8>, events: &Vec<(Vec<u8>, u32)>) -> (r: Result<
    (Emitter, u32),
    EventError,
>)
    ensures
        event_index(events@, name@) < 0 ==> r == Err::<(Emitter, u32), EventError>(EventError::SchemaNotFound),
        event_index(events@, name@) >= 0 ==> r == Ok::<(Emitter, u32), EventError>(
            (emitter, events@[event_index(events@, name@)].1),
        ),
{
    let mut i: usize = 0;
    proof {
        assert(events@.take(0) =~= Seq::<(Vec<u8>, u32)>::empty());
    }
    while i < events.len()
        invariant
            i <= events@.len(),
            event_index(events@.take(i as int), name@) == -1,
        decreases events@.len() - i,
    {
        proof {
            assert(events@.take(i + 1).drop_last() =~= events@.take(i as int));
            assert(events@.take(i + 1).last() == events@[i as int]);
        }
        if bytes_eq(&events[i].0, name) {
            proof {
                lemma_event_index_prefix(events@, name@, i + 1);
            }
            return Ok((emitter, events[i].1));
        }
        i = i + 1;
    }
    proof {
        assert(events@.take(i as int) =~= events@);
    }
    Err(EventError::SchemaNotFound)
}

proof fn lemma_event_index_prefix(events: Seq<(Vec<u8>, u32)>, name: Seq<u8>, j: int)
    requires
        0 <= j <= events.len(),
        event_index(events.take(j), name) >= 0,
    ensures
        event_index(events, name) == event_index(events.take(j), name),
    decreases events.len() - j,
{
    if j < events.len() {
        assert(events.take(j + 1).drop_last() =~= events.take(j));
        lemma_event_index_prefix(events, name, j + 1);
    } else {
        assert(events.take(j) =~= events);
    }
}

/// What a type-info substate says of a node.
#[derive(Clone, Debug)]
pub enum TypeInfo {
    Object { blueprint: Blueprint, global: bool, outer_object: Option<(NodeId, Vec<u8>)> },
    KeyValueStore,
    Index,
    SortedIndex,
}

/// The object a method call runs on, and the instance it runs for.
#[derive(Clone, Debug)]
pub struct MethodActor {
    pub receiver: NodeId,
    pub module_id: ObjectModuleId,
    pub blueprint: Blueprint,
    /// The global address of the receiver, where it is global.
    pub global_address: Option<NodeId>,
    /// The instance (address and blueprint name) whose context the call runs in.
    pub instance_context: Option<(NodeId, Vec<u8>)>,
}

/// The blueprint of the module that a method of module `m` runs in, for the
/// attached modules.
pub open spec fn module_blueprint(m: ObjectModuleId) -> (NodeId, Seq<u8>) {
    match m {
        ObjectModuleId::Metadata => (spec_metadata_module_package(), spec_metadata_blueprint()),
        ObjectModuleId::Royalty => (spec_royalty_module_package(), spec_component_royalty_blueprint()),
        _ => (spec_access_rules_module_package(), spec_access_rules_blueprint()),
    }
}

/// Resolves the actor of a method call on module `module_id` of `receiver`, whose
/// type info is `type_info`. `caller_global` is the global address of the calling
/// method, which a non-global object reached by reference runs for.
pub fn resolve_method_actor(
    receiver: NodeId,
    module_id: ObjectModuleId,
    type_info: TypeInfo,
    caller_global: Option<NodeId>,
) -> (r: Result<MethodActor, SystemError>)
    ensures
        module_id == ObjectModuleId::Main ==> match type_info {
            TypeInfo::Object { blueprint, global, outer_object } => (r matches Ok(a) && {
                &&& a.receiver == receiver && a.module_id == module_id
                &&& a.blueprint == blueprint
                &&& a.global_address == if global { Some(receiver) } else { caller_global }
                &&& match a.instance_context {
                    Some(c) => if global {
                        c.0 == receiver && c.1@ == blueprint.blueprint_name@
                    } else {
                        outer_object == Some(c)
                    },
                    None => !global && outer_object is None,
                }
            }),
            _ => r == Err::<MethodActor, SystemError>(SystemError::CallMethodOnKeyValueStore),
        },
        module_id != ObjectModuleId::Main ==> (r matches Ok(a) && {
            &&& a.receiver == receiver && a.module_id == module_id
            &&& a.blueprint.package_address == module_blueprint(module_id).0
            &&& a.blueprint.blueprint_name@ == module_blueprint(module_id).1
            &&& a.global_address is None
            &&& a.instance_context is None
        }),
{
    match module_id {
        ObjectModuleId::Main => match type_info {
            TypeInfo::Object { blueprint, global, outer_object } => {
                let global_address = if global { Some(receiver) } else { caller_global };
                let instance_context = if global {
                    Some((receiver, blueprint.blueprint_name.clone()))
                } else {
                    outer_object
                };
                Ok(MethodActor { receiver, module_id, blueprint, global_address, instance_context })
            },
            _ => Err(SystemError::CallMethodOnKeyValueStore),
        },
        ObjectModuleId::Metadata => Ok(MethodActor {
            receiver,
            module_id,
            blueprint: Blueprint { package_address: metadata_module_package(), blueprint_name: metadata_blueprint() },
            global_address: None,
            instance_context: None,
        }),
        ObjectModuleId::Royalty => Ok(MethodActor {
            receiver,
            module_id,
            blueprint: Blueprint { package_address: royalty_module_package(), blueprint_name: component_royalty_blueprint() },
            global_address: None,
            instance_context: None,
        }),
        ObjectModuleId::AccessRules => Ok(MethodActor {
            receiver,
            module_id,
            blueprint: Blueprint { package_address: access_rules_module_package(), blueprint_name: access_rules_blueprint() },
            global_address: None,
            instance_context: None,
        }),
    }
}

/// Whether `ms` names each of the four modules of an object exactly once.
pub open spec fn module_set_ok(ms: Seq<(ObjectModuleId, NodeId, Blueprint)>) -> bool {
    &&& ms.len() == 4
    &&& exists|i: int| 0 <= i < 4 && (#[trigger] ms[i]).0 == ObjectModuleId::Main
    &&& exists|i: int| 0 <= i < 4 && (#[trigger] ms[i]).0 == ObjectModuleId::Metadata
    &&& exists|i: int| 0 <= i < 4 && (#[trigger] ms[i]).0 == ObjectModuleId::Royalty
    &&& exists|i: int| 0 <= i < 4 && (#[trigger] ms[i]).0 == ObjectModuleId::AccessRules
}

/// Position of the first entry of `ms` for module `m`; -1 where there is none.
pub open spec fn module_pos(ms: Seq<(ObjectModuleId, NodeId, Blueprint)>, m: ObjectModuleId) -> int
    decreases ms.len(),
{
    if ms.len() == 0 {
        -1
    } else if module_pos(ms.drop_last(), m) >= 0 {
        module_pos(ms.drop_last(), m)
    } else if ms.last().0 == m {
        ms.len() - 1
    } else {
        -1
    }
}

proof fn lemma_module_pos(ms: Seq<(ObjectModuleId, NodeId, Blueprint)>, m: ObjectModuleId)
    ensures
        -1 <= module_pos(ms, m) < ms.len(),
        module_pos(ms, m) >= 0 ==> ms[module_pos(ms, m)].0 == m,
        module_pos(ms, m) < 0 ==> forall|i: int| 0 <= i < ms.len() ==> (#[trigger] ms[i]).0 != m,
    decreases ms.len(),
{
    if ms.len() > 0 {
        lemma_module_pos(ms.drop_last(), m);
        assert forall|i: int| 0 <= i < ms.len() - 1 implies ms.drop_last()[i] == ms[i] by {}
    }
}

fn find_module(ms: &Vec<(ObjectModuleId, NodeId, Blueprint)>, m: ObjectModuleId) -> (r: Option<usize>)
    ensures
        r matches Some(i) ==> i == module_pos(ms@, m) && i < ms@.len(),
        r is None ==> module_pos(ms@, m) < 0,
{
    let mut i: usize = 0;
    proof {
        assert(ms@.take(0) =~= Seq::<(ObjectModuleId, NodeId, Blueprint)>::empty());
    }
    while i < ms.len()
        invariant
            i <= ms@.len(),
            module_pos(ms@.take(i as int), m) == -1,
        decreases ms@.len() - i,
    {
        proof {
            assert(ms@.take(i + 1).drop_last() =~= ms@.take(i as int));
            assert(ms@.take(i + 1).last() == ms@[i as int]);
        }
        if ms[i].0 == m {
            proof {
                lemma_module_pos_prefix(ms@, m, i + 1);
            }
            return Some(i);
        }
        i = i + 1;
    }
    proof {
        assert(ms@.take(i as int) =~= ms@);
    }
    None
}

proof fn lemma_module_pos_prefix(ms: Seq<(ObjectModuleId, NodeId, Blueprint)>, m: ObjectModuleId, j: int)
    requires
        0 <= j <= ms.len(),
        module_pos(ms.take(j), m) >= 0,
    ensures
        module_pos(ms, m) == module_pos(ms.take(j), m),
    decreases ms.len() - j,
{
    if j < ms.len() {
        assert(ms.take(j + 1).drop_last() =~= ms.take(j));
        lemma_module_pos_prefix(ms, m, j + 1);
    } else {
        assert(ms.take(j) =~= ms);
    }
}

/// Where a substate of one of the four nodes goes when they are globalized under
/// `address`: the main node's substates keep their module, the metadata node's
/// virtualized substates and the royalty and access-rules nodes' object substates
/// become the matching module; the rest of those nodes is dropped. Substates of
/// other nodes stay where they are.
pub open spec fn target(m: NodeId, md: NodeId, ry: NodeId, ar: NodeId, address: NodeId, node: NodeId, module: ModuleId) -> Option<(NodeId, ModuleId)> {
    if node == m {
        Some((address, module))
    } else if node == md {
        if module == ModuleId::Virtualized { Some((address, ModuleId::Metadata)) } else { None }
    } else if node == ry {
        if module == ModuleId::Object { Some((address, ModuleId::Royalty)) } else { None }
    } else if node == ar {
        if module == ModuleId::Object { Some((address, ModuleId::AccessRules)) } else { None }
    } else {
        Some((node, module))
    }
}

/// The value a moved substate carries: the main node's type info becomes global.
pub open spec fn moved_value(m: NodeId, node: NodeId, module: ModuleId, key: Seq<u8>, v: Seq<u8>) -> Seq<u8> {
    if node == m && module == ModuleId::TypeInfo && key == type_info_key() && v.len() > 0 {
        v.update(0, 1u8)
    } else {
        v
    }
}

/// The error that globalizing `ms` from `track` meets, if any: a module set other
/// than the four modules, a main node whose type info is missing or already
/// global, or a module node of the wrong blueprint.
pub open spec fn globalize_error(track: Track, ms: Seq<(ObjectModuleId, NodeId, Blueprint)>) -> Option<SystemError> {
    if !module_set_ok(ms) {
        Some(SystemError::InvalidModuleSet)
    } else {
        let main = ms[module_pos(ms, ObjectModuleId::Main)].1;
        let t = find(track.entries@, main, ModuleId::TypeInfo, type_info_key());
        let c = current(track.entries@[t].key_state);
        if !(t >= 0 && c is Some && c->0.len() > 0 && c->0[0] == 0) {
            Some(SystemError::CannotGlobalize)
        } else if !(blueprint_is(ms[module_pos(ms, ObjectModuleId::Metadata)].2, spec_metadata_module_package(), spec_metadata_blueprint())
            && blueprint_is(ms[module_pos(ms, ObjectModuleId::Royalty)].2, spec_royalty_module_package(), spec_component_royalty_blueprint())
            && blueprint_is(ms[module_pos(ms, ObjectModuleId::AccessRules)].2, spec_access_rules_module_package(), spec_access_rules_blueprint())) {
            Some(SystemError::InvalidModuleType)
        } else {
            None
        }
    }
}

pub open spec fn blueprint_is(b: Blueprint, package: NodeId, name: Seq<u8>) -> bool {
    b.package_address == package && b.blueprint_name@ == name
}

fn check_blueprint(b: &Blueprint, package: NodeId, name: Vec<u8>) -> (r: bool)
    ensures
        r == blueprint_is(*b, package, name@),
{
    b.package_address == package && bytes_eq(&b.blueprint_name, &name)
}

/// Globalizes an object under the pre-allocated `address`: `modules` names the
/// nodes of its main, metadata, royalty and access-rules modules. Their substates
/// move under `address` with the canonical module ids, the type info becomes
/// global, and the four nodes are no longer tracked.
pub fn globalize_with_address(
    track: &mut Track,
    modules: &Vec<(ObjectModuleId, NodeId, Blueprint)>,
    address: NodeId,
) -> (r: Result<(), SystemError>)
    requires
        old(track).wf(),
        forall|i: int, j: int| 0 <= i < j < modules@.len() ==> (#[trigger] modules@[i]).1 != (#[trigger] modules@[j]).1,
        forall|i: int| 0 <= i < modules@.len() ==> (#[trigger] modules@[i]).1 != address,
        forall|i: int| 0 <= i < old(track).entries@.len() ==> (#[trigger] old(track).entries@[i]).node_id != address,
        forall|i: int, j: int| 0 <= i < old(track).entries@.len() && 0 <= j < modules@.len() && (#[trigger] old(track).entries@[i]).node_id
            == (#[trigger] modules@[j]).1 && modules@[j].0 == ObjectModuleId::Main ==> old(track).entries@[i].module_id
            == ModuleId::TypeInfo || old(track).entries@[i].module_id == ModuleId::Object,
    ensures
        final(track).wf(),
        r is Err <==> globalize_error(*old(track), modules@) is Some,
        r is Err ==> r == Err::<(), SystemError>(globalize_error(*old(track), modules@)->0) && *final(track) == *old(track),
        r is Ok ==> {
            let ms = modules@;
            let m = ms[module_pos(ms, ObjectModuleId::Main)].1;
            let md = ms[module_pos(ms, ObjectModuleId::Metadata)].1;
            let ry = ms[module_pos(ms, ObjectModuleId::Royalty)].1;
            let ar = ms[module_pos(ms, ObjectModuleId::AccessRules)].1;
            let es = old(track).entries@;
            &&& forall|j: int| 0 <= j < final(track).entries@.len() ==> {
                let n = (#[trigger] final(track).entries@[j]).node_id;
                n != m && n != md && n != ry && n != ar
            }
            &&& forall|i: int| 0 <= i < es.len() && target(m, md, ry, ar, address, (#[trigger] es[i]).node_id, es[i].module_id)
                == Some((es[i].node_id, es[i].module_id)) ==> exists|j: int| 0 <= j < final(track).entries@.len()
                && final(track).entries@[j] == es[i]
            &&& forall|i: int| 0 <= i < es.len() && target(m, md, ry, ar, address, (#[trigger] es[i]).node_id, es[i].module_id)
                is Some && (target(m, md, ry, ar, address, es[i].node_id, es[i].module_id)->0).0 == address && current(es[i].key_state) is Some ==> exists|j: int|
                0 <= j < final(track).entries@.len() && is_at(final(track).entries@[j], address, (target(m, md, ry, ar, address, es[i].node_id, es[i].module_id)->0).1, es[i].substate_key@)
                && view_of(final(track).entries@[j].key_state) == (Some(moved_value(m, es[i].node_id, es[i].module_id,
                es[i].substate_key@, current(es[i].key_state)->0)), None::<Option<Seq<u8>>>, false, true)
            &&& exists|j: int| 0 <= j < final(track).entries@.len() && is_at(final(track).entries@[j], address, ModuleId::TypeInfo, type_info_key())
                && current(final(track).entries@[j].key_state) is Some && current(final(track).entries@[j].key_state)->0.len() > 0
                && current(final(track).entries@[j].key_state)->0[0] == 1
        },
        final(track).locks@ == old(track).locks@,
        final(track).force_writes@ == old(track).force_writes@,
        final(track).substate_db == old(track).substate_db,
{
    let ghost ms = modules@;
    proof {
        lemma_module_pos(ms, ObjectModuleId::Main);
        lemma_module_pos(ms, ObjectModuleId::Metadata);
        lemma_module_pos(ms, ObjectModuleId::Royalty);
        lemma_module_pos(ms, ObjectModuleId::AccessRules);
    }
    if modules.len() != 4 {
        return Err(SystemError::InvalidModuleSet);
    }
    let pm = find_module(modules, ObjectModuleId::Main);
    let pmd = find_module(modules, ObjectModuleId::Metadata);
    let pry = find_module(modules, ObjectModuleId::Royalty);
    let par = find_module(modules, ObjectModuleId::AccessRules);
    if pm.is_none() || pmd.is_none() || pry.is_none() || par.is_none() {
        proof {
            if module_set_ok(ms) {
                if pm.is_none() { let i = choose|i: int| 0 <= i < 4 && (#[trigger] ms[i]).0 == ObjectModuleId::Main; }
                if pmd.is_none() { let i = choose|i: int| 0 <= i < 4 && (#[trigger] ms[i]).0 == ObjectModuleId::Metadata; }
                if pry.is_none() { let i = choose|i: int| 0 <= i < 4 && (#[trigger] ms[i]).0 == ObjectModuleId::Royalty; }
                if par.is_none() { let i = choose|i: int| 0 <= i < 4 && (#[trigger] ms[i]).0 == ObjectModuleId::AccessRules; }
            }
        }
        return Err(SystemError::InvalidModuleSet);
    }
    let pm = pm.unwrap();
    let pmd = pmd.unwrap();
    let pry = pry.unwrap();
    let par = par.unwrap();
    proof {
        assert(ms[pm as int].0 == ObjectModuleId::Main);
        assert(ms[pmd as int].0 == ObjectModuleId::Metadata);
        assert(ms[pry as int].0 == ObjectModuleId::Royalty);
        assert(ms[par as int].0 == ObjectModuleId::AccessRules);
        assert(module_set_ok(ms));
    }
    let m = modules[pm].1;
    let md = modules[pmd].1;
    let ry = modules[pry].1;
    let ar = modules[par].1;
    let type_key: Vec<u8> = vec![0u8];
    proof {
        assert(type_key@ =~= type_info_key());
    }
    let ok_type_info = match track.position_of(m, ModuleId::TypeInfo, &type_key) {
        Some(t) => match track.entries[t].key_state.get() {
            Some(v) => v.len() > 0 && v[0] == 0,
            None => false,
        },
        None => false,
    };
    if !ok_type_info {
        return Err(SystemError::CannotGlobalize);
    }
    if !(check_blueprint(&modules[pmd].2, metadata_module_package(), metadata_blueprint())
        && check_blueprint(&modules[pry].2, royalty_module_package(), component_royalty_blueprint())
        && check_blueprint(&modules[par].2, access_rules_module_package(), access_rules_blueprint())) {
        return Err(SystemError::InvalidModuleType);
    }
    proof {
        assert(m != md && m != ry && m != ar && md != ry && md != ar && ry != ar);
    }
    let ghost e0 = track.entries@;
    let mut rest: Vec<TrackEntry> = Vec::new();
    std::mem::swap(&mut rest, &mut track.entries);
    let mut out: Vec<TrackEntry> = Vec::new();
    let ghost mut origins: Seq<int> = Seq::empty();
    let ghost mut dest: Seq<int> = Seq::empty();
    let mut n: usize = 0;
    let total = rest.len();
    proof {
        assert(rest@ =~= e0.skip(0));
    }
    while rest.len() > 0
        invariant
            type_key@ == type_info_key(),
            n <= e0.len(),
            e0.len() == total,
            rest@ == e0.skip(n as int),
            addresses_unique(e0),
            m != md && m != ry && m != ar && md != ry && md != ar && ry != ar,
            m != address && md != address && ry != address && ar != address,
            forall|i: int| 0 <= i < e0.len() ==> (#[trigger] e0[i]).node_id != address,
            forall|i: int| 0 <= i < e0.len() && (#[trigger] e0[i]).node_id == m ==> e0[i].module_id == ModuleId::TypeInfo
                || e0[i].module_id == ModuleId::Object,
            addresses_unique(out@),
            origins.len() == out@.len(),
            dest.len() == n,
            forall|j: int| 0 <= j < out@.len() ==> 0 <= #[trigger] origins[j] < n && ({
                let o = e0[origins[j]];
                &&& target(m, md, ry, ar, address, o.node_id, o.module_id) == Some((out@[j].node_id, out@[j].module_id))
                &&& out@[j].substate_key@ == o.substate_key@
            }),
            forall|j: int| 0 <= j < out@.len() ==> {
                let nd = (#[trigger] out@[j]).node_id;
                nd != m && nd != md && nd != ry && nd != ar
            },
            forall|i: int| 0 <= i < n ==> {
                let o = e0[i];
                let t = target(m, md, ry, ar, address, o.node_id, o.module_id);
                &&& t == Some((o.node_id, o.module_id)) ==> 0 <= #[trigger] dest[i] < out@.len() && out@[dest[i]] == o
                &&& (t is Some && (t->0).0 == address && current(o.key_state) is Some) ==> 0 <= dest[i] < out@.len()
                    && is_at(out@[dest[i]], address, (t->0).1, o.substate_key@) && view_of(out@[dest[i]].key_state) == (
                    Some(moved_value(m, o.node_id, o.module_id, o.substate_key@, current(o.key_state)->0)),
                    None::<Option<Seq<u8>>>, false, true)
            },
        decreases rest@.len(),
    {
        let e = rest.remove(0);
        proof {
            assert(rest@ =~= e0.skip(n + 1));
            assert(e == e0[n as int]);
        }
        let ghost o = e0[n as int];
        let moved: Option<Option<ModuleId>> = if e.node_id == m {
            Some(Some(e.module_id))
        } else if e.node_id == md {
            if e.module_id == ModuleId::Virtualized { Some(Some(ModuleId::Metadata)) } else { Some(None) }
        } else if e.node_id == ry {
            if e.module_id == ModuleId::Object { Some(Some(ModuleId::Royalty)) } else { Some(None) }
        } else if e.node_id == ar {
            if e.module_id == ModuleId::Object { Some(Some(ModuleId::AccessRules)) } else { Some(None) }
        } else {
            None
        };
        match moved {
            None => {
                proof {
                    assert forall|j: int| 0 <= j < out@.len() implies !is_at(out@[j], o.node_id, o.module_id, o.substate_key@) by {
                        lemma_target_injective(m, md, ry, ar, address, e0[origins[j]], o);
                        if is_at(out@[j], o.node_id, o.module_id, o.substate_key@) {
                            assert(!is_at(e0[origins[j]], o.node_id, o.module_id, o.substate_key@));
                        }
                    }
                }
                let ghost before = out@;
                let ghost d0 = dest;
                out.push(e);
                proof {
                    origins = origins.push(n as int);
                    dest = dest.push((out@.len() - 1) as int);
                    lemma_push_unique(before, out@.last());
                    assert(before.push(out@.last()) =~= out@);
                    assert forall|i: int| 0 <= i < n + 1 implies {
                        let o2 = e0[i];
                        let t = target(m, md, ry, ar, address, o2.node_id, o2.module_id);
                        &&& t == Some((o2.node_id, o2.module_id)) ==> 0 <= #[trigger] dest[i] < out@.len() && out@[dest[i]] == o2
                        &&& (t is Some && (t->0).0 == address && current(o2.key_state) is Some) ==> 0 <= dest[i] < out@.len()
                            && is_at(out@[dest[i]], address, (t->0).1, o2.substate_key@) && view_of(out@[dest[i]].key_state) == (
                            Some(moved_value(m, o2.node_id, o2.module_id, o2.substate_key@, current(o2.key_state)->0)),
                            None::<Option<Seq<u8>>>, false, true)
                    } by {
                        if i < n {
                            assert(dest[i] == d0[i]);
                            if 0 <= d0[i] < before.len() {
                                assert(out@[d0[i]] == before[d0[i]]);
                            }
                        }
                    }
                }
            },
            Some(None) => {
                proof {
                    dest = dest.push(-1);
                }
            },
            Some(Some(module_id)) => {
                match e.key_state.get() {
                    Some(v) => {
                        let mut value = v.clone();
                        assert(value@ == v@);
                        assert(current(o.key_state) == Some(v@));
                        let is_type_info = e.node_id == m && e.module_id == ModuleId::TypeInfo && bytes_eq(&e.substate_key, &type_key);
                        assert(is_type_info == (o.node_id == m && o.module_id == ModuleId::TypeInfo && o.substate_key@ == type_info_key()));
                        if is_type_info && value.len() > 0 {
                            value.set(0, 1u8);
                            assert(value@ == v@.update(0, 1u8));
                        }
                        let ghost before = out@;
                        let ghost d0 = dest;
                        proof {
                            assert(value@ == moved_value(m, o.node_id, o.module_id, o.substate_key@, current(o.key_state)->0));
                            assert forall|j: int| 0 <= j < out@.len() implies !is_at(out@[j], address, module_id, o.substate_key@) by {
                                lemma_target_injective(m, md, ry, ar, address, e0[origins[j]], o);
                                if is_at(out@[j], address, module_id, o.substate_key@) {
                                    assert(!is_at(e0[origins[j]], o.node_id, o.module_id, o.substate_key@));
                                }
                            }
                        }
                        out.push(TrackEntry {
                            node_id: address,
                            module_id,
                            substate_key: e.substate_key,
                            key_state: TrackedKey::New(RuntimeSubstate::new(value)),
                        });
                        proof {
                            origins = origins.push(n as int);
                            dest = dest.push((out@.len() - 1) as int);
                            lemma_push_unique(before, out@.last());
                            assert(before.push(out@.last()) =~= out@);
                            assert forall|i: int| 0 <= i < n + 1 implies {
                                let o2 = e0[i];
                                let t = target(m, md, ry, ar, address, o2.node_id, o2.module_id);
                                &&& t == Some((o2.node_id, o2.module_id)) ==> 0 <= #[trigger] dest[i] < out@.len() && out@[dest[i]] == o2
                                &&& (t is Some && (t->0).0 == address && current(o2.key_state) is Some) ==> 0 <= dest[i] < out@.len()
                                    && is_at(out@[dest[i]], address, (t->0).1, o2.substate_key@) && view_of(out@[dest[i]].key_state) == (
                                    Some(moved_value(m, o2.node_id, o2.module_id, o2.substate_key@, current(o2.key_state)->0)),
                                    None::<Option<Seq<u8>>>, false, true)
                            } by {
                                if i < n {
                                    assert(dest[i] == d0[i]);
                                    if 0 <= d0[i] < before.len() {
                                        assert(out@[d0[i]] == before[d0[i]]);
                                    }
                                }
                            }
                        }
                    },
                    None => {
                        proof {
                            dest = dest.push(-1);
                        }
                    },
                }
            },
        }
        n = n + 1;
    }
    track.entries = out;
    proof {
        assert(n == e0.len());
        let es = e0;
        let fe = track.entries@;
        assert forall|i: int| 0 <= i < es.len() && target(m, md, ry, ar, address, (#[trigger] es[i]).node_id, es[i].module_id)
            == Some((es[i].node_id, es[i].module_id)) implies exists|j: int| 0 <= j < fe.len() && fe[j] == es[i] by {
            let j = dest[i];
        }
        assert forall|i: int| 0 <= i < es.len() && target(m, md, ry, ar, address, (#[trigger] es[i]).node_id, es[i].module_id)
            is Some && (target(m, md, ry, ar, address, es[i].node_id, es[i].module_id)->0).0 == address && current(es[i].key_state) is Some
            implies exists|j: int| 0 <= j < fe.len() && is_at(fe[j], address, (target(m, md, ry, ar, address, es[i].node_id, es[i].module_id)->0).1, es[i].substate_key@)
            && view_of(fe[j].key_state) == (Some(moved_value(m, es[i].node_id, es[i].module_id, es[i].substate_key@, current(es[i].key_state)->0)),
            None::<Option<Seq<u8>>>, false, true) by {
            let j = dest[i];
        }
        let t = find(e0, m, ModuleId::TypeInfo, type_info_key());
        crate::track_store::lemma_find_pub(e0, m, ModuleId::TypeInfo, type_info_key());
        assert(target(m, md, ry, ar, address, e0[t].node_id, e0[t].module_id) == Some((address, ModuleId::TypeInfo)));
        let j = dest[t];
        assert(is_at(fe[j], address, ModuleId::TypeInfo, type_info_key()));
    }
    Ok(())
}

proof fn lemma_push_unique(s: Seq<TrackEntry>, x: TrackEntry)
    requires
        addresses_unique(s),
        forall|j: int| 0 <= j < s.len() ==> !is_at(s[j], x.node_id, x.module_id, x.substate_key@),
    ensures
        addresses_unique(s.push(x)),
{
    let t = s.push(x);
    assert forall|a: int, b: int| 0 <= a < b < t.len() implies !is_at(t[a], t[b].node_id, t[b].module_id, t[b].substate_key@) by {
        assert(t[a] == s[a]);
        if b < s.len() {
            assert(t[b] == s[b]);
        }
    }
}

/// Two substates with distinct addresses never land on the same address.
proof fn lemma_target_injective(m: NodeId, md: NodeId, ry: NodeId, ar: NodeId, address: NodeId, a: TrackEntry, b: TrackEntry)
    requires
        m != md && m != ry && m != ar && md != ry && md != ar && ry != ar,
        a.node_id != address,
        b.node_id != address,
        a.node_id == m ==> a.module_id == ModuleId::TypeInfo || a.module_id == ModuleId::Object,
        b.node_id == m ==> b.module_id == ModuleId::TypeInfo || b.module_id == ModuleId::Object,
    ensures
        target(m, md, ry, ar, address, a.node_id, a.module_id) is Some && target(m, md, ry, ar, address, a.node_id, a.module_id)
            == target(m, md, ry, ar, address, b.node_id, b.module_id) ==> a.node_id == b.node_id && a.module_id == b.module_id,
{
}

/// A node as held in a call frame's heap, with its substates encoded.
pub enum RENode {
    Bucket(Vec<u8>),
    Proof(Vec<u8>),
    AuthZone(Vec<u8>),
    Worktop(Vec<u8>),
    Global(Vec<u8>),
    Vault(Vec<u8>),
    KeyValueStore(Vec<(Vec<u8>, Vec<u8>)>),
    Component(Vec<u8>, Vec<u8>),
    Package(Vec<u8>),
    ResourceManager(Vec<u8>),
    NonFungibleStore(Vec<(NonFungibleLocalId, Vec<u8>)>),
    System(Vec<u8>),
}

/// Where a substate sits within its node.
pub enum SubstateOffset {
    Global,
    Vault,
    KeyValueStoreEntry(Vec<u8>),
    ComponentInfo,
    ComponentState,
    Package,
    ResourceManager,
    NonFungibleStoreEntry(NonFungibleLocalId),
    System,
}

/// Whether a node may be stored: transient containers never are.
pub open spec fn storable(node: RENode) -> bool {
    !(node is Bucket || node is Proof || node is AuthZone || node is Worktop)
}

/// The substates of a node that is stored: one per offset, as the node holds them.
pub fn node_to_substates(node: RENode) -> (r: Vec<(SubstateOffset, Vec<u8>)>)
    requires
        storable(node),
    ensures
        match node {
            RENode::Global(g) => r@.len() == 1 && r@[0].0 is Global && r@[0].1 == g,
            RENode::Vault(v) => r@.len() == 1 && r@[0].0 is Vault && r@[0].1 == v,
            RENode::Package(p) => r@.len() == 1 && r@[0].0 is Package && r@[0].1 == p,
            RENode::ResourceManager(m) => r@.len() == 1 && r@[0].0 is ResourceManager && r@[0].1 == m,
            RENode::System(x) => r@.len() == 1 && r@[0].0 is System && r@[0].1 == x,
            RENode::Component(info, state) => r@.len() == 2 && r@[0].0 is ComponentInfo && r@[0].1 == info
                && r@[1].0 is ComponentState && r@[1].1 == state,
            RENode::KeyValueStore(es) => r@.len() == es@.len() && forall|i: int| 0 <= i < es@.len() ==> (
                #[trigger] r@[i]).0 == SubstateOffset::KeyValueStoreEntry(es@[i].0) && r@[i].1 == es@[i].1,
            RENode::NonFungibleStore(es) => r@.len() == es@.len() && forall|i: int| 0 <= i < es@.len() ==> (
                #[trigger] r@[i]).0 == SubstateOffset::NonFungibleStoreEntry(es@[i].0) && r@[i].1 == es@[i].1,
            _ => false,
        },
{
    let mut substates: Vec<(SubstateOffset, Vec<u8>)> = Vec::new();
    match node {
        RENode::Global(g) => substates.push((SubstateOffset::Global, g)),
        RENode::Vault(v) => substates.push((SubstateOffset::Vault, v)),
        RENode::Package(p) => substates.push((SubstateOffset::Package, p)),
        RENode::ResourceManager(m) => substates.push((SubstateOffset::ResourceManager, m)),
        RENode::System(x) => substates.push((SubstateOffset::System, x)),
        RENode::Component(info, state) => {
            substates.push((SubstateOffset::ComponentInfo, info));
            substates.push((SubstateOffset::ComponentState, state));
        },
        RENode::KeyValueStore(entries) => {
            let ghost es = entries@;
            let mut rest = entries;
            proof {
                assert(rest@ =~= es.skip(0));
            }
            while rest.len() > 0
                invariant
                    substates@.len() <= es.len(),
                    rest@ == es.skip(substates@.len() as int),
                    forall|i: int| 0 <= i < substates@.len() ==> (#[trigger] substates@[i]).0
                        == SubstateOffset::KeyValueStoreEntry(es[i].0) && substates@[i].1 == es[i].1,
                decreases rest@.len(),
            {
                let ghost k = substates@.len();
                let (key, value) = rest.remove(0);
                proof {
                    assert(rest@ =~= es.skip(k as int + 1));
                }
                substates.push((SubstateOffset::KeyValueStoreEntry(key), value));
            }
        },
        RENode::NonFungibleStore(entries) => {
            let ghost es = entries@;
            let mut rest = entries;
            proof {
                assert(rest@ =~= es.skip(0));
            }
            while rest.len() > 0
                invariant
                    substates@.len() <= es.len(),
                    rest@ == es.skip(substates@.len() as int),
                    forall|i: int| 0 <= i < substates@.len() ==> (#[trigger] substates@[i]).0
                        == SubstateOffset::NonFungibleStoreEntry(es[i].0) && substates@[i].1 == es[i].1,
                decreases rest@.len(),
            {
                let ghost k = substates@.len();
                let (id, value) = rest.remove(0);
                proof {
                    assert(rest@ =~= es.skip(k as int + 1));
                }
                substates.push((SubstateOffset::NonFungibleStoreEntry(id), value));
            }
        },
        _ => {},
    }
    substates
}

} // verus!
