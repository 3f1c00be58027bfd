use ledger_engine::entity_type::EntityType;
use ledger_engine::memory::InMemorySubstateStore;
use ledger_engine::non_fungible_bucket::NonFungibleLocalId;
use ledger_engine::system::{
    access_rules_blueprint, access_rules_module_package, account_blueprint, account_package,
    check_substate_write, component_royalty_blueprint, entity_type_for, event_type_identifier,
    fungible_vault_blueprint, globalize_with_address, metadata_blueprint, metadata_module_package,
    new_object, node_to_substates, resolve_method_actor, resource_package, royalty_module_package,
    Blueprint, Emitter, EventError, ObjectModuleId, RENode, SubstateOffset, SystemError, TypeInfo,
};
use ledger_engine::track::{DatabaseUpdate, ModuleId};
use ledger_engine::track_store::Track;
use ledger_engine::types::NodeId;

fn node(low: u128) -> NodeId {
    NodeId::new(EntityType::InternalGenericComponent, 0, low)
}

fn my_package() -> NodeId {
    NodeId::new(EntityType::GlobalPackage, 0, 77)
}

fn object_with(track: &mut Track, id: NodeId, package: NodeId, name: Vec<u8>, field: Vec<u8>) {
    new_object(track, id, package, name, vec![field], 1).unwrap();
}

#[test]
fn entity_types_of_new_objects() {
    assert_eq!(entity_type_for(resource_package(), &fungible_vault_blueprint()), EntityType::InternalFungibleVault);
    assert_eq!(entity_type_for(account_package(), &account_blueprint()), EntityType::InternalAccount);
    assert_eq!(entity_type_for(my_package(), &b"Thing".to_vec()), EntityType::InternalGenericComponent);
}

#[test]
fn new_object_writes_fields_and_type_info() {
    let mut track = Track::new(InMemorySubstateStore::new());
    assert_eq!(
        new_object(&mut track, node(1), my_package(), b"Thing".to_vec(), vec![vec![1]], 2),
        Err(SystemError::WrongNumberOfSubstates)
    );
    assert_eq!(new_object(&mut track, node(1), my_package(), b"Thing".to_vec(), vec![vec![1], vec![2]], 2), Ok(node(1)));
    assert_eq!(track.scan_substates(node(1), ModuleId::Object, 10), vec![vec![1], vec![2]]);
    let info = track.scan_substates(node(1), ModuleId::TypeInfo, 10);
    assert_eq!(info[0][0], 0);
}

#[test]
fn substate_writes_follow_schema_and_ownership() {
    assert_eq!(check_substate_write(false, &vec![], true), Err(SystemError::InvalidSubstateWrite));
    assert_eq!(check_substate_write(true, &vec![node(1)], false), Err(SystemError::InvalidKeyValueStoreOwnership));
    assert_eq!(check_substate_write(true, &vec![node(1)], true), Ok(()));
    assert_eq!(check_substate_write(true, &vec![], false), Ok(()));
}

#[test]
fn events_need_a_registered_schema() {
    let events = vec![(b"Deposit".to_vec(), 3u32), (b"Withdraw".to_vec(), 7u32)];
    match event_type_identifier(Emitter::Method(node(1), ObjectModuleId::Main), &b"Withdraw".to_vec(), &events) {
        Ok((Emitter::Method(n, _), index)) => {
            assert_eq!(n, node(1));
            assert_eq!(index, 7);
        }
        _ => panic!("expected an identifier"),
    }
    assert!(matches!(
        event_type_identifier(Emitter::Method(node(1), ObjectModuleId::Main), &b"Mint".to_vec(), &events),
        Err(EventError::SchemaNotFound)
    ));
}

#[test]
fn method_actors_resolve_by_module() {
    let info = TypeInfo::Object {
        blueprint: Blueprint { package_address: my_package(), blueprint_name: b"Thing".to_vec() },
        global: true,
        outer_object: None,
    };
    let a = resolve_method_actor(node(5), ObjectModuleId::Main, info, None).unwrap();
    assert_eq!(a.global_address, Some(node(5)));
    assert_eq!(a.instance_context, Some((node(5), b"Thing".to_vec())));
    let m = resolve_method_actor(node(5), ObjectModuleId::Metadata, TypeInfo::Index, None).unwrap();
    assert_eq!(m.blueprint.package_address, metadata_module_package());
    assert_eq!(
        resolve_method_actor(node(5), ObjectModuleId::Main, TypeInfo::KeyValueStore, None).err(),
        Some(SystemError::CallMethodOnKeyValueStore)
    );
}

#[test]
fn globalize_moves_the_four_modules() {
    let mut track = Track::new(InMemorySubstateStore::new());
    object_with(&mut track, node(1), my_package(), b"Thing".to_vec(), vec![9]);
    object_with(&mut track, node(2), metadata_module_package(), metadata_blueprint(), vec![8]);
    track.set_substate(node(2), ModuleId::Virtualized, vec![4], vec![44]).unwrap();
    object_with(&mut track, node(3), royalty_module_package(), component_royalty_blueprint(), vec![7]);
    object_with(&mut track, node(4), access_rules_module_package(), access_rules_blueprint(), vec![6]);
    let bp = |p: NodeId, n: Vec<u8>| Blueprint { package_address: p, blueprint_name: n };
    let modules = vec![
        (ObjectModuleId::Main, node(1), bp(my_package(), b"Thing".to_vec())),
        (ObjectModuleId::Metadata, node(2), bp(metadata_module_package(), metadata_blueprint())),
        (ObjectModuleId::Royalty, node(3), bp(royalty_module_package(), component_royalty_blueprint())),
        (ObjectModuleId::AccessRules, node(4), bp(access_rules_module_package(), access_rules_blueprint())),
    ];
    let address = NodeId::new(EntityType::GlobalGenericComponent, 0, 100);
    assert_eq!(globalize_with_address(&mut track, &modules[..3].to_vec(), address), Err(SystemError::InvalidModuleSet));
    let mut wrong = modules.clone();
    wrong[3].2 = bp(metadata_module_package(), metadata_blueprint());
    assert_eq!(globalize_with_address(&mut track, &wrong, address), Err(SystemError::InvalidModuleType));
    globalize_with_address(&mut track, &modules, address).unwrap();
    assert_eq!(track.scan_substates(address, ModuleId::Object, 10), vec![vec![9]]);
    assert_eq!(track.scan_substates(address, ModuleId::Metadata, 10), vec![vec![44]]);
    assert_eq!(track.scan_substates(address, ModuleId::Royalty, 10), vec![vec![7]]);
    assert_eq!(track.scan_substates(address, ModuleId::AccessRules, 10), vec![vec![6]]);
    assert_eq!(track.scan_substates(address, ModuleId::TypeInfo, 10)[0][0], 1);
    assert!(track.scan_substates(node(1), ModuleId::Object, 10).is_empty());
    assert_eq!(globalize_with_address(&mut track, &modules, NodeId::new(EntityType::GlobalGenericComponent, 0, 101)), Err(SystemError::CannotGlobalize));
    let sys = track.system_updates();
    assert!(sys.iter().all(|(n, _, _, u)| *n == address && matches!(u, DatabaseUpdate::Put(_))));
}

#[test]
fn stored_nodes_give_one_substate_per_offset() {
    let c = node_to_substates(RENode::Component(vec![1], vec![2]));
    assert_eq!(c.len(), 2);
    assert!(matches!(c[0].0, SubstateOffset::ComponentInfo));
    let kv = node_to_substates(RENode::KeyValueStore(vec![(vec![1], vec![10]), (vec![2], vec![20])]));
    assert_eq!(kv.len(), 2);
    assert!(matches!(&kv[1].0, SubstateOffset::KeyValueStoreEntry(k) if k == &vec![2]));
    assert_eq!(kv[1].1, vec![20]);
    let nf = node_to_substates(RENode::NonFungibleStore(vec![(NonFungibleLocalId { value: 3 }, vec![30])]));
    assert!(matches!(nf[0].0, SubstateOffset::NonFungibleStoreEntry(NonFungibleLocalId { value: 3 })));
}
