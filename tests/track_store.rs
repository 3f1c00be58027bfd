use ledger_engine::entity_type::EntityType;
use ledger_engine::memory::InMemorySubstateStore;
use ledger_engine::track::{DatabaseUpdate, LockFlags, ModuleId};
use ledger_engine::track_store::{db_key_bytes, AcquireLockError, SubstateAccessError, Track};
use ledger_engine::types::NodeId;

fn vault() -> NodeId {
    NodeId::new(EntityType::InternalFungibleVault, 0, 1)
}

fn component() -> NodeId {
    NodeId::new(EntityType::GlobalGenericComponent, 0, 2)
}

fn store_with(node: NodeId, key: &Vec<u8>, value: Vec<u8>) -> InMemorySubstateStore {
    let mut db = InMemorySubstateStore::new();
    db.put_substate(db_key_bytes(&node, ModuleId::Object, key), value);
    db
}

fn force_write() -> LockFlags {
    LockFlags { mutable: true, unmodified_base: false, force_write: true }
}

#[test]
fn reads_come_from_the_store_through_locks() {
    let key = vec![0];
    let mut track = Track::new(store_with(vault(), &key, vec![50]));
    let h = track.acquire_lock(vault(), ModuleId::Object, &key, LockFlags::read_only()).unwrap();
    assert_eq!(track.read_substate(h), &vec![50]);
    let h2 = track.acquire_lock(vault(), ModuleId::Object, &key, LockFlags::read_only()).unwrap();
    assert_eq!(h2, h + 1);
    assert_eq!(
        track.acquire_lock(vault(), ModuleId::Object, &key, LockFlags::mutable()),
        Err(AcquireLockError::SubstateLocked)
    );
    track.release_lock(h);
    track.release_lock(h2);
    assert!(track.state_updates().is_empty());
}

#[test]
fn missing_substate_and_virtualized_default() {
    let key = vec![9];
    let mut track = Track::new(InMemorySubstateStore::new());
    assert_eq!(
        track.acquire_lock(component(), ModuleId::Object, &key, LockFlags::read_only()),
        Err(AcquireLockError::NotFound)
    );
    let mut track = Track::new(InMemorySubstateStore::new());
    let h = track
        .acquire_lock_virtualize(component(), ModuleId::Object, &key, LockFlags::read_only(), Some(vec![1, 2]))
        .unwrap();
    assert_eq!(track.read_substate(h), &vec![1, 2]);
    let updates = track.state_updates();
    assert_eq!(updates.len(), 1);
    assert!(matches!(&updates[0].1, DatabaseUpdate::Put(v) if v == &vec![1, 2]));
}

#[test]
fn unmodified_base_fails_on_changed_keys() {
    let key = vec![0];
    let mut track = Track::new(store_with(vault(), &key, vec![50]));
    let h = track.acquire_lock(vault(), ModuleId::Object, &key, LockFlags::mutable()).unwrap();
    track.update_substate(h, vec![40]);
    track.release_lock(h);
    let flags = LockFlags { mutable: false, unmodified_base: true, force_write: false };
    assert_eq!(
        track.acquire_lock(vault(), ModuleId::Object, &key, flags),
        Err(AcquireLockError::LockUnmodifiedBaseOnUpdatedSubstate)
    );
    track.create_node(component(), vec![(ModuleId::Object, vec![0], vec![7])]);
    assert_eq!(
        track.acquire_lock(component(), ModuleId::Object, &vec![0], flags),
        Err(AcquireLockError::LockUnmodifiedBaseOnNewSubstate)
    );
}

#[test]
fn set_and_take_respect_locks() {
    let key = vec![3];
    let mut track = Track::new(store_with(vault(), &key, vec![1]));
    let h = track.acquire_lock(vault(), ModuleId::Object, &key, LockFlags::read_only()).unwrap();
    assert_eq!(
        track.set_substate(vault(), ModuleId::Object, key.clone(), vec![2]),
        Err(SubstateAccessError::SubstateLocked)
    );
    assert_eq!(track.take_substate(vault(), ModuleId::Object, &key), Err(SubstateAccessError::SubstateLocked));
    track.release_lock(h);
    assert_eq!(track.take_substate(vault(), ModuleId::Object, &key), Ok(Some(vec![1])));
    let updates = track.state_updates();
    assert!(matches!(updates[0].1, DatabaseUpdate::Delete));
    track.set_substate(component(), ModuleId::Metadata, vec![4], vec![5]).unwrap();
    assert_eq!(track.state_updates().len(), 2);
}

#[test]
fn lock_fee_then_failure_keeps_only_force_writes() {
    let key = vec![0];
    let mut track = Track::new(store_with(vault(), &key, vec![100]));
    // The fee is locked from the vault under a force-write lock.
    let fee = track.acquire_lock(vault(), ModuleId::Object, &key, force_write()).unwrap();
    track.update_substate(fee, vec![95]);
    track.release_lock(fee);
    // Then the transaction writes elsewhere and fails.
    track.set_substate(component(), ModuleId::Object, vec![1], vec![42]).unwrap();
    track.create_node(NodeId::new(EntityType::InternalKeyValueStore, 0, 3), vec![(ModuleId::Object, vec![0], vec![1])]);
    track.revert_non_force_write_changes();
    let updates = track.state_updates();
    assert_eq!(updates.len(), 1);
    assert_eq!(updates[0].0, db_key_bytes(&vault(), ModuleId::Object, &key));
    assert!(matches!(&updates[0].1, DatabaseUpdate::Put(v) if v == &vec![95]));
}

#[test]
fn revert_without_force_writes_leaves_nothing() {
    let key = vec![0];
    let mut track = Track::new(store_with(vault(), &key, vec![100]));
    let h = track.acquire_lock(vault(), ModuleId::Object, &key, LockFlags::mutable()).unwrap();
    track.update_substate(h, vec![1]);
    track.release_lock(h);
    track.revert_non_force_write_changes();
    assert!(track.state_updates().is_empty());
    let h = track.acquire_lock(vault(), ModuleId::Object, &key, LockFlags::read_only()).unwrap();
    assert_eq!(track.read_substate(h), &vec![100]);
}

#[test]
fn scan_lists_tracked_then_stored_values() {
    let mut db = InMemorySubstateStore::new();
    db.put_substate(db_key_bytes(&component(), ModuleId::Object, &vec![1]), vec![10]);
    db.put_substate(db_key_bytes(&component(), ModuleId::Object, &vec![2]), vec![20]);
    db.put_substate(db_key_bytes(&component(), ModuleId::Metadata, &vec![3]), vec![30]);
    db.put_substate(db_key_bytes(&component(), ModuleId::Object, &vec![2]), vec![21]);
    let mut track = Track::new(db);
    track.set_substate(component(), ModuleId::Object, vec![1], vec![11]).unwrap();
    track.set_substate(component(), ModuleId::Object, vec![5], vec![50]).unwrap();
    assert_eq!(track.scan_substates(component(), ModuleId::Object, 10), vec![vec![11], vec![50], vec![21]]);
    assert_eq!(track.scan_substates(component(), ModuleId::Object, 2), vec![vec![11], vec![50]]);
    assert_eq!(track.scan_substates(component(), ModuleId::Metadata, 10), vec![vec![30]]);
    assert!(track.scan_substates(vault(), ModuleId::Object, 10).is_empty());
}

#[test]
fn take_drains_tracked_then_stored_values() {
    let mut db = InMemorySubstateStore::new();
    db.put_substate(db_key_bytes(&vault(), ModuleId::Object, &vec![1]), vec![10]);
    db.put_substate(db_key_bytes(&vault(), ModuleId::Object, &vec![2]), vec![20]);
    let mut track = Track::new(db);
    track.set_substate(vault(), ModuleId::Object, vec![7], vec![70]).unwrap();
    assert_eq!(track.take_substates(vault(), ModuleId::Object, 2), vec![vec![70], vec![10]]);
    assert_eq!(track.scan_substates(vault(), ModuleId::Object, 10), vec![vec![20]]);
    assert_eq!(track.take_substates(vault(), ModuleId::Object, 10), vec![vec![20]]);
    assert!(track.scan_substates(vault(), ModuleId::Object, 10).is_empty());
    let deletes = track
        .state_updates()
        .into_iter()
        .filter(|(_, u)| matches!(u, DatabaseUpdate::Delete))
        .count();
    assert_eq!(deletes, 3);
}

#[test]
fn scans_raise_the_range_read_watermark() {
    let mut db = InMemorySubstateStore::new();
    db.put_substate(db_key_bytes(&vault(), ModuleId::Object, &vec![1]), vec![10]);
    db.put_substate(db_key_bytes(&component(), ModuleId::Object, &vec![1]), vec![99]);
    db.put_substate(db_key_bytes(&vault(), ModuleId::Object, &vec![2]), vec![20]);
    let mut track = Track::new(db);
    assert_eq!(track.scan_substates(vault(), ModuleId::Object, 1), vec![vec![10]]);
    assert_eq!(track.range_reads.last().map(|r| r.2), Some(1));
    assert_eq!(track.scan_substates(vault(), ModuleId::Object, 5), vec![vec![10], vec![20]]);
    assert_eq!(track.range_reads.last().map(|r| r.2), Some(3));
    assert_eq!(track.scan_substates(vault(), ModuleId::Object, 1), vec![vec![10]]);
    assert_eq!(track.range_reads.last().map(|r| r.2), Some(3));
}
