use ledger_engine::track::{
    DatabaseUpdate, LockFlags, ReadOnly, RuntimeSubstate, SubstateLockState, TrackedKey,
    Write,
};

fn value(k: &TrackedKey) -> Option<Vec<u8>> {
    k.get().cloned()
}

#[test]
fn lock_state_readers_and_writer() {
    let mut s = SubstateLockState::no_lock();
    assert!(!s.is_locked());
    s.try_lock(LockFlags::read_only()).unwrap();
    s.try_lock(LockFlags::read_only()).unwrap();
    assert_eq!(s, SubstateLockState::Read(2));
    assert!(s.try_lock(LockFlags::mutable()).is_err());
    s.unlock();
    s.unlock();
    s.try_lock(LockFlags::mutable()).unwrap();
    assert_eq!(s, SubstateLockState::Write);
    assert!(s.try_lock(LockFlags::read_only()).is_err());
    s.unlock();
    assert!(!s.is_locked());
}

#[test]
fn set_on_read_existent_keeps_base_and_lock() {
    let mut rs = RuntimeSubstate::new(vec![1]);
    rs.lock_state = SubstateLockState::Read(1);
    let mut k = TrackedKey::ReadOnly(ReadOnly::Existent(rs));
    k.set(vec![2]);
    assert_eq!(value(&k), Some(vec![2]));
    match &k {
        TrackedKey::ReadExistAndWrite(base, Write::Update(s)) => {
            assert_eq!(base, &vec![1]);
            assert_eq!(s.lock_state, SubstateLockState::Read(1));
        }
        _ => panic!("unexpected state"),
    }
    k.revert_writes();
    assert_eq!(value(&k), Some(vec![1]));
    assert!(k.database_update().is_none());
}

#[test]
fn take_and_database_updates() {
    let mut k = TrackedKey::ReadOnly(ReadOnly::Existent(RuntimeSubstate::new(vec![7])));
    assert_eq!(k.take(), Some(vec![7]));
    assert!(matches!(k.database_update(), Some(DatabaseUpdate::Delete)));
    let mut n = TrackedKey::New(RuntimeSubstate::new(vec![3]));
    assert!(matches!(n.database_update(), Some(DatabaseUpdate::Put(v)) if v == vec![3]));
    assert_eq!(n.take(), Some(vec![3]));
    assert!(matches!(n, TrackedKey::Garbage));
    assert!(n.database_update().is_none());
    let mut g = TrackedKey::Garbage;
    g.set(vec![9]);
    assert!(matches!(g.database_update(), Some(DatabaseUpdate::Put(v)) if v == vec![9]));
    let mut ne = TrackedKey::ReadOnly(ReadOnly::NonExistent);
    ne.set(vec![4]);
    assert!(matches!(ne, TrackedKey::ReadNonExistAndWrite(_)));
    assert_eq!(ne.into_value(), Some(vec![4]));
}

