use ledger_engine::config::{get_default_account, get_default_owner_badge, get_default_private_key, get_nonce, ConfigError, Configs};
use ledger_engine::entity_type::EntityType;
use ledger_engine::memory::InMemorySubstateStore;
use ledger_engine::types::NodeId;

#[test]
fn in_memory_store_keeps_last_write() {
    let mut s = InMemorySubstateStore::new();
    assert_eq!(s.get_substate(&vec![1]), None);
    s.put_substate(vec![1], vec![10]);
    s.put_substate(vec![2], vec![20]);
    s.put_substate(vec![1], vec![11]);
    assert_eq!(s.get_substate(&vec![1]), Some(&vec![11]));
    assert_eq!(s.get_substate(&vec![2]), Some(&vec![20]));
    s.set_epoch(5);
    s.increase_nonce();
    assert_eq!(s.get_epoch(), 5);
    assert_eq!(s.get_nonce(), 1);
}

#[test]
fn configs_defaults() {
    let mut c = Configs::default();
    assert_eq!(get_default_account(&c), Err(ConfigError::NoDefaultAccount));
    assert_eq!(get_default_private_key(&c), Err(ConfigError::NoDefaultPrivateKey));
    assert_eq!(get_default_owner_badge(&c), Err(ConfigError::NoDefaultOwnerBadge));
    assert_eq!(get_nonce(&c), 0);
    let acct = NodeId::new(EntityType::GlobalAccount, 0, 1);
    c.default_account = Some(acct);
    c.nonce = 4;
    assert_eq!(get_default_account(&c), Ok(acct));
    assert_eq!(get_nonce(&c), 4);
}
