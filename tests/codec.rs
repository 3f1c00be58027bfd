use ledger_engine::entity_type::EntityType;
use ledger_engine::types::NodeId;

#[test]
fn node_id_bytes_round_trip() {
    let n = NodeId::new(EntityType::GlobalAccount, 0xab_cdef, u128::MAX - 5);
    let bytes = n.to_bytes();
    assert_eq!(bytes.len(), 30);
    assert_eq!(bytes[0], EntityType::GlobalAccount.to_byte());
    assert_eq!(bytes[13], 0xef);
    assert_eq!(bytes[29], 0xfa);
    assert_eq!(NodeId::from_bytes(&bytes), Some(n));
    assert_eq!(NodeId::from_bytes(&bytes[..29].to_vec()), None);
}
