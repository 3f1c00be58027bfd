use ledger_engine::entity_type::EntityType;
use ledger_engine::types::{Decimal, NodeId};

#[test]
fn entity_type_tags_round_trip() {
    let all = [
        EntityType::GlobalPackage,
        EntityType::GlobalFungibleResource,
        EntityType::InternalFungibleVault,
        EntityType::InternalSortedIndex,
        EntityType::GlobalVirtualEd25519Account,
    ];
    for t in all {
        assert_eq!(EntityType::from_repr(t.to_byte()), Some(t));
    }
    assert_eq!(EntityType::GlobalPackage.to_byte(), 0b00001101);
    assert_eq!(EntityType::from_repr(0), None);
}

#[test]
fn entity_type_classification() {
    assert!(EntityType::GlobalAccount.is_global());
    assert!(EntityType::GlobalAccount.is_global_component());
    assert!(!EntityType::GlobalPackage.is_global_component());
    assert!(EntityType::GlobalPackage.is_global_package());
    assert!(EntityType::GlobalNonFungibleResource.is_global_resource());
    assert!(!EntityType::GlobalNonFungibleResource.is_global_fungible_resource());
    assert!(EntityType::GlobalVirtualSecp256k1Identity.is_global_virtual());
    assert!(EntityType::InternalKeyValueStore.is_internal());
    assert!(EntityType::InternalKeyValueStore.is_internal_kv_store());
    assert!(EntityType::InternalNonFungibleVault.is_internal_vault());
    assert!(!EntityType::InternalNonFungibleVault.is_internal_fungible_vault());
    assert!(EntityType::InternalFungibleVault.is_internal_fungible_vault());
}

#[test]
fn node_id_carries_its_entity_type() {
    let n = NodeId::new(EntityType::InternalFungibleVault, 5, 9);
    assert_eq!(n.entity_type(), Some(EntityType::InternalFungibleVault));
    assert!(!n.is_global());
    let g = NodeId::new(EntityType::GlobalClock, 0, 1);
    assert!(g.is_global());
}

#[test]
fn decimal_arithmetic() {
    let one = Decimal::one();
    assert_eq!(one.attos, 1_000_000_000_000_000_000);
    assert_eq!(Decimal::from_units(3).safe_add(one), Some(Decimal::from_units(4)));
    assert_eq!(Decimal::from_attos(i128::MAX).safe_add(Decimal::from_attos(1)), None);
    assert_eq!(Decimal::zero().safe_sub(one), Some(Decimal::from_units(-1)));
    assert!(Decimal::from_units(-1).is_negative());
    assert!(Decimal::zero().less_than(&one));
}
