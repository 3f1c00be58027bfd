use ledger_engine::entity_type::EntityType;
use ledger_engine::non_fungible_bucket::{
    BucketError, NonFungibleBucketBlueprint, NonFungibleLocalId, ResourceError, WithdrawStrategy,
};
use ledger_engine::types::{Decimal, NodeId};

fn id(v: u64) -> NonFungibleLocalId {
    NonFungibleLocalId { value: v }
}

fn resource() -> NodeId {
    NodeId::new(EntityType::GlobalNonFungibleResource, 0, 3)
}

fn bucket_with(ids: &[u64]) -> NonFungibleBucketBlueprint {
    let mut b = NonFungibleBucketBlueprint::new(resource());
    b.put(NonFungibleBucketBlueprint::create(resource(), ids.iter().map(|v| id(*v)).collect())).unwrap();
    b
}

#[test]
fn take_takes_the_first_units() {
    let mut b = bucket_with(&[1, 2, 3]);
    let taken = b.take(Decimal::from_units(2)).unwrap();
    assert_eq!(taken, vec![id(1), id(2)]);
    assert_eq!(b.liquid, vec![id(3)]);
    assert_eq!(b.get_amount(), Decimal::from_units(1));
}

#[test]
fn take_rejects_bad_amounts() {
    let mut b = bucket_with(&[1, 2]);
    assert_eq!(b.take(Decimal::from_units(-1)), Err(BucketError::InvalidAmount));
    assert_eq!(
        b.take(Decimal::from_units(4)),
        Err(BucketError::ResourceError(ResourceError::InsufficientBalance))
    );
    assert_eq!(
        b.take(Decimal::from_units(3)),
        Err(BucketError::ResourceError(ResourceError::InsufficientBalance))
    );
    assert_eq!(b.take(Decimal::from_attos(1_500_000_000_000_000_000)), Err(BucketError::InvalidAmount));
    assert_eq!(b.liquid.len(), 2);
}

#[test]
fn take_advanced_rounds() {
    let mut b = bucket_with(&[1, 2, 3]);
    let half = Decimal::from_attos(1_500_000_000_000_000_000);
    assert_eq!(b.take_advanced(half, WithdrawStrategy::RoundDown).unwrap(), vec![id(1)]);
    assert_eq!(b.take_advanced(half, WithdrawStrategy::RoundUp).unwrap(), vec![id(2), id(3)]);
    assert!(b.liquid.is_empty());
}

#[test]
fn take_non_fungibles_by_id() {
    let mut b = bucket_with(&[1, 2, 3]);
    assert_eq!(b.take_non_fungibles(&vec![id(3), id(1)]).unwrap(), vec![id(3), id(1)]);
    assert_eq!(b.liquid, vec![id(2)]);
    assert_eq!(
        b.take_non_fungibles(&vec![id(9)]),
        Err(BucketError::ResourceError(ResourceError::NonFungibleNotFound(id(9))))
    );
}

#[test]
fn put_rejects_an_id_already_held() {
    let mut b = bucket_with(&[1]);
    assert_eq!(
        b.put(NonFungibleBucketBlueprint::create(resource(), vec![id(1)])),
        Err(BucketError::ResourceError(ResourceError::NonFungibleAlreadyExists(id(1))))
    );
    assert_eq!(b.liquid, vec![id(1)]);
    let other = NodeId::new(EntityType::GlobalNonFungibleResource, 0, 4);
    assert_eq!(
        b.put(NonFungibleBucketBlueprint::create(other, vec![id(2)])),
        Err(BucketError::ResourceError(ResourceError::MismatchingResource))
    );
    let mut locked = NonFungibleBucketBlueprint::create(resource(), vec![id(5)]);
    locked.lock_non_fungibles(&vec![id(5)]).unwrap();
    assert_eq!(b.put(locked), Err(BucketError::BucketLocked));
    b.put(NonFungibleBucketBlueprint::create(resource(), vec![id(6)])).unwrap();
    assert_eq!(b.liquid, vec![id(1), id(6)]);
}

#[test]
fn locking_moves_units_and_unlocking_returns_them() {
    let mut b = bucket_with(&[1, 2]);
    let receiver = NodeId::new(EntityType::InternalGenericComponent, 0, 4);
    let p = b.create_proof_of_non_fungibles(receiver, vec![id(1)]).unwrap();
    assert_eq!(p.ids, vec![id(1)]);
    assert_eq!(b.liquid, vec![id(2)]);
    assert!(b.contains_non_fungible(id(1)));
    b.lock_non_fungibles(&vec![id(1)]).unwrap();
    assert_eq!(b.get_amount(), Decimal::from_units(2));
    b.unlock_non_fungibles(vec![id(1)]);
    assert_eq!(b.liquid, vec![id(2)]);
    b.unlock_non_fungibles(vec![id(1)]);
    assert_eq!(b.liquid, vec![id(2), id(1)]);
    assert_eq!(
        b.lock_non_fungibles(&vec![id(7)]),
        Err(BucketError::ResourceError(ResourceError::NonFungibleNotFound(id(7))))
    );
}

#[test]
fn proof_of_all_locks_everything() {
    let mut b = bucket_with(&[4, 5]);
    let receiver = NodeId::new(EntityType::InternalGenericComponent, 0, 4);
    let p = b.create_proof_of_all(receiver).unwrap();
    assert_eq!(p.ids.len(), 2);
    assert!(b.liquid.is_empty());
    assert_eq!(b.get_non_fungible_local_ids(), vec![id(4), id(5)]);
    assert_eq!(b.get_resource_address(), NodeId::new(EntityType::GlobalNonFungibleResource, 0, 3));
}
