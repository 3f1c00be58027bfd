use ledger_engine::auth::{AccessRule, AccessRuleNode, Proof, ProofRule};
use ledger_engine::entity_type::EntityType;
use ledger_engine::non_fungible_bucket::NonFungibleLocalId;
use ledger_engine::resource_manager::{
    MintParams, MintedResource,
    MethodAuthorization, Mutability, NonFungible, ResourceManagerError, ResourceManagerMethod,
    ResourceManagerSubstate, ResourceMethodAuthKey, ResourceType, VaultMethod, BucketMethod,
};
use ledger_engine::types::{Decimal, NodeId};

fn address() -> NodeId {
    NodeId::new(EntityType::GlobalFungibleResource, 0, 21)
}

fn minter_badge() -> NodeId {
    NodeId::new(EntityType::GlobalNonFungibleResource, 0, 22)
}

fn fungible(divisibility: u8) -> ResourceManagerSubstate {
    let mint_rule = AccessRule::Protected(vec![AccessRuleNode::ProofRule(ProofRule::Require(minter_badge()))]);
    ResourceManagerSubstate::new(
        ResourceType::Fungible { divisibility },
        vec![],
        vec![
            (ResourceMethodAuthKey::Mint, AccessRule::DenyAll, Mutability::Locked),
            (ResourceMethodAuthKey::Mint, mint_rule, Mutability::Locked),
            (ResourceMethodAuthKey::Burn, AccessRule::AllowAll, Mutability::Locked),
        ],
        None,
    )
    .unwrap()
}

fn nft(v: u64) -> (NonFungibleLocalId, NonFungible) {
    (NonFungibleLocalId { value: v }, NonFungible { immutable_data: vec![1], mutable_data: vec![] })
}

#[test]
fn too_many_decimal_places_refuses_every_amount() {
    let mut m = ResourceManagerSubstate::new(ResourceType::Fungible { divisibility: 19 }, vec![], vec![], None).unwrap();
    assert_eq!(
        m.check_amount(Decimal::from_units(1)),
        Err(ResourceManagerError::InvalidAmount(Decimal::from_units(1), 19))
    );
    assert_eq!(
        m.mint_fungible(Decimal::from_units(1), address()),
        Err(ResourceManagerError::InvalidAmount(Decimal::from_units(1), 19))
    );
}

#[test]
fn create_fungible_and_mint() {
    let mut m = fungible(18);
    let minted = m.mint_fungible(Decimal::from_units(1), address()).unwrap();
    assert_eq!(minted.amount, Decimal::from_units(1));
    assert_eq!(minted.divisibility, 18);
    assert_eq!(m.total_supply, Decimal::from_units(1));
}

#[test]
fn mint_and_burn_keep_supply() {
    let mut m = fungible(18);
    m.mint_fungible(Decimal::from_units(30), address()).unwrap();
    m.burn(Decimal::from_units(10)).unwrap();
    m.mint_fungible(Decimal::from_units(5), address()).unwrap();
    assert_eq!(m.total_supply, Decimal::from_units(25));
}

#[test]
fn check_amount_follows_divisibility() {
    let m = fungible(2);
    assert!(m.check_amount(Decimal::from_attos(10_000_000_000_000_000)).is_ok());
    assert_eq!(
        m.check_amount(Decimal::from_attos(1_000_000_000_000_000)),
        Err(ResourceManagerError::InvalidAmount(Decimal::from_attos(1_000_000_000_000_000), 2))
    );
    assert!(m.check_amount(Decimal::from_units(-1)).is_err());
}

#[test]
fn mint_errors() {
    let mut m = fungible(18);
    assert_eq!(
        m.mint_fungible(Decimal::from_attos(i128::MAX / 10), address()),
        Err(ResourceManagerError::MaxMintAmountExceeded)
    );
    assert_eq!(
        m.mint_non_fungibles(vec![nft(1)], address()).err(),
        Some(ResourceManagerError::ResourceTypeDoesNotMatch)
    );
    let mut n = ResourceManagerSubstate::new(ResourceType::NonFungible, vec![], vec![], None).unwrap();
    assert_eq!(
        n.mint_fungible(Decimal::from_units(1), address()),
        Err(ResourceManagerError::ResourceTypeDoesNotMatch)
    );
    let mut big = fungible(18);
    big.total_supply = Decimal::from_attos(i128::MAX - 1);
    assert_eq!(big.mint_fungible(Decimal::from_units(1), address()), Err(ResourceManagerError::TotalSupplyOverflow));
}

#[test]
fn non_fungible_ids_stay_unique() {
    let mut n = ResourceManagerSubstate::new(ResourceType::NonFungible, vec![], vec![], None).unwrap();
    let (ids, _) = n.mint_non_fungibles(vec![nft(1), nft(2)], address()).unwrap();
    assert_eq!(ids, vec![NonFungibleLocalId { value: 1 }, NonFungibleLocalId { value: 2 }]);
    assert_eq!(n.total_supply, Decimal::from_units(2));
    assert_eq!(
        n.mint_non_fungibles(vec![nft(2)], address()).err(),
        Some(ResourceManagerError::NonFungibleAlreadyExists(NonFungibleLocalId { value: 2 }))
    );
    assert_eq!(
        n.mint_non_fungibles(vec![nft(5), nft(5)], address()).err(),
        Some(ResourceManagerError::NonFungibleAlreadyExists(NonFungibleLocalId { value: 5 }))
    );
    assert_eq!(
        n.burn_non_fungibles(&vec![NonFungibleLocalId { value: 3 }]),
        Err(ResourceManagerError::NonFungibleNotFound(NonFungibleLocalId { value: 3 }))
    );
    n.burn_non_fungibles(&vec![NonFungibleLocalId { value: 1 }]).unwrap();
    assert_eq!(n.live_ids, vec![NonFungibleLocalId { value: 2 }]);
    assert_eq!(n.total_supply, Decimal::from_units(1));
}

#[test]
fn method_auth_lookup_and_check() {
    let m = fungible(18);
    let badge_proof = Proof { resource_address: minter_badge(), amount: Decimal::from_units(1), ids: vec![] };
    assert!(!m.authorize(ResourceManagerMethod::Mint, &vec![]));
    assert!(m.authorize(ResourceManagerMethod::Mint, &vec![badge_proof]));
    assert!(m.authorize(ResourceManagerMethod::Burn, &vec![]));
    assert!(!m.authorize(ResourceManagerMethod::UpdateMetadata, &vec![]));
    assert!(m.authorize(ResourceManagerMethod::GetTotalSupply, &vec![]));
    assert!(!m.authorize(ResourceManagerMethod::UpdateAuth(ResourceMethodAuthKey::Mint), &vec![]));
    assert!(matches!(m.get_vault_auth(VaultMethod::Take), MethodAuthorization::Rule(AccessRule::AllowAll)));
    assert!(matches!(m.get_bucket_auth(BucketMethod::Put), MethodAuthorization::Unsupported));
}

#[test]
fn resource_address_is_set_once() {
    let mut m = fungible(18);
    m.set_resource_address(address()).unwrap();
    assert_eq!(m.set_resource_address(address()), Err(ResourceManagerError::ResourceAddressAlreadySet));
    m.update_metadata(vec![("name".to_string(), "Token".to_string())]).unwrap();
    assert_eq!(m.metadata.len(), 1);
}

#[test]
fn mint_dispatches_on_params() {
    let mut m = fungible(18);
    match m.mint(MintParams::Fungible { amount: Decimal::from_units(3) }, address()).unwrap() {
        MintedResource::Fungible(r) => assert_eq!(r.amount, Decimal::from_units(3)),
        MintedResource::NonFungible(..) => panic!("expected a fungible mint"),
    }
    assert!(m.mint(MintParams::NonFungible { entries: vec![nft(1)] }, address()).is_err());
    let mut n = ResourceManagerSubstate::new(ResourceType::NonFungible, vec![], vec![], None).unwrap();
    match n.mint(MintParams::NonFungible { entries: vec![nft(8)] }, address()).unwrap() {
        MintedResource::NonFungible(ids, _) => assert_eq!(ids, vec![NonFungibleLocalId { value: 8 }]),
        MintedResource::Fungible(_) => panic!("expected a non-fungible mint"),
    }
}
