use ledger_engine::auth::{
    check_access_rule, AccessRule, AccessRuleNode, AuthZone, AuthZoneError, Proof, ProofRule,
};
use ledger_engine::auth_module::{Actor, AuthError, AuthModule, AuthZoneStack};
use ledger_engine::resource_manager::{MethodAuthorization, Mutability, ResourceManagerMethod, ResourceManagerSubstate, ResourceMethodAuthKey, ResourceType};
use ledger_engine::entity_type::EntityType;
use ledger_engine::non_fungible_bucket::NonFungibleLocalId;
use ledger_engine::roles::{OwnerRole, RoleEntry};
use ledger_engine::types::{Decimal, NodeId};

fn badge() -> NodeId {
    NodeId::new(EntityType::GlobalNonFungibleResource, 0, 11)
}

fn token() -> NodeId {
    NodeId::new(EntityType::GlobalFungibleResource, 0, 12)
}

fn proof_of(res: NodeId, units: i64, ids: Vec<u64>) -> Proof {
    Proof {
        resource_address: res,
        amount: Decimal::from_units(units),
        ids: ids.into_iter().map(|v| NonFungibleLocalId { value: v }).collect(),
    }
}

#[test]
fn allow_and_deny_all() {
    let zone: Vec<Proof> = vec![];
    assert!(check_access_rule(&AccessRule::AllowAll, &zone));
    assert!(!check_access_rule(&AccessRule::DenyAll, &zone));
    assert!(!check_access_rule(&AccessRule::Protected(vec![]), &zone));
}

#[test]
fn rule_tree_evaluation() {
    // any of (badge #1, 10 tokens)
    let rule = AccessRule::Protected(vec![
        AccessRuleNode::ProofRule(ProofRule::RequireNonFungible(badge(), NonFungibleLocalId { value: 1 })),
        AccessRuleNode::ProofRule(ProofRule::AmountOf(Decimal::from_units(10), token())),
        AccessRuleNode::AnyOf(vec![0, 1]),
    ]);
    assert!(!check_access_rule(&rule, &vec![]));
    assert!(check_access_rule(&rule, &vec![proof_of(badge(), 1, vec![1])]));
    assert!(!check_access_rule(&rule, &vec![proof_of(badge(), 1, vec![2])]));
    assert!(!check_access_rule(&rule, &vec![proof_of(token(), 9, vec![])]));
    assert!(check_access_rule(&rule, &vec![proof_of(token(), 6, vec![]), proof_of(token(), 4, vec![])]));

    let all = AccessRule::Protected(vec![
        AccessRuleNode::ProofRule(ProofRule::Require(badge())),
        AccessRuleNode::ProofRule(ProofRule::Require(token())),
        AccessRuleNode::AllOf(vec![0, 1]),
    ]);
    assert!(!check_access_rule(&all, &vec![proof_of(badge(), 1, vec![3])]));
    assert!(check_access_rule(&all, &vec![proof_of(badge(), 1, vec![3]), proof_of(token(), 1, vec![])]));

    let two_of = AccessRule::Protected(vec![
        AccessRuleNode::ProofRule(ProofRule::Require(badge())),
        AccessRuleNode::ProofRule(ProofRule::Require(token())),
        AccessRuleNode::ProofRule(ProofRule::AmountOf(Decimal::from_units(5), token())),
        AccessRuleNode::CountOf(2, vec![0, 1, 2]),
    ]);
    assert!(!check_access_rule(&two_of, &vec![proof_of(token(), 1, vec![])]));
    assert!(check_access_rule(&two_of, &vec![proof_of(token(), 5, vec![])]));
}

#[test]
fn auth_zone_push_pop_and_proofs() {
    let mut zone = AuthZone::new();
    assert_eq!(zone.pop().err(), Some(AuthZoneError::EmptyAuthZone));
    zone.push(proof_of(token(), 3, vec![]));
    zone.push(proof_of(token(), 4, vec![]));
    zone.push(proof_of(badge(), 1, vec![8]));
    assert_eq!(zone.create_proof(token()).unwrap().amount, Decimal::from_units(7));
    assert!(zone.create_proof_by_amount(Decimal::from_units(7), token()).is_ok());
    assert_eq!(
        zone.create_proof_by_amount(Decimal::from_units(8), token()).err(),
        Some(AuthZoneError::InsufficientBalance)
    );
    let nf = NonFungibleLocalId { value: 8 };
    assert_eq!(zone.create_proof_by_ids(&vec![nf], badge()).unwrap().ids, vec![nf]);
    assert_eq!(
        zone.create_proof_by_ids(&vec![NonFungibleLocalId { value: 9 }], badge()).err(),
        Some(AuthZoneError::NonFungibleNotFound(NonFungibleLocalId { value: 9 }))
    );
    let last = zone.pop().unwrap();
    assert_eq!(last.resource_address, badge());
    assert_eq!(zone.proofs.len(), 2);
}

#[test]
fn auth_module_frames_and_badges() {
    assert_eq!(AuthModule::supervisor_id().value, 0);
    assert_eq!(AuthModule::system_id().value, 1);
    assert_eq!(AuthModule::system_role_non_fungible_address().local_id.value, 1);
    assert_eq!(AuthModule::validator_role_non_fungible_address().local_id.value, 0);
    let mut stack = AuthZoneStack { zones: vec![] };
    AuthModule::on_frame_start(&mut stack, false);
    AuthModule::on_frame_start(&mut stack, true);
    assert_eq!(stack.zones.len(), 1);
    AuthModule::on_frame_end(&mut stack, true).unwrap();
    assert_eq!(stack.zones.len(), 1);
    AuthModule::on_frame_end(&mut stack, false).unwrap();
    assert!(stack.zones.is_empty());
}

#[test]
fn owner_role_entries() {
    let e = OwnerRole::Updateable(AccessRule::AllowAll).to_role_entry("_owner_".to_string());
    assert_eq!(e.mutable.list, vec!["_owner_".to_string()]);
    let f = OwnerRole::Unowned.to_role_entry("_owner_".to_string());
    assert!(matches!(f.rule, AccessRule::DenyAll));
    assert!(f.mutable.list.is_empty());
    assert!(matches!(RoleEntry::disabled().rule, AccessRule::DenyAll));
}

#[test]
fn frame_start_checks_the_callers_zone() {
    use_frame_start_scenario();
}

fn use_frame_start_scenario() {
    let minter = NodeId::new(EntityType::GlobalNonFungibleResource, 0, 31);
    let rule = AccessRule::Protected(vec![AccessRuleNode::ProofRule(ProofRule::Require(minter))]);
    let manager = ResourceManagerSubstate::new(
        ResourceType::Fungible { divisibility: 18 },
        vec![],
        vec![(ResourceMethodAuthKey::Mint, rule, Mutability::Locked)],
        None,
    )
    .unwrap();
    let open = MethodAuthorization::Rule(AccessRule::AllowAll);
    let mut stack = AuthZoneStack { zones: vec![AuthZone::new()] };
    assert_eq!(
        AuthModule::on_before_frame_start(&mut stack, Actor::ResourceManagerMethod(ResourceManagerMethod::Mint), &manager, &open),
        Err(AuthError::Unauthorized)
    );
    assert_eq!(stack.zones.len(), 1);
    AuthModule::on_before_frame_start(&mut stack, Actor::Function, &manager, &open).unwrap();
    assert_eq!(stack.zones.len(), 2);
    stack.zones[1].push(proof_of(minter, 1, vec![1]));
    AuthModule::on_before_frame_start(&mut stack, Actor::ResourceManagerMethod(ResourceManagerMethod::Mint), &manager, &open)
        .unwrap();
    assert_eq!(stack.zones.len(), 3);
    AuthModule::on_before_frame_start(&mut stack, Actor::AuthZoneMethod, &manager, &open).unwrap();
    assert_eq!(stack.zones.len(), 3);
    assert_eq!(
        AuthModule::on_before_frame_start(&mut stack, Actor::EpochManagerFunction, &manager, &open),
        Err(AuthError::Unauthorized)
    );
    let closed = MethodAuthorization::Rule(AccessRule::DenyAll);
    assert_eq!(
        AuthModule::on_before_frame_start(&mut stack, Actor::ComponentMethod, &manager, &closed),
        Err(AuthError::Unauthorized)
    );
    let badge = AuthModule::system_role_non_fungible_address();
    stack.zones[2].push(proof_of(badge.resource_address, 1, vec![1]));
    AuthModule::on_before_frame_start(&mut stack, Actor::EpochManagerFunction, &manager, &open).unwrap();
    assert_eq!(stack.zones.len(), 4);
}

#[test]
fn owner_badge_rules() {
    let owner = ledger_engine::auth_module::NonFungibleGlobalId {
        resource_address: badge(),
        local_id: NonFungibleLocalId { value: 4 },
    };
    let rules = ledger_engine::roles::resource_access_rules_from_owner_badge(&owner);
    assert_eq!(rules.len(), 6);
    assert!(matches!(rules[2].1, AccessRule::DenyAll));
    let holder = vec![proof_of(badge(), 1, vec![4])];
    assert!(check_access_rule(&rules[5].1, &holder));
    assert!(!check_access_rule(&rules[5].1, &vec![]));
    assert!(check_access_rule(&rules[0].2, &holder));
}
