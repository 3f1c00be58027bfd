use vstd::prelude::*;
use crate::auth::{AccessRule, AccessRuleNode, ProofRule};
use crate::auth_module::NonFungibleGlobalId;
use crate::resource_manager::ResourceMethodAuthKey;

verus! {

/// A module that may be attached to a component besides its own state.
#[derive(Clone, Copy, Debug, PartialEq, Eq, Structural)]
pub enum AttachedModule {
    Metadata,
    Royalty,
}

/// The roles allowed to change a role's rule.
#[derive(Clone, Debug)]
pub struct RoleList {
    pub list: Vec<String>,
}

impl RoleList {
    pub fn none() -> (r: RoleList)
        ensures
            r.list@.len() == 0,
    {
        RoleList { list: Vec::new() }
    }
}

/// A role's rule, who may change it, and whether that list may change.
#[derive(Clone, Debug)]
pub struct RoleEntry {
    pub rule: AccessRule,
    pub mutable: RoleList,
    pub mutable_mutable: bool,
}

impl RoleEntry {
    /// A rule that nobody may change.
    pub fn immutable(rule: AccessRule) -> (r: RoleEntry)
        ensures
            r.rule == rule,
            r.mutable.list@.len() == 0,
            !r.mutable_mutable,
    {
        RoleEntry { rule, mutable: RoleList::none(), mutable_mutable: false }
    }

    /// A role that admits nobody, for good.
    pub fn disabled() -> (r: RoleEntry)
        ensures
            r.rule == AccessRule::DenyAll,
            r.mutable.list@.len() == 0,
            !r.mutable_mutable,
    {
        Self::immutable(AccessRule::DenyAll)
    }
}

/// Who owns a component.
#[derive(Clone, Debug)]
pub enum OwnerRole {
    Unowned,
    Fixed(AccessRule),
    Updateable(AccessRule),
}

impl OwnerRole {
    /// The entry of the owner role: a fixed rule stays; an updateable one may be
    /// changed by the owner role itself; no owner admits nobody.
    pub fn to_role_entry(self, owner_role_name: String) -> (r: RoleEntry)
        ensures
            match self {
                OwnerRole::Fixed(rule) => r.rule == rule && r.mutable.list@.len() == 0,
                OwnerRole::Updateable(rule) => r.rule == rule && r.mutable.list@ == seq![owner_role_name],
                OwnerRole::Unowned => r.rule == AccessRule::DenyAll && r.mutable.list@.len() == 0,
            },
            !r.mutable_mutable,
    {
        match self {
            OwnerRole::Fixed(rule) => RoleEntry::immutable(rule),
            OwnerRole::Updateable(rule) => {
                let mut list: Vec<String> = Vec::new();
                list.push(owner_role_name);
                proof {
                    assert(list@ =~= seq![owner_role_name]);
                }
                RoleEntry { rule, mutable: RoleList { list }, mutable_mutable: false }
            },
            OwnerRole::Unowned => RoleEntry::immutable(AccessRule::DenyAll),
        }
    }
}

/// Whether `rule` requires a proof of exactly the non-fungible `badge`.
pub open spec fn requires_badge(rule: AccessRule, badge: NonFungibleGlobalId) -> bool {
    rule matches AccessRule::Protected(nodes) && nodes@ == seq![
        AccessRuleNode::ProofRule(ProofRule::RequireNonFungible(badge.resource_address, badge.local_id)),
    ]
}

fn badge_rule(badge: NonFungibleGlobalId) -> (r: AccessRule)
    ensures
        requires_badge(r, badge),
{
    let nodes = vec![AccessRuleNode::ProofRule(ProofRule::RequireNonFungible(badge.resource_address, badge.local_id))];
    proof {
        assert(nodes@ =~= seq![AccessRuleNode::ProofRule(ProofRule::RequireNonFungible(badge.resource_address, badge.local_id))]);
    }
    AccessRule::Protected(nodes)
}

/// The rules of a resource owned by `owner_badge`, each with the rule for changing
/// it: withdraw and deposit open to all, mint and burn closed, metadata and
/// non-fungible data updates for the owner; every rule may be changed by the owner.
pub fn resource_access_rules_from_owner_badge(owner_badge: &NonFungibleGlobalId) -> (r: Vec<(ResourceMethodAuthKey, AccessRule, AccessRule)>)
    ensures
        r@.len() == 6,
        r@[0].0 == ResourceMethodAuthKey::Withdraw && r@[0].1 == AccessRule::AllowAll,
        r@[1].0 == ResourceMethodAuthKey::Deposit && r@[1].1 == AccessRule::AllowAll,
        r@[2].0 == ResourceMethodAuthKey::Mint && r@[2].1 == AccessRule::DenyAll,
        r@[3].0 == ResourceMethodAuthKey::Burn && r@[3].1 == AccessRule::DenyAll,
        r@[4].0 == ResourceMethodAuthKey::UpdateNonFungibleData && requires_badge(r@[4].1, *owner_badge),
        r@[5].0 == ResourceMethodAuthKey::UpdateMetadata && requires_badge(r@[5].1, *owner_badge),
        forall|i: int| 0 <= i < 6 ==> requires_badge((#[trigger] r@[i]).2, *owner_badge),
{
    let b = *owner_badge;
    let mut r: Vec<(ResourceMethodAuthKey, AccessRule, AccessRule)> = Vec::new();
    r.push((ResourceMethodAuthKey::Withdraw, AccessRule::AllowAll, badge_rule(b)));
    r.push((ResourceMethodAuthKey::Deposit, AccessRule::AllowAll, badge_rule(b)));
    r.push((ResourceMethodAuthKey::Mint, AccessRule::DenyAll, badge_rule(b)));
    r.push((ResourceMethodAuthKey::Burn, AccessRule::DenyAll, badge_rule(b)));
    r.push((ResourceMethodAuthKey::UpdateNonFungibleData, badge_rule(b), badge_rule(b)));
    r.push((ResourceMethodAuthKey::UpdateMetadata, badge_rule(b), badge_rule(b)));
    r
}

} // verus!
