use vstd::prelude::*;
use crate::auth::{AccessRule, AccessRuleNode, AuthZone, Proof, ProofRule, proofs_wf, tree_wf, zone_has_id};
use crate::resource_manager::{
    MethodAuthorization, ResourceManagerMethod, ResourceManagerSubstate, VaultMethod, authorization_admits,
    authorization_wf, is_authorized,
};
use crate::non_fungible_bucket::NonFungibleLocalId;
use crate::types::NodeId;

verus! {

/// Why a call was refused.
#[derive(Clone, Copy, Debug, PartialEq, Eq, Structural)]
pub enum AuthError {
    Unauthorized,
}

/// What a new call frame runs.
#[derive(Clone, Copy, Debug, PartialEq, Eq, Structural)]
pub enum Actor {
    /// A method of the auth zone itself, which is never checked.
    AuthZoneMethod,
    ResourceManagerMethod(ResourceManagerMethod),
    VaultMethod(VaultMethod),
    /// A method of a component, guarded by the component's own rule.
    ComponentMethod,
    /// A function of the epoch manager, open to the system role only.
    EpochManagerFunction,
    /// Any other blueprint function, open to every caller.
    Function,
}

/// One auth zone per call frame, the innermost last.
#[derive(Clone, Debug)]
pub struct AuthZoneStack {
    pub zones: Vec<AuthZone>,
}

/// A non-fungible named by its resource and local id.
#[derive(Clone, Copy, Debug, PartialEq, Eq, Structural)]
pub struct NonFungibleGlobalId {
    pub resource_address: NodeId,
    pub local_id: NonFungibleLocalId,
}

/// The resource whose non-fungibles stand for system roles.
pub fn system_token() -> (r: NodeId)
    ensures
        r == (NodeId { entity_byte: 0x9a, high: 0, low: 1 }),
{
    NodeId { entity_byte: 0x9a, high: 0, low: 1 }
}

/// The system's authorization module: system role badges and auth-zone frames.
pub struct AuthModule {}

impl AuthZoneStack {
    pub open spec fn wf(&self) -> bool {
        forall|i: int| 0 <= i < self.zones@.len() ==> (#[trigger] self.zones@[i]).wf()
    }

    /// The proofs of the innermost zone; none where there is no frame.
    pub open spec fn caller_proofs(&self) -> Seq<Proof> {
        if self.zones@.len() == 0 {
            Seq::empty()
        } else {
            self.zones@.last().proofs@
        }
    }
}

/// Whether a call by `actor` is admitted for a caller holding `proofs`: resource
/// manager and vault methods by the manager's rules, component methods by the
/// component's rule, epoch-manager functions only with the system badge.
pub open spec fn actor_admits(
    actor: Actor,
    manager: ResourceManagerSubstate,
    component_auth: MethodAuthorization,
    proofs: Seq<Proof>,
) -> bool {
    match actor {
        Actor::ResourceManagerMethod(m) => authorization_admits(manager.spec_auth(m), proofs),
        Actor::VaultMethod(v) => authorization_admits(manager.spec_vault_auth(v), proofs),
        Actor::ComponentMethod => authorization_admits(component_auth, proofs),
        Actor::EpochManagerFunction => zone_has_id(
            proofs,
            NodeId { entity_byte: 0x9a, high: 0, low: 1 },
            NonFungibleLocalId { value: 1 },
        ),
        _ => true,
    }
}

impl AuthModule {
    /// Checks a call by `actor` against the caller's auth zone and, where it is
    /// allowed, opens the callee's frame. Calls of the auth zone's own methods
    /// are neither checked nor given a frame.
    pub fn on_before_frame_start(
        stack: &mut AuthZoneStack,
        actor: Actor,
        manager: &ResourceManagerSubstate,
        component_auth: &MethodAuthorization,
    ) -> (r: Result<(), AuthError>)
        requires
            old(stack).wf(),
            manager.wf(),
            authorization_wf(*component_auth),
        ensures
            final(stack).wf(),
            actor == Actor::AuthZoneMethod ==> r is Ok && final(stack).zones@ == old(stack).zones@,
            actor != Actor::AuthZoneMethod ==> {
                if actor_admits(actor, *manager, *component_auth, old(stack).caller_proofs()) {
                    &&& r is Ok
                    &&& final(stack).zones@.len() == old(stack).zones@.len() + 1
                    &&& final(stack).zones@.drop_last() == old(stack).zones@
                    &&& final(stack).zones@.last().proofs@.len() == 0
                } else {
                    r == Err::<(), AuthError>(AuthError::Unauthorized) && final(stack).zones@ == old(stack).zones@
                }
            },
    {
        let system_nodes = vec![
            AccessRuleNode::ProofRule(ProofRule::RequireNonFungible(system_token(), Self::system_id())),
        ];
        proof {
            assert(tree_wf(system_nodes@));
        }
        let system_rule = MethodAuthorization::Rule(AccessRule::Protected(system_nodes));
        let auth = match actor {
            Actor::AuthZoneMethod => return Ok(()),
            Actor::ResourceManagerMethod(m) => manager.get_auth(m),
            Actor::VaultMethod(v) => manager.get_vault_auth(v),
            Actor::ComponentMethod => component_auth,
            Actor::EpochManagerFunction => &system_rule,
            Actor::Function => &manager.allow_all,
        };

        let n = stack.zones.len();
        let allowed = if n == 0 {
            let none: Vec<Proof> = Vec::new();
            proof {
                assert(none@ =~= Seq::<Proof>::empty());
            }
            is_authorized(auth, &none)
        } else {
            proof {
                assert(stack.zones@[n - 1].wf());
            }
            is_authorized(auth, &stack.zones[n - 1].proofs)
        };
        if !allowed {
            return Err(AuthError::Unauthorized);
        }
        let ghost z0 = stack.zones@;
        stack.zones.push(AuthZone::new());
        proof {
            assert(stack.zones@.drop_last() =~= z0);
            assert forall|i: int| 0 <= i < stack.zones@.len() implies (#[trigger] stack.zones@[i]).wf() by {
                if i < z0.len() {
                    assert(stack.zones@[i] == z0[i]);
                }
            }
        }
        Ok(())
    }

    /// The local id of the supervisor badge.
    pub fn supervisor_id() -> (r: NonFungibleLocalId)
        ensures
            r.value == 0,
    {
        NonFungibleLocalId { value: 0 }
    }

    /// The local id of the system badge.
    pub fn system_id() -> (r: NonFungibleLocalId)
        ensures
            r.value == 1,
    {
        NonFungibleLocalId { value: 1 }
    }

    /// The system role badge.
    pub fn system_role_non_fungible_address() -> (r: NonFungibleGlobalId)
        ensures
            r.resource_address == (NodeId { entity_byte: 0x9a, high: 0, low: 1 }),
            r.local_id.value == 1,
    {
        NonFungibleGlobalId { resource_address: system_token(), local_id: Self::system_id() }
    }

    /// The validator role badge.
    pub fn validator_role_non_fungible_address() -> (r: NonFungibleGlobalId)
        ensures
            r.resource_address == (NodeId { entity_byte: 0x9a, high: 0, low: 1 }),
            r.local_id.value == 0,
    {
        NonFungibleGlobalId { resource_address: system_token(), local_id: Self::supervisor_id() }
    }

    /// Opens a fresh auth zone for a new call frame, unless the callee is a method
    /// of the auth zone itself.
    pub fn on_frame_start(stack: &mut AuthZoneStack, actor_is_auth_zone: bool)
        ensures
            actor_is_auth_zone ==> final(stack).zones@ == old(stack).zones@,
            !actor_is_auth_zone ==> final(stack).zones@.len() == old(stack).zones@.len() + 1
                && final(stack).zones@.drop_last() == old(stack).zones@
                && final(stack).zones@.last().proofs@.len() == 0,
    {
        if actor_is_auth_zone {
            return;
        }
        stack.zones.push(AuthZone::new());
        proof {
            assert(stack.zones@.drop_last() =~= old(stack).zones@);
        }
    }

    /// Closes the auth zone of the ending call frame, unless the frame was a method
    /// of the auth zone itself.
    pub fn on_frame_end(stack: &mut AuthZoneStack, actor_is_auth_zone: bool) -> (r: Result<(), AuthError>)
        requires
            !actor_is_auth_zone ==> old(stack).zones@.len() > 0,
        ensures
            r is Ok,
            actor_is_auth_zone ==> final(stack).zones@ == old(stack).zones@,
            !actor_is_auth_zone ==> final(stack).zones@ == old(stack).zones@.drop_last(),
    {
        if actor_is_auth_zone {
            return Ok(());
        }
        let _ = stack.zones.pop();
        Ok(())
    }
}

} // verus!
