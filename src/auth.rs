use vstd::prelude::*;
use crate::non_fungible_bucket::NonFungibleLocalId;
use crate::types::{Decimal, NodeId};

verus! {

/// Evidence that the caller holds some of a resource.
#[derive(Clone, Debug)]
pub struct Proof {
    pub resource_address: NodeId,
    /// The amount proven; never negative.
    pub amount: Decimal,
    /// The non-fungible ids proven, for a non-fungible resource.
    pub ids: Vec<NonFungibleLocalId>,
}

/// A condition on the proofs in an auth zone.
#[derive(Clone, Copy, Debug, PartialEq, Eq, Structural)]
pub enum ProofRule {
    /// Some proof of the resource.
    Require(NodeId),
    /// A proof of one non-fungible of the resource.
    RequireNonFungible(NodeId, NonFungibleLocalId),
    /// Proofs of at least the amount of the resource, together.
    AmountOf(Decimal, NodeId),
}

/// One node of an access-rule tree. Children are named by their position in the
/// tree's node list, which is always before the node's own.
#[derive(Clone, Debug)]
pub enum AccessRuleNode {
    ProofRule(ProofRule),
    AnyOf(Vec<usize>),
    AllOf(Vec<usize>),
    CountOf(usize, Vec<usize>),
}

/// An access rule: allow everyone, nobody, or those whose auth zone meets the
/// rule tree whose root is the last node.
#[derive(Clone, Debug)]
pub enum AccessRule {
    AllowAll,
    DenyAll,
    Protected(Vec<AccessRuleNode>),
}

#[derive(Clone, Copy, Debug, PartialEq, Eq, Structural)]
pub enum AuthZoneError {
    EmptyAuthZone,
    InsufficientBalance,
    NonFungibleNotFound(NonFungibleLocalId),
    AmountOverflow,
}

/// Total amount proven of `res` by `proofs`.
pub open spec fn zone_amount(proofs: Seq<Proof>, res: NodeId) -> int
    decreases proofs.len(),
{
    if proofs.len() == 0 {
        0
    } else {
        zone_amount(proofs.drop_last(), res) + if proofs.last().resource_address == res {
            proofs.last().amount@
        } else {
            0
        }
    }
}

pub open spec fn zone_has_resource(proofs: Seq<Proof>, res: NodeId) -> bool {
    exists|i: int| 0 <= i < proofs.len() && (#[trigger] proofs[i]).resource_address == res
}

pub open spec fn zone_has_id(proofs: Seq<Proof>, res: NodeId, id: NonFungibleLocalId) -> bool {
    exists|i: int|
        0 <= i < proofs.len() && (#[trigger] proofs[i]).resource_address == res
            && proofs[i].ids@.contains(id)
}

/// No proof in the zone proves a negative amount.
pub open spec fn proofs_wf(proofs: Seq<Proof>) -> bool {
    forall|i: int| 0 <= i < proofs.len() ==> (#[trigger] proofs[i]).amount@ >= 0
}

pub open spec fn proof_rule_holds(rule: ProofRule, proofs: Seq<Proof>) -> bool {
    match rule {
        ProofRule::Require(res) => zone_has_resource(proofs, res),
        ProofRule::RequireNonFungible(res, id) => zone_has_id(proofs, res, id),
        ProofRule::AmountOf(a, res) => zone_amount(proofs, res) >= a@,
    }
}

/// Every child of every node stands before it.
pub open spec fn tree_wf(nodes: Seq<AccessRuleNode>) -> bool {
    forall|i: int, k: int|
        0 <= i < nodes.len() && 0 <= k < children_of(nodes[i]).len() ==> #[trigger] children_of(
            nodes[i],
        )[k] < i
}

pub open spec fn children_of(n: AccessRuleNode) -> Seq<usize> {
    match n {
        AccessRuleNode::ProofRule(_) => Seq::empty(),
        AccessRuleNode::AnyOf(c) => c@,
        AccessRuleNode::AllOf(c) => c@,
        AccessRuleNode::CountOf(_, c) => c@,
    }
}

/// Whether node `i` of `nodes` is met by `proofs`.
pub open spec fn node_holds(nodes: Seq<AccessRuleNode>, i: int, proofs: Seq<Proof>) -> bool
    decreases i, 1nat, 0nat,
{
    if 0 <= i < nodes.len() {
        let c = children_of(nodes[i]);
        match nodes[i] {
            AccessRuleNode::ProofRule(r) => proof_rule_holds(r, proofs),
            AccessRuleNode::AnyOf(_) => count_met(nodes, i, c, proofs) >= 1,
            AccessRuleNode::AllOf(_) => count_met(nodes, i, c, proofs) == c.len(),
            AccessRuleNode::CountOf(n, _) => count_met(nodes, i, c, proofs) >= n,
        }
    } else {
        false
    }
}

/// How many of `children` (all before node `i`) are met by `proofs`.
pub open spec fn count_met(nodes: Seq<AccessRuleNode>, i: int, children: Seq<usize>, proofs: Seq<Proof>) -> int
    decreases i, 0nat, children.len(),
{
    if children.len() == 0 {
        0
    } else {
        count_met(nodes, i, children.drop_last(), proofs) + if 0 <= children.last() < i
            && node_holds(nodes, children.last() as int, proofs) {
            1int
        } else {
            0
        }
    }
}

/// Whether `rule` admits a caller whose auth zone holds `proofs`.
pub open spec fn rule_admits(rule: AccessRule, proofs: Seq<Proof>) -> bool {
    match rule {
        AccessRule::AllowAll => true,
        AccessRule::DenyAll => false,
        AccessRule::Protected(nodes) => nodes@.len() > 0 && node_holds(nodes@, nodes@.len() - 1, proofs),
    }
}

proof fn lemma_zone_amount_nonneg(proofs: Seq<Proof>, res: NodeId)
    requires
        proofs_wf(proofs),
    ensures
        zone_amount(proofs, res) >= 0,
    decreases proofs.len(),
{
    if proofs.len() > 0 {
        assert(proofs_wf(proofs.drop_last())) by {
            assert forall|i: int| 0 <= i < proofs.drop_last().len() implies (#[trigger] proofs.drop_last()[i]).amount@ >= 0 by {
                assert(proofs.drop_last()[i] == proofs[i]);
            }
        }
        assert(proofs.last() == proofs[proofs.len() - 1]);
        lemma_zone_amount_nonneg(proofs.drop_last(), res);
    }
}

proof fn lemma_zone_amount_mono(proofs: Seq<Proof>, res: NodeId, i: int, j: int)
    requires
        proofs_wf(proofs),
        0 <= i <= j <= proofs.len(),
    ensures
        zone_amount(proofs.take(i), res) <= zone_amount(proofs.take(j), res),
    decreases j - i,
{
    if i < j {
        lemma_zone_amount_mono(proofs, res, i, j - 1);
        assert(proofs.take(j).drop_last() =~= proofs.take(j - 1));
        assert(proofs.take(j).last() == proofs[j - 1]);
    }
}

/// Whether `rule` holds of `proofs`.
fn check_proof_rule(rule: &ProofRule, proofs: &Vec<Proof>) -> (r: bool)
    requires
        proofs_wf(proofs@),
    ensures
        r == proof_rule_holds(*rule, proofs@),
{
    match *rule {
        ProofRule::Require(res) => {
            let mut i: usize = 0;
            while i < proofs.len()
                invariant
                    *rule == ProofRule::Require(res),
                    i <= proofs@.len(),
                    forall|j: int| 0 <= j < i ==> (#[trigger] proofs@[j]).resource_address != res,
                decreases proofs@.len() - i,
            {
                if proofs[i].resource_address == res {
                    assert(proofs@[i as int].resource_address == res);
                    assert(zone_has_resource(proofs@, res));
                    return true;
                }
                i = i + 1;
            }
            false
        },
        ProofRule::RequireNonFungible(res, id) => {
            let mut i: usize = 0;
            while i < proofs.len()
                invariant
                    *rule == ProofRule::RequireNonFungible(res, id),
                    i <= proofs@.len(),
                    forall|j: int| 0 <= j < i ==> !((#[trigger] proofs@[j]).resource_address == res && proofs@[j].ids@.contains(id)),
                decreases proofs@.len() - i,
            {
                if proofs[i].resource_address == res {
                    let ids = &proofs[i].ids;
                    let mut k: usize = 0;
                    while k < ids.len()
                        invariant
                            *rule == ProofRule::RequireNonFungible(res, id),
                            i < proofs@.len(),
                            *ids == proofs@[i as int].ids,
                            proofs@[i as int].resource_address == res,
                            k <= ids@.len(),
                            forall|m: int| 0 <= m < k ==> ids@[m] != id,
                        decreases ids@.len() - k,
                    {
                        if ids[k] == id {
                            assert(proofs@[i as int].ids@[k as int] == id);
                            assert(proofs@[i as int].ids@.contains(id));
                            let ghost w = i as int;
                            assert(0 <= w < proofs@.len() && proofs@[w].resource_address == res && proofs@[w].ids@.contains(id));
                            assert(zone_has_id(proofs@, res, id));
                            return true;
                        }
                        k = k + 1;
                    }
                }
                i = i + 1;
            }
            false
        },
        ProofRule::AmountOf(a, res) => {
            if a.attos <= 0 {
                proof {
                    lemma_zone_amount_nonneg(proofs@, res);
                }
                return true;
            }
            let mut total: i128 = 0;
            proof {
                assert(proofs@.take(0) =~= Seq::<Proof>::empty());
            }
            let mut i: usize = 0;
            while i < proofs.len()
                invariant
                    *rule == ProofRule::AmountOf(a, res),
                    proofs_wf(proofs@),
                    i <= proofs@.len(),
                    total == zone_amount(proofs@.take(i as int), res),
                    total < a@,
                decreases proofs@.len() - i,
            {
                proof {
                    assert(proofs@.take(i + 1).drop_last() =~= proofs@.take(i as int));
                    assert(proofs@.take(i + 1).last() == proofs@[i as int]);
                    assert(zone_amount(proofs@.take(i + 1), res) == zone_amount(proofs@.take(i as int), res)
                        + if proofs@[i as int].resource_address == res { proofs@[i as int].amount@ } else { 0 });
                    lemma_zone_amount_mono(proofs@, res, i + 1, proofs@.len() as int);
                    assert(proofs@.take(proofs@.len() as int) =~= proofs@);
                }
                if proofs[i].resource_address == res {
                    match total.checked_add(proofs[i].amount.attos) {
                        Some(t) => {
                            total = t;
                        },
                        None => {
                            assert(zone_amount(proofs@, res) >= a@);
                            return true;
                        },
                    }
                }
                if total >= a.attos {
                    assert(zone_amount(proofs@, res) >= a@);
                    return true;
                }
                i = i + 1;
            }
            proof {
                assert(proofs@.take(i as int) =~= proofs@);
            }
            false
        },
    }
}

/// Whether `rule` admits a caller whose auth zone holds `proofs`.
pub fn check_access_rule(rule: &AccessRule, proofs: &Vec<Proof>) -> (r: bool)
    requires
        proofs_wf(proofs@),
        rule matches AccessRule::Protected(nodes) ==> tree_wf(nodes@),
    ensures
        r == rule_admits(*rule, proofs@),
{
    match rule {
        AccessRule::AllowAll => true,
        AccessRule::DenyAll => false,
        AccessRule::Protected(nodes) => {
            if nodes.len() == 0 {
                return false;
            }
            let met = evaluate_nodes(nodes, proofs);
            met[nodes.len() - 1]
        },
    }
}

/// Whether each node of a rule tree is met by `proofs`, by position.
fn evaluate_nodes(nodes: &Vec<AccessRuleNode>, proofs: &Vec<Proof>) -> (r: Vec<bool>)
    requires
        proofs_wf(proofs@),
        tree_wf(nodes@),
    ensures
        r@.len() == nodes@.len(),
        forall|i: int| 0 <= i < nodes@.len() ==> r@[i] == node_holds(nodes@, i, proofs@),
{
    let mut met: Vec<bool> = Vec::new();
    let mut i: usize = 0;
    while i < nodes.len()
        invariant
            proofs_wf(proofs@),
            tree_wf(nodes@),
            i <= nodes@.len(),
            met@.len() == i,
            forall|j: int| 0 <= j < i ==> met@[j] == node_holds(nodes@, j, proofs@),
        decreases nodes@.len() - i,
    {
        let v = match &nodes[i] {
            AccessRuleNode::ProofRule(r) => check_proof_rule(r, proofs),
            AccessRuleNode::AnyOf(c) => {
                let n = count_children_met(nodes, i, c, &met, proofs);
                n >= 1
            },
            AccessRuleNode::AllOf(c) => {
                let n = count_children_met(nodes, i, c, &met, proofs);
                n == c.len()
            },
            AccessRuleNode::CountOf(k, c) => {
                let n = count_children_met(nodes, i, c, &met, proofs);
                n >= *k
            },
        };
        met.push(v);
        i = i + 1;
    }
    met
}

/// How many of the children `c` of node `i` are met, read from `met`.
fn count_children_met(
    nodes: &Vec<AccessRuleNode>,
    i: usize,
    c: &Vec<usize>,
    met: &Vec<bool>,
    proofs: &Vec<Proof>,
) -> (r: usize)
    requires
        i < nodes@.len(),
        c@ == children_of(nodes@[i as int]),
        tree_wf(nodes@),
        met@.len() == i,
        forall|j: int| 0 <= j < i ==> met@[j] == node_holds(nodes@, j, proofs@),
    ensures
        r == count_met(nodes@, i as int, c@, proofs@),
{
    let mut n: usize = 0;
    let mut k: usize = 0;
    while k < c.len()
        invariant
            i < nodes@.len(),
            c@ == children_of(nodes@[i as int]),
            tree_wf(nodes@),
            met@.len() == i,
            forall|j: int| 0 <= j < i ==> met@[j] == node_holds(nodes@, j, proofs@),
            k <= c@.len(),
            n <= k,
            n == count_met(nodes@, i as int, c@.take(k as int), proofs@),
        decreases c@.len() - k,
    {
        proof {
            assert(c@.take(k + 1).drop_last() =~= c@.take(k as int));
            assert(c@.take(k + 1).last() == c@[k as int]);
            assert(c@[k as int] < i);
        }
        if met[c[k]] {
            n = n + 1;
        }
        k = k + 1;
    }
    proof {
        assert(c@.take(k as int) =~= c@);
    }
    n
}

/// The proofs held by one call frame, most recent last.
#[derive(Clone, Debug)]
pub struct AuthZone {
    pub proofs: Vec<Proof>,
}

impl AuthZone {
    pub fn new() -> (r: AuthZone)
        ensures
            r.proofs@.len() == 0,
    {
        AuthZone { proofs: Vec::new() }
    }

    pub open spec fn wf(&self) -> bool {
        proofs_wf(self.proofs@)
    }

    /// Pushes a proof to the auth zone.
    pub fn push(&mut self, proof: Proof)
        requires
            proof.amount@ >= 0,
            old(self).wf(),
        ensures
            final(self).wf(),
            final(self).proofs@ == old(self).proofs@.push(proof),
    {
        self.proofs.push(proof);
    }

    /// Pops the most recently added proof from the auth zone.
    pub fn pop(&mut self) -> (r: Result<Proof, AuthZoneError>)
        requires
            old(self).wf(),
        ensures
            final(self).wf(),
            old(self).proofs@.len() == 0 ==> r == Err::<Proof, AuthZoneError>(AuthZoneError::EmptyAuthZone)
                && final(self).proofs@ == old(self).proofs@,
            old(self).proofs@.len() > 0 ==> r == Ok::<Proof, AuthZoneError>(old(self).proofs@.last())
                && final(self).proofs@ == old(self).proofs@.drop_last(),
    {
        match self.proofs.pop() {
            Some(p) => Ok(p),
            None => Err(AuthZoneError::EmptyAuthZone),
        }
    }

    /// A proof of all that the zone proves of `resource_address`, with no ids.
    pub fn create_proof(&self, resource_address: NodeId) -> (r: Result<Proof, AuthZoneError>)
        requires
            self.wf(),
        ensures
            zone_amount(self.proofs@, resource_address) <= i128::MAX ==> (r matches Ok(p) && p.resource_address
                == resource_address && p.amount@ == zone_amount(self.proofs@, resource_address) && p.ids@.len() == 0),
            zone_amount(self.proofs@, resource_address) > i128::MAX ==> r == Err::<Proof, AuthZoneError>(
                AuthZoneError::AmountOverflow),
    {
        let mut total: i128 = 0;
        let mut i: usize = 0;
        while i < self.proofs.len()
            invariant
                self.wf(),
                i <= self.proofs@.len(),
                total == zone_amount(self.proofs@.take(i as int), resource_address),
            decreases self.proofs@.len() - i,
        {
            proof {
                assert(self.proofs@.take(i + 1).drop_last() =~= self.proofs@.take(i as int));
                assert(self.proofs@.take(i + 1).last() == self.proofs@[i as int]);
            }
            if self.proofs[i].resource_address == resource_address {
                match total.checked_add(self.proofs[i].amount.attos) {
                    Some(t) => {
                        total = t;
                    },
                    None => {
                        proof {
                            lemma_zone_amount_mono(self.proofs@, resource_address, i + 1, self.proofs@.len() as int);
                            assert(self.proofs@.take(self.proofs@.len() as int) =~= self.proofs@);
                        }
                        return Err(AuthZoneError::AmountOverflow);
                    },
                }
            }
            i = i + 1;
        }
        proof {
            assert(self.proofs@.take(i as int) =~= self.proofs@);
        }
        Ok(Proof { resource_address, amount: Decimal { attos: total }, ids: Vec::new() })
    }

    /// A proof of `amount` of `resource_address`, where the zone proves that much.
    pub fn create_proof_by_amount(&self, amount: Decimal, resource_address: NodeId) -> (r: Result<Proof, AuthZoneError>)
        requires
            self.wf(),
            amount@ >= 0,
        ensures
            r is Ok <==> zone_amount(self.proofs@, resource_address) >= amount@,
            r matches Ok(p) ==> p.resource_address == resource_address && p.amount == amount && p.ids@.len() == 0,
            r matches Err(e) ==> e == AuthZoneError::InsufficientBalance,
    {
        if check_proof_rule(&ProofRule::AmountOf(amount, resource_address), &self.proofs) {
            Ok(Proof { resource_address, amount, ids: Vec::new() })
        } else {
            Err(AuthZoneError::InsufficientBalance)
        }
    }

    /// A proof of the non-fungibles `ids` of `resource_address`, where the zone proves each.
    pub fn create_proof_by_ids(&self, ids: &Vec<NonFungibleLocalId>, resource_address: NodeId) -> (r: Result<Proof, AuthZoneError>)
        requires
            self.wf(),
        ensures
            r is Ok <==> forall|k: NonFungibleLocalId| ids@.contains(k) ==> zone_has_id(self.proofs@, resource_address, k),
            r matches Ok(p) ==> p.resource_address == resource_address && p.ids@ == ids@ && p.amount@ == ids@.len() * crate::types::ATTOS_PER_UNIT,
    {
        let mut i: usize = 0;
        while i < ids.len()
            invariant
                self.wf(),
                i <= ids@.len(),
                forall|j: int| 0 <= j < i ==> zone_has_id(self.proofs@, resource_address, #[trigger] ids@[j]),
            decreases ids@.len() - i,
        {
            if !check_proof_rule(&ProofRule::RequireNonFungible(resource_address, ids[i]), &self.proofs) {
                assert(ids@.contains(ids@[i as int]));
                return Err(AuthZoneError::NonFungibleNotFound(ids[i]));
            }
            i = i + 1;
        }
        proof {
            assert forall|k: NonFungibleLocalId| ids@.contains(k) implies zone_has_id(self.proofs@, resource_address, k) by {
                let j = choose|j: int| 0 <= j < ids@.len() && ids@[j] == k;
                assert(zone_has_id(self.proofs@, resource_address, ids@[j]));
            }
        }
        let n = ids.len() as u64;
        assert(n * crate::types::ATTOS_PER_UNIT <= i128::MAX) by (nonlinear_arith)
            requires n <= u64::MAX, crate::types::ATTOS_PER_UNIT == 1_000_000_000_000_000_000;
        Ok(Proof { resource_address, amount: Decimal { attos: (n as i128) * crate::types::ATTOS_PER_UNIT }, ids: ids.clone() })
    }
}

} // verus!
