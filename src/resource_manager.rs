use vstd::prelude::*;
use crate::auth::{AccessRule, Proof, check_access_rule, proofs_wf, rule_admits, tree_wf};
use crate::non_fungible_bucket::{NonFungibleLocalId, id_in, without_ids};
use crate::types::{ATTOS_PER_UNIT, Decimal, FungibleResource, NodeId};

verus! {

#[derive(Clone, Copy, Debug, PartialEq, Eq, Structural)]
pub enum ResourceType {
    Fungible { divisibility: u8 },
    NonFungible,
}

impl ResourceType {
    /// Decimal places an amount of the resource may have.
    pub fn divisibility(&self) -> (r: u8)
        ensures
            r == spec_divisibility(*self),
    {
        match self {
            ResourceType::Fungible { divisibility } => *divisibility,
            ResourceType::NonFungible => 0,
        }
    }
}

pub open spec fn spec_divisibility(t: ResourceType) -> u8 {
    match t {
        ResourceType::Fungible { divisibility } => divisibility,
        ResourceType::NonFungible => 0,
    }
}

/// The roles a resource manager guards its methods with.
#[derive(Clone, Copy, Debug, PartialEq, Eq, Structural)]
pub enum ResourceMethodAuthKey {
    Mint,
    Burn,
    Withdraw,
    Deposit,
    UpdateMetadata,
    UpdateNonFungibleData,
}

pub open spec fn key_index(k: ResourceMethodAuthKey) -> int {
    match k {
        ResourceMethodAuthKey::Mint => 0,
        ResourceMethodAuthKey::Burn => 1,
        ResourceMethodAuthKey::Withdraw => 2,
        ResourceMethodAuthKey::Deposit => 3,
        ResourceMethodAuthKey::UpdateMetadata => 4,
        ResourceMethodAuthKey::UpdateNonFungibleData => 5,
    }
}

impl ResourceMethodAuthKey {
    pub fn index(&self) -> (r: usize)
        ensures
            r == key_index(*self),
    {
        match self {
            ResourceMethodAuthKey::Mint => 0,
            ResourceMethodAuthKey::Burn => 1,
            ResourceMethodAuthKey::Withdraw => 2,
            ResourceMethodAuthKey::Deposit => 3,
            ResourceMethodAuthKey::UpdateMetadata => 4,
            ResourceMethodAuthKey::UpdateNonFungibleData => 5,
        }
    }
}

#[derive(Clone, Copy, Debug, PartialEq, Eq, Structural)]
pub enum ResourceManagerMethod {
    Mint,
    Burn,
    UpdateMetadata,
    CreateBucket,
    GetMetadata,
    GetResourceType,
    GetTotalSupply,
    CreateVault,
    SetResourceAddress,
    UpdateNonFungibleData,
    NonFungibleExists,
    GetNonFungible,
    UpdateAuth(ResourceMethodAuthKey),
    LockAuth(ResourceMethodAuthKey),
}

#[derive(Clone, Copy, Debug, PartialEq, Eq, Structural)]
pub enum VaultMethod {
    LockFee,
    Take,
    Put,
    GetAmount,
    GetResourceAddress,
    GetNonFungibleIds,
    CreateProof,
    CreateProofByAmount,
    CreateProofByIds,
    TakeNonFungibles,
}

#[derive(Clone, Copy, Debug, PartialEq, Eq, Structural)]
pub enum BucketMethod {
    Take,
    Put,
    GetAmount,
    GetResourceAddress,
    CreateProof,
}

/// How a method of a resource is guarded.
#[derive(Clone, Copy, Debug, PartialEq, Eq, Structural)]
pub enum ResourceMethodRule {
    Public,
    Protected(ResourceMethodAuthKey),
}

/// Whether a role's rule may still be changed, and by whom.
#[derive(Clone, Debug)]
pub enum Mutability {
    Locked,
    Mutable(AccessRule),
}

/// The rule a method call is checked against; `Unsupported` where the method
/// cannot be called at all.
#[derive(Clone, Debug)]
pub enum MethodAuthorization {
    Rule(AccessRule),
    Unsupported,
}

pub open spec fn authorization_admits(a: MethodAuthorization, proofs: Seq<Proof>) -> bool {
    match a {
        MethodAuthorization::Rule(rule) => rule_admits(rule, proofs),
        MethodAuthorization::Unsupported => false,
    }
}

pub open spec fn authorization_wf(a: MethodAuthorization) -> bool {
    a matches MethodAuthorization::Rule(AccessRule::Protected(nodes)) ==> tree_wf(nodes@)
}

/// Whether a caller whose auth zone holds `proofs` may call under `auth`.
pub fn is_authorized(auth: &MethodAuthorization, proofs: &Vec<Proof>) -> (r: bool)
    requires
        authorization_wf(*auth),
        proofs_wf(proofs@),
    ensures
        r == authorization_admits(*auth, proofs@),
{
    match auth {
        MethodAuthorization::Rule(rule) => check_access_rule(rule, proofs),
        MethodAuthorization::Unsupported => false,
    }
}

/// The rule for calling a method, and the rule for changing that rule.
#[derive(Clone, Debug)]
pub struct MethodAccessRule {
    pub auth: MethodAuthorization,
    pub update_auth: MethodAuthorization,
}

/// What is done with a method access rule.
#[derive(Clone, Debug)]
pub enum MethodAccessRuleMethod {
    Lock,
    Update(AccessRule),
}

impl MethodAccessRule {
    pub fn new(rule: AccessRule, mutability: Mutability) -> (r: MethodAccessRule)
        ensures
            r.auth == MethodAuthorization::Rule(rule),
            r.update_auth == match mutability {
                Mutability::Locked => MethodAuthorization::Rule(AccessRule::DenyAll),
                Mutability::Mutable(m) => MethodAuthorization::Rule(m),
            },
    {
        MethodAccessRule {
            auth: MethodAuthorization::Rule(rule),
            update_auth: match mutability {
                Mutability::Locked => MethodAuthorization::Rule(AccessRule::DenyAll),
                Mutability::Mutable(m) => MethodAuthorization::Rule(m),
            },
        }
    }

    pub fn get_method_auth(&self) -> (r: &MethodAuthorization)
        ensures
            *r == self.auth,
    {
        &self.auth
    }

    /// Locking and updating the rule are both guarded by the update rule.
    pub fn get_update_auth(&self, method: &MethodAccessRuleMethod) -> (r: &MethodAuthorization)
        ensures
            *r == self.update_auth,
    {
        &self.update_auth
    }

    /// Replaces the rule, or locks it against further change.
    pub fn apply(&mut self, method: MethodAccessRuleMethod)
        ensures
            match method {
                MethodAccessRuleMethod::Lock => final(self).auth == old(self).auth && final(self).update_auth
                    == MethodAuthorization::Rule(AccessRule::DenyAll),
                MethodAccessRuleMethod::Update(rule) => final(self).auth == MethodAuthorization::Rule(rule)
                    && final(self).update_auth == old(self).update_auth,
            },
    {
        match method {
            MethodAccessRuleMethod::Lock => {
                self.update_auth = MethodAuthorization::Rule(AccessRule::DenyAll);
            },
            MethodAccessRuleMethod::Update(rule) => {
                self.auth = MethodAuthorization::Rule(rule);
            },
        }
    }
}


#[derive(Clone, Copy, Debug, PartialEq, Eq, Structural)]
pub enum ResourceManagerError {
    InvalidAmount(Decimal, u8),
    MaxMintAmountExceeded,
    TotalSupplyOverflow,
    ResourceTypeDoesNotMatch,
    ResourceAddressAlreadySet,
    NonFungibleAlreadyExists(NonFungibleLocalId),
    NonFungibleNotFound(NonFungibleLocalId),
}

/// The data of one non-fungible: the part fixed at mint and the part that may change.
#[derive(Clone, Debug)]
pub struct NonFungible {
    pub immutable_data: Vec<u8>,
    pub mutable_data: Vec<u8>,
}

/// No metadata key stands twice.
pub open spec fn metadata_keys_unique(m: Seq<(String, String)>) -> bool {
    forall|i: int, j: int| 0 <= i < j < m.len() ==> (#[trigger] m[i]).0@ != (#[trigger] m[j]).0@
}

/// Whether `amount` is a valid amount of a resource of divisibility `d`: not
/// negative, and with no more than `d` decimal places. No amount is valid for a
/// divisibility above 18, which no amount of 18 decimal places can honour.
pub open spec fn valid_amount(d: u8, amount: int) -> bool {
    d <= 18 && amount >= 0 && amount % pow10((18 - d) as nat) == 0
}

/// The error that minting `amount` of a fungible resource from state `s` meets, if any.
pub open spec fn fungible_mint_error(s: ResourceManagerSubstate, amount: Decimal) -> Option<ResourceManagerError> {
    let d = spec_divisibility(s.resource_type);
    if !(s.resource_type is Fungible) {
        Some(ResourceManagerError::ResourceTypeDoesNotMatch)
    } else if !valid_amount(d, amount@) {
        Some(ResourceManagerError::InvalidAmount(amount, d))
    } else if amount@ > MAX_MINT_AMOUNT_ATTOS {
        Some(ResourceManagerError::MaxMintAmountExceeded)
    } else if s.total_supply@ + amount@ > i128::MAX {
        Some(ResourceManagerError::TotalSupplyOverflow)
    } else {
        None
    }
}

/// The ids of a list of non-fungible entries, in order.
pub open spec fn entry_ids(entries: Seq<(NonFungibleLocalId, NonFungible)>) -> Seq<NonFungibleLocalId> {
    entries.map_values(|e: (NonFungibleLocalId, NonFungible)| e.0)
}

/// Whether minting non-fungibles with `ids` from state `s` succeeds: the resource
/// is non-fungible, no id is live or repeated, and the supply still fits.
pub open spec fn non_fungible_mint_ok(s: ResourceManagerSubstate, ids: Seq<NonFungibleLocalId>) -> bool {
    &&& s.resource_type is NonFungible
    &&& !(exists|k: NonFungibleLocalId| #[trigger] s.live_ids@.contains(k) && ids.contains(k))
    &&& ids.no_duplicates()
    &&& s.total_supply@ + ids.len() * ATTOS_PER_UNIT <= i128::MAX
}

/// What to mint: an amount of a fungible resource, or non-fungibles.
pub enum MintParams {
    Fungible { amount: Decimal },
    NonFungible { entries: Vec<(NonFungibleLocalId, NonFungible)> },
}

/// What a mint created.
pub enum MintedResource {
    Fungible(FungibleResource),
    NonFungible(Vec<NonFungibleLocalId>, Vec<(NonFungibleLocalId, NonFungible)>),
}

/// Most that one mint may create: 10^18 whole units, in attos.
pub const MAX_MINT_AMOUNT_ATTOS: i128 = 1_000_000_000_000_000_000_000_000_000_000_000_000;

pub open spec fn pow10(n: nat) -> int
    decreases n,
{
    if n == 0 {
        1
    } else {
        10 * pow10((n - 1) as nat)
    }
}

/// The rule of a key where the creator gave none.
pub open spec fn default_rule(i: int) -> AccessRule {
    if i == 2 || i == 3 {
        AccessRule::AllowAll
    } else {
        AccessRule::DenyAll
    }
}

pub open spec fn access_of(rule: AccessRule, m: Mutability) -> MethodAccessRule {
    MethodAccessRule {
        auth: MethodAuthorization::Rule(rule),
        update_auth: match m {
            Mutability::Locked => MethodAuthorization::Rule(AccessRule::DenyAll),
            Mutability::Mutable(u) => MethodAuthorization::Rule(u),
        },
    }
}

/// Index of the last entry for key `k`; -1 where there is none.
pub open spec fn last_entry(
    auth: Seq<(ResourceMethodAuthKey, AccessRule, Mutability)>,
    k: ResourceMethodAuthKey,
) -> int
    decreases auth.len(),
{
    if auth.len() == 0 {
        -1
    } else if auth.last().0 == k {
        auth.len() - 1
    } else {
        last_entry(auth.drop_last(), k)
    }
}

proof fn lemma_last_entry_bounds(auth: Seq<(ResourceMethodAuthKey, AccessRule, Mutability)>, k: ResourceMethodAuthKey)
    ensures
        -1 <= last_entry(auth, k) < auth.len(),
        last_entry(auth, k) >= 0 ==> auth[last_entry(auth, k)].0 == k,
    decreases auth.len(),
{
    if auth.len() > 0 {
        lemma_last_entry_bounds(auth.drop_last(), k);
    }
}

pub open spec fn all_keys() -> Seq<ResourceMethodAuthKey> {
    seq![
        ResourceMethodAuthKey::Mint,
        ResourceMethodAuthKey::Burn,
        ResourceMethodAuthKey::Withdraw,
        ResourceMethodAuthKey::Deposit,
        ResourceMethodAuthKey::UpdateMetadata,
        ResourceMethodAuthKey::UpdateNonFungibleData,
    ]
}

/// How each vault method is guarded.
pub open spec fn vault_rule(m: VaultMethod) -> ResourceMethodRule {
    match m {
        VaultMethod::LockFee | VaultMethod::Take | VaultMethod::TakeNonFungibles => ResourceMethodRule::Protected(
            ResourceMethodAuthKey::Withdraw,
        ),
        VaultMethod::Put => ResourceMethodRule::Protected(ResourceMethodAuthKey::Deposit),
        _ => ResourceMethodRule::Public,
    }
}

/// How each resource manager method is guarded, for those not about its own rules.
pub open spec fn manager_rule(m: ResourceManagerMethod) -> ResourceMethodRule {
    match m {
        ResourceManagerMethod::Mint => ResourceMethodRule::Protected(ResourceMethodAuthKey::Mint),
        ResourceManagerMethod::Burn => ResourceMethodRule::Protected(ResourceMethodAuthKey::Burn),
        ResourceManagerMethod::UpdateMetadata => ResourceMethodRule::Protected(ResourceMethodAuthKey::UpdateMetadata),
        ResourceManagerMethod::UpdateNonFungibleData => ResourceMethodRule::Protected(
            ResourceMethodAuthKey::UpdateNonFungibleData,
        ),
        _ => ResourceMethodRule::Public,
    }
}

/// The state of a resource manager.
#[derive(Clone, Debug)]
pub struct ResourceManagerSubstate {
    pub resource_type: ResourceType,
    pub metadata: Vec<(String, String)>,
    /// The rule of each role, by position of its key.
    pub authorization: Vec<MethodAccessRule>,
    pub total_supply: Decimal,
    pub nf_store_id: Option<NodeId>,
    /// Set once, after instantiation.
    pub resource_address: Option<NodeId>,
    /// The live ids of a non-fungible resource.
    pub live_ids: Vec<NonFungibleLocalId>,
    pub allow_all: MethodAuthorization,
    pub unsupported: MethodAuthorization,
}

impl ResourceManagerSubstate {
    pub open spec fn wf(&self) -> bool {
        &&& self.authorization@.len() == 6
        &&& forall|i: int| 0 <= i < 6 ==> authorization_wf((#[trigger] self.authorization@[i]).auth)
            && authorization_wf(self.authorization@[i].update_auth)
        &&& self.live_ids@.no_duplicates()
        &&& metadata_keys_unique(self.metadata@)
        &&& self.allow_all == MethodAuthorization::Rule(AccessRule::AllowAll)
        &&& self.unsupported == MethodAuthorization::Unsupported
    }

    /// The rule a call of `method` is checked against.
    pub open spec fn spec_auth(&self, method: ResourceManagerMethod) -> MethodAuthorization {
        match method {
            ResourceManagerMethod::UpdateAuth(k) => self.authorization@[key_index(k)].update_auth,
            ResourceManagerMethod::LockAuth(k) => self.authorization@[key_index(k)].update_auth,
            _ => match manager_rule(method) {
                ResourceMethodRule::Public => MethodAuthorization::Rule(AccessRule::AllowAll),
                ResourceMethodRule::Protected(k) => self.authorization@[key_index(k)].auth,
            },
        }
    }

    pub open spec fn spec_vault_auth(&self, method: VaultMethod) -> MethodAuthorization {
        match vault_rule(method) {
            ResourceMethodRule::Public => MethodAuthorization::Rule(AccessRule::AllowAll),
            ResourceMethodRule::Protected(k) => self.authorization@[key_index(k)].auth,
        }
    }

    /// A resource manager whose roles take the rules of `auth` (a later entry for a
    /// key wins), and the defaults elsewhere: withdraw and deposit allowed to all,
    /// the rest denied, none of them changeable.
    pub fn new(
        resource_type: ResourceType,
        metadata: Vec<(String, String)>,
        auth: Vec<(ResourceMethodAuthKey, AccessRule, Mutability)>,
        nf_store_id: Option<NodeId>,
    ) -> (r: Result<ResourceManagerSubstate, ResourceManagerError>)
        requires
            metadata_keys_unique(metadata@),
            forall|j: int| 0 <= j < auth@.len() ==> authorization_wf(MethodAuthorization::Rule(#[trigger] auth@[j].1))
                && (auth@[j].2 matches Mutability::Mutable(u) ==> authorization_wf(MethodAuthorization::Rule(u))),
        ensures
            r is Ok,
            r matches Ok(m) ==> {
                &&& m.wf()
                &&& m.resource_type == resource_type
                &&& m.metadata@ == metadata@
                &&& m.total_supply@ == 0
                &&& m.nf_store_id == nf_store_id
                &&& m.resource_address is None
                &&& m.live_ids@.len() == 0
                &&& forall|i: int| 0 <= i < 6 ==> {
                    let k = all_keys()[i];
                    let j = last_entry(auth@, k);
                    #[trigger] m.authorization@[i] == if j >= 0 {
                        access_of(auth@[j].1, auth@[j].2)
                    } else {
                        access_of(default_rule(i), Mutability::Locked)
                    }
                }
            },
    {
        let ghost a0 = auth@;
        let mut slots: Vec<Option<MethodAccessRule>> = vec![None, None, None, None, None, None];
        let mut rest = auth;
        let mut n: usize = 0;
        let total_len = rest.len();
        assert(a0.len() == total_len);
        proof {
            assert(a0.take(0) =~= Seq::<(ResourceMethodAuthKey, AccessRule, Mutability)>::empty());
            assert(rest@ =~= a0.skip(0));
        }
        while rest.len() > 0
            invariant
                n <= a0.len(),
                a0.len() <= usize::MAX,
                rest@ == a0.skip(n as int),
                slots@.len() == 6,
                forall|j: int| 0 <= j < a0.len() ==> authorization_wf(MethodAuthorization::Rule(#[trigger] a0[j].1))
                    && (a0[j].2 matches Mutability::Mutable(u) ==> authorization_wf(MethodAuthorization::Rule(u))),
                forall|i: int| 0 <= i < 6 ==> {
                    let j = last_entry(a0.take(n as int), all_keys()[i]);
                    #[trigger] slots@[i] == if j >= 0 {
                        Some(access_of(a0[j].1, a0[j].2))
                    } else {
                        None::<MethodAccessRule>
                    }
                },
            decreases rest@.len(),
        {
            let (k, rule, m) = rest.remove(0);
            proof {
                assert(a0.take(n + 1).drop_last() =~= a0.take(n as int));
                assert(a0.take(n + 1).last() == a0[n as int]);
                assert(rest@ =~= a0.skip(n + 1));
                assert(a0[n as int] == (k, rule, m));
            }
            let ghost s0 = slots@;
            let entry = MethodAccessRule::new(rule, m);
            slots.set(k.index(), Some(entry));
            proof {
                assert forall|i: int| 0 <= i < 6 implies {
                    let j = last_entry(a0.take(n + 1), all_keys()[i]);
                    #[trigger] slots@[i] == if j >= 0 {
                        Some(access_of(a0[j].1, a0[j].2))
                    } else {
                        None::<MethodAccessRule>
                    }
                } by {
                    if all_keys()[i] == k {
                        assert(key_index(k) == i);
                    } else {
                        assert(key_index(k) != i);
                        assert(slots@[i] == s0[i]);
                    }
                }
            }
            n = n + 1;
        }
        proof {
            assert(a0.take(n as int) =~= a0);
        }
        let mut authorization: Vec<MethodAccessRule> = Vec::new();
        let mut i: usize = 0;
        while i < 6
            invariant
                i <= 6,
                slots@.len() == 6 - i,
                n == a0.len(),
                authorization@.len() == i,
                forall|j: int| 0 <= j < a0.len() ==> authorization_wf(MethodAuthorization::Rule(#[trigger] a0[j].1))
                    && (a0[j].2 matches Mutability::Mutable(u) ==> authorization_wf(MethodAuthorization::Rule(u))),
                forall|x: int| 0 <= x < 6 - i ==> {
                    let j = last_entry(a0, all_keys()[x + i]);
                    #[trigger] slots@[x] == if j >= 0 {
                        Some(access_of(a0[j].1, a0[j].2))
                    } else {
                        None::<MethodAccessRule>
                    }
                },
                forall|x: int| 0 <= x < i ==> {
                    let j = last_entry(a0, all_keys()[x]);
                    #[trigger] authorization@[x] == if j >= 0 {
                        access_of(a0[j].1, a0[j].2)
                    } else {
                        access_of(default_rule(x), Mutability::Locked)
                    }
                },
            decreases 6 - i,
        {
            let ghost s0 = slots@;
            let slot = slots.remove(0);
            proof {
                lemma_last_entry_bounds(a0, all_keys()[i as int]);
                assert forall|x: int| 0 <= x < 6 - (i + 1) implies slots@[x] == s0[x + 1] by {}
                assert(slot == s0[0]);
            }
            let entry = match slot {
                Some(e) => e,
                None => {
                    if i == 2 || i == 3 {
                        MethodAccessRule::new(AccessRule::AllowAll, Mutability::Locked)
                    } else {
                        MethodAccessRule::new(AccessRule::DenyAll, Mutability::Locked)
                    }
                },
            };
            authorization.push(entry);
            i = i + 1;
        }
        proof {
            assert forall|x: int| 0 <= x < 6 implies authorization_wf((#[trigger] authorization@[x]).auth)
                && authorization_wf(authorization@[x].update_auth) by {
                lemma_last_entry_bounds(a0, all_keys()[x]);
            }
        }
        Ok(ResourceManagerSubstate {
            resource_type,
            metadata,
            authorization,
            total_supply: Decimal { attos: 0 },
            nf_store_id,
            resource_address: None,
            live_ids: Vec::new(),
            allow_all: MethodAuthorization::Rule(AccessRule::AllowAll),
            unsupported: MethodAuthorization::Unsupported,
        })
    }

    /// The rule a call of `method` is checked against.
    pub fn get_auth(&self, method: ResourceManagerMethod) -> (r: &MethodAuthorization)
        requires
            self.wf(),
        ensures
            *r == self.spec_auth(method),
            authorization_wf(*r),
    {
        match method {
            ResourceManagerMethod::UpdateAuth(k) => &self.authorization[k.index()].update_auth,
            ResourceManagerMethod::LockAuth(k) => &self.authorization[k.index()].update_auth,
            ResourceManagerMethod::Mint => &self.authorization[0].auth,
            ResourceManagerMethod::Burn => &self.authorization[1].auth,
            ResourceManagerMethod::UpdateMetadata => &self.authorization[4].auth,
            ResourceManagerMethod::UpdateNonFungibleData => &self.authorization[5].auth,
            _ => &self.allow_all,
        }
    }

    /// The rule a call of vault method `vault_fn` is checked against.
    pub fn get_vault_auth(&self, vault_fn: VaultMethod) -> (r: &MethodAuthorization)
        requires
            self.wf(),
        ensures
            *r == self.spec_vault_auth(vault_fn),
            authorization_wf(*r),
    {
        match vault_fn {
            VaultMethod::LockFee | VaultMethod::Take | VaultMethod::TakeNonFungibles => &self.authorization[2].auth,
            VaultMethod::Put => &self.authorization[3].auth,
            _ => &self.allow_all,
        }
    }

    /// No bucket method is guarded by the resource manager: all are unsupported here.
    pub fn get_bucket_auth(&self, bucket_method: BucketMethod) -> (r: &MethodAuthorization)
        requires
            self.wf(),
        ensures
            *r == MethodAuthorization::Unsupported,
    {
        &self.unsupported
    }

    /// Whether a caller whose auth zone holds `proofs` may call `method`.
    pub fn authorize(&self, method: ResourceManagerMethod, proofs: &Vec<Proof>) -> (r: bool)
        requires
            self.wf(),
            proofs_wf(proofs@),
        ensures
            r == authorization_admits(self.spec_auth(method), proofs@),
    {
        is_authorized(self.get_auth(method), proofs)
    }

    /// Whether `amount` is a valid amount of this resource: not negative, and with
    /// no more decimal places than the divisibility.
    pub fn check_amount(&self, amount: Decimal) -> (r: Result<(), ResourceManagerError>)
        requires
            self.wf(),
        ensures
            r is Ok <==> valid_amount(spec_divisibility(self.resource_type), amount@),
            r matches Err(e) ==> e == ResourceManagerError::InvalidAmount(amount, spec_divisibility(self.resource_type)),
    {
        let divisibility = self.resource_type.divisibility();
        if divisibility > 18 {
            return Err(ResourceManagerError::InvalidAmount(amount, divisibility));
        }
        let mut unit: i128 = 1;
        let mut j: u8 = 0;
        proof {
            lemma_pow10_18();
            lemma_pow10_mono(0, 18);
        }
        while j < 18 - divisibility
            invariant
                divisibility <= 18,
                j <= 18 - divisibility,
                unit == pow10(j as nat),
                1 <= unit,
                pow10(18) == 1_000_000_000_000_000_000,
            decreases 18 - divisibility - j,
        {
            proof {
                lemma_pow10_mono((j + 1) as nat, 18);
                assert(pow10((j + 1) as nat) == 10 * pow10(j as nat));
            }
            unit = unit * 10;
            j = j + 1;
        }
        if amount.is_negative() || amount.attos % unit != 0 {
            Err(ResourceManagerError::InvalidAmount(amount, divisibility))
        } else {
            Ok(())
        }
    }

    /// Sets the address, once.
    pub fn set_resource_address(&mut self, resource_address: NodeId) -> (r: Result<(), ResourceManagerError>)
        ensures
            old(self).resource_address is Some ==> r == Err::<(), ResourceManagerError>(
                ResourceManagerError::ResourceAddressAlreadySet) && *final(self) == *old(self),
            old(self).resource_address is None ==> r is Ok && *final(self) == (ResourceManagerSubstate {
                resource_address: Some(resource_address), ..*old(self) }),
    {
        if self.resource_address.is_some() {
            return Err(ResourceManagerError::ResourceAddressAlreadySet);
        }
        self.resource_address = Some(resource_address);
        Ok(())
    }

    /// Mints `amount` of a fungible resource, adding it to the total supply.
    pub fn mint_fungible(&mut self, amount: Decimal, self_address: NodeId) -> (r: Result<
        FungibleResource,
        ResourceManagerError,
    >)
        requires
            old(self).wf(),
        ensures
            final(self).wf(),
            r is Err ==> *final(self) == *old(self),
            !(old(self).resource_type is Fungible) ==> r == Err::<FungibleResource, ResourceManagerError>(
                ResourceManagerError::ResourceTypeDoesNotMatch),
            old(self).resource_type is Fungible ==> {
                let d = spec_divisibility(old(self).resource_type);
                if !valid_amount(d, amount@) {
                    r == Err::<FungibleResource, ResourceManagerError>(ResourceManagerError::InvalidAmount(amount, d))
                } else if amount@ > MAX_MINT_AMOUNT_ATTOS {
                    r == Err::<FungibleResource, ResourceManagerError>(ResourceManagerError::MaxMintAmountExceeded)
                } else if old(self).total_supply@ + amount@ > i128::MAX {
                    r == Err::<FungibleResource, ResourceManagerError>(ResourceManagerError::TotalSupplyOverflow)
                } else {
                    &&& r == Ok::<FungibleResource, ResourceManagerError>(
                        FungibleResource { resource_address: self_address, divisibility: d, amount },
                    )
                    &&& *final(self) == (ResourceManagerSubstate {
                        total_supply: Decimal { attos: (old(self).total_supply@ + amount@) as i128 },
                        ..*old(self)
                    })
                }
            },
    {
        let divisibility = match self.resource_type {
            ResourceType::Fungible { divisibility } => divisibility,
            ResourceType::NonFungible => return Err(ResourceManagerError::ResourceTypeDoesNotMatch),
        };
        match self.check_amount(amount) {
            Err(e) => return Err(e),
            Ok(()) => {},
        }
        if amount.attos > MAX_MINT_AMOUNT_ATTOS {
            return Err(ResourceManagerError::MaxMintAmountExceeded);
        }
        let total = match self.total_supply.safe_add(amount) {
            Some(t) => t,
            None => return Err(ResourceManagerError::TotalSupplyOverflow),
        };
        self.total_supply = total;
        Ok(FungibleResource::new_fungible(self_address, divisibility, amount))
    }

    /// Mints the non-fungibles `entries`, whose ids must be new and distinct.
    /// Returns their ids, in order, with the entries.
    pub fn mint_non_fungibles(&mut self, entries: Vec<(NonFungibleLocalId, NonFungible)>, self_address: NodeId) -> (r:
        Result<(Vec<NonFungibleLocalId>, Vec<(NonFungibleLocalId, NonFungible)>), ResourceManagerError>)
        requires
            old(self).wf(),
        ensures
            final(self).wf(),
            r is Err ==> *final(self) == *old(self),
            !(old(self).resource_type is NonFungible) ==> r is Err && r->Err_0 == ResourceManagerError::ResourceTypeDoesNotMatch,
            old(self).resource_type is NonFungible ==> {
                let ids = entries@.map_values(|e: (NonFungibleLocalId, NonFungible)| e.0);
                if exists|k: NonFungibleLocalId| #[trigger] old(self).live_ids@.contains(k) && ids.contains(k) {
                    r is Err && r->Err_0 is NonFungibleAlreadyExists
                } else if !ids.no_duplicates() {
                    r is Err && r->Err_0 is NonFungibleAlreadyExists
                } else if old(self).total_supply@ + ids.len() * ATTOS_PER_UNIT > i128::MAX {
                    r is Err && r->Err_0 == ResourceManagerError::TotalSupplyOverflow
                } else {
                    &&& r is Ok
                    &&& r->Ok_0.0@ == ids
                    &&& r->Ok_0.1@ == entries@
                    &&& final(self).live_ids@ == old(self).live_ids@ + ids
                    &&& final(self).total_supply@ == old(self).total_supply@ + ids.len() * ATTOS_PER_UNIT
                    &&& final(self).resource_type == old(self).resource_type
                    &&& final(self).authorization@ == old(self).authorization@
                    &&& final(self).resource_address == old(self).resource_address
                }
            },
    {
        match self.resource_type {
            ResourceType::NonFungible => {},
            ResourceType::Fungible { .. } => return Err(ResourceManagerError::ResourceTypeDoesNotMatch),
        }
        let ghost ids = entries@.map_values(|e: (NonFungibleLocalId, NonFungible)| e.0);
        let mut new_ids: Vec<NonFungibleLocalId> = Vec::new();
        let mut i: usize = 0;
        while i < entries.len()
            invariant
                *self == *old(self),
                old(self).wf(),
                old(self).resource_type is NonFungible,
                i <= entries@.len(),
                ids == entries@.map_values(|e: (NonFungibleLocalId, NonFungible)| e.0),
                new_ids@ == ids.take(i as int),
                new_ids@.no_duplicates(),
                forall|k: NonFungibleLocalId| #[trigger] new_ids@.contains(k) ==> !self.live_ids@.contains(k),
            decreases entries@.len() - i,
        {
            let id = entries[i].0;
            proof {
                assert(ids[i as int] == id);
            }
            if id_in(&self.live_ids, id) {
                proof {
                    assert(ids.contains(id));
                }
                return Err(ResourceManagerError::NonFungibleAlreadyExists(id));
            }
            if id_in(&new_ids, id) {
                proof {
                    let m = choose|m: int| 0 <= m < new_ids@.len() && new_ids@[m] == id;
                    assert(ids[m] == id && ids[i as int] == id && m != i);
                    if !(exists|k: NonFungibleLocalId| #[trigger] self.live_ids@.contains(k) && ids.contains(k)) {
                        assert(!ids.no_duplicates());
                    }
                }
                return Err(ResourceManagerError::NonFungibleAlreadyExists(id));
            }
            let ghost before = new_ids@;
            new_ids.push(id);
            proof {
                assert(new_ids@ =~= ids.take(i + 1));
                assert(new_ids@ == before.push(id));
                assert forall|a: int, b: int| 0 <= a < b < new_ids@.len() implies new_ids@[a] != new_ids@[b] by {
                    if b == before.len() {
                        assert(before[a] == new_ids@[a]);
                        assert(before.contains(before[a]));
                    } else {
                        assert(before[a] == new_ids@[a]);
                        assert(before[b] == new_ids@[b]);
                    }
                }
                assert forall|k: NonFungibleLocalId| #[trigger] new_ids@.contains(k) implies !self.live_ids@.contains(k) by {
                    if k != id {
                        let m = choose|m: int| 0 <= m < new_ids@.len() && new_ids@[m] == k;
                        assert(before[m] == k);
                        assert(before.contains(k));
                    }
                }
            }
            i = i + 1;
        }
        proof {
            assert(ids.take(i as int) =~= ids);
            assert forall|k: NonFungibleLocalId| !(#[trigger] self.live_ids@.contains(k) && ids.contains(k)) by {}
        }
        let n = new_ids.len() as u64;
        assert(n * ATTOS_PER_UNIT <= 0xffff_ffff_ffff_ffff * 1_000_000_000_000_000_000) by (nonlinear_arith)
            requires n <= u64::MAX, ATTOS_PER_UNIT == 1_000_000_000_000_000_000;
        let amount = Decimal { attos: (n as i128) * ATTOS_PER_UNIT };
        let total = match self.total_supply.safe_add(amount) {
            Some(t) => t,
            None => return Err(ResourceManagerError::TotalSupplyOverflow),
        };
        let ghost l0 = self.live_ids@;
        let mut added = new_ids.clone();
        proof {
            assert(added@ == new_ids@);
        }
        self.live_ids.append(&mut added);
        self.total_supply = total;
        proof {
            let l = self.live_ids@;
            assert forall|a: int, b: int| 0 <= a < b < l.len() implies l[a] != l[b] by {
                if a < l0.len() && b >= l0.len() {
                    assert(new_ids@[b - l0.len()] == l[b]);
                    assert(new_ids@.contains(l[b]));
                    assert(l0.contains(l[a]));
                } else if a >= l0.len() {
                    assert(new_ids@[a - l0.len()] == l[a]);
                    assert(new_ids@[b - l0.len()] == l[b]);
                }
            }
        }
        Ok((new_ids, entries))
    }

    /// Mints what `mint_params` asks for, as `mint_fungible` or `mint_non_fungibles` does.
    pub fn mint(&mut self, mint_params: MintParams, self_address: NodeId) -> (r: Result<MintedResource, ResourceManagerError>)
        requires
            old(self).wf(),
        ensures
            final(self).wf(),
            r is Err ==> *final(self) == *old(self),
            mint_params matches MintParams::Fungible { amount } ==> {
                &&& r is Err <==> fungible_mint_error(*old(self), amount) is Some
                &&& r is Err ==> r->Err_0 == fungible_mint_error(*old(self), amount)->0
                &&& r is Ok ==> r->Ok_0 == MintedResource::Fungible(FungibleResource {
                    resource_address: self_address,
                    divisibility: spec_divisibility(old(self).resource_type),
                    amount,
                }) && final(self).total_supply@ == old(self).total_supply@ + amount@
            },
            mint_params matches MintParams::NonFungible { entries } ==> {
                let ids = entry_ids(entries@);
                &&& r is Ok <==> non_fungible_mint_ok(*old(self), ids)
                &&& r is Ok ==> {
                    &&& r->Ok_0 matches MintedResource::NonFungible(minted, data) && minted@ == ids && data@ == entries@
                    &&& final(self).live_ids@ == old(self).live_ids@ + ids
                    &&& final(self).total_supply@ == old(self).total_supply@ + ids.len() * ATTOS_PER_UNIT
                    &&& final(self).resource_type == old(self).resource_type
                    &&& final(self).authorization@ == old(self).authorization@
                    &&& final(self).resource_address == old(self).resource_address
                }
            },
    {
        match mint_params {
            MintParams::Fungible { amount } => match self.mint_fungible(amount, self_address) {
                Ok(res) => Ok(MintedResource::Fungible(res)),
                Err(e) => Err(e),
            },
            MintParams::NonFungible { entries } => match self.mint_non_fungibles(entries, self_address) {
                Ok((ids, data)) => Ok(MintedResource::NonFungible(ids, data)),
                Err(e) => Err(e),
            },
        }
    }

    /// Burns `amount` of the resource from the total supply.
    pub fn burn(&mut self, amount: Decimal) -> (r: Result<(), ResourceManagerError>)
        requires
            old(self).wf(),
        ensures
            final(self).wf(),
            old(self).total_supply@ - amount@ < i128::MIN || old(self).total_supply@ - amount@ > i128::MAX
                ==> r == Err::<(), ResourceManagerError>(ResourceManagerError::TotalSupplyOverflow) && *final(self) == *old(self),
            i128::MIN <= old(self).total_supply@ - amount@ <= i128::MAX ==> r is Ok && *final(self) == (ResourceManagerSubstate {
                total_supply: Decimal { attos: (old(self).total_supply@ - amount@) as i128 },
                ..*old(self)
            }),
    {
        match self.total_supply.safe_sub(amount) {
            Some(t) => {
                self.total_supply = t;
                Ok(())
            },
            None => Err(ResourceManagerError::TotalSupplyOverflow),
        }
    }

    /// Burns the live non-fungibles `ids`; fails, changing nothing, where one is not live.
    pub fn burn_non_fungibles(&mut self, ids: &Vec<NonFungibleLocalId>) -> (r: Result<(), ResourceManagerError>)
        requires
            old(self).wf(),
            ids@.no_duplicates(),
        ensures
            final(self).wf(),
            r is Err ==> *final(self) == *old(self),
            (exists|k: NonFungibleLocalId| #[trigger] ids@.contains(k) && !old(self).live_ids@.contains(k)) ==> r is Err
                && r->Err_0 is NonFungibleNotFound,
            (forall|k: NonFungibleLocalId| #[trigger] ids@.contains(k) ==> old(self).live_ids@.contains(k))
                && old(self).total_supply@ - ids@.len() * ATTOS_PER_UNIT < i128::MIN ==> r
                == Err::<(), ResourceManagerError>(ResourceManagerError::TotalSupplyOverflow),
            (forall|k: NonFungibleLocalId| #[trigger] ids@.contains(k) ==> old(self).live_ids@.contains(k))
                && old(self).total_supply@ - ids@.len() * ATTOS_PER_UNIT >= i128::MIN ==> {
                &&& r is Ok
                &&& forall|k: NonFungibleLocalId| #[trigger] final(self).live_ids@.contains(k) <==> old(self).live_ids@.contains(k)
                    && !ids@.contains(k)
                &&& final(self).total_supply@ == old(self).total_supply@ - ids@.len() * ATTOS_PER_UNIT
            },
    {
        let mut i: usize = 0;
        while i < ids.len()
            invariant
                *self == *old(self),
                old(self).wf(),
                i <= ids@.len(),
                forall|j: int| 0 <= j < i ==> self.live_ids@.contains(#[trigger] ids@[j]),
            decreases ids@.len() - i,
        {
            if !id_in(&self.live_ids, ids[i]) {
                assert(ids@.contains(ids@[i as int]));
                return Err(ResourceManagerError::NonFungibleNotFound(ids[i]));
            }
            i = i + 1;
        }
        proof {
            assert forall|k: NonFungibleLocalId| #[trigger] ids@.contains(k) implies self.live_ids@.contains(k) by {
                let j = choose|j: int| 0 <= j < ids@.len() && ids@[j] == k;
            }
        }
        let n = ids.len() as u64;
        assert(n * ATTOS_PER_UNIT <= 0xffff_ffff_ffff_ffff * 1_000_000_000_000_000_000) by (nonlinear_arith)
            requires n <= u64::MAX, ATTOS_PER_UNIT == 1_000_000_000_000_000_000;
        let amount = Decimal { attos: (n as i128) * ATTOS_PER_UNIT };
        let total = match self.total_supply.safe_sub(amount) {
            Some(t) => t,
            None => return Err(ResourceManagerError::TotalSupplyOverflow),
        };
        self.live_ids = without_ids(&self.live_ids, ids);
        self.total_supply = total;
        Ok(())
    }

    pub fn update_metadata(&mut self, new_metadata: Vec<(String, String)>) -> (r: Result<(), ResourceManagerError>)
        requires
            metadata_keys_unique(new_metadata@),
        ensures
            r is Ok,
            *final(self) == (ResourceManagerSubstate { metadata: new_metadata, ..*old(self) }),
    {
        self.metadata = new_metadata;
        Ok(())
    }
}

/// A method guarded by a role is admitted only where the caller's proofs meet
/// that role's rule: the rule admits them, or (for a rule tree) its root node holds.
pub proof fn lemma_auth_soundness(m: ResourceManagerSubstate, method: ResourceManagerMethod, proofs: Seq<Proof>)
    requires
        m.wf(),
        manager_rule(method) matches ResourceMethodRule::Protected(_),
        !(method is UpdateAuth),
        !(method is LockAuth),
        authorization_admits(m.spec_auth(method), proofs),
    ensures
        ({
            let k = manager_rule(method)->Protected_0;
            &&& m.authorization@[key_index(k)].auth matches MethodAuthorization::Rule(rule)
            &&& rule_admits(m.authorization@[key_index(k)].auth->Rule_0, proofs)
        }),
{
}

proof fn lemma_pow10_18()
    ensures
        pow10(18) == 1_000_000_000_000_000_000,
{
    reveal_with_fuel(pow10, 19);
}

proof fn lemma_pow10_mono(a: nat, b: nat)
    requires
        a <= b,
    ensures
        1 <= pow10(a) <= pow10(b),
    decreases b,
{
    if a < b {
        lemma_pow10_mono(a, (b - 1) as nat);
    } else if a > 0 {
        lemma_pow10_mono((a - 1) as nat, (a - 1) as nat);
    }
}

} // verus!
