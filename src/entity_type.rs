use vstd::prelude::*;

verus! {

/// The kind of an entity, carried in the first byte of every node id.
#[derive(Clone, Copy, Debug, PartialEq, Eq, Structural)]
pub enum EntityType {
    GlobalPackage,
    GlobalEpochManager,
    GlobalValidator,
    GlobalClock,
    GlobalGenericComponent,
    GlobalAccount,
    GlobalIdentity,
    GlobalAccessController,
    GlobalVirtualSecp256k1Account,
    GlobalVirtualSecp256k1Identity,
    GlobalVirtualEd25519Account,
    GlobalVirtualEd25519Identity,
    GlobalFungibleResource,
    InternalFungibleVault,
    GlobalNonFungibleResource,
    InternalNonFungibleVault,
    InternalGenericComponent,
    InternalAccount,
    InternalKeyValueStore,
    InternalIndex,
    InternalSortedIndex,
}

/// The tag byte of each entity type.
pub open spec fn tag_of(t: EntityType) -> u8 {
    match t {
        EntityType::GlobalPackage => 0x0d,
        EntityType::GlobalEpochManager => 0x86,
        EntityType::GlobalValidator => 0x82,
        EntityType::GlobalClock => 0x85,
        EntityType::GlobalGenericComponent => 0xc0,
        EntityType::GlobalAccount => 0xc1,
        EntityType::GlobalIdentity => 0xc2,
        EntityType::GlobalAccessController => 0xc3,
        EntityType::GlobalVirtualSecp256k1Account => 0xd1,
        EntityType::GlobalVirtualSecp256k1Identity => 0xd2,
        EntityType::GlobalVirtualEd25519Account => 0x51,
        EntityType::GlobalVirtualEd25519Identity => 0x52,
        EntityType::GlobalFungibleResource => 0x5d,
        EntityType::InternalFungibleVault => 0x58,
        EntityType::GlobalNonFungibleResource => 0x9a,
        EntityType::InternalNonFungibleVault => 0x98,
        EntityType::InternalGenericComponent => 0xf8,
        EntityType::InternalAccount => 0xf9,
        EntityType::InternalKeyValueStore => 0xb0,
        EntityType::InternalIndex => 0xb1,
        EntityType::InternalSortedIndex => 0xb2,
    }
}

pub open spec fn spec_is_global(t: EntityType) -> bool {
    match t {
        EntityType::InternalFungibleVault
        | EntityType::InternalNonFungibleVault
        | EntityType::InternalAccount
        | EntityType::InternalGenericComponent
        | EntityType::InternalKeyValueStore
        | EntityType::InternalIndex
        | EntityType::InternalSortedIndex => false,
        _ => true,
    }
}

pub open spec fn spec_is_global_virtual(t: EntityType) -> bool {
    match t {
        EntityType::GlobalVirtualSecp256k1Account
        | EntityType::GlobalVirtualEd25519Account
        | EntityType::GlobalVirtualSecp256k1Identity
        | EntityType::GlobalVirtualEd25519Identity => true,
        _ => false,
    }
}

pub open spec fn spec_is_global_resource(t: EntityType) -> bool {
    t == EntityType::GlobalFungibleResource || t == EntityType::GlobalNonFungibleResource
}

/// Components are the global entities that are neither packages nor resources.
pub open spec fn spec_is_global_component(t: EntityType) -> bool {
    spec_is_global(t) && t != EntityType::GlobalPackage && !spec_is_global_resource(t)
}

impl EntityType {
    /// The tag byte that stands first in a node id of this type.
    pub fn to_byte(&self) -> (r: u8)
        ensures
            r == tag_of(*self),
    {
        match self {
            EntityType::GlobalPackage => 0x0d,
            EntityType::GlobalEpochManager => 0x86,
            EntityType::GlobalValidator => 0x82,
            EntityType::GlobalClock => 0x85,
            EntityType::GlobalGenericComponent => 0xc0,
            EntityType::GlobalAccount => 0xc1,
            EntityType::GlobalIdentity => 0xc2,
            EntityType::GlobalAccessController => 0xc3,
            EntityType::GlobalVirtualSecp256k1Account => 0xd1,
            EntityType::GlobalVirtualSecp256k1Identity => 0xd2,
            EntityType::GlobalVirtualEd25519Account => 0x51,
            EntityType::GlobalVirtualEd25519Identity => 0x52,
            EntityType::GlobalFungibleResource => 0x5d,
            EntityType::InternalFungibleVault => 0x58,
            EntityType::GlobalNonFungibleResource => 0x9a,
            EntityType::InternalNonFungibleVault => 0x98,
            EntityType::InternalGenericComponent => 0xf8,
            EntityType::InternalAccount => 0xf9,
            EntityType::InternalKeyValueStore => 0xb0,
            EntityType::InternalIndex => 0xb1,
            EntityType::InternalSortedIndex => 0xb2,
        }
    }

    /// The entity type whose tag is `b`, if any.
    pub fn from_repr(b: u8) -> (r: Option<EntityType>)
        ensures
            r matches Some(t) ==> tag_of(t) == b,
            r is None ==> forall|t: EntityType| tag_of(t) != b,
    {
        match b {
            0x0d => Some(EntityType::GlobalPackage),
            0x86 => Some(EntityType::GlobalEpochManager),
            0x82 => Some(EntityType::GlobalValidator),
            0x85 => Some(EntityType::GlobalClock),
            0xc0 => Some(EntityType::GlobalGenericComponent),
            0xc1 => Some(EntityType::GlobalAccount),
            0xc2 => Some(EntityType::GlobalIdentity),
            0xc3 => Some(EntityType::GlobalAccessController),
            0xd1 => Some(EntityType::GlobalVirtualSecp256k1Account),
            0xd2 => Some(EntityType::GlobalVirtualSecp256k1Identity),
            0x51 => Some(EntityType::GlobalVirtualEd25519Account),
            0x52 => Some(EntityType::GlobalVirtualEd25519Identity),
            0x5d => Some(EntityType::GlobalFungibleResource),
            0x58 => Some(EntityType::InternalFungibleVault),
            0x9a => Some(EntityType::GlobalNonFungibleResource),
            0x98 => Some(EntityType::InternalNonFungibleVault),
            0xf8 => Some(EntityType::InternalGenericComponent),
            0xf9 => Some(EntityType::InternalAccount),
            0xb0 => Some(EntityType::InternalKeyValueStore),
            0xb1 => Some(EntityType::InternalIndex),
            0xb2 => Some(EntityType::InternalSortedIndex),
            _ => None,
        }
    }

    pub fn is_global(&self) -> (r: bool)
        ensures
            r == spec_is_global(*self),
    {
        match self {
            EntityType::InternalFungibleVault
            | EntityType::InternalNonFungibleVault
            | EntityType::InternalAccount
            | EntityType::InternalGenericComponent
            | EntityType::InternalKeyValueStore
            | EntityType::InternalIndex
            | EntityType::InternalSortedIndex => false,
            _ => true,
        }
    }

    pub fn is_internal(&self) -> (r: bool)
        ensures
            r == !spec_is_global(*self),
    {
        !self.is_global()
    }

    pub fn is_global_component(&self) -> (r: bool)
        ensures
            r == spec_is_global_component(*self),
    {
        match self {
            EntityType::GlobalEpochManager
            | EntityType::GlobalValidator
            | EntityType::GlobalClock
            | EntityType::GlobalAccessController
            | EntityType::GlobalAccount
            | EntityType::GlobalIdentity
            | EntityType::GlobalGenericComponent
            | EntityType::GlobalVirtualSecp256k1Account
            | EntityType::GlobalVirtualEd25519Account
            | EntityType::GlobalVirtualSecp256k1Identity
            | EntityType::GlobalVirtualEd25519Identity => true,
            _ => false,
        }
    }

    pub fn is_global_package(&self) -> (r: bool)
        ensures
            r == (*self == EntityType::GlobalPackage),
    {
        matches!(self, EntityType::GlobalPackage)
    }

    pub fn is_global_resource(&self) -> (r: bool)
        ensures
            r == spec_is_global_resource(*self),
    {
        matches!(self, EntityType::GlobalFungibleResource | EntityType::GlobalNonFungibleResource)
    }

    pub fn is_global_virtual(&self) -> (r: bool)
        ensures
            r == spec_is_global_virtual(*self),
    {
        matches!(
            self,
            EntityType::GlobalVirtualSecp256k1Account | EntityType::GlobalVirtualEd25519Account
                | EntityType::GlobalVirtualSecp256k1Identity
                | EntityType::GlobalVirtualEd25519Identity
        )
    }

    pub fn is_global_fungible_resource(&self) -> (r: bool)
        ensures
            r == (*self == EntityType::GlobalFungibleResource),
    {
        matches!(self, EntityType::GlobalFungibleResource)
    }

    pub fn is_internal_kv_store(&self) -> (r: bool)
        ensures
            r == (*self == EntityType::InternalKeyValueStore),
    {
        matches!(self, EntityType::InternalKeyValueStore)
    }

    pub fn is_internal_fungible_vault(&self) -> (r: bool)
        ensures
            r == (*self == EntityType::InternalFungibleVault),
    {
        matches!(self, EntityType::InternalFungibleVault)
    }

    pub fn is_internal_vault(&self) -> (r: bool)
        ensures
            r == (*self == EntityType::InternalFungibleVault || *self
                == EntityType::InternalNonFungibleVault),
    {
        matches!(self, EntityType::InternalFungibleVault | EntityType::InternalNonFungibleVault)
    }
}

/// Distinct entity types carry distinct tags, so a tag names its type.
pub proof fn lemma_tag_injective(a: EntityType, b: EntityType)
    ensures
        tag_of(a) == tag_of(b) ==> a == b,
{
}

} // verus!
