use vstd::prelude::*;
use crate::entity_type::{EntityType, tag_of};

verus! {

/// Number of indivisible units ("attos") in one whole unit of a [`Decimal`].
pub const ATTOS_PER_UNIT: i128 = 1_000_000_000_000_000_000;

/// A signed fixed-point number with 18 decimal places, held as a count of attos.
#[derive(Clone, Copy, Debug, PartialEq, Eq, Structural)]
pub struct Decimal {
    pub attos: i128,
}

impl Decimal {
    pub open spec fn view(&self) -> int {
        self.attos as int
    }

    pub fn zero() -> (r: Decimal)
        ensures
            r@ == 0,
    {
        Decimal { attos: 0 }
    }

    pub fn one() -> (r: Decimal)
        ensures
            r@ == ATTOS_PER_UNIT,
    {
        Decimal { attos: ATTOS_PER_UNIT }
    }

    pub fn from_attos(attos: i128) -> (r: Decimal)
        ensures
            r@ == attos,
    {
        Decimal { attos }
    }

    /// The decimal holding `units` whole units.
    pub fn from_units(units: i64) -> (r: Decimal)
        ensures
            r@ == units * ATTOS_PER_UNIT,
    {
        assert(-0x8000_0000_0000_0000 * 1_000_000_000_000_000_000 <= units * ATTOS_PER_UNIT
            <= 0x7fff_ffff_ffff_ffff * 1_000_000_000_000_000_000) by (nonlinear_arith)
            requires
                -0x8000_0000_0000_0000 <= units <= 0x7fff_ffff_ffff_ffff,
                ATTOS_PER_UNIT == 1_000_000_000_000_000_000,
        ;
        Decimal { attos: (units as i128) * ATTOS_PER_UNIT }
    }

    pub fn is_negative(&self) -> (r: bool)
        ensures
            r == (self@ < 0),
    {
        self.attos < 0
    }

    pub fn is_zero(&self) -> (r: bool)
        ensures
            r == (self@ == 0),
    {
        self.attos == 0
    }

    /// The sum, or `None` where it does not fit.
    pub fn safe_add(&self, other: Decimal) -> (r: Option<Decimal>)
        ensures
            r matches Some(d) ==> d@ == self@ + other@,
            r is None <==> !(i128::MIN <= self@ + other@ <= i128::MAX),
    {
        match self.attos.checked_add(other.attos) {
            Some(a) => Some(Decimal { attos: a }),
            None => None,
        }
    }

    /// The difference, or `None` where it does not fit.
    pub fn safe_sub(&self, other: Decimal) -> (r: Option<Decimal>)
        ensures
            r matches Some(d) ==> d@ == self@ - other@,
            r is None <==> !(i128::MIN <= self@ - other@ <= i128::MAX),
    {
        match self.attos.checked_sub(other.attos) {
            Some(a) => Some(Decimal { attos: a }),
            None => None,
        }
    }

    pub fn less_than(&self, other: &Decimal) -> (r: bool)
        ensures
            r == (self@ < other@),
    {
        self.attos < other.attos
    }
}

/// A 30-byte node identifier: the entity tag byte, then 29 payload bytes held
/// big-endian as a 13-byte high part and a 16-byte low part.
#[derive(Clone, Copy, Debug, PartialEq, Eq, Structural)]
pub struct NodeId {
    pub entity_byte: u8,
    pub high: u128,
    pub low: u128,
}

pub open spec fn node_id_wf(n: NodeId) -> bool {
    n.high < 0x100_0000_0000_0000_0000_0000_0000
}

impl NodeId {
    pub fn new(entity_type: EntityType, high: u128, low: u128) -> (r: NodeId)
        requires
            high < 0x100_0000_0000_0000_0000_0000_0000,
        ensures
            r.entity_byte == tag_of(entity_type),
            r.high == high,
            r.low == low,
            node_id_wf(r),
    {
        NodeId { entity_byte: entity_type.to_byte(), high, low }
    }

    /// The entity type named by the tag byte, if the byte is a known tag.
    pub fn entity_type(&self) -> (r: Option<EntityType>)
        ensures
            r matches Some(t) ==> tag_of(t) == self.entity_byte,
            r is None ==> forall|t: EntityType| tag_of(t) != self.entity_byte,
    {
        EntityType::from_repr(self.entity_byte)
    }

    pub fn is_global(&self) -> (r: bool)
        ensures
            r == exists|t: EntityType| tag_of(t) == self.entity_byte && crate::entity_type::spec_is_global(t),
    {
        match self.entity_type() {
            Some(t) => {
                proof {
                    assert forall|u: EntityType| tag_of(u) == self.entity_byte implies u == t by {
                        crate::entity_type::lemma_tag_injective(u, t);
                    }
                }
                t.is_global()
            },
            None => false,
        }
    }
}

/// The address of the native XRD token resource, the only resource fees are paid in.
pub fn radix_token() -> (r: NodeId)
    ensures
        r == spec_radix_token(),
{
    NodeId { entity_byte: 0x5d, high: 0, low: 0 }
}

pub open spec fn spec_radix_token() -> NodeId {
    NodeId { entity_byte: 0x5d, high: 0, low: 0 }
}

/// A quantity of one fungible resource, in transient form.
#[derive(Clone, Copy, Debug, PartialEq, Eq, Structural)]
pub struct FungibleResource {
    pub resource_address: NodeId,
    pub divisibility: u8,
    pub amount: Decimal,
}

impl FungibleResource {
    pub fn new_fungible(resource_address: NodeId, divisibility: u8, amount: Decimal) -> (r:
        FungibleResource)
        ensures
            r == (FungibleResource { resource_address, divisibility, amount }),
    {
        FungibleResource { resource_address, divisibility, amount }
    }

    pub fn resource_address(&self) -> (r: NodeId)
        ensures
            r == self.resource_address,
    {
        self.resource_address
    }

    pub fn amount(&self) -> (r: Decimal)
        ensures
            r == self.amount,
    {
        self.amount
    }

    /// Moves the whole amount out, leaving this resource empty.
    pub fn take_all(&mut self) -> (r: FungibleResource)
        ensures
            r == *old(self),
            *final(self) == (FungibleResource { amount: Decimal { attos: 0 }, ..*old(self) }),
    {
        let taken = *self;
        self.amount = Decimal { attos: 0 };
        taken
    }
}

} // verus!
