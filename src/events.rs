use vstd::prelude::*;
use crate::types::Decimal;

verus! {

/// A validator registered itself.
#[derive(Clone, Copy, Debug, PartialEq, Eq, Structural)]
pub struct RegisterValidatorEvent {}

/// A validator unregistered itself.
#[derive(Clone, Copy, Debug, PartialEq, Eq, Structural)]
pub struct UnregisterValidatorEvent {}

/// XRD was staked to a validator.
#[derive(Clone, Copy, Debug, PartialEq, Eq, Structural)]
pub struct StakeEvent {
    pub xrd_staked: Decimal,
}

/// Stake units were handed back to a validator.
#[derive(Clone, Copy, Debug, PartialEq, Eq, Structural)]
pub struct UnstakeEvent {
    pub stake_units: Decimal,
}

/// Unstaked XRD was claimed.
#[derive(Clone, Copy, Debug, PartialEq, Eq, Structural)]
pub struct ClaimXrdEvent {
    pub claimed_xrd: Decimal,
}

/// A validator changed whether it accepts delegated stake.
#[derive(Clone, Copy, Debug, PartialEq, Eq, Structural)]
pub struct UpdateAcceptingStakeDelegationStateEvent {
    pub accepts_delegation: bool,
}

} // verus!
