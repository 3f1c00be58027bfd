use vstd::prelude::*;
use crate::auth_module::NonFungibleGlobalId;
use crate::types::NodeId;

verus! {

/// What went wrong reading the simulator's settings.
#[derive(Clone, Copy, Debug, PartialEq, Eq, Structural)]
pub enum ConfigError {
    NoDefaultAccount,
    NoDefaultPrivateKey,
    NoDefaultOwnerBadge,
}

/// The simulator's stored settings.
#[derive(Clone, Debug, Default)]
pub struct Configs {
    pub default_account: Option<NodeId>,
    pub default_private_key: Option<String>,
    pub default_owner_badge: Option<NonFungibleGlobalId>,
    pub nonce: u32,
}

pub fn get_default_account(configs: &Configs) -> (r: Result<NodeId, ConfigError>)
    ensures
        configs.default_account matches Some(a) ==> r == Ok::<NodeId, ConfigError>(a),
        configs.default_account is None ==> r == Err::<NodeId, ConfigError>(ConfigError::NoDefaultAccount),
{
    match configs.default_account {
        Some(a) => Ok(a),
        None => Err(ConfigError::NoDefaultAccount),
    }
}

/// The stored private key, in hex.
pub fn get_default_private_key(configs: &Configs) -> (r: Result<&String, ConfigError>)
    ensures
        configs.default_private_key matches Some(k) ==> r matches Ok(x) && *x == k,
        configs.default_private_key is None ==> r == Err::<&String, ConfigError>(ConfigError::NoDefaultPrivateKey),
{
    match &configs.default_private_key {
        Some(k) => Ok(k),
        None => Err(ConfigError::NoDefaultPrivateKey),
    }
}

pub fn get_default_owner_badge(configs: &Configs) -> (r: Result<NonFungibleGlobalId, ConfigError>)
    ensures
        configs.default_owner_badge matches Some(b) ==> r == Ok::<NonFungibleGlobalId, ConfigError>(b),
        configs.default_owner_badge is None ==> r == Err::<NonFungibleGlobalId, ConfigError>(ConfigError::NoDefaultOwnerBadge),
{
    match configs.default_owner_badge {
        Some(b) => Ok(b),
        None => Err(ConfigError::NoDefaultOwnerBadge),
    }
}

pub fn get_nonce(configs: &Configs) -> (r: u32)
    ensures
        r == configs.nonce,
{
    configs.nonce
}

} // verus!
