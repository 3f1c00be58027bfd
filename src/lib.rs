//! Core state machines of a deterministic ledger execution engine: typed node
//! identifiers and their byte encoding, fixed-point amounts, the system-loan fee
//! reserve, the transactional substate overlay (per-key states, locks,
//! force-writes, range-read watermarks, revert and diff), the system layer's
//! object creation, globalization and method resolution over that overlay,
//! resource managers, non-fungible buckets, access-rule evaluation against auth
//! zones, and time arithmetic.

pub mod entity_type;
pub mod types;
pub mod codec;
pub mod fee_reserve;
pub mod non_fungible_bucket;
pub mod track;
pub mod track_store;
pub mod auth;
pub mod resource_manager;
pub mod events;
pub mod roles;
pub mod auth_module;
pub mod config;
pub mod memory;
pub mod time;
pub mod system;
