//! Four small record stores that share one ordered, snapshot-restorable store: consent
//! records, partner entitlements, caller identity anchors and vault key pointers.

pub mod codec;
pub mod consent;
pub mod entitlements;
pub mod identity;
pub mod order;
pub mod store;
pub mod vault;
