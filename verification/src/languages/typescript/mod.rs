//! TypeScript: how both sides of TypeScript bindings spell modules,
//! imports, types and the values passed across the bridge.
pub mod callee;
pub mod caller;
