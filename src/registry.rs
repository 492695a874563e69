//! Access levels and errors of the configuration registry.
use vstd::prelude::*;

verus! {

/// How much access things have
#[derive(Debug, PartialEq, Eq, Clone, Copy, Structural)]
pub enum RegistryAccess {
    Public,
    Lua,
    Private,
}

/// Error types that can happen
#[derive(Debug, PartialEq, Eq, Clone, Copy, Structural)]
pub enum RegistryError {
    /// The value in the registry could not be parsed
    InvalidJson,
    /// The registry key was not found
    KeyNotFound,
}

} // verus!
