//! Static validation of scoped borrowing.
//!
//! A compiled program declares, through tagged type names that survive in its
//! binary, which scopes exist, which components each scope borrows or grants,
//! and which scopes call which. This crate decodes those declarations, gathers
//! them into a call graph and decides whether any scope could be entered while
//! a component it borrows is already held incompatibly.

pub mod check;
pub mod decoder;
pub mod scope;
pub mod validator;
