//! Scope-and-symbol resolution for a compiler whose callables come in an
//! off-chain form (producing a proof) and an optional on-chain "finalize"
//! companion. The table records function declarations per lexical scope,
//! resolves names with innermost-scope-wins shadowing, and associates
//! finalize metadata with asynchronous callables.

pub mod symbol;
pub mod table;
pub mod codec;
pub mod remove;
