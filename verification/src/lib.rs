//! Metadata key-value layer: a structured-key codec over an injective,
//! reversible escaper, and a replicated key-value service contract with
//! sequence-number-gated conditional writes and atomic transactions.

pub mod errors;
pub mod escape;
pub mod key;
pub mod kv;
pub mod state_machine;
pub mod meta_node;
pub mod view_stmt;
