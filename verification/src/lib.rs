//! Poll-driven concurrency primitives: a race combinator that resolves to the
//! first of a fixed set of operations to complete, and a dynamic multiplexer
//! (`StreamGroup`) that merges a growable set of item producers into one.
//!
//! Both primitives are driven step by step by their owner.  The operations
//! they own are modelled as deterministic scripted units of work, so that the
//! polling and membership logic — visit order, short-circuiting, completion
//! detection, automatic eviction — is fully specified and proved.

pub mod group;
pub mod op;
pub mod race;
