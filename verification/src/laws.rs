//! What the operations are for, said of all their inputs.
//!
//! The functions of the other modules say exactly what they return. Here it is
//! said what that means for whoever calls them: where a value stands on the
//! wire, how two calls relate, what a result never is. Each module speaks of
//! one part of the library.
use vstd::prelude::*;

pub mod announce;
pub mod attachments;
pub mod control;
pub mod ieee;
pub mod message;
pub mod msgpack;
pub mod node;
pub mod paper;
pub mod peering;
pub mod propagation;
pub mod propagation_client;
pub mod propagation_node;
pub mod propagation_store;
pub mod router;
pub mod snapshot;
pub mod ticket;

verus! {

/// A reader found `v`, and goes on at `q`.
pub open spec fn gives<T, E>(r: Result<(T, int), E>, v: T, q: int) -> bool {
    r matches Ok(x) && x.0 == v && x.1 == q
}

} // verus!
