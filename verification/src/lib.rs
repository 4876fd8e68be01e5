//! A typed access layer over a byte-oriented key-value store.
//!
//! The store itself ([`store::CandyStore`]) manages flat byte keys and byte
//! values together with ordered lists and index-stable queues. The typed
//! wrappers ([`map::CandyTypedStore`], [`list::CandyTypedList`],
//! [`deque::CandyTypedDeque`]) serialize typed keys and values into that flat
//! namespace, compose namespaced byte keys so that independent typed views
//! never collide, and re-type the results on the way out.
//!
//! Keys and values are passed by reference to their owned types (`&K`, `&V`);
//! borrowed stand-ins that encode to the same bytes (a string slice for a
//! string key, say) are not accepted, so a caller converts to the owned key
//! type first.

use vstd::prelude::*;

pub mod codec;
pub mod deque;
pub mod keys;
pub mod list;
pub mod map;
pub mod store;
pub mod table;
pub mod wire;

pub use codec::Codec;
pub use deque::CandyTypedDeque;
pub use keys::CandyTypedKey;
pub use list::CandyTypedList;
pub use map::CandyTypedStore;
pub use store::{CandyStore, ListCompactionParams};

verus! {

/// The error a typed operation reports when stored bytes do not parse as the
/// expected type (corruption, schema drift, or a type-tag collision). It is
/// never silently defaulted away.
#[derive(Clone, Copy, Debug, PartialEq, Eq, Structural)]
pub enum CandyError {
    Decode,
}

} // verus!
