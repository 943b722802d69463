//! A fixed set of values kept on a ring of links, from which links are taken out and to
//! which they are given back.
//!
//! - [`lock_state`]: the lock word of a link, and the byte it is packed into.
//! - [`link`]: the places on the ring, and the handles that carry values off it.
//! - [`acquisition`]: taking the locks around a link, one attempt on one word at a time.
//! - [`exclusion`], [`scene`]: any number of parties that do so in turns.
//! - [`locking`], [`relink`], [`inspect`]: locking, taking off, putting on and looking at
//!   links by a party that has the ring to itself.
//! - [`ring`]: the order of the links on the ring.
//! - [`search`]: what a search by condition knows of each place.
//! - [`deque`]: the deque itself.
//! - [`laws`]: what holds of it over several calls.

pub mod acquisition;
pub mod deque;
pub mod exclusion;
pub mod inspect;
pub mod laws;
pub mod link;
pub mod lock_state;
pub mod locking;
pub mod relink;
pub mod ring;
pub mod scene;
pub mod search;

pub use crate::deque::AtomicDeque;
pub use crate::link::Link;
