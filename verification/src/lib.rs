//! A minimal per-account list store.
//!
//! Each account identifier owns at most one ordered list of text items,
//! each item paired with a completion flag. A write replaces the whole
//! list for the caller's own key; a read returns the stored list, or a
//! one-item placeholder list for an account that never wrote one.
//!
//! The `store` module holds the mapping itself, the `items` module the
//! item views and the pairing rule for the two parallel input vectors,
//! and the `codec` module a byte encoding of a list for a host that
//! persists values as raw bytes.

pub mod codec;
pub mod items;
pub mod laws;
pub mod store;
