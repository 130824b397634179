//! A streaming store for versioned item payloads: one append-only writer per
//! item, any number of tail-following readers, and monotonic version admission.

pub mod error;
pub mod items;
pub mod metadata;
pub mod registry;
pub mod object;
pub mod store;
pub mod logic;
pub mod framing;
