//! A key-to-value store that logs every mutation, and an inverted index
//! that a replica derives from that log.
//!
//! The primary ([`primary`]) keeps the mapping and the append-only log of
//! [`event`]s. A replica ([`sync`]) fetches the log from its cursor on and
//! applies the events to its value-to-keys index ([`index`]), whose model
//! is in [`bucket`], [`transition`] and [`ranking`]. Lookups in the index
//! are exact or by [`similarity`]. That the index is the primary's mapping
//! turned round is shown in [`agreement`].

pub mod address;
pub mod agreement;
pub mod bucket;
pub mod event;
pub mod index;
pub mod primary;
pub mod ranking;
pub mod similarity;
pub mod sync;
pub mod transition;
