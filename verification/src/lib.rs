//! Core of a two-network chat relay: a hot-reloadable table of channel
//! bindings, a mention/identity cache, pure content formatting (inline
//! user-reference resolution and size-limited chunking), routing of inbound
//! events to outbound deliveries, and the decision logic for channel
//! reconciliation and channel listing.
//!
//! Network clients, process bootstrap, logging and configuration-file I/O
//! live outside this crate; everything here is pure logic over plain values,
//! verified against the contracts on each item.

pub mod config;
pub mod content;
pub mod format;
pub mod listing;
pub mod mention;
pub mod reload;
pub mod router;
