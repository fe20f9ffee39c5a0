//! Ticket price tracking for concerts, theatre and stand-up events: the data model, the
//! comparison of a scan against the stored state, the cross-site matching of events, the
//! notification texts and the per-site parsing rules.

pub mod text;
pub mod keyed;
pub mod model;
pub mod config;
pub mod store;
pub mod diff;
pub mod matcher;
pub mod messages;
pub mod telegram;
pub mod http;
pub mod bot;
pub mod sources;
