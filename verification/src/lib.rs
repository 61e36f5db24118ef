//! A privacy-preserving analytics engine for a statically hosted site.
//!
//! Every successful request is anonymized ([`analytics`]), durably recorded
//! against running per-path counters without double-counting a visitor's
//! first visit ([`store`], with its mathematical model in [`model`] and the
//! multi-call laws in [`laws`]), and served back as time-bucketed usage
//! graphs ([`graph`]) and a paginated, orderable path catalog ([`order`]).
//! Process settings are validated in [`config`].

pub mod analytics;
pub mod config;
pub mod graph;
pub mod laws;
pub mod model;
pub mod order;
pub mod store;
