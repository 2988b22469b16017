//! Rewrites iCalendar documents for a relay: events that hold one of the
//! caller's keywords are dropped, and events that run over more than one
//! calendar date become all-day events.
//!
//! The rewrite is a function of the document and the keywords alone, and
//! every function of it carries its contract:
//!
//! - [`text`] cuts a text into lines and joins lines again;
//! - [`datetime`] reads the values of start and end properties;
//! - [`event`] holds one event, the keyword filter and the normalizer;
//! - [`engine`] scans a document and rewrites it, with
//!   [`modify_icalendar`] as its entry point;
//! - [`relay`] holds the decisions of the relay around the rewrite;
//! - [`laws`] proves what holds of the rewrite for every document.

pub mod datetime;
pub mod engine;
pub mod event;
pub mod laws;
pub mod relay;
pub mod text;

pub use datetime::parse_ical_datetime;
pub use engine::modify_icalendar;
pub use relay::generate_html;
