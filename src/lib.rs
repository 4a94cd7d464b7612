//! Wire payloads for a small HTML page server that streams one
//! Datastar fragment-merge event over server-sent events.
//!
//! `lines` gives the line-splitting rule on text, `payload` builds the
//! line-tagged data block of the event and states its laws.
pub mod lines;
pub mod payload;
