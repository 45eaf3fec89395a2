//! A log-to-alert pipeline: a format template compiled into a line
//! extractor, per-process classification rules, and a correlation engine
//! that follows multi-step conditions per key and raises alerts.

pub mod alerter;
pub mod matcher;
pub mod parser;
pub mod pattern;
pub mod settings;
pub mod text;
