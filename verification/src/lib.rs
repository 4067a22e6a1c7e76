//! Verified core of a Wi-Fi traffic observer: database key layout, range-scan
//! decisions, aggregation of frame counts, capture bookkeeping, API views and
//! the parser for the OUI vendor table.

pub mod order;
pub mod text;
pub mod keys;
pub mod scan;
pub mod records;
pub mod api;
pub mod series;
pub mod oui;
pub mod web;
