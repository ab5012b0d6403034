//! Ingestion, deduplication and retention of blocked-source events taken from
//! rotated firewall logs, kept in a delimited-text ledger sorted newest first.

pub mod clean;
pub mod entries;
pub mod extract;
pub mod ledger;
pub mod rows;
pub mod select;
pub mod text;
pub mod time;
