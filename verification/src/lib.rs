//! Kassa-LT: the verified core of a single-device point-of-sale system.
//!
//! The library holds the rules of the shop: how product, category and tab
//! names are normalised, how tab selections are normalised, how a checkout
//! respects sales quotas, how categories and tabs are created, renamed and
//! deleted, how orders are exported, and what the backup and sync workers
//! decide. Persistence, the user interface and the network live outside
//! this crate.

pub mod backup_worker;
pub mod config;
pub mod database;
pub mod exports;
pub mod laws;
pub mod listing;
pub mod models;
pub mod orders;
pub mod sync;
pub mod tab_ids;
pub mod text;
