//! A verified in-memory inventory ledger: a product catalog keyed by name,
//! two append-only transaction logs (sales and purchases), and the derived
//! aggregates (total revenue, total purchase cost, profit).
//!
//! Prices are carried in integral minor units (for example cents), so all
//! arithmetic is exact integer arithmetic.

pub mod inventory;
pub mod laws;
pub mod model;
