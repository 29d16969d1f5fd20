//! Position-change detection for tracked trading wallets.
//!
//! The library models a wallet's open positions as fixed-point amounts
//! parsed leniently from the decimal strings a position-keeping provider
//! returns, remembers each wallet's last-known position set, classifies
//! the transitions between consecutive snapshots (opened, closed,
//! increased, decreased, margin adjusted, liquidated), and renders each
//! change as a notification message.

pub mod detect;
pub mod fixed;
pub mod laws;
pub mod poll;
pub mod positions;
pub mod render;
pub mod smap;
pub mod store;
pub mod wallets;
