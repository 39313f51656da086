//! Boot-entry reconciliation, the recents ledger and the open-workspace state
//! for a manager of chained virtual-disk boot images.

pub mod bcd;
pub mod commands;
pub mod logging;
pub mod normal_laws;
pub mod recents;
pub mod recents_laws;
pub mod state;
pub mod text;
