//! Accounting library for cryptocurrency transaction activity: lots, movements,
//! cost basis, proceeds, like-kind treatment and the reports built from them.

pub mod dec;
pub mod decimal_utils;
pub mod date;
pub mod strings;
pub mod errors;
pub mod account;
pub mod transaction;
pub mod costing_method;
pub mod core_functions;
pub mod ledger;
pub mod create_lots_mvmts;
pub mod import_cost_proceeds_etc;
pub mod csv_import_accts_txns;
pub mod cli_user_choices;
pub mod setup;
pub mod wizard;
pub mod export_je;
pub mod reports;
pub mod tui;
pub mod mytui;
