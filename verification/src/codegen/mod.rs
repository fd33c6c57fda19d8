//! Preparing a palette from its source tables.

pub mod enums;
pub mod hierarchy;
pub mod ident_laws;
pub mod idents;
pub mod ledger;
pub mod ledger_file;
pub mod ledger_laws;
pub mod options;
pub mod plan;
pub mod plan_laws;
pub mod record_laws;
pub mod run_laws;
pub mod table_laws;
pub mod variants;
