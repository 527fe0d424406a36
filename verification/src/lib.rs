//! Reader for the catalog and the business records of a QuickBooks `.qbw` file.
//!
//! A `.qbw` file is a page store whose pages are hidden under a fill. [`pages`]
//! takes the fill off; [`syscolumn`] finds the column definitions on the pages,
//! [`owner_bridge`] finds out which table they belong to, and [`schema`] puts both
//! together. [`records`], [`csv`], [`iif`] and [`export`] turn business records
//! into portable formats, [`verification`] checks what was exported, and the report
//! modules say in words what was found.

pub mod backref;
pub mod catalog_report;
pub mod csv;
pub mod date;
pub mod export;
pub mod iif;
pub mod layout;
pub mod money;
pub mod order;
pub mod owner_bridge;
pub mod pages;
pub mod records;
pub mod report;
pub mod schema;
pub mod schema_report;
pub mod syscolumn;
pub mod systable;
pub mod text;
pub mod verification;

pub use catalog_report::{
    AttributionGap, CrossValidation, FkEdge, NullsFlagBucket, SysIndexEntry, ValidationStats,
};
pub use owner_bridge::{
    bridge_owners_via_backref, extend_with_sysobject, BackrefVotes, BridgeSource, OwnerBridge,
    BACKREF_MAX_DISTANCE, BACKREF_MIN_DISTANCE, DEFAULT_BACKREF_DISTANCE,
};
pub use records::{AmountType, LineItem, TransactionHeader};
pub use schema::{recover_schema, schema_for, SchemaRecovery};
pub use syscolumn::{
    collect_unique as collect_unique_syscolumns, iter_syscolumns, scan_page as scan_syscolumn_page,
    SysColumn, SYSCOLUMN_TAG,
};
pub use systable::SysTableEntry;
