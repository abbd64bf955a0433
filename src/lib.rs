//! A deduplicating, content-addressed backup engine: snapshot model, change
//! detection, content store layout, directory lock protocol.

pub mod backup;
pub mod cmd;
pub mod database;
pub mod fieldmap;
pub mod lock;
pub mod mount;
pub mod names;
pub mod paths;
pub mod scan;
pub mod session;
pub mod storage;
pub mod util;
