//! Storage migration layer for handling data format evolution.

use crate::block::{FileHeader, VERSION};
use crate::storage::StoreError;
use vstd::prelude::*;

verus! {

/// Migration strategy for different storage versions.
pub trait Migration {
    /// The version this migration brings data to.
    fn target_version() -> u8;

    /// Migrates a file with the given header to the current version; `Ok(true)` when a
    /// migration was applied, `Ok(false)` when none was needed.
    fn migrate(header: FileHeader) -> Result<bool, StoreError>;
}

/// Compatibility migration for the v1 frame layout. v1 used the same framed
/// MessagePack block payloads; only the header version was missing the
/// explicit namespace/index contract. Loading it into the current in-memory
/// model is therefore a safe header upgrade.
pub struct V1ToCurrent;

impl Migration for V1ToCurrent {
    fn target_version() -> (v: u8)
        ensures
            v == VERSION,
    {
        VERSION
    }

    fn migrate(_header: FileHeader) -> (r: Result<bool, StoreError>)
        ensures
            r matches Ok(applied) && applied,
    {
        Ok(true)
    }
}

/// No-op migration for the current version.
pub struct CurrentVersion;

impl Migration for CurrentVersion {
    fn target_version() -> (v: u8)
        ensures
            v == VERSION,
    {
        VERSION
    }

    fn migrate(_header: FileHeader) -> (r: Result<bool, StoreError>)
        ensures
            r matches Ok(applied) && !applied,
    {
        Ok(false)
    }
}

/// Migration manager that applies the appropriate migration strategy.
pub struct MigrationManager;

impl MigrationManager {
    /// Whether a file with this header predates the current version.
    pub fn needs_migration(header: &FileHeader) -> (r: bool)
        ensures
            r == (header.version < VERSION),
    {
        header.version < VERSION
    }

    /// Applies the strategy for the header's version: version 0 is rejected as a bad
    /// header, version 1 is upgraded (`Ok(true)`), any other needs nothing (`Ok(false)`).
    pub fn migrate(header: FileHeader) -> (r: Result<bool, StoreError>)
        ensures
            header.version == 0 ==> r matches Err(StoreError::BadHeader),
            header.version == 1 ==> (r matches Ok(applied) && applied),
            header.version > 1 ==> (r matches Ok(applied) && !applied),
    {
        if header.version == 0 {
            Err(StoreError::BadHeader)
        } else if header.version == 1 {
            V1ToCurrent::migrate(header)
        } else {
            CurrentVersion::migrate(header)
        }
    }

    /// The oldest and newest versions that can be read: 1 through the current one.
    pub fn supported_versions() -> (r: (u8, u8))
        ensures
            r == (1u8, VERSION),
    {
        (1, VERSION)
    }
}

} // verus!
