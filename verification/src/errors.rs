//! The error kinds that the engine and its collaborators surface.

use vstd::prelude::*;

verus! {

/// Everything that can go wrong while loading configuration, parsing
/// migrations, building a plan, or talking to the database.
///
/// The variants that wrap an underlying failure (`IoError`, `TomlError`,
/// `DbError`, `EnvError`) carry the collaborator's message as plain text;
/// turning an I/O or database error into that text is the caller's job.
#[derive(Debug)]
pub enum Error {
    /// Configuration neither in `movine.toml` nor in the environment.
    ConfigNotFound,
    /// Postgres was selected but some required parameters are missing.
    /// Each flag is `true` when that parameter is missing.
    PgParamError { user: bool, password: bool, database: bool, host: bool, port: bool },
    /// Sqlite was selected but the `file` parameter is missing.
    SqliteParamError { file: bool },
    /// Malformed directory name, empty migration name, or duplicate keys.
    BadMigration,
    /// A divergent or variant migration blocks the requested forward operation.
    DirtyHistory,
    /// No adaptor section was selected in the configuration.
    AdaptorNotFound,
    Unknown,
    IoError(String),
    TomlError(String),
    DbError(String),
    EnvError(String),
}

} // verus!
