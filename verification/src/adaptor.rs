//! The database adaptor: selection from configuration, and the capability
//! set the engine needs from a concrete database.

use vstd::prelude::*;

use crate::errors::Error;
use crate::migration::Migration;
use crate::plan_builder::Step;

verus! {

/// Connection parameters as they arrive from the configuration file or the
/// environment, each possibly missing.
#[derive(Debug)]
pub struct RawPostgresParams {
    pub user: Option<String>,
    pub password: Option<String>,
    pub database: Option<String>,
    pub host: Option<String>,
    pub port: Option<u16>,
}

#[derive(Debug)]
pub struct RawSqliteParams {
    pub file: Option<String>,
}

/// Validated Postgres parameters: every field present.
#[derive(Debug)]
pub struct PostgresParams {
    pub user: String,
    pub password: String,
    pub database: String,
    pub host: String,
    pub port: u16,
}

/// Validated Sqlite parameters.
#[derive(Debug)]
pub struct SqliteParams {
    pub file: String,
}

/// The parsed configuration: at most one adaptor section present.
#[derive(Debug)]
pub struct Config {
    pub postgres: Option<RawPostgresParams>,
    pub sqlite: Option<RawSqliteParams>,
}

/// The adaptor the configuration selects, with its validated parameters.
#[derive(Debug)]
pub enum SelectedAdaptor {
    Postgres(PostgresParams),
    Sqlite(SqliteParams),
}

pub struct Adaptor {}

} // verus!

verus! {

impl RawPostgresParams {
    /// Every required parameter is present.
    pub open spec fn complete(self) -> bool {
        self.user is Some && self.password is Some && self.database is Some && self.host is Some
            && self.port is Some
    }
}

impl RawSqliteParams {
    pub open spec fn complete(self) -> bool {
        self.file is Some
    }
}

/// What loading a configuration yields: Postgres when its section is
/// present, otherwise Sqlite, otherwise `AdaptorNotFound`; a selected
/// section with missing parameters fails with the error that marks each
/// missing key.
pub open spec fn spec_load(config: Config) -> Result<SelectedAdaptor, Error> {
    match config.postgres {
        Some(p) => if p.complete() {
            Ok(
                SelectedAdaptor::Postgres(
                    PostgresParams {
                        user: p.user->Some_0,
                        password: p.password->Some_0,
                        database: p.database->Some_0,
                        host: p.host->Some_0,
                        port: p.port->Some_0,
                    },
                ),
            )
        } else {
            Err(
                Error::PgParamError {
                    user: p.user is None,
                    password: p.password is None,
                    database: p.database is None,
                    host: p.host is None,
                    port: p.port is None,
                },
            )
        },
        None => match config.sqlite {
            Some(s) => match s.file {
                Some(file) => Ok(SelectedAdaptor::Sqlite(SqliteParams { file })),
                None => Err(Error::SqliteParamError { file: true }),
            },
            None => Err(Error::AdaptorNotFound),
        },
    }
}

impl Adaptor {
    /// Selects the adaptor the configuration names, validating its
    /// parameters; see [`spec_load`].
    pub fn load(config: Config) -> (r: Result<SelectedAdaptor, Error>)
        ensures
            r == spec_load(config),
    {
        match config {
            Config { postgres: Some(params), .. } => {
                let missing_user = params.user.is_none();
                let missing_password = params.password.is_none();
                let missing_database = params.database.is_none();
                let missing_host = params.host.is_none();
                let missing_port = params.port.is_none();
                match (params.user, params.password, params.database, params.host, params.port) {
                    (Some(user), Some(password), Some(database), Some(host), Some(port)) => Ok(
                        SelectedAdaptor::Postgres(
                            PostgresParams { user, password, database, host, port },
                        ),
                    ),
                    _ => Err(
                        Error::PgParamError {
                            user: missing_user,
                            password: missing_password,
                            database: missing_database,
                            host: missing_host,
                            port: missing_port,
                        },
                    ),
                }
            },
            Config { sqlite: Some(params), .. } => {
                match params.file {
                    Some(file) => Ok(SelectedAdaptor::Sqlite(SqliteParams { file })),
                    None => Err(Error::SqliteParamError { file: true }),
                }
            },
            _ => Err(Error::AdaptorNotFound),
        }
    }
}

/// The capability set the engine needs from a concrete database: the
/// tracking-table DDL, the recorded migrations, and one transaction per up
/// or down step. The implementations live with the database drivers, outside
/// the library, so nothing is promised of their results here.
pub trait DbAdaptor {
    fn init_up_sql(&self) -> &'static str;

    fn init_down_sql(&self) -> &'static str;

    fn load_migrations(&mut self) -> Result<Vec<Migration>, Error>;

    fn run_up_migration(&mut self, migration: &Migration) -> Result<(), Error>;

    fn run_down_migration(&mut self, migration: &Migration) -> Result<(), Error>;

    /// Runs a plan step by step, stopping at the first failure; an empty
    /// plan always succeeds.
    fn run_migration_plan(&mut self, plan: &Vec<(Step, Migration)>) -> (r: Result<(), Error>)
        ensures
            plan@.len() == 0 ==> r is Ok,
    {
        let n: usize = plan.len();
        let mut i: usize = 0;
        while i < n
            invariant
                0 <= i <= n,
                n == plan@.len(),
            decreases n - i,
        {
            let step = &plan[i];
            match step.0 {
                Step::Up => {
                    match self.run_up_migration(&step.1) {
                        Ok(()) => {},
                        Err(e) => {
                            return Err(e);
                        },
                    }
                },
                Step::Down => {
                    match self.run_down_migration(&step.1) {
                        Ok(()) => {},
                        Err(e) => {
                            return Err(e);
                        },
                    }
                },
            }
            i = i + 1;
        }
        Ok(())
    }
}

} // verus!
