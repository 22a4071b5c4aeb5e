use movine::adaptor::{Adaptor, Config, DbAdaptor, RawPostgresParams, RawSqliteParams,
    SelectedAdaptor};
use movine::errors::Error;
use movine::match_maker::Status;
use movine::migration::{init_migration, key_string, Migration};
use movine::plan_builder::{PlanBuilder, Step};

fn pg_raw() -> RawPostgresParams {
    RawPostgresParams {
        user: Some("u".to_string()),
        password: Some("p".to_string()),
        database: Some("db".to_string()),
        host: Some("h".to_string()),
        port: Some(5432),
    }
}

#[test]
fn load_prefers_postgres_when_both_sections_exist() {
    let config = Config {
        postgres: Some(pg_raw()),
        sqlite: Some(RawSqliteParams { file: Some("f.db".to_string()) }),
    };
    let selected = Adaptor::load(config).unwrap();
    assert!(matches!(selected, SelectedAdaptor::Postgres(_)));
}

#[test]
fn load_selects_sqlite_when_postgres_is_absent() {
    let config = Config {
        postgres: None,
        sqlite: Some(RawSqliteParams { file: Some("f.db".to_string()) }),
    };
    match Adaptor::load(config).unwrap() {
        SelectedAdaptor::Sqlite(params) => assert_eq!(params.file, "f.db"),
        other => panic!("expected sqlite, got {:?}", other),
    }
}

#[test]
fn load_reports_each_missing_postgres_param() {
    let mut raw = pg_raw();
    raw.password = None;
    raw.port = None;
    let config = Config { postgres: Some(raw), sqlite: None };
    match Adaptor::load(config) {
        Err(Error::PgParamError { user, password, database, host, port }) => {
            assert!(!user && password && !database && !host && port);
        },
        other => panic!("expected PgParamError, got {:?}", other),
    }
}

#[test]
fn load_reports_a_missing_sqlite_file() {
    let config = Config { postgres: None, sqlite: Some(RawSqliteParams { file: None }) };
    assert!(matches!(
        Adaptor::load(config),
        Err(Error::SqliteParamError { file: true })
    ));
}

#[test]
fn load_fails_without_any_adaptor_section() {
    let config = Config { postgres: None, sqlite: None };
    assert!(matches!(Adaptor::load(config), Err(Error::AdaptorNotFound)));
}

/// An in-memory adaptor: keeps the tracking rows in a vector, as the real
/// adaptors keep them in the tracking table.
struct FakeAdaptor {
    rows: Vec<Migration>,
    fail_on: Option<String>,
}

impl FakeAdaptor {
    fn new() -> Self {
        FakeAdaptor { rows: Vec::new(), fail_on: None }
    }
}

impl DbAdaptor for FakeAdaptor {
    fn init_up_sql(&self) -> &'static str {
        "CREATE TABLE movine_migrations;"
    }

    fn init_down_sql(&self) -> &'static str {
        "DROP TABLE movine_migrations;"
    }

    fn load_migrations(&mut self) -> Result<Vec<Migration>, Error> {
        Ok(self
            .rows
            .iter()
            .map(|m| Migration {
                name: m.name.clone(),
                stamp: m.stamp,
                up_sql: None,
                down_sql: m.down_sql.clone(),
                up_hash: m.up_hash,
                down_hash: m.down_hash,
            })
            .collect())
    }

    fn run_up_migration(&mut self, migration: &Migration) -> Result<(), Error> {
        if self.fail_on.as_deref() == Some(migration.name.as_str()) {
            return Err(Error::DbError("forced failure".to_string()));
        }
        if migration.up_sql.is_none() {
            return Err(Error::BadMigration);
        }
        self.rows.push(migration.clone());
        Ok(())
    }

    fn run_down_migration(&mut self, migration: &Migration) -> Result<(), Error> {
        if migration.down_sql.is_none() {
            return Err(Error::BadMigration);
        }
        self.rows.retain(|m| !(m.stamp == migration.stamp && m.name == migration.name));
        Ok(())
    }
}

#[test]
fn fresh_init_applies_the_bootstrap_migration() {
    // L and D empty; init writes the bootstrap migration and applies it
    let mut adaptor = FakeAdaptor::new();
    let init = init_migration(adaptor.init_up_sql(), adaptor.init_down_sql());
    let plan = PlanBuilder::new()
        .local_migrations(vec![init])
        .db_migrations(vec![])
        .up()
        .unwrap();
    adaptor.run_migration_plan(&plan).unwrap();
    assert_eq!(adaptor.rows.len(), 1);
    let row = &adaptor.rows[0];
    assert_eq!(
        key_string(&row.stamp, &row.name),
        "1970-01-01-000000_movine_init"
    );
}

#[test]
fn a_round_trip_leaves_the_database_empty() {
    let mut adaptor = FakeAdaptor::new();
    let init = init_migration(adaptor.init_up_sql(), adaptor.init_down_sql());
    let up = PlanBuilder::new()
        .local_migrations(vec![init.clone()])
        .db_migrations(vec![])
        .up()
        .unwrap();
    adaptor.run_migration_plan(&up).unwrap();
    // a second up plans nothing
    let again = PlanBuilder::new()
        .local_migrations(vec![init.clone()])
        .db_migrations(adaptor.load_migrations().unwrap())
        .up()
        .unwrap();
    assert!(again.is_empty());
    // and the full down empties the tracking table
    let down = PlanBuilder::new()
        .local_migrations(vec![init])
        .db_migrations(adaptor.load_migrations().unwrap())
        .down()
        .unwrap();
    adaptor.run_migration_plan(&down).unwrap();
    assert!(adaptor.rows.is_empty());
}

#[test]
fn after_apply_the_status_is_applied() {
    let mut adaptor = FakeAdaptor::new();
    let init = init_migration(adaptor.init_up_sql(), adaptor.init_down_sql());
    let up = PlanBuilder::new()
        .local_migrations(vec![init.clone()])
        .db_migrations(vec![])
        .up()
        .unwrap();
    adaptor.run_migration_plan(&up).unwrap();
    let status = PlanBuilder::new()
        .local_migrations(vec![init])
        .db_migrations(adaptor.load_migrations().unwrap())
        .status()
        .unwrap();
    assert_eq!(status.len(), 1);
    assert!(matches!(status[0].status, Status::Applied));
}

#[test]
fn a_failing_step_stops_the_plan() {
    let mut adaptor = FakeAdaptor::new();
    adaptor.fail_on = Some("movine_init".to_string());
    let init = init_migration(adaptor.init_up_sql(), adaptor.init_down_sql());
    let plan = vec![(Step::Up, init)];
    assert!(adaptor.run_migration_plan(&plan).is_err());
    assert!(adaptor.rows.is_empty());
}
