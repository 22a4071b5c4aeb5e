use movine::migration::{
    generate_migration, hash_sql, init_migration, key_string, parse_key, stamp_from_parts,
    Migration, MigrationBuilder, Stamp,
};

fn stamp(year: u32, month: u32, day: u32) -> Stamp {
    Stamp { year, month, day, hour: 0, minute: 0, second: 0 }
}

#[test]
fn hash_of_empty_payload_is_the_offset_basis() {
    assert_eq!(hash_sql(""), 0xcbf29ce484222325);
}

#[test]
fn hash_of_known_payloads() {
    assert_eq!(hash_sql("a"), 0xaf63dc4c8601ec8c);
    assert_eq!(hash_sql("CREATE TABLE t (a);"), 0xff6d3e47048d0154);
}

#[test]
fn hash_is_deterministic_and_content_addressed() {
    assert_eq!(hash_sql("CREATE TABLE a;"), hash_sql("CREATE TABLE a;"));
    assert_ne!(hash_sql("CREATE TABLE a;"), hash_sql("CREATE TABLE b;"));
}

#[test]
fn builder_computes_hashes_of_present_payloads() {
    let m = MigrationBuilder::new()
        .name("add_users")
        .date(stamp(2023, 1, 2))
        .up_sql("CREATE TABLE users;")
        .down_sql("DROP TABLE users;")
        .build()
        .unwrap();
    assert_eq!(m.name, "add_users");
    assert_eq!(m.up_hash, Some(hash_sql("CREATE TABLE users;")));
    assert_eq!(m.down_hash, Some(hash_sql("DROP TABLE users;")));
    assert_eq!(m.up_sql.as_deref(), Some("CREATE TABLE users;"));
    assert_eq!(m.down_sql.as_deref(), Some("DROP TABLE users;"));
}

#[test]
fn builder_leaves_hashes_absent_for_stubs() {
    let m = MigrationBuilder::new()
        .name("stub")
        .date(stamp(2024, 6, 30))
        .build()
        .unwrap();
    assert!(m.up_sql.is_none());
    assert!(m.down_sql.is_none());
    assert!(m.up_hash.is_none());
    assert!(m.down_hash.is_none());
}

#[test]
fn builder_rejects_empty_name() {
    let r = MigrationBuilder::new().name("").date(stamp(2023, 1, 2)).build();
    assert!(matches!(r, Err(movine::errors::Error::BadMigration)));
}

#[test]
fn builder_rejects_missing_name_or_date() {
    assert!(MigrationBuilder::new().date(stamp(2023, 1, 2)).build().is_err());
    assert!(MigrationBuilder::new().name("x").build().is_err());
}

#[test]
fn builder_rejects_unrenderable_stamp() {
    let bad = Stamp { year: 2023, month: 13, day: 1, hour: 0, minute: 0, second: 0 };
    let r = MigrationBuilder::new().name("x").date(bad).build();
    assert!(matches!(r, Err(movine::errors::Error::BadMigration)));
}

#[test]
fn key_renders_zero_padded() {
    let st = Stamp { year: 2023, month: 1, day: 2, hour: 3, minute: 4, second: 5 };
    assert_eq!(key_string(&st, "add_users"), "2023-01-02-030405_add_users");
}

#[test]
fn init_migration_is_keyed_at_the_epoch() {
    let m = init_migration("CREATE TABLE movine_migrations;", "DROP TABLE movine_migrations;");
    assert_eq!(m.name, "movine_init");
    assert_eq!(key_string(&m.stamp, &m.name), "1970-01-01-000000_movine_init");
}

#[test]
fn parse_key_round_trips_a_rendered_key() {
    let (st, name) = parse_key("2023-01-02-030405_add_users").unwrap();
    assert_eq!(st, Stamp { year: 2023, month: 1, day: 2, hour: 3, minute: 4, second: 5 });
    assert_eq!(name, "add_users");
    assert_eq!(key_string(&st, &name), "2023-01-02-030405_add_users");
}

#[test]
fn parse_key_keeps_underscores_in_the_name() {
    let (_, name) = parse_key("1970-01-01-000000_movine_init").unwrap();
    assert_eq!(name, "movine_init");
}

#[test]
fn parse_key_rejects_malformed_names() {
    assert!(parse_key("").is_none());
    assert!(parse_key("not_a_key").is_none());
    assert!(parse_key("2023-01-02-030405").is_none());
    assert!(parse_key("2023-01-02-030405_").is_none());
    assert!(parse_key("2023-13-02-030405_x").is_none());
    assert!(parse_key("2023-01-02_030405_x").is_none());
    assert!(parse_key("20a3-01-02-030405_x").is_none());
}

#[test]
fn stamp_from_parts_validates_ranges() {
    assert!(stamp_from_parts(2023, 1, 2, 3, 4, 5).is_some());
    assert!(stamp_from_parts(-1, 1, 2, 3, 4, 5).is_none());
    assert!(stamp_from_parts(10000, 1, 2, 3, 4, 5).is_none());
    assert!(stamp_from_parts(2023, 0, 2, 3, 4, 5).is_none());
    assert!(stamp_from_parts(2023, 1, 2, 24, 4, 5).is_none());
}

#[test]
fn stamps_order_by_components() {
    let a = stamp(2023, 1, 1);
    let b = stamp(2023, 2, 1);
    assert!(a.lt(&b));
    assert!(!b.lt(&a));
    assert!(!a.lt(&a));
}

#[test]
fn migrations_clone_equal() {
    let m = MigrationBuilder::new()
        .name("x")
        .date(stamp(2023, 1, 2))
        .up_sql("u")
        .build()
        .unwrap();
    let c: Migration = m.clone();
    assert_eq!(c, m);
}

#[test]
fn generate_builds_a_stub_keyed_by_the_clock() {
    let m = generate_migration("add_users").unwrap();
    assert_eq!(m.name, "add_users");
    assert!(m.up_sql.is_none() && m.down_sql.is_none());
    // the rendered key parses back to the same identity
    let key = key_string(&m.stamp, &m.name);
    let (st, name) = parse_key(&key).unwrap();
    assert_eq!(st, m.stamp);
    assert_eq!(name, m.name);
}

#[test]
fn generate_rejects_an_empty_name() {
    assert!(matches!(
        generate_migration(""),
        Err(movine::errors::Error::BadMigration)
    ));
}

#[test]
fn names_may_carry_any_characters() {
    let m = MigrationBuilder::new()
        .name("caf\u{e9}_menu")
        .date(stamp(2023, 5, 6))
        .up_sql("u")
        .build()
        .unwrap();
    let key = key_string(&m.stamp, &m.name);
    assert_eq!(key, "2023-05-06-000000_caf\u{e9}_menu");
    let (st, name) = parse_key(&key).unwrap();
    assert_eq!(st, m.stamp);
    assert_eq!(name, "caf\u{e9}_menu");
}
