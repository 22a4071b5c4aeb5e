use movine::match_maker::{matchmake, Match, Status};
use movine::migration::{hash_sql, Migration, MigrationBuilder, Stamp};

fn local(key_month: u32, name: &str, up: &str, down: &str) -> Migration {
    MigrationBuilder::new()
        .name(name)
        .date(Stamp { year: 2023, month: key_month, day: 1, hour: 0, minute: 0, second: 0 })
        .up_sql(up)
        .down_sql(down)
        .build()
        .unwrap()
}

/// The record the adaptor would return for an applied migration: no up-SQL,
/// but the hashes recorded at apply time and the stored down-SQL.
fn db_row(m: &Migration) -> Migration {
    Migration {
        name: m.name.clone(),
        stamp: m.stamp,
        up_sql: None,
        down_sql: m.down_sql.clone(),
        up_hash: m.up_hash,
        down_hash: m.down_hash,
    }
}

fn statuses(ms: &[Match]) -> Vec<Status> {
    ms.iter().map(|m| m.status).collect()
}

#[test]
fn empty_inputs_give_an_empty_history() {
    let ms = matchmake(vec![], vec![]).unwrap();
    assert!(ms.is_empty());
}

#[test]
fn local_only_is_unapplied() {
    let m1 = local(1, "a", "u1", "d1");
    let ms = matchmake(vec![m1], vec![]).unwrap();
    assert_eq!(statuses(&ms), vec![Status::Unapplied]);
    assert!(ms[0].local.is_some());
    assert!(ms[0].db.is_none());
}

#[test]
fn db_only_is_variant() {
    let m1 = local(1, "a", "u1", "d1");
    let ms = matchmake(vec![], vec![db_row(&m1)]).unwrap();
    assert_eq!(statuses(&ms), vec![Status::Variant]);
    assert!(ms[0].local.is_none());
    assert!(ms[0].db.is_some());
}

#[test]
fn matching_hashes_classify_applied() {
    let m1 = local(1, "a", "u1", "d1");
    let row = db_row(&m1);
    let ms = matchmake(vec![m1], vec![row]).unwrap();
    assert_eq!(statuses(&ms), vec![Status::Applied]);
}

#[test]
fn differing_up_hashes_classify_divergent() {
    let m1 = local(1, "a", "u1-edited", "d1");
    let mut row = db_row(&m1);
    row.up_hash = Some(hash_sql("u1"));
    let ms = matchmake(vec![m1], vec![row]).unwrap();
    assert_eq!(statuses(&ms), vec![Status::Divergent]);
}

#[test]
fn differing_down_hashes_classify_divergent() {
    let m1 = local(1, "a", "u1", "d1-edited");
    let mut row = db_row(&m1);
    row.down_hash = Some(hash_sql("d1"));
    let ms = matchmake(vec![m1], vec![row]).unwrap();
    assert_eq!(statuses(&ms), vec![Status::Divergent]);
}

#[test]
fn absent_down_hash_on_one_side_still_matches() {
    let m1 = local(1, "a", "u1", "d1");
    let mut row = db_row(&m1);
    row.down_hash = None;
    let ms = matchmake(vec![m1], vec![row]).unwrap();
    assert_eq!(statuses(&ms), vec![Status::Applied]);
}

#[test]
fn matchmake_sorts_ascending_and_covers_every_input() {
    let m1 = local(1, "a", "u1", "d1");
    let m2 = local(2, "b", "u2", "d2");
    let m3 = local(3, "c", "u3", "d3");
    // locals out of order, db holds the middle one
    let ms = matchmake(vec![m3.clone(), m1.clone()], vec![db_row(&m2)]).unwrap();
    assert_eq!(ms.len(), 3);
    assert_eq!(
        statuses(&ms),
        vec![Status::Unapplied, Status::Variant, Status::Unapplied]
    );
    assert_eq!(ms[0].local.as_ref().unwrap().name, "a");
    assert_eq!(ms[1].db.as_ref().unwrap().name, "b");
    assert_eq!(ms[2].local.as_ref().unwrap().name, "c");
}

#[test]
fn equal_stamps_break_ties_by_name() {
    let ma = local(1, "alpha", "u", "d");
    let mb = local(1, "beta", "u", "d");
    let ms = matchmake(vec![mb, ma], vec![]).unwrap();
    assert_eq!(ms[0].local.as_ref().unwrap().name, "alpha");
    assert_eq!(ms[1].local.as_ref().unwrap().name, "beta");
}

#[test]
fn duplicate_local_keys_fail() {
    let m1 = local(1, "a", "u1", "d1");
    let m1_again = local(1, "a", "other", "other");
    let r = matchmake(vec![m1, m1_again], vec![]);
    assert!(matches!(r, Err(movine::errors::Error::BadMigration)));
}

#[test]
fn duplicate_db_keys_fail() {
    let m1 = local(1, "a", "u1", "d1");
    let r = matchmake(vec![], vec![db_row(&m1), db_row(&m1)]);
    assert!(matches!(r, Err(movine::errors::Error::BadMigration)));
}
