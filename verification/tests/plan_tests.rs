use movine::errors::Error;
use movine::migration::{hash_sql, Migration, MigrationBuilder, Stamp};
use movine::plan_builder::{PlanBuilder, Step};

fn mig(month: u32, name: &str, up: &str, down: &str) -> Migration {
    MigrationBuilder::new()
        .name(name)
        .date(Stamp { year: 2023, month, day: 1, hour: 0, minute: 0, second: 0 })
        .up_sql(up)
        .down_sql(down)
        .build()
        .unwrap()
}

fn db_row(m: &Migration) -> Migration {
    Migration {
        name: m.name.clone(),
        stamp: m.stamp,
        up_sql: None,
        down_sql: m.down_sql.clone(),
        up_hash: m.up_hash,
        down_hash: m.down_hash,
    }
}

fn names(plan: &[(Step, Migration)]) -> Vec<(Step, String)> {
    plan.iter().map(|(s, m)| (*s, m.name.clone())).collect()
}

#[test]
fn forward_apply_plans_everything_ascending() {
    // L = [M1, M2], D = empty: up plan is [Up M1, Up M2]
    let m1 = mig(1, "a", "u1", "d1");
    let m2 = mig(2, "b", "u2", "d2");
    let plan = PlanBuilder::new()
        .local_migrations(vec![m2, m1])
        .db_migrations(vec![])
        .up()
        .unwrap();
    assert_eq!(
        names(&plan),
        vec![(Step::Up, "a".to_string()), (Step::Up, "b".to_string())]
    );
    assert_eq!(plan[0].1.up_sql.as_deref(), Some("u1"));
}

#[test]
fn up_respects_the_count() {
    let m1 = mig(1, "a", "u1", "d1");
    let m2 = mig(2, "b", "u2", "d2");
    let plan = PlanBuilder::new()
        .local_migrations(vec![m1, m2])
        .db_migrations(vec![])
        .count(Some(1))
        .up()
        .unwrap();
    assert_eq!(names(&plan), vec![(Step::Up, "a".to_string())]);
}

#[test]
fn up_on_a_fully_applied_history_is_empty() {
    let m1 = mig(1, "a", "u1", "d1");
    let m2 = mig(2, "b", "u2", "d2");
    let db = vec![db_row(&m1), db_row(&m2)];
    let plan = PlanBuilder::new()
        .local_migrations(vec![m1, m2])
        .db_migrations(db)
        .up()
        .unwrap();
    assert!(plan.is_empty());
}

#[test]
fn divergence_blocks_up() {
    // L = [M1', M2] where M1' differs from the applied M1; D = [M1]
    let m1 = mig(1, "a", "u1", "d1");
    let m1_edited = mig(1, "a", "u1-edited", "d1");
    let m2 = mig(2, "b", "u2", "d2");
    let r = PlanBuilder::new()
        .local_migrations(vec![m1_edited, m2])
        .db_migrations(vec![db_row(&m1)])
        .up();
    assert!(matches!(r, Err(Error::DirtyHistory)));
}

#[test]
fn a_variant_behind_the_new_work_blocks_up() {
    let m1 = mig(1, "a", "u1", "d1");
    let m2 = mig(2, "b", "u2", "d2");
    let r = PlanBuilder::new()
        .local_migrations(vec![m2])
        .db_migrations(vec![db_row(&m1)])
        .up();
    assert!(matches!(r, Err(Error::DirtyHistory)));
}

#[test]
fn fix_unwinds_divergence_and_replays() {
    // same state as the blocked up: fix = [Down M1 (db), Up M1' (local), Up M2]
    let m1 = mig(1, "a", "u1", "d1");
    let m1_edited = mig(1, "a", "u1-edited", "d1");
    let m2 = mig(2, "b", "u2", "d2");
    let plan = PlanBuilder::new()
        .local_migrations(vec![m1_edited.clone(), m2])
        .db_migrations(vec![db_row(&m1)])
        .fix()
        .unwrap();
    assert_eq!(
        names(&plan),
        vec![
            (Step::Down, "a".to_string()),
            (Step::Up, "a".to_string()),
            (Step::Up, "b".to_string()),
        ]
    );
    // the down step carries the database's stored down-SQL
    assert_eq!(plan[0].1.down_sql.as_deref(), Some("d1"));
    assert_eq!(plan[0].1.up_sql, None);
    // the re-up uses the local, edited script
    assert_eq!(plan[1].1.up_sql.as_deref(), Some("u1-edited"));
}

#[test]
fn fix_stops_at_the_first_applied_entry() {
    let m1 = mig(1, "a", "u1", "d1");
    let m2 = mig(2, "b", "u2", "d2");
    let m2_edited = mig(2, "b", "u2-edited", "d2");
    let plan = PlanBuilder::new()
        .local_migrations(vec![m1.clone(), m2_edited])
        .db_migrations(vec![db_row(&m1), db_row(&m2)])
        .fix()
        .unwrap();
    assert_eq!(
        names(&plan),
        vec![(Step::Down, "b".to_string()), (Step::Up, "b".to_string())]
    );
}

#[test]
fn down_with_count_reverts_from_the_top() {
    // L = D = [M1, M2, M3] applied; down -n 2 = [Down M3, Down M2]
    let m1 = mig(1, "a", "u1", "d1");
    let m2 = mig(2, "b", "u2", "d2");
    let m3 = mig(3, "c", "u3", "d3");
    let db = vec![db_row(&m1), db_row(&m2), db_row(&m3)];
    let plan = PlanBuilder::new()
        .local_migrations(vec![m1, m2, m3])
        .db_migrations(db)
        .count(Some(2))
        .down()
        .unwrap();
    assert_eq!(
        names(&plan),
        vec![(Step::Down, "c".to_string()), (Step::Down, "b".to_string())]
    );
}

#[test]
fn down_reverts_variants_with_the_stored_down_sql() {
    // L = [M1], D = [M1, M2]: down = [Down M2 (from the tracking table), Down M1]
    let m1 = mig(1, "a", "u1", "d1");
    let m2 = mig(2, "b", "u2", "d2");
    let plan = PlanBuilder::new()
        .local_migrations(vec![m1.clone()])
        .db_migrations(vec![db_row(&m1), db_row(&m2)])
        .down()
        .unwrap();
    assert_eq!(
        names(&plan),
        vec![(Step::Down, "b".to_string()), (Step::Down, "a".to_string())]
    );
    assert_eq!(plan[0].1.down_sql.as_deref(), Some("d2"));
}

#[test]
fn ignore_divergent_omits_divergent_but_keeps_variants() {
    let m1 = mig(1, "a", "u1", "d1");
    let m1_edited = mig(1, "a", "u1-edited", "d1");
    let m2 = mig(2, "b", "u2", "d2");
    // M1 divergent, M2 variant
    let plan = PlanBuilder::new()
        .local_migrations(vec![m1_edited])
        .db_migrations(vec![db_row(&m1), db_row(&m2)])
        .ignore_divergent(true)
        .down()
        .unwrap();
    assert_eq!(names(&plan), vec![(Step::Down, "b".to_string())]);
}

#[test]
fn unapplied_entries_are_never_reverted() {
    let m1 = mig(1, "a", "u1", "d1");
    let m2 = mig(2, "b", "u2", "d2");
    let plan = PlanBuilder::new()
        .local_migrations(vec![m1.clone(), m2])
        .db_migrations(vec![db_row(&m1)])
        .down()
        .unwrap();
    assert_eq!(names(&plan), vec![(Step::Down, "a".to_string())]);
}

#[test]
fn redo_reverts_then_reapplies_the_top() {
    let m1 = mig(1, "a", "u1", "d1");
    let m2 = mig(2, "b", "u2", "d2");
    let db = vec![db_row(&m1), db_row(&m2)];
    let plan = PlanBuilder::new()
        .local_migrations(vec![m1, m2])
        .db_migrations(db)
        .redo()
        .unwrap();
    assert_eq!(
        names(&plan),
        vec![(Step::Down, "b".to_string()), (Step::Up, "b".to_string())]
    );
    // redo equals the down plan followed by the up plan over the same top
    assert_eq!(plan[0].1.down_sql.as_deref(), Some("d2"));
    assert_eq!(plan[1].1.up_sql.as_deref(), Some("u2"));
}

#[test]
fn redo_with_count_takes_the_descending_top() {
    let m1 = mig(1, "a", "u1", "d1");
    let m2 = mig(2, "b", "u2", "d2");
    let db = vec![db_row(&m1), db_row(&m2)];
    let plan = PlanBuilder::new()
        .local_migrations(vec![m1, m2])
        .db_migrations(db)
        .count(Some(2))
        .redo()
        .unwrap();
    assert_eq!(
        names(&plan),
        vec![
            (Step::Down, "b".to_string()),
            (Step::Down, "a".to_string()),
            (Step::Up, "a".to_string()),
            (Step::Up, "b".to_string()),
        ]
    );
}

#[test]
fn redo_fails_when_the_top_is_not_applied() {
    let m1 = mig(1, "a", "u1", "d1");
    let m2 = mig(2, "b", "u2", "d2");
    let r = PlanBuilder::new()
        .local_migrations(vec![m1.clone(), m2])
        .db_migrations(vec![db_row(&m1)])
        .redo();
    assert!(matches!(r, Err(Error::DirtyHistory)));
}

#[test]
fn status_returns_the_whole_classified_history() {
    let m1 = mig(1, "a", "u1", "d1");
    let m2 = mig(2, "b", "u2", "d2");
    let ms = PlanBuilder::new()
        .local_migrations(vec![m1.clone(), m2])
        .db_migrations(vec![db_row(&m1)])
        .status()
        .unwrap();
    assert_eq!(ms.len(), 2);
    assert!(matches!(ms[0].status, movine::match_maker::Status::Applied));
    assert!(matches!(ms[1].status, movine::match_maker::Status::Unapplied));
}

#[test]
fn divergent_down_hash_alone_still_blocks_up() {
    let m1 = mig(1, "a", "u1", "d1-edited");
    let m2 = mig(2, "b", "u2", "d2");
    let mut row = db_row(&m1);
    row.down_hash = Some(hash_sql("d1"));
    let r = PlanBuilder::new()
        .local_migrations(vec![m1, m2])
        .db_migrations(vec![row])
        .up();
    assert!(matches!(r, Err(Error::DirtyHistory)));
}
