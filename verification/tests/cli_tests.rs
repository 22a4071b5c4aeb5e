use movine::cli::Opt;

#[test]
fn verbs_carry_their_flags() {
    let up = Opt::Up { number: Some(2), show_plan: true, debug: false };
    match up {
        Opt::Up { number, show_plan, debug } => {
            assert_eq!(number, Some(2));
            assert!(show_plan);
            assert!(!debug);
        },
        other => panic!("expected up, got {:?}", other),
    }
    let down = Opt::Down { number: None, show_plan: false, ignore_divergent: true, debug: false };
    assert!(matches!(
        down,
        Opt::Down { ignore_divergent: true, number: None, .. }
    ));
}

#[test]
fn generate_names_the_migration() {
    let opt = Opt::Generate { name: "add_users".to_string(), debug: false };
    match opt {
        Opt::Generate { name, .. } => assert_eq!(name, "add_users"),
        other => panic!("expected generate, got {:?}", other),
    }
}
