use permafrost::usage::FrUsageTracker;

#[test]
fn parses_valid_fr_assignment() {
    let line = "let df = fr.read_csv(csv);";
    let result = FrUsageTracker::parse_fr_assignment(line);
    assert_eq!(result, Some(("df".to_string(), "read_csv".to_string())));
}

#[test]
fn ignores_non_fr_assignment() {
    let line = "let x = workbook.getSheet();";
    let result = FrUsageTracker::parse_fr_assignment(line);
    assert_eq!(result, None);
}

#[test]
fn handles_spacing_and_tabs() {
    let line = "   let    data =    fr.load();";
    let result = FrUsageTracker::parse_fr_assignment(line);
    assert_eq!(result, Some(("data".to_string(), "load".to_string())));
}

#[test]
fn ignores_invalid_assignment_format() {
    let line = "df = fr.read_csv(csv);";
    let result = FrUsageTracker::parse_fr_assignment(line);
    assert_eq!(result, None);
}

#[test]
fn tracks_direct_fr_call() {
    let main = r#"
            let df = fr.read_sheet(ws);
        "#;
    let tracker = FrUsageTracker::from_main(main);
    assert!(tracker.fr_calls.contains("read_sheet"));
    assert!(tracker.tracked_objects.contains_key("df"));
}

#[test]
fn detects_chained_method_calls() {
    let main = r#"
            let df = fr.read_csv(data);
            df.filter("col", v => v > 10).to_json();
        "#;
    let tracker = FrUsageTracker::from_main(main);
    assert!(tracker.fr_calls.contains("read_csv"));
    assert!(tracker.fr_calls.contains("filter"));
    assert!(tracker.fr_calls.contains("to_json"));
    assert_eq!(tracker.tracked_objects.get("df").unwrap().len(), 2);
}

#[test]
fn handles_multiline_method_chains() {
    let main = r#"
            let df = fr.read_csv(data);
            df
                .groupBy(["Dept"])
                .rename({ Dept: "Department" })
                .to_csv();
        "#;
    let tracker = FrUsageTracker::from_main(main);
    for method in ["groupBy", "rename", "to_csv"] {
        assert!(tracker.fr_calls.contains(method));
    }
}

#[test]
fn ignores_non_tracked_object_calls() {
    let main = r#"
            let x = workbook.getSheet();
            x.getRange().getValues();
        "#;
    let tracker = FrUsageTracker::from_main(main);
    assert!(tracker.fr_calls.is_empty());
}

#[test]
fn a_binding_needs_exactly_one_equals_sign() {
    assert_eq!(FrUsageTracker::parse_fr_assignment("let a = fr.f(x == y);"), None);
    assert_eq!(FrUsageTracker::parse_fr_assignment("let a fr.f();"), None);
    assert_eq!(FrUsageTracker::parse_fr_assignment("let = fr.f();"), None);
    assert_eq!(FrUsageTracker::parse_fr_assignment("const a = fr.f();"), None);
    assert_eq!(FrUsageTracker::parse_fr_assignment("let a = x.fr.f();"), None);
    assert_eq!(
        FrUsageTracker::parse_fr_assignment("\tlet a: T = fr.today"),
        Some(("a:".to_string(), "today".to_string()))
    );
}

#[test]
fn the_tracker_lists_objects_and_calls_in_order() {
    let main = "let a = fr.one();\nlet b = fr.two();\nb.x().y(1);\na\n  .z()\n  .x( b.w() );\nb.v;\nc.u();\nlet a = fr.one();\n";
    let tracker = FrUsageTracker::from_main(main);
    assert_eq!(tracker.tracked_objects.len(), 2);
    assert_eq!(
        tracker.tracked_objects.get("a"),
        Some(vec!["z".to_string(), "x".to_string(), "w".to_string()])
    );
    assert_eq!(tracker.tracked_objects.get("b"), Some(vec!["x".to_string(), "y".to_string()]));
    assert_eq!(tracker.tracked_objects.get("c"), None);
    assert!(tracker.tracked_objects.contains_key("b"));
    assert!(!tracker.tracked_objects.contains_key("c"));
    assert_eq!(
        tracker.fr_calls.to_vec(),
        vec!["one", "two", "z", "x", "w", "y"].into_iter().map(|s| s.to_string()).collect::<Vec<String>>()
    );
}
