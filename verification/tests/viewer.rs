use trace_view::diff::{compute_diff, DiffKind};
use trace_view::expand::ExpansionState;
use trace_view::session::{apply_command, build_tree_lines, compute_diff_for_state, App, Command};
use trace_view::tree::{format_count, render_value, SemStyle};
use trace_view::value::{PathSeg, Snapshot, Trace, Value};

fn scalar(t: &str) -> Value {
    Value::Scalar(t.to_string())
}

fn snap(values: Vec<(&str, Value)>) -> Snapshot {
    Snapshot { values: values.into_iter().map(|(n, v)| (n.to_string(), v)).collect() }
}

fn snapshot_a() -> Snapshot {
    snap(vec![
        ("x", scalar("1")),
        ("y", Value::Sequence(vec![scalar("1"), scalar("2")])),
    ])
}

fn snapshot_b() -> Snapshot {
    snap(vec![
        ("x", scalar("2")),
        ("y", Value::Sequence(vec![scalar("1"), scalar("2"), scalar("3")])),
    ])
}

fn key(k: &str) -> PathSeg {
    PathSeg::Key(k.to_string())
}

#[test]
fn diff_scenario_modified_and_added() {
    let a = snapshot_a();
    let b = snapshot_b();
    let d = compute_diff(&a.values, &b.values);
    assert_eq!(d.changes.len(), 2);
    assert_eq!(d.changes[0].0, vec![key("x")]);
    assert_eq!(d.changes[0].1, DiffKind::Modified);
    assert_eq!(d.changes[1].0, vec![key("y"), PathSeg::Index(2)]);
    assert_eq!(d.changes[1].1, DiffKind::Added);
}

#[test]
fn diff_symmetry_on_example() {
    let a = snapshot_a();
    let b = snapshot_b();
    let fwd = compute_diff(&a.values, &b.values);
    let bwd = compute_diff(&b.values, &a.values);
    assert_eq!(fwd.changes.len(), bwd.changes.len());
    for (p, k) in &fwd.changes {
        let flipped = match k {
            DiffKind::Added => DiffKind::Removed,
            DiffKind::Removed => DiffKind::Added,
            other => *other,
        };
        assert!(bwd.changes.iter().any(|(q, kk)| q == p && *kk == flipped));
    }
}

#[test]
fn diff_kind_mismatch_is_modified_without_recursion() {
    let a = snap(vec![("v", scalar("7"))]);
    let b = snap(vec![("v", Value::Sequence(vec![scalar("7")]))]);
    let d = compute_diff(&a.values, &b.values);
    assert_eq!(d.changes.len(), 1);
    assert_eq!(d.changes[0].0, vec![key("v")]);
    assert_eq!(d.changes[0].1, DiffKind::Modified);
}

#[test]
fn diff_removed_key() {
    let a = snap(vec![("gone", scalar("1")), ("kept", scalar("2"))]);
    let b = snap(vec![("kept", scalar("2"))]);
    let d = compute_diff(&a.values, &b.values);
    assert_eq!(d.changes.len(), 1);
    assert_eq!(d.changes[0].0, vec![key("gone")]);
    assert_eq!(d.changes[0].1, DiffKind::Removed);
}

#[test]
fn first_snapshot_diff_is_empty() {
    let trace = Trace { states: vec![snapshot_a(), snapshot_b()] };
    let app = App::new(trace, false);
    let d = compute_diff_for_state(&app);
    assert!(d.changes.is_empty());
}

#[test]
fn clear_twice_equals_once() {
    let mut es = ExpansionState::new();
    es.toggle(&vec![key("a")]);
    es.toggle(&vec![key("b")]);
    es.clear();
    assert!(es.open_paths.is_empty());
    es.clear();
    assert!(es.open_paths.is_empty());
}

#[test]
fn expand_all_is_superset() {
    let mut es = ExpansionState::new();
    es.toggle(&vec![key("y")]);
    es.expand_all(&vec![vec![key("x")], vec![key("z")]]);
    assert!(es.contains(&vec![key("x")]));
    assert!(es.contains(&vec![key("y")]));
    assert!(es.contains(&vec![key("z")]));
}

#[test]
fn toggle_flips_membership() {
    let mut es = ExpansionState::new();
    let p = vec![key("y")];
    assert!(!es.contains(&p));
    es.toggle(&p);
    assert!(es.contains(&p));
    es.toggle(&p);
    assert!(!es.contains(&p));
}

#[test]
fn expand_to_changes_opens_strict_ancestors_only() {
    let mut es = ExpansionState::new();
    es.expand_to_changes(&vec![vec![key("y"), PathSeg::Index(2)], vec![key("x")]]);
    assert!(es.contains(&vec![key("y")]));
    assert!(!es.contains(&vec![key("y"), PathSeg::Index(2)]));
    assert!(!es.contains(&vec![key("x")]));
}

#[test]
fn materialize_scenario_three_lines_under_expanded_y() {
    let a = snapshot_a();
    let b = snapshot_b();
    let d = compute_diff(&a.values, &b.values);
    let mut es = ExpansionState::new();
    es.toggle(&vec![key("y")]);
    let trace = Trace { states: vec![a, b] };
    let mut app = App::new(trace, false);
    app.current_state = 1;
    app.expansion = es;
    let lines = build_tree_lines(&app, &d, 120);
    assert_eq!(lines.len(), 5);
    assert_eq!(lines[0].path, vec![key("x")]);
    assert_eq!(lines[0].diff, DiffKind::Modified);
    assert_eq!(lines[1].path, vec![key("y")]);
    assert_eq!(lines[1].diff, DiffKind::Unchanged);
    assert!(lines[1].expandable);
    assert_eq!(lines[4].path, vec![key("y"), PathSeg::Index(2)]);
    assert_eq!(lines[4].diff, DiffKind::Added);
    assert_eq!(lines[4].depth, 1);
}

#[test]
fn collapsed_container_hides_children() {
    let b = snapshot_b();
    let trace = Trace { states: vec![b] };
    let app = App::new(trace, false);
    let d = compute_diff_for_state(&app);
    let lines = build_tree_lines(&app, &d, 120);
    assert_eq!(lines.len(), 2);
    assert!(!lines[0].expandable);
    assert!(lines[1].expandable);
}

#[test]
fn added_subtree_renders_uniformly_added() {
    let a = snap(vec![("k", scalar("0"))]);
    let b = snap(vec![
        ("k", scalar("0")),
        ("m", Value::Mapping(vec![("inner".to_string(), scalar("5"))])),
    ]);
    let d = compute_diff(&a.values, &b.values);
    let mut es = ExpansionState::new();
    es.toggle(&vec![key("m")]);
    let trace = Trace { states: vec![a, b] };
    let mut app = App::new(trace, false);
    app.current_state = 1;
    app.expansion = es;
    let lines = build_tree_lines(&app, &d, 120);
    assert_eq!(lines.len(), 3);
    assert_eq!(lines[1].diff, DiffKind::Added);
    assert_eq!(lines[2].path, vec![key("m"), key("inner")]);
    assert_eq!(lines[2].diff, DiffKind::Added);
}

#[test]
fn reachability_after_auto_expand() {
    let trace = Trace { states: vec![snapshot_a(), snapshot_b()] };
    let mut app = App::new(trace, true);
    let d0 = compute_diff_for_state(&app);
    let lines0 = build_tree_lines(&app, &d0, 120);
    apply_command(&mut app, Command::NextState, &lines0, 20);
    assert_eq!(app.current_state, 1);
    assert!(app.expansion.contains(&vec![key("y")]));
    let d1 = compute_diff_for_state(&app);
    let lines1 = build_tree_lines(&app, &d1, 120);
    assert!(lines1.iter().any(|l| l.path == vec![key("y"), PathSeg::Index(2)]));
    assert!(lines1.iter().any(|l| l.path == vec![key("x")]));
}

#[test]
fn toggle_at_scalar_cursor_has_no_effect() {
    let trace = Trace { states: vec![snapshot_b()] };
    let mut app = App::new(trace, false);
    let d = compute_diff_for_state(&app);
    let lines = build_tree_lines(&app, &d, 120);
    let count_before = lines.len();
    assert!(!lines[0].expandable);
    apply_command(&mut app, Command::ToggleAtCursor, &lines, 20);
    assert!(app.expansion.open_paths.is_empty());
    let lines_after = build_tree_lines(&app, &d, 120);
    assert_eq!(lines_after.len(), count_before);
}

#[test]
fn page_down_moves_cursor_by_viewport_minus_two() {
    let mut values = Vec::new();
    for i in 0..100 {
        values.push((format!("v{}", i), scalar("0")));
    }
    let trace = Trace { states: vec![Snapshot { values }] };
    let mut app = App::new(trace, false);
    let d = compute_diff_for_state(&app);
    let lines = build_tree_lines(&app, &d, 120);
    assert_eq!(lines.len(), 100);
    apply_command(&mut app, Command::PageDown, &lines, 20);
    assert_eq!(app.cursor, 18);
}

#[test]
fn cursor_and_end_navigation() {
    let trace = Trace { states: vec![snapshot_b()] };
    let mut app = App::new(trace, false);
    let d = compute_diff_for_state(&app);
    let lines = build_tree_lines(&app, &d, 120);
    apply_command(&mut app, Command::End, &lines, 20);
    assert_eq!(app.cursor, lines.len() - 1);
    apply_command(&mut app, Command::CursorUp, &lines, 20);
    assert_eq!(app.cursor, lines.len() - 2);
    apply_command(&mut app, Command::Home, &lines, 20);
    assert_eq!(app.cursor, 0);
    apply_command(&mut app, Command::CursorUp, &lines, 20);
    assert_eq!(app.cursor, 0);
}

#[test]
fn navigation_past_ends_is_noop() {
    let trace = Trace { states: vec![snapshot_a(), snapshot_b()] };
    let mut app = App::new(trace, false);
    let d = compute_diff_for_state(&app);
    let lines = build_tree_lines(&app, &d, 120);
    apply_command(&mut app, Command::PrevState, &lines, 20);
    assert_eq!(app.current_state, 0);
    apply_command(&mut app, Command::NextState, &lines, 20);
    assert_eq!(app.current_state, 1);
    apply_command(&mut app, Command::NextState, &lines, 20);
    assert_eq!(app.current_state, 1);
}

#[test]
fn format_count_exact_values() {
    assert_eq!(format_count(0), "0");
    assert_eq!(format_count(7), "7");
    assert_eq!(format_count(10), "10");
    assert_eq!(format_count(12345), "12345");
}

#[test]
fn line_spans_exact_for_scalar() {
    let es = ExpansionState::new();
    let d = trace_view::diff::DiffResult { changes: Vec::new() };
    let lines = render_value(
        &"x".to_string(),
        &scalar("1"),
        vec![key("x")],
        &es,
        &d,
        0,
        80,
    );
    assert_eq!(lines.len(), 1);
    let texts: Vec<&str> = lines[0].spans.iter().map(|s| s.text.as_str()).collect();
    assert_eq!(texts, vec!["", "  ", "x", ": ", "1"]);
    assert_eq!(lines[0].spans[4].style, SemStyle::Number);
}

#[test]
fn line_spans_show_container_size() {
    let es = ExpansionState::new();
    let d = trace_view::diff::DiffResult { changes: Vec::new() };
    let v = Value::Sequence(vec![scalar("1"), scalar("2"), scalar("3")]);
    let lines = render_value(&"y".to_string(), &v, vec![key("y")], &es, &d, 0, 80);
    let texts: Vec<&str> = lines[0].spans.iter().map(|s| s.text.as_str()).collect();
    assert_eq!(texts, vec!["", "+ ", "y", ": ", "[", "3", "]"]);
}

#[test]
fn long_line_is_truncated_with_marker() {
    let es = ExpansionState::new();
    let d = trace_view::diff::DiffResult { changes: Vec::new() };
    let lines = render_value(
        &"x".to_string(),
        &scalar("1"),
        vec![key("x")],
        &es,
        &d,
        0,
        4,
    );
    let joined: String = lines[0].spans.iter().map(|s| s.text.as_str()).collect();
    assert_eq!(joined.chars().count(), 4);
    assert!(joined.ends_with("..."));
}

#[test]
fn ensure_cursor_visible_scrolls_both_ways() {
    let trace = Trace { states: vec![snapshot_a()] };
    let mut app = App::new(trace, false);
    app.cursor = 50;
    app.scroll_offset = 0;
    app.ensure_cursor_visible(10);
    assert_eq!(app.scroll_offset, 43);
    app.cursor = 0;
    app.ensure_cursor_visible(10);
    assert_eq!(app.scroll_offset, 0);
}

#[test]
fn clamp_cursor_after_rebuild() {
    let trace = Trace { states: vec![snapshot_a()] };
    let mut app = App::new(trace, false);
    app.cursor = 9;
    app.clamp_cursor(4);
    assert_eq!(app.cursor, 3);
    app.clamp_cursor(0);
    assert_eq!(app.cursor, 3);
}

#[test]
fn scroll_commands_clamp_and_keep_cursor() {
    let mut values = Vec::new();
    for i in 0..30 {
        values.push((format!("v{}", i), scalar("0")));
    }
    let trace = Trace { states: vec![Snapshot { values }] };
    let mut app = App::new(trace, false);
    let d = compute_diff_for_state(&app);
    let lines = build_tree_lines(&app, &d, 120);
    apply_command(&mut app, Command::Scroll(3), &lines, 10);
    assert_eq!(app.scroll_offset, 3);
    assert_eq!(app.cursor, 3);
    apply_command(&mut app, Command::Scroll(100), &lines, 10);
    assert_eq!(app.scroll_offset, 20);
    apply_command(&mut app, Command::Scroll(-3), &lines, 10);
    assert_eq!(app.scroll_offset, 17);
}

#[test]
fn select_line_moves_cursor_and_toggles() {
    let trace = Trace { states: vec![snapshot_b()] };
    let mut app = App::new(trace, false);
    let d = compute_diff_for_state(&app);
    let lines = build_tree_lines(&app, &d, 120);
    apply_command(&mut app, Command::SelectLine(3), &lines, 20);
    assert_eq!(app.cursor, 1);
    assert!(app.expansion.contains(&vec![key("y")]));
    apply_command(&mut app, Command::SelectLine(0), &lines, 20);
    assert_eq!(app.cursor, 1);
}

#[test]
fn diff_result_get_looks_up_by_path() {
    let a = snapshot_a();
    let b = snapshot_b();
    let d = compute_diff(&a.values, &b.values);
    assert_eq!(d.get(&vec![key("x")]), DiffKind::Modified);
    assert_eq!(d.get(&vec![key("y")]), DiffKind::Unchanged);
    assert_eq!(d.get(&vec![key("y"), PathSeg::Index(2)]), DiffKind::Added);
}

#[test]
fn expand_all_command_opens_every_expandable_line() {
    let trace = Trace { states: vec![snapshot_b()] };
    let mut app = App::new(trace, false);
    let d = compute_diff_for_state(&app);
    let lines = build_tree_lines(&app, &d, 120);
    apply_command(&mut app, Command::ExpandAll, &lines, 20);
    assert!(app.expansion.contains(&vec![key("y")]));
    let lines2 = build_tree_lines(&app, &d, 120);
    assert_eq!(lines2.len(), 5);
    apply_command(&mut app, Command::CollapseAll, &lines2, 20);
    assert!(app.expansion.open_paths.is_empty());
}

#[test]
fn quit_command_sets_flag() {
    let trace = Trace { states: vec![snapshot_a()] };
    let mut app = App::new(trace, false);
    let d = compute_diff_for_state(&app);
    let lines = build_tree_lines(&app, &d, 120);
    assert!(!app.should_quit);
    apply_command(&mut app, Command::Quit, &lines, 20);
    assert!(app.should_quit);
}

#[test]
fn nested_mapping_diff_records_deep_path() {
    let a = snap(vec![(
        "m",
        Value::Mapping(vec![
            ("inner".to_string(), scalar("1")),
            ("other".to_string(), scalar("2")),
        ]),
    )]);
    let b = snap(vec![(
        "m",
        Value::Mapping(vec![
            ("inner".to_string(), scalar("5")),
            ("other".to_string(), scalar("2")),
        ]),
    )]);
    let d = compute_diff(&a.values, &b.values);
    assert_eq!(d.changes.len(), 1);
    assert_eq!(d.changes[0].0, vec![key("m"), key("inner")]);
    assert_eq!(d.changes[0].1, DiffKind::Modified);
}

#[test]
fn stale_expansion_paths_are_harmless() {
    let trace = Trace { states: vec![snapshot_b()] };
    let mut app = App::new(trace, false);
    app.expansion.toggle(&vec![key("no_such_root")]);
    app.expansion.toggle(&vec![key("x"), PathSeg::Index(9)]);
    let d = compute_diff_for_state(&app);
    let lines = build_tree_lines(&app, &d, 120);
    assert_eq!(lines.len(), 2);
    assert!(app.expansion.contains(&vec![key("no_such_root")]));
}
