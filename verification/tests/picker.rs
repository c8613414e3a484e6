use branch_picker::cli::{marked_line, Action, Cli, Key};

fn sample() -> Vec<String> {
    vec![
        String::from("main"),
        String::from("feature-x"),
        String::from("feature-y"),
    ]
}

#[test]
fn test_new_shows_everything() {
    let cli = Cli::new(sample());
    assert_eq!(cli.displayed_branches, sample());
    assert_eq!(cli.selected_branch, 0);
    assert_eq!(cli.search, "");
}

#[test]
fn test_cursor_clamps_at_top() {
    let mut cli = Cli::new(sample());
    let action = cli.handle_key(Key::Up);
    assert_eq!(cli.selected_branch, 0);
    assert_eq!(action, Action::Nothing);
}

#[test]
fn test_cursor_clamps_at_bottom() {
    let mut cli = Cli::new(sample());
    assert_eq!(cli.handle_key(Key::Down), Action::RedrawCursor(0));
    assert_eq!(cli.handle_key(Key::Down), Action::RedrawCursor(1));
    assert_eq!(cli.selected_branch, 2);
    let action = cli.handle_key(Key::Down);
    assert_eq!(cli.selected_branch, 2);
    assert_eq!(action, Action::Nothing);
}

#[test]
fn test_typing_filters_and_commit_picks_under_cursor() {
    let mut cli = Cli::new(sample());
    for c in ['f', 'e', 'a', 't'] {
        assert_eq!(cli.handle_key(Key::Char(c)), Action::RedrawList);
    }
    assert_eq!(cli.search, "feat");
    assert_eq!(cli.displayed_branches, vec!["feature-x", "feature-y"]);
    assert_eq!(cli.selected_branch, 0);
    assert_eq!(cli.handle_key(Key::Down), Action::RedrawCursor(0));
    assert_eq!(cli.selected_branch, 1);
    let mut switches = Vec::new();
    match cli.handle_key(Key::Enter) {
        Action::Switch(name) => switches.push(name),
        other => panic!("expected a switch action, got {:?}", other),
    }
    assert_eq!(switches, vec!["feature-y"]);
}

#[test]
fn test_backspace_refilters() {
    let mut cli = Cli::new(sample());
    cli.handle_key(Key::Char('f'));
    cli.handle_key(Key::Char('z'));
    assert_eq!(cli.displayed_branches, [] as [&str; 0]);
    assert_eq!(cli.handle_key(Key::Backspace), Action::RedrawList);
    assert_eq!(cli.search, "f");
    assert_eq!(cli.displayed_branches, vec!["feature-x", "feature-y"]);
}

#[test]
fn test_backspace_on_empty_query_is_noop() {
    let mut cli = Cli::new(sample());
    assert_eq!(cli.handle_key(Key::Backspace), Action::Nothing);
    assert_eq!(cli.search, "");
    assert_eq!(cli.displayed_branches, sample());
}

#[test]
fn test_commit_on_empty_view_is_noop() {
    let mut cli = Cli::new(Vec::new());
    assert_eq!(cli.handle_key(Key::Enter), Action::Nothing);
    assert_eq!(cli.handle_key(Key::BackTab), Action::Nothing);
}

#[test]
fn test_delete_requests_candidate_under_cursor() {
    let mut cli = Cli::new(sample());
    cli.handle_key(Key::Down);
    match cli.handle_key(Key::Down) {
        Action::RedrawCursor(prev) => assert_eq!(prev, 1),
        other => panic!("expected a cursor redraw, got {:?}", other),
    }
    match cli.handle_key(Key::BackTab) {
        Action::Delete(name) => assert_eq!(name, "feature-y"),
        other => panic!("expected a delete action, got {:?}", other),
    }
}

#[test]
fn test_delete_resets_query_and_cursor() {
    let mut cli = Cli::new(sample());
    cli.handle_key(Key::Char('f'));
    cli.handle_key(Key::Down);
    let reloaded = vec![String::from("main"), String::from("feature-x")];
    cli.apply_delete(reloaded.clone());
    assert_eq!(cli.search, "");
    assert_eq!(cli.selected_branch, 0);
    assert_eq!(cli.branches, reloaded);
    assert_eq!(cli.displayed_branches, reloaded);
}

#[test]
fn test_cancel_always_quits() {
    let mut cli = Cli::new(sample());
    assert_eq!(cli.handle_key(Key::CtrlC), Action::Quit);
    assert_eq!(cli.displayed_branches, sample());
}

#[test]
fn test_unrecognized_key_is_noop() {
    let mut cli = Cli::new(sample());
    assert_eq!(cli.handle_key(Key::Other), Action::Nothing);
    assert_eq!(cli.search, "");
    assert_eq!(cli.selected_branch, 0);
}

#[test]
fn test_marked_line_replaces_first_slot() {
    assert_eq!(marked_line(&String::from("  main")), "* main");
    assert_eq!(marked_line(&String::from("")), "*");
}

#[test]
fn test_rendered_lines_mark_cursor_row() {
    let mut cli = Cli::new(vec![String::from("  one"), String::from("  two")]);
    cli.handle_key(Key::Down);
    let lines = cli.rendered_lines();
    assert_eq!(lines, vec!["  one", "* two"]);
}
