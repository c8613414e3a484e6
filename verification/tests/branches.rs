use branch_picker::branches::{get_branches, trimmed_name, BackendError};

#[test]
fn test_parses_enumeration_output() {
    let parsed = get_branches("* main\n  feature-x\n  feature-y\n");
    assert_eq!(parsed, vec!["  main", "  feature-x", "  feature-y"]);
}

#[test]
fn test_parse_drops_empty_lines() {
    let parsed = get_branches("  a\n\n  b");
    assert_eq!(parsed, vec!["  a", "  b"]);
}

#[test]
fn test_parse_empty_output() {
    let parsed = get_branches("");
    assert_eq!(parsed, [] as [&str; 0]);
}

#[test]
fn test_trimmed_name_strips_both_ends() {
    assert_eq!(trimmed_name(&String::from("  main \n")), "main");
    assert_eq!(trimmed_name(&String::from("feature-x")), "feature-x");
    assert_eq!(trimmed_name(&String::from("   ")), "");
}

#[test]
fn test_backend_error_messages() {
    let unavailable = BackendError::Unavailable(String::from("command not found"));
    let rejected = BackendError::Rejected(String::from("branch is checked out"));
    assert_eq!(unavailable.message(), "command not found");
    assert_eq!(rejected.message(), "branch is checked out");
}
