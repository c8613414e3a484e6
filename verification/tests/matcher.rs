use branch_picker::matcher::{get_matching_branches, quick_match};

#[test]
fn test_matching_branches() {
    let result = get_matching_branches(
        &String::from("ab"),
        &vec![String::from("cab"), String::from("ab"), String::from("d")],
    );
    assert_eq!(result, vec!["ab", "cab"]);
}

#[test]
fn test_no_matching_branches() {
    let result = get_matching_branches(&String::from("ab"), &vec![String::from("d")]);
    assert_eq!(result, [] as [&str; 0]);
}

#[test]
fn test_empty() {
    let result = get_matching_branches(
        &String::from(""),
        &vec![String::from("a"), String::from("b")],
    );
    assert_eq!(result, vec!["a", "b"]);
}

#[test]
fn test_no_match_returns_empty() {
    let result = get_matching_branches(
        &String::from("zz"),
        &vec![String::from("a"), String::from("b")],
    );
    assert_eq!(result, [] as [&str; 0]);
}

#[test]
fn test_kept_iff_contains_query() {
    let candidates = vec![
        String::from("cab"),
        String::from("ab"),
        String::from("d"),
        String::from("drab"),
    ];
    let result = get_matching_branches(&String::from("ab"), &candidates);
    for kept in &result {
        assert!(kept.contains("ab"));
    }
    for candidate in &candidates {
        if candidate.contains("ab") {
            assert!(result.contains(candidate));
        } else {
            assert!(!result.contains(candidate));
        }
    }
}

#[test]
fn test_ranked_by_first_occurrence() {
    let result = get_matching_branches(
        &String::from("ne"),
        &vec![
            String::from("backbone"),
            String::from("new"),
            String::from("one"),
            String::from("nested"),
        ],
    );
    assert_eq!(result, vec!["new", "nested", "one", "backbone"]);
}

#[test]
fn test_filter_idempotent() {
    let candidates = vec![
        String::from("cab"),
        String::from("ab"),
        String::from("d"),
        String::from("abc"),
    ];
    let query = String::from("ab");
    let once = get_matching_branches(&query, &candidates);
    let twice = get_matching_branches(&query, &once);
    assert_eq!(twice, once);
}

#[test]
fn test_quick_match_takes_first_ranked() {
    let candidates = vec![String::from("cab"), String::from("ab"), String::from("d")];
    let chosen = quick_match(&String::from("ab"), &candidates);
    assert_eq!(chosen, Some(String::from("ab")));
}

#[test]
fn test_quick_match_none_when_no_match() {
    let candidates = vec![String::from("a"), String::from("b")];
    assert_eq!(quick_match(&String::from("zz"), &candidates), None);
}
