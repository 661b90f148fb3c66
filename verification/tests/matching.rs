use fuckport::process::name_matches;

#[test]
fn name_matching_is_case_insensitive_by_default() {
    assert!(name_matches("node", "node server.js", "node", false));
}

#[test]
fn explicit_case_sensitive_matching_respects_case() {
    assert!(name_matches("Node", "Node server.js", "Node", true));
    assert!(!name_matches("node", "node server.js", "Node", true));
}

#[test]
fn smart_case_becomes_sensitive_for_uppercase_queries() {
    assert!(name_matches("MyApp", "MyApp --watch", "MyA", false));
    assert!(!name_matches("myapp", "myapp --watch", "MyA", false));
}

#[test]
fn command_line_is_part_of_the_search_space() {
    assert!(name_matches(
        "python",
        "python -m http.server 8000",
        "http.server",
        false
    ));
}

#[test]
fn lowercase_haystack_matches_lowercase_needle() {
    // The haystack is lower-cased before the search.
    assert!(name_matches("NODE", "", "node", false));
    assert!(name_matches("Safari", "/Applications/SAFARI.app", "safari", false));
    assert!(!name_matches("NODE", "", "node", true));
}

#[test]
fn uppercase_detection_is_unicode_aware() {
    // "É" is upper case, so the query is matched with case.
    assert!(!name_matches("école", "", "École", false));
    assert!(name_matches("ÉCOLE", "", "école", false));
}

#[test]
fn empty_needle_matches_everything() {
    assert!(name_matches("", "", "", false));
    assert!(name_matches("x", "", "", true));
}

#[test]
fn no_match_when_absent() {
    assert!(!name_matches("bash", "bash -l", "zsh", false));
    assert!(!name_matches("ab", "", "abc", false));
}
