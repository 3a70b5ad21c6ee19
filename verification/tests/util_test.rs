use pose::{get_slug, string_script, header, string_no_empty, positive_less_than_32,
    cmd_call_to_string, fallback_url, replace_all_exec, unwrap_filter_tag,
    unwrap_filter_regex, pick_compose_filename, compose_paths};

#[test]
fn slug_lowers_and_replaces() {
    assert_eq!(get_slug("Feature/JIRA-123"), "feature-jira-123".to_string());
    assert_eq!(get_slug("  spaced out  "), "spaced-out".to_string());
    assert_eq!(get_slug("v1.2.3"), "v1.2.3".to_string());
    assert_eq!(get_slug("UPPER"), "upper".to_string());
}

#[test]
fn slug_caps_at_sixty_three() {
    let long: String = "a".repeat(100);
    assert_eq!(get_slug(&long).len(), 63);
}

#[test]
fn script_splits_at_first_colon() {
    assert_eq!(string_script("abc:def"), Ok(("abc".to_string(), "def".to_string())));
    assert_eq!(string_script("abc:"), Ok(("abc".to_string(), "".to_string())));
    assert_eq!(
        string_script("abc:def:more after->:"),
        Ok(("abc".to_string(), "def:more after->:".to_string()))
    );
    assert_eq!(string_script(""), Err("must be at least 2 characters long".to_string()));
    assert_eq!(string_script("a"), Err("must be at least 2 characters long".to_string()));
    assert_eq!(
        string_script("abc"),
        Err("separator symbol : not found in the expression".to_string())
    );
    assert_eq!(string_script(":def"), Err("empty left expression".to_string()));
}

#[test]
fn header_splits_and_trims() {
    assert_eq!(header("abc: def"), Ok(("abc".to_string(), "def".to_string())));
    assert_eq!(header("a:b"), header("a: b"));
    assert_eq!(header("abc:"), Ok(("abc".to_string(), "".to_string())));
    assert_eq!(
        header("abc: def:more after->:"),
        Ok(("abc".to_string(), "def:more after->:".to_string()))
    );
    assert_eq!(header(""), Err("must be at least 3 characters long".to_string()));
    assert_eq!(header("a"), Err("must be at least 3 characters long".to_string()));
    assert_eq!(
        header("abc"),
        Err("separator symbol : not found in the header expression".to_string())
    );
    assert_eq!(header(":def"), Err("empty header name".to_string()));
}

#[test]
fn empty_strings_are_rejected() {
    assert_eq!(string_no_empty("x"), Ok("x".to_string()));
    assert!(string_no_empty("").is_err());
}

#[test]
fn worker_count_is_bounded() {
    assert_eq!(positive_less_than_32("1"), Ok(1));
    assert_eq!(positive_less_than_32("32"), Ok(32));
    assert_eq!(positive_less_than_32("+8"), Ok(8));
    assert_eq!(positive_less_than_32("0"), Err("less than minimum of 1".to_string()));
    assert_eq!(positive_less_than_32("33"), Err("exceeds maximum of 32".to_string()));
    assert_eq!(
        positive_less_than_32("abc"),
        Err("invalid digit found in string".to_string())
    );
    assert_eq!(
        positive_less_than_32("999"),
        Err("invalid digit found in string".to_string())
    );
}

#[test]
fn command_line_is_shown_with_quoting() {
    let args = vec!["compose".to_string(), "a b".to_string(), "up".to_string()];
    assert_eq!(cmd_call_to_string("docker", &args), "docker compose \"a b\" up".to_string());
    let none: Vec<String> = Vec::new();
    assert_eq!(cmd_call_to_string("git", &none), "git ".to_string());
}

#[test]
fn fallback_replaces_the_script_part() {
    assert_eq!(
        fallback_url("https://host/repo/feature-a/compose.yml", "feature-a", "master"),
        Some("https://host/repo/master/compose.yml".to_string())
    );
    assert_eq!(fallback_url("https://host/repo/x/compose.yml", "feature-a", "master"), None);
    assert_eq!(replace_all_exec("aXbXc", "X", "--"), "a--b--c".to_string());
    assert_eq!(replace_all_exec("aaaa", "aa", "b"), "bb".to_string());
}

#[test]
fn tag_filter_is_unwrapped() {
    assert_eq!(unwrap_filter_tag(None), Ok(None));
    assert_eq!(unwrap_filter_tag(Some("tag=latest")), Ok(Some("latest".to_string())));
    assert_eq!(unwrap_filter_tag(Some("name=latest")), Err("name=latest".to_string()));
}

#[test]
fn regex_filter_is_unwrapped() {
    assert!(matches!(unwrap_filter_regex(None), Ok(None)));
    let affirmative = match unwrap_filter_regex(Some("regex=mysql.*")) {
        Ok(Some(rule)) => rule,
        _ => panic!("expected a rule"),
    };
    assert_eq!(affirmative.pattern, "mysql.*".to_string());
    assert!(affirmative.affirmative);
    let negated = match unwrap_filter_regex(Some("regex!=postgres")) {
        Ok(Some(rule)) => rule,
        _ => panic!("expected a rule"),
    };
    assert_eq!(negated.pattern, "postgres".to_string());
    assert!(!negated.affirmative);
    match unwrap_filter_regex(Some("regex=(")) {
        Err(m) => assert_eq!(m, "(".to_string()),
        _ => panic!("expected an error"),
    }
    match unwrap_filter_regex(Some("glob=x")) {
        Err(m) => assert_eq!(m, "glob=x".to_string()),
        _ => panic!("expected an error"),
    }
}

#[test]
fn compose_filename_is_picked() {
    let names = compose_paths();
    assert_eq!(names.len(), 4);
    assert_eq!(names[0], "compose.yaml".to_string());
    let one = vec![false, true, false, false];
    assert_eq!(
        pick_compose_filename(&names, &one),
        Ok(("compose.yml".to_string(), false))
    );
    let several = vec![true, false, true, false];
    assert_eq!(
        pick_compose_filename(&names, &several),
        Ok(("compose.yaml".to_string(), true))
    );
    let none = vec![false, false, false, false];
    assert_eq!(pick_compose_filename(&names, &none), Err(()));
}
