use pose::{FilterRule, LocalCheck, OracleEntry, OracleTable, RemoteCheck, ReplaceTag,
    ResolveError, Verbosity};

fn base_replace(tag: &str) -> ReplaceTag {
    ReplaceTag {
        tag: tag.to_string(),
        tag_filter: None,
        ignore_unauthorized: false,
        no_slug: false,
        offline: false,
        verbosity: Verbosity::Quiet,
        progress_verbosity: Verbosity::Quiet,
        threads: 4,
    }
}

fn entry(image: &str, local: LocalCheck, remote: RemoteCheck) -> OracleEntry {
    OracleEntry { image: image.to_string(), local, remote }
}

#[test]
fn determinism_same_jobs_any_order() {
    let oracle = OracleTable {
        entries: vec![
            entry("a:9", LocalCheck::Found, RemoteCheck::NotFound),
            entry("b:9", LocalCheck::NotFound, RemoteCheck::Found),
            entry("c:9", LocalCheck::NotFound, RemoteCheck::NotFound),
        ],
    };
    let replace = base_replace("9");
    let order1 = vec!["a:1".to_string(), "b:2".to_string(), "c:3".to_string()];
    let order2 = vec!["c:3".to_string(), "a:1".to_string(), "b:2".to_string()];
    let out1 = pose::sorted_resolved(&pose::resolve_images(&order1, &replace, &oracle).unwrap());
    let out2 = pose::sorted_resolved(&pose::resolve_images(&order2, &replace, &oracle).unwrap());
    assert_eq!(out1, out2);
    assert_eq!(out1, vec!["a:9".to_string(), "b:9".to_string(), "c:3".to_string()]);
}

#[test]
fn filter_skips_non_matching_jobs() {
    // a postgres:8 exists, but the filter only admits mysql
    let oracle = OracleTable {
        entries: vec![
            entry("postgres:8", LocalCheck::Found, RemoteCheck::Found),
            entry("mysql:8", LocalCheck::NotFound, RemoteCheck::Found),
        ],
    };
    let mut replace = base_replace("8");
    replace.tag_filter = Some(FilterRule { pattern: "mysql".to_string(), affirmative: true });
    let jobs = vec!["mysql:7".to_string(), "postgres:7".to_string()];
    let outcomes = pose::resolve_images(&jobs, &replace, &oracle).unwrap();
    let list = pose::sorted_resolved(&outcomes);
    assert_eq!(list, vec!["mysql:8".to_string(), "postgres:7".to_string()]);
}

#[test]
fn negated_filter_excludes_matching_jobs() {
    let oracle = OracleTable {
        entries: vec![
            entry("postgres:8", LocalCheck::Found, RemoteCheck::Found),
            entry("mysql:8", LocalCheck::NotFound, RemoteCheck::Found),
        ],
    };
    let mut replace = base_replace("8");
    replace.tag_filter = Some(FilterRule { pattern: "postgres".to_string(), affirmative: false });
    let jobs = vec!["mysql:7".to_string(), "postgres:7".to_string()];
    let outcomes = pose::resolve_images(&jobs, &replace, &oracle).unwrap();
    let list = pose::sorted_resolved(&outcomes);
    assert_eq!(list, vec!["mysql:8".to_string(), "postgres:7".to_string()]);
}

#[test]
fn invalid_filter_pattern_stops_the_run() {
    let oracle = OracleTable { entries: vec![] };
    let mut replace = base_replace("8");
    replace.tag_filter = Some(FilterRule { pattern: "(".to_string(), affirmative: true });
    let jobs = vec!["mysql:7".to_string()];
    match pose::resolve_images(&jobs, &replace, &oracle) {
        Err(ResolveError::InvalidFilter(p)) => assert_eq!(p, "(".to_string()),
        _ => panic!("expected an invalid-filter error"),
    }
}

#[test]
fn local_error_is_fatal() {
    let oracle = OracleTable {
        entries: vec![entry(
            "app:9",
            LocalCheck::Error("daemon not running".to_string()),
            RemoteCheck::NotFound,
        )],
    };
    let replace = base_replace("9");
    let jobs = vec!["app:1".to_string()];
    match pose::resolve_images(&jobs, &replace, &oracle) {
        Err(ResolveError::Fatal(m)) => assert_eq!(m, "daemon not running".to_string()),
        _ => panic!("expected a fatal error"),
    }
}

#[test]
fn unauthorized_is_fatal_unless_ignored() {
    let oracle = OracleTable {
        entries: vec![entry(
            "app:9",
            LocalCheck::NotFound,
            RemoteCheck::Unauthorized("unauthorized: login required".to_string()),
        )],
    };
    let jobs = vec!["app:1".to_string()];
    let replace = base_replace("9");
    match pose::resolve_images(&jobs, &replace, &oracle) {
        Err(ResolveError::Unauthorized(m)) => {
            assert_eq!(m, "unauthorized: login required".to_string())
        },
        _ => panic!("expected an authorization error"),
    }
    let mut ignoring = base_replace("9");
    ignoring.ignore_unauthorized = true;
    let outcomes = pose::resolve_images(&jobs, &ignoring, &oracle).unwrap();
    assert_eq!(outcomes[0].resolved, "app:1".to_string());
}

#[test]
fn tag_is_slugged_unless_asked_not_to() {
    let replace = base_replace("Feature/ONE");
    assert_eq!(replace.get_remote_tag(), "feature-one".to_string());
    let mut raw = base_replace("Feature/ONE");
    raw.no_slug = true;
    assert_eq!(raw.get_remote_tag(), "Feature/ONE".to_string());
}

#[test]
fn classify_local_answers() {
    assert!(matches!(pose::classify_local_probe(true, ""), LocalCheck::Found));
    assert!(matches!(
        pose::classify_local_probe(false, "Error: No such image: app:9"),
        LocalCheck::NotFound
    ));
    match pose::classify_local_probe(false, "cannot connect to the daemon") {
        LocalCheck::Error(m) => assert_eq!(m, "cannot connect to the daemon".to_string()),
        _ => panic!("expected an error"),
    }
}

#[test]
fn classify_remote_answers() {
    assert!(matches!(pose::classify_remote_probe(true, ""), RemoteCheck::Found));
    assert!(matches!(
        pose::classify_remote_probe(false, "no such manifest: app:9"),
        RemoteCheck::NotFound
    ));
    assert!(matches!(
        pose::classify_remote_probe(false, "unauthorized: authentication required"),
        RemoteCheck::Unauthorized(_)
    ));
    assert!(matches!(
        pose::classify_remote_probe(false, "network timeout"),
        RemoteCheck::Error(_)
    ));
}

#[test]
fn decisions_follow_the_answers() {
    assert!(matches!(
        pose::decide_local(LocalCheck::Found, false),
        pose::LocalDecision::UseCandidate
    ));
    assert!(matches!(
        pose::decide_local(LocalCheck::NotFound, true),
        pose::LocalDecision::PassThrough
    ));
    assert!(matches!(
        pose::decide_local(LocalCheck::NotFound, false),
        pose::LocalDecision::CheckRemote
    ));
    assert!(matches!(
        pose::decide_remote(RemoteCheck::Found, false),
        pose::RemoteDecision::UseCandidate
    ));
    assert!(matches!(
        pose::decide_remote(RemoteCheck::NotFound, false),
        pose::RemoteDecision::PassThrough
    ));
}
