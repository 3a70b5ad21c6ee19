use pose::{ComposeYaml, ParseError, ReplaceTag, TagOutcome, Verbosity};

fn no_filter_tag(tag: &str, offline: bool) -> ReplaceTag {
    ReplaceTag {
        tag: tag.to_string(),
        tag_filter: None,
        ignore_unauthorized: false,
        no_slug: false,
        offline,
        verbosity: Verbosity::Quiet,
        progress_verbosity: Verbosity::Quiet,
        threads: 2,
    }
}

#[test]
fn round_trip_preserves_order_and_text() {
    let yaml = "services:\n  app:\n    image: nginx\n    ports:\n      - 8000:8000\n  zeta:\n    image: app:1.0\nvolumes:\n  - data\n";
    let compose = ComposeYaml::new(yaml).unwrap();
    let out = compose.to_string().unwrap();
    assert_eq!(out, yaml);
}

#[test]
fn round_trip_preserves_quoting_styles() {
    let yaml = "services:\n  app:\n    environment:\n      TITLE: \"App 1\"\n      DB_PORT: '5432'\n      PLAIN: word\n";
    let compose = ComposeYaml::new(yaml).unwrap();
    let out = compose.to_string().unwrap();
    assert_eq!(out, yaml);
}

#[test]
fn round_trip_twice_is_stable() {
    let yaml = "
services:
  app: the-app
  app1:
    image: some-image
    profiles: [tools, provision]
    environment:
      - PORT=8000
";
    let compose = ComposeYaml::new(yaml).unwrap();
    let once = compose.to_string().unwrap();
    let compose2 = ComposeYaml::new(&once).unwrap();
    let twice = compose2.to_string().unwrap();
    assert_eq!(once, twice);
}

fn parse_error_of(text: &str) -> ParseError {
    match ComposeYaml::new(text) {
        Err(e) => e,
        Ok(_) => panic!("expected a parse error"),
    }
}

#[test]
fn parse_rejects_non_mapping_root() {
    assert_eq!(parse_error_of("- a\n- b\n"), ParseError::NotMapping);
    assert_eq!(parse_error_of(""), ParseError::NotMapping);
    assert_eq!(parse_error_of("# only a comment\n"), ParseError::NotMapping);
}

#[test]
fn parse_rejects_malformed_documents() {
    // an inline value and a nested block at once
    assert_eq!(parse_error_of("k: v\n  nested: x\n"), ParseError::Malformed);
    // a line that is neither an entry nor an item
    assert_eq!(parse_error_of("justtext\n"), ParseError::Malformed);
    // duplicate keys
    assert_eq!(parse_error_of("a: 1\na: 2\n"), ParseError::Malformed);
    // unterminated quote
    assert_eq!(parse_error_of("a: \"open\n"), ParseError::Malformed);
}

#[test]
fn apply_identity_outcomes_keeps_document() {
    let yaml = "services:\n  app:\n    image: nginx\n  db:\n    image: postgres:16.1\n";
    let mut compose = ComposeYaml::new(yaml).unwrap();
    let outcomes = vec![
        TagOutcome { original: "nginx".to_string(), resolved: "nginx".to_string() },
        TagOutcome {
            original: "postgres:16.1".to_string(),
            resolved: "postgres:16.1".to_string(),
        },
    ];
    compose.update_images_tag(&outcomes);
    assert_eq!(compose.to_string().unwrap(), yaml);
}

#[test]
fn apply_rewrites_only_the_affected_image() {
    let yaml = "services:\n  app:\n    image: nginx\n    ports:\n      - 80:80\n  db:\n    image: postgres:16.1\n";
    let expected = "services:\n  app:\n    image: nginx\n    ports:\n      - 80:80\n  db:\n    image: postgres:16.2\n";
    let mut compose = ComposeYaml::new(yaml).unwrap();
    let outcomes = vec![
        TagOutcome { original: "nginx".to_string(), resolved: "nginx".to_string() },
        TagOutcome {
            original: "postgres:16.1".to_string(),
            resolved: "postgres:16.2".to_string(),
        },
    ];
    compose.update_images_tag(&outcomes);
    assert_eq!(compose.to_string().unwrap(), expected);
}

#[test]
fn end_to_end_resolution_scenario() {
    let yaml = "
services:
  postgres:
    image: postgres:16.1
  nginx:
    image: nginx
  rabbitmq:
    image: rabbitmq:3
";
    let compose = ComposeYaml::new(yaml).unwrap();
    let images = compose.get_images(None).unwrap();
    assert_eq!(
        images,
        vec!["nginx".to_string(), "postgres:16.1".to_string(), "rabbitmq:3".to_string()]
    );
    let oracle = pose::OracleTable {
        entries: vec![
            pose::OracleEntry {
                image: "postgres:16.2".to_string(),
                local: pose::LocalCheck::NotFound,
                remote: pose::RemoteCheck::Found,
            },
            pose::OracleEntry {
                image: "nginx:16.2".to_string(),
                local: pose::LocalCheck::NotFound,
                remote: pose::RemoteCheck::NotFound,
            },
            pose::OracleEntry {
                image: "rabbitmq:16.2".to_string(),
                local: pose::LocalCheck::NotFound,
                remote: pose::RemoteCheck::NotFound,
            },
        ],
    };
    let replace = no_filter_tag("16.2", false);
    let outcomes = pose::resolve_images(&images, &replace, &oracle).unwrap();
    let list = pose::sorted_resolved(&outcomes);
    assert_eq!(
        list,
        vec!["nginx".to_string(), "postgres:16.2".to_string(), "rabbitmq:3".to_string()]
    );
}

#[test]
fn end_to_end_rewrite_scenario() {
    let yaml = "services:\n  postgres:\n    image: postgres:16.1\n  nginx:\n    image: nginx\n";
    let expected = "services:\n  postgres:\n    image: postgres:16.2\n  nginx:\n    image: nginx\n";
    let mut compose = ComposeYaml::new(yaml).unwrap();
    let images = compose.get_images(None).unwrap();
    let oracle = pose::OracleTable {
        entries: vec![pose::OracleEntry {
            image: "postgres:16.2".to_string(),
            local: pose::LocalCheck::Found,
            remote: pose::RemoteCheck::NotFound,
        }],
    };
    let replace = no_filter_tag("16.2", false);
    let outcomes = pose::resolve_images(&images, &replace, &oracle).unwrap();
    compose.update_images_tag(&outcomes);
    assert_eq!(compose.to_string().unwrap(), expected);
}

#[test]
fn offline_run_never_asks_the_remote_registry() {
    let images = vec!["app:1".to_string()];
    // remote would have found the candidate, but offline stays local
    let oracle = pose::OracleTable {
        entries: vec![pose::OracleEntry {
            image: "app:2".to_string(),
            local: pose::LocalCheck::NotFound,
            remote: pose::RemoteCheck::Found,
        }],
    };
    let replace = no_filter_tag("2", true);
    let outcomes = pose::resolve_images(&images, &replace, &oracle).unwrap();
    assert_eq!(outcomes[0].resolved, "app:1".to_string());
}

#[test]
fn combined_listing_resolves_and_sorts() {
    let yaml = "
services:
  postgres:
    image: postgres:16.1
  nginx:
    image: nginx
  rabbitmq:
    image: rabbitmq:3
";
    let compose = ComposeYaml::new(yaml).unwrap();
    let oracle = pose::OracleTable {
        entries: vec![pose::OracleEntry {
            image: "postgres:16.2".to_string(),
            local: pose::LocalCheck::NotFound,
            remote: pose::RemoteCheck::Found,
        }],
    };
    let replace = no_filter_tag("16.2", false);
    let list = compose
        .get_images_resolved(None, &replace, &oracle)
        .unwrap()
        .unwrap();
    assert_eq!(
        list,
        vec!["nginx".to_string(), "postgres:16.2".to_string(), "rabbitmq:3".to_string()]
    );
}
