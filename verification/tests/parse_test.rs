use pose::ComposeYaml;

fn strings(v: &[&str]) -> Vec<String> {
    v.iter().map(|s| s.to_string()).collect()
}

#[test]
fn parse_test_get_services_list() {
    let yaml = "
services:
  app: the-app
  # comments should not ...
  app1:
    # ... affects results
    image: some-image
    ports:
      - 8000:8000
  app2:
    image: another-image:2.0
    ports:
      - 9000:9000
    depends_on:
      - app1

volumes:
  - no-body-cares
    ";
    let compose = ComposeYaml::new(&yaml).unwrap();
    let services_map = compose.get_root_element("services").unwrap();
    let services_names = compose.get_root_element_names("services");
    assert_eq!(services_map.len(), services_names.len());
    assert_eq!(services_names, strings(&["app", "app1", "app2"]));
}

#[test]
fn parse_test_get_services_empty_list() {
    let yaml = "
services: []
volumes:
  - no-body-cares
    ";
    let compose = ComposeYaml::new(&yaml).unwrap();
    assert!(compose.get_root_element("services").is_none());
    assert!(compose.get_root_element_names("services").is_empty());
}

#[test]
fn parse_test_get_services_no_list() {
    let yaml = "
volumes:
  - no-body-cares
    ";
    let compose = ComposeYaml::new(&yaml).unwrap();
    assert!(compose.get_root_element("services").is_none());
    assert!(compose.get_root_element_names("services").is_empty());
}

#[test]
fn parse_test_get_service_envs() {
    let yaml = r#"
services:
  app: the-app
  app1:
    image: some-image
    ports:
      - 8000:8000
    environment:
      - PORT=8000
      - KAFKA_BROKERS=kafka:9092
      - TITLE="App 1"
      - DESC_1='App 1 is the "Best"'
      - EMPTY=
      - UNDEFINED
      - UNDEFINED_TOO
    "#;
    let compose = ComposeYaml::new(&yaml).unwrap();
    let app1 = compose.get_service("app1").expect("app1 not found");
    let envs = compose.get_service_envs(&app1);
    assert_eq!(
        envs.unwrap_or(Vec::default()),
        strings(&[
            "PORT=8000",
            "KAFKA_BROKERS=kafka:9092",
            "TITLE=\"App 1\"",
            "DESC_1='App 1 is the \"Best\"'",
            "EMPTY=",
            "UNDEFINED=",
            "UNDEFINED_TOO=",
        ])
    );
}

#[test]
fn parse_test_get_services() {
    let yaml = "
services:
  app: the-app
  app-1:
    image: some-image
    ports:
      - 8000:8000
    ";
    let compose = ComposeYaml::new(&yaml).unwrap();
    let app = compose.get_service("app");
    let app1 = compose.get_service("app-1");
    let not_exist = compose.get_service("does-not-exist");
    assert!(app.is_none()); // Because it's malformed
    assert!(app1.is_some());
    assert!(not_exist.is_none());
}

#[test]
fn parse_test_get_service_envs_empty() {
    let yaml = "
services:
  app: the-app
  app1:
    image: some-image
    ports:
      - 8000:8000
    ";
    let compose = ComposeYaml::new(&yaml).unwrap();
    let app1 = compose.get_service("app1").expect("app1 not found");
    let envs = compose.get_service_envs(&app1);
    assert!(envs.is_none());
}

#[test]
fn parse_test_get_service_envs_with_map_notation() {
    let yaml = r#"
services:
  app: the-app
  app1:
    image: some-image
    ports:
      - 8000:8000
    environment:
      PORT: 8000
      KAFKA_BROKERS: "kafka:9092"
      TITLE: "App 1"
  app2:
    image: another-image:2.0
    ports:
      - 9000:9000
    "#;
    let compose = ComposeYaml::new(&yaml).unwrap();
    let app1 = compose.get_service("app1").expect("app1 not found");
    let envs = compose.get_service_envs(&app1);
    assert_eq!(
        envs.unwrap_or(Vec::default()),
        strings(&["PORT=8000", "KAFKA_BROKERS=kafka:9092", "TITLE=\"App 1\""])
    );
}

#[test]
fn get_service_envs_with_map_notation_and_quoted() {
    let yaml = r#"
services:
  app1:
    image: some-image
    environment:
      PORT: 8000
      KAFKA_PORT: "9092"
      DB_PORT: '5432'
      TITLE: "App 1"
      DESC: 'Desc 1'
    "#;
    let compose = ComposeYaml::new(&yaml).unwrap();
    let app1 = compose.get_service("app1").expect("app1 not found");
    let envs = compose.get_service_envs(&app1);
    assert_eq!(
        envs.unwrap_or(Vec::default()),
        strings(&[
            "PORT=8000",
            "KAFKA_PORT=9092",
            "DB_PORT=5432",
            "TITLE=\"App 1\"",
            "DESC=\"Desc 1\"",
        ])
    );
}

#[test]
fn get_profiles() {
    let yaml = "
services:
  app: the-app
  psql:
    image: postgres
    profiles:
      - tools
  web:
    image: web-server
  app-provision:
    image: app
    profiles:
      - tools
      - provision
    ";
    let compose = ComposeYaml::new(&yaml).unwrap();
    let profiles = compose.get_profiles_names();
    assert_eq!(profiles, Some(strings(&["provision", "tools"])));
}

#[test]
fn get_profiles_vector_notation() {
    let yaml = "
services:
  app: the-app
  app-provision:
    image: app
    profiles: [tools, provision]
    ";
    let compose = ComposeYaml::new(&yaml).unwrap();
    let profiles = compose.get_profiles_names();
    assert_eq!(profiles, Some(strings(&["provision", "tools"])));
}

#[test]
fn get_profiles_none() {
    let yaml = "
volumes:
  data:
    driver: local
    ";
    let compose = ComposeYaml::new(&yaml).unwrap();
    let profiles = compose.get_profiles_names();
    assert!(profiles.is_none());
}

#[test]
fn get_images() {
    let yaml = "
services:
  app0: the-app
  app:
    image: app
  web:
    image: namespace.server.com/image:master
  psql:
    image: postgres:16.1
    profiles:
      - tools
  nginx:
    image: nginx:stable
  app-provision:
    image: app
    profiles:
      - tools
      - provision
  app-with-another-tag:
    image: app:1.0
    ";
    let compose = ComposeYaml::new(&yaml).unwrap();
    let images = compose.get_images(None);
    assert_eq!(
        images,
        Some(strings(&[
            "app",     // used twice, but included once
            "app:1.0", // same image but with different version
            "namespace.server.com/image:master",
            "nginx:stable",
            "postgres:16.1",
        ]))
    );
}

#[test]
fn get_images_filter_by_tag() {
    let yaml = "
services:
  app:
    image: app
  web:
    image: namespace.server.com/image:master
  psql:
    image: postgres:16.1
  nginx:
    image: nginx:master
  app-provision:
    image: app
  app-with-another-tag:
    image: app:1.0
    ";
    let compose = ComposeYaml::new(&yaml).unwrap();
    let images = compose.get_images(Some("master"));
    assert_eq!(
        images,
        Some(strings(&["namespace.server.com/image:master", "nginx:master"]))
    );
}

#[test]
fn get_images_none() {
    let yaml = "
volumes:
  data:
    driver: local
    ";
    let compose = ComposeYaml::new(&yaml).unwrap();
    let images = compose.get_images(None);
    assert!(images.is_none());
}

#[test]
fn get_service_depends() {
    let yaml = r#"
services:
  app:
    image: the-app
    depends_on:
      - x
  postgres:
    image: postgres
  app1:
    image: some-image
    ports:
      - 8000:8000
    depends_on:
      - postgres
      - app
    "#;
    let compose = ComposeYaml::new(&yaml).unwrap();
    let app1 = compose.get_service("app1").expect("app1 not found");
    let depends_on = compose.get_service_depends_on(&app1);
    assert_eq!(depends_on.unwrap_or(Vec::default()), strings(&["postgres", "app"]));
}

#[test]
fn get_service_depends_array_notation() {
    let yaml = r#"
services:
  app:
    image: the-app
    depends_on: [x, postgres]
  postgres:
    image: postgres
  app1:
    image: some-image
    ports:
      - 8000:8000
    depends_on:
      - postgres
      - app
    "#;
    let compose = ComposeYaml::new(&yaml).unwrap();
    let app1 = compose.get_service("app").expect("app not found");
    let depends_on = compose.get_service_depends_on(&app1);
    assert_eq!(depends_on.unwrap_or(Vec::default()), strings(&["x", "postgres"]));
}

#[test]
fn get_service_depends_with_conditions() {
    let yaml = r#"
services:
  app:
    image: the-app
    depends_on:
      postgres:
        condition: service_healthy
      redis:
        condition: service_healthy
  postgres:
    image: postgres
    "#;
    let compose = ComposeYaml::new(&yaml).unwrap();
    let app1 = compose.get_service("app").expect("app not found");
    let depends_on = compose.get_service_depends_on(&app1);
    assert_eq!(depends_on.unwrap_or(Vec::default()), strings(&["postgres", "redis"]));
}

#[test]
fn get_service_no_depends() {
    let yaml = r#"
services:
  app:
    image: the-app
  postgres:
    image: postgres
    "#;
    let compose = ComposeYaml::new(&yaml).unwrap();
    let app1 = compose.get_service("app").expect("app not found");
    let depends_on = compose.get_service_depends_on(&app1);
    assert!(depends_on.is_none());
}
