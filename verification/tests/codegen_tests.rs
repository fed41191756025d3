use dyard::ast::{
    Dependency, DependencyCondition, EnvFile, EnvSection, EnvSource, EnvVariable, HealthCheck,
    ResourceLimit, RouteAdd, ServeConfig, ServiceBlock, StrMap, TraefikDefaults, Volume,
};
use dyard::codegen::compose::separate_block_entries;
use dyard::codegen::env::EnvGenerator;
use dyard::codegen::traefik::{separate_http_entries, TraefikGenerator};
use dyard::codegen::{
    generate_compose_yaml, generate_compose_yaml_with_restart, generate_env_content, generate_traefik_dynamic, generate_traefik_static,
    ComposeGenerator,
};
use dyard::yaml::{render_yaml, str_value, Yaml};

fn block(name: &str, image: &str) -> ServiceBlock {
    ServiceBlock {
        source_file: "test".to_string(),
        source_line: 1,
        name: name.to_string(),
        image: image.to_string(),
        limit: None,
        networks: vec![],
        volumes: vec![],
        expose: vec![],
        user: None,
        depends_on: vec![],
        healthcheck: None,
        env_from: vec![],
        serve: vec![],
        route_add: vec![],
        network_config: None,
        raw: StrMap::new(),
        raw_compose_block: None,
    }
}

fn serve(name: Option<&str>, subdomain: &str, port: u16) -> ServeConfig {
    ServeConfig {
        name: name.map(|n| n.to_string()),
        subdomain: subdomain.to_string(),
        port,
        api_internal: false,
        middlewares: vec![],
        use_service: None,
    }
}

fn var(value: &str, secret: bool) -> EnvVariable {
    EnvVariable { value: value.to_string(), secret, aliases: vec![] }
}

fn defaults() -> TraefikDefaults {
    TraefikDefaults {
        entry_points: vec!["websecure".to_string()],
        cert_resolver: Some("letsencrypt".to_string()),
        tls_options: None,
    }
}

#[test]
fn test_simple_service_generation() {
    let service = ServiceBlock {
        source_file: "test".to_string(),
        source_line: 1,
        name: "web".to_string(),
        image: "nginx:latest".to_string(),
        limit: Some(ResourceLimit { memory: "512m".to_string(), cpus: "1".to_string() }),
        networks: vec!["web-net".to_string()],
        volumes: vec![],
        expose: vec![80],
        user: None,
        depends_on: vec![],
        healthcheck: None,
        env_from: vec![],
        serve: vec![],
        route_add: vec![],
        network_config: None,
        raw: StrMap::new(),
        raw_compose_block: None,
    };

    let yaml = generate_compose_yaml(&[service], "traefik");
    assert!(yaml.contains("nginx:latest"));
    assert!(yaml.contains("512m"));
}

#[test]
fn test_env_generation() {
    let mut vars = StrMap::new();
    vars.insert("DB_HOST".to_string(), var("localhost", false));
    vars.insert("DB_PORT".to_string(), var("5432", false));

    let env = EnvSection { extends: vec![], variables: vars };
    let env_file = EnvFile { root_section: env, sections: StrMap::new() };

    let content = generate_env_content(&env_file, None);
    assert!(content.contains("DB_HOST=localhost"));
    assert!(content.contains("DB_PORT=5432"));
}

#[test]
fn env_file_lines_are_sorted_with_aliases() {
    let mut vars = StrMap::new();
    vars.insert("ZED".to_string(), var("1", false));
    vars.insert(
        "HOST".to_string(),
        EnvVariable { value: "db".to_string(), secret: false, aliases: vec!["DB_HOST".to_string()] },
    );
    let env_file = EnvFile {
        root_section: EnvSection { extends: vec![], variables: StrMap::new() },
        sections: {
            let mut s = StrMap::new();
            s.insert("app".to_string(), EnvSection { extends: vec![], variables: vars });
            s
        },
    };
    assert_eq!(
        EnvGenerator::generate_env_file(&env_file, Some("app")),
        "DB_HOST=db\nHOST=db\nZED=1"
    );
    assert_eq!(EnvGenerator::generate_env_file(&env_file, Some("missing")), "");
    assert_eq!(EnvGenerator::generate_env_file(&env_file, None), "DB_HOST=db\nHOST=db\nZED=1");
}

#[test]
fn env_file_without_a_name_flattens_every_section() {
    let mut root = StrMap::new();
    root.insert("R".to_string(), var("0", false));
    let mut a = StrMap::new();
    a.insert("X".to_string(), var("1", false));
    let mut b = StrMap::new();
    b.insert("Y".to_string(), var("2", true));
    let env_file = EnvFile {
        root_section: EnvSection { extends: vec![], variables: root },
        sections: {
            let mut s = StrMap::new();
            s.insert("b".to_string(), EnvSection { extends: vec![], variables: b });
            s.insert("a".to_string(), EnvSection { extends: vec![], variables: a });
            s
        },
    };
    assert_eq!(EnvGenerator::generate_env_file(&env_file, None), "R=0\nX=1\nY=2");
    assert_eq!(EnvGenerator::generate_env_file(&env_file, Some("a")), "X=1");
}

#[test]
fn service_env_lines() {
    let v = EnvVariable {
        value: "x".to_string(),
        secret: false,
        aliases: vec!["A".to_string(), "B".to_string()],
    };
    assert_eq!(EnvGenerator::generate_service_env("K", &v), "K=x\nA=x\nB=x");
    assert_eq!(EnvGenerator::generate_service_env("K", &var("y", true)), "K=y");
}

#[test]
fn every_service_restarts_unless_stopped_and_is_named() {
    let mut s = block("db", "postgres:16");
    s.depends_on = vec![Dependency { service: "cache".to_string(), condition: DependencyCondition::Healthy }];
    s.volumes = vec![Volume {
        container_path: "/data".to_string(),
        host_path: "./data".to_string(),
        mode: Some("ro".to_string()),
    }];
    s.user = Some("999".to_string());
    s.healthcheck = Some(HealthCheck {
        test: "pg_isready".to_string(),
        interval: Some("30s".to_string()),
        timeout: None,
        retries: Some(3),
        start_period: None,
    });
    let text = render_yaml(&ComposeGenerator::generate_service(&s, &vec![], "unless-stopped"));
    assert!(text.contains("container_name: db"));
    assert!(text.contains("restart: unless-stopped"));
    assert!(text.contains("./data:/data:ro"));
    assert!(text.contains("condition: service_healthy"));
    assert!(text.contains("CMD-SHELL"));
    assert!(text.contains("user: '999'"));
}

#[test]
fn limits_strip_cpu_suffix() {
    let mut s = block("w", "img");
    s.limit = Some(ResourceLimit { memory: "1g".to_string(), cpus: "2cpus".to_string() });
    let text = render_yaml(&ComposeGenerator::generate_service(&s, &vec![], "unless-stopped"));
    assert!(text.contains("mem_limit: 1g"));
    assert!(text.contains("cpus: '2'"));
}

#[test]
fn secrets_are_referenced_not_written() {
    let mut s = block("app", "img");
    s.env_from = vec![
        EnvSource::Inline { key: "PASSWORD".to_string(), value: "hunter2".to_string(), secret: true },
        EnvSource::Inline { key: "MODE".to_string(), value: "prod".to_string(), secret: false },
        EnvSource::File { file: "shared".to_string(), section: Some("db".to_string()) },
    ];
    let yaml = generate_compose_yaml(&[s], "traefik");
    assert!(!yaml.contains("hunter2"));
    assert!(yaml.contains("PASSWORD: ${PASSWORD}"));
    assert!(yaml.contains("MODE: prod"));
    assert!(yaml.contains("env/app.db.env"));
    assert!(yaml.contains("env/app.secrets.env"));
}

#[test]
fn router_joins_auto_networks() {
    let mut app = block("app", "img");
    app.serve = vec![serve(None, "app", 3000)];
    app.networks = vec!["backend".to_string()];
    let router = block("traefik", "traefik:v3");
    let plain = block("worker", "img");
    let services = vec![app, router, plain];
    let yaml = generate_compose_yaml(&services, "traefik");
    assert!(yaml.contains("app-net"));
    assert!(yaml.contains("backend"));
    assert!(!yaml.contains("worker-net"));
    let router_part = &yaml[yaml.find("  traefik:").unwrap()..yaml.find("  worker:").unwrap()];
    assert!(router_part.contains("- backend\n"));
    assert!(router_part.contains("- app-net\n"));
    let nets = ComposeGenerator::collect_networks(&services, &vec!["app-net".to_string()]);
    assert_eq!(nets, vec!["app-net".to_string(), "backend".to_string()]);
}

#[test]
fn networks_are_sorted_and_distinct() {
    let mut a = block("a", "img");
    a.networks = vec!["zeta".to_string(), "alpha".to_string()];
    let mut b = block("b", "img");
    b.networks = vec!["alpha".to_string(), "mid".to_string()];
    let nets = ComposeGenerator::collect_networks(&[a, b], &vec!["zeta".to_string()]);
    assert_eq!(nets, vec!["alpha".to_string(), "mid".to_string(), "zeta".to_string()]);
}

#[test]
fn raw_compose_block_is_merged() {
    let mut s = block("app", "img");
    s.raw_compose_block = Some("volumes:\n  uploads: {}".to_string());
    let yaml = generate_compose_yaml(&[s], "traefik");
    assert!(yaml.contains("volumes:"));
    assert!(yaml.contains("uploads: {}"));
}

#[test]
fn block_entries_are_separated() {
    let input = "services:\n  a:\n    x: 1\n  b:\n    y: 2\nnetworks:\n  n: {}\n";
    assert_eq!(
        separate_block_entries(input, "services", 2),
        "services:\n  a:\n    x: 1\n\n  b:\n    y: 2\n\nnetworks:\n  n: {}\n"
    );
}

#[test]
fn http_entries_are_separated() {
    let input = "http:\n  routers:\n    a:\n      rule: x\n    b:\n      rule: y\n  services:\n    s: {}\n";
    assert_eq!(
        separate_http_entries(input, "routers"),
        "http:\n  routers:\n    a:\n      rule: x\n\n    b:\n      rule: y\n\n  services:\n    s: {}\n"
    );
}

#[test]
fn router_names_and_rules() {
    assert_eq!(TraefikGenerator::router_name("app", &serve(Some("api"), "x", 1)), "app-api");
    assert_eq!(TraefikGenerator::router_name("app", &serve(None, ".", 1)), "app");
    assert_eq!(TraefikGenerator::router_name("app", &serve(None, "www", 1)), "www");
    assert_eq!(TraefikGenerator::base_rule(&serve(None, ".", 1), "example.com"), "Host(`example.com`)");
    assert_eq!(
        TraefikGenerator::base_rule(&serve(None, "www", 1), "example.com"),
        "Host(`www.example.com`)"
    );
}

#[test]
fn dynamic_config_routes_and_services() {
    let mut app = block("app", "img");
    let mut s = serve(Some("web"), "www", 8080);
    s.middlewares = vec!["auth@docker".to_string()];
    app.serve = vec![s];
    app.route_add = vec![RouteAdd {
        route_name: Some("web".to_string()),
        key: "rule".to_string(),
        value: str_value("@ && PathPrefix(`/api`)"),
    }];
    let text = generate_traefik_dynamic(&[app], "traefik", "example.com", &defaults());
    assert!(text.contains("app-web:"));
    assert!(text.contains("Host(`www.example.com`) && PathPrefix(`/api`)"));
    assert!(text.contains("app-web-service"));
    assert!(text.contains("http://app:8080"));
    assert!(text.contains("auth@docker"));
    assert!(!text.contains("auth@file"));
    assert!(text.contains("certResolver: letsencrypt"));
    assert!(text.contains("websecure"));
}

#[test]
fn router_container_only_routes_its_api() {
    let mut router = block("traefik", "traefik:v3");
    let mut api = serve(None, "dash", 0);
    api.api_internal = true;
    router.serve = vec![api, serve(None, "ignored", 80)];
    let text = generate_traefik_dynamic(&[router], "traefik", "example.com", &defaults());
    assert!(text.contains("api@internal"));
    assert!(!text.contains("ignored"));
}

#[test]
fn static_config_defaults_and_route_adds() {
    let mut router = block("traefik", "traefik:v3");
    router.route_add = vec![
        RouteAdd { route_name: None, key: "log.level".to_string(), value: str_value("DEBUG") },
        RouteAdd { route_name: Some("x".to_string()), key: "ignored".to_string(), value: Yaml::Null },
    ];
    let text = generate_traefik_static(&router, None);
    assert!(text.contains("dashboard: true"));
    assert!(text.contains("log:\n  level: DEBUG"));
    assert!(!text.contains("ignored"));
    let base = Yaml::Mapping(vec![]);
    let text = generate_traefik_static(&block("traefik", "t"), Some(base));
    assert_eq!(text, "{}\n");
}

#[test]
fn restart_policy_comes_from_the_defaults() {
    let services = vec![block("a", "img"), block("b", "img")];
    let yaml = generate_compose_yaml_with_restart(&services, "traefik", "always");
    assert_eq!(yaml.matches("restart: always").count(), 2);
    assert!(!yaml.contains("unless-stopped"));
    let default = generate_compose_yaml(&services, "traefik");
    assert_eq!(default.matches("restart: unless-stopped").count(), 2);
}

#[test]
fn env_from_last_value_wins() {
    let mut s = block("app", "img");
    s.env_from = vec![
        EnvSource::Inline { key: "MODE".to_string(), value: "dev".to_string(), secret: false },
        EnvSource::Inline { key: "MODE".to_string(), value: "prod".to_string(), secret: false },
        EnvSource::Inline { key: "TOKEN".to_string(), value: "plain".to_string(), secret: false },
        EnvSource::Inline { key: "TOKEN".to_string(), value: "s3cr3t".to_string(), secret: true },
    ];
    let text = render_yaml(&ComposeGenerator::generate_service(&s, &vec![], "unless-stopped"));
    assert!(text.contains("MODE: prod"));
    assert!(!text.contains("MODE: dev"));
    assert!(text.contains("TOKEN: ${TOKEN}"));
    assert!(!text.contains("s3cr3t"));
}

#[test]
fn middlewares_are_referenced_by_name() {
    let mut app = block("app", "img");
    let mut s = serve(None, "app", 3000);
    s.middlewares = vec!["cors".to_string()];
    app.serve = vec![s];
    let text = generate_traefik_dynamic(&[app], "traefik", "example.com", &defaults());
    assert!(text.contains("- cors\n"));
    assert!(!text.contains("cors@file"));
}

#[test]
fn a_nameless_route_add_applies_to_the_last_serve() {
    let b = dyard::parse::parse_service_file(
        "container nginx:latest as app\n  serve as app:3000\n  route_add priority: 5\n",
        "t",
    )
    .unwrap()
    .remove(0);
    assert_eq!(b.route_add[0].route_name, Some("app".to_string()));
    let text = generate_traefik_dynamic(&[b], "traefik", "d", &defaults());
    assert!(text.contains("priority: 5"));
}
