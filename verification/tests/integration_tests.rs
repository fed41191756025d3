use dyard::ast::{ConfigValue, EnvFile, EnvSource, ServiceBlock, StrMap, Volume};
use dyard::integration::{
    dynamic_network_config, env_setting_is_file, has_extension, is_network_template,
    resolve_template_bounded, tracked_files, tracked_folders,
    template_resolves_within,
    ProjectBuilder, TemplateMode,
};
use dyard::parse::parse_env_file;
use dyard::yaml::{parse_or_string, render_yaml, Yaml};

fn block(name: &str, image: &str) -> ServiceBlock {
    ServiceBlock {
        source_file: "test".to_string(),
        source_line: 1,
        name: name.to_string(),
        image: image.to_string(),
        limit: None,
        networks: vec![],
        volumes: vec![],
        expose: vec![],
        user: None,
        depends_on: vec![],
        healthcheck: None,
        env_from: vec![],
        serve: vec![],
        route_add: vec![],
        network_config: None,
        raw: StrMap::new(),
        raw_compose_block: None,
    }
}

fn env_files() -> StrMap<EnvFile> {
    let shared = parse_env_file(
        "ROOT_VAR=top\n[db]\nHOST=localhost\nPORT=5432\n*PASSWORD=pw\n[net]\nIPS=1.1.1.1, 2.2.2.2\n[app extends db]\nPORT=6000\nHOST as DB_HOST\n",
    )
    .unwrap();
    let mut files = StrMap::new();
    files.insert("shared.env".to_string(), shared);
    files
}

fn config_vars() -> StrMap<ConfigValue> {
    let mut cv = StrMap::new();
    cv.insert("DOMAIN".to_string(), ConfigValue::String("example.org".to_string()));
    cv.insert("TOKEN".to_string(), ConfigValue::Secret("t0k".to_string()));
    cv
}

fn chars(s: &str) -> Vec<char> {
    s.chars().collect()
}

#[test]
fn sections_inherit_and_children_override() {
    let files = env_files();
    let f = ProjectBuilder::env_file_lookup(&files, "shared").unwrap();
    let app = ProjectBuilder::resolve_env_section(f, Some("app"), 0, &files);
    assert_eq!(app.get("PORT").unwrap().value, "6000");
    assert_eq!(app.get("DB_HOST").unwrap().value, "localhost");
    assert_eq!(app.get("HOST").unwrap().value, "localhost");
    assert!(app.get("PASSWORD").unwrap().secret);
    let root = ProjectBuilder::resolve_env_section(f, None, 0, &files);
    assert_eq!(root.get("ROOT_VAR").unwrap().value, "top");
    assert_eq!(ProjectBuilder::resolve_env_section(f, Some("missing"), 0, &files).len(), 0);
}

#[test]
fn env_file_lookup_tries_env_suffix() {
    let files = env_files();
    assert!(ProjectBuilder::env_file_lookup(&files, "shared.env").is_some());
    assert!(ProjectBuilder::env_file_lookup(&files, "shared").is_some());
    assert!(ProjectBuilder::env_file_lookup(&files, "other").is_none());
}

#[test]
fn unresolved_references_are_reported() {
    let mut errs: Vec<String> = vec!["earlier".to_string()];
    ProjectBuilder::check_unresolved("x ${A@b} ${PLAIN} ${C@@d}", "loc", &mut errs);
    assert_eq!(
        errs,
        vec![
            "earlier".to_string(),
            "loc: unresolved variable '${A@b}'".to_string(),
            "loc: unresolved variable '${C@@d}'".to_string(),
        ]
    );
}

#[test]
fn templates_in_three_modes() {
    let files = env_files();
    let cv = config_vars();
    assert_eq!(
        ProjectBuilder::resolve_template_string(
            "${HOST@db@shared.env}:${PORT@db@shared} on ${DOMAIN} ${PASSWORD@db@shared.env} ${TOKEN}",
            &files,
            &cv
        ),
        "localhost:5432 on example.org pw t0k"
    );
    assert_eq!(
        ProjectBuilder::resolve_template_string_compose(
            "${HOST@db@shared.env} ${PASSWORD@db@shared.env} ${TOKEN} ${DOMAIN}",
            &files,
            &cv
        ),
        "localhost ${PASSWORD} ${TOKEN} example.org"
    );
    assert_eq!(
        ProjectBuilder::resolve_template_string_nonsecret(
            "${ROOT_VAR@shared.env} ${PASSWORD@db@shared.env} ${TOKEN} ${DOMAIN}",
            &files,
            &cv
        ),
        "top ${PASSWORD@db@shared.env} ${TOKEN} example.org"
    );
    assert_eq!(
        ProjectBuilder::resolve_template_string("${MISSING@db@shared.env}", &files, &cv),
        "${MISSING@db@shared.env}"
    );
}

#[test]
fn cyclic_references_are_detected() {
    let cyc = parse_env_file("A=${A@@self.env}\n").unwrap();
    let mut files = StrMap::new();
    files.insert("self.env".to_string(), cyc);
    let cv = config_vars();
    assert!(resolve_template_bounded("${A@@self.env}", &files, &cv, TemplateMode::Full, 50).is_none());
    assert!(!template_resolves_within("${A@@self.env}", &files, TemplateMode::Full, 50));
    let ok = env_files();
    assert_eq!(
        resolve_template_bounded("${HOST@db@shared.env}", &ok, &cv, TemplateMode::Full, 50),
        Some("localhost".to_string())
    );
    assert!(template_resolves_within("${HOST@db@shared.env}", &ok, TemplateMode::Full, 50));
}

#[test]
fn list_values() {
    assert_eq!(
        ProjectBuilder::split_list_value("[a, b, 3]"),
        vec!["a".to_string(), "b".to_string(), "3".to_string()]
    );
    assert_eq!(
        ProjectBuilder::split_list_value(" 10.0.0.1/32, 10.0.0.2/32 "),
        vec!["10.0.0.1/32".to_string(), "10.0.0.2/32".to_string()]
    );
    assert_eq!(
        ProjectBuilder::split_list_value("x\ny\n\nz"),
        vec!["x".to_string(), "y".to_string(), "z".to_string()]
    );
    assert_eq!(ProjectBuilder::split_list_value("single"), vec!["single".to_string()]);
    assert_eq!(ProjectBuilder::split_list_value("   "), Vec::<String>::new());
}

#[test]
fn variable_reference_values() {
    let files = env_files();
    let cv = config_vars();
    assert_eq!(
        ProjectBuilder::resolve_varref_value("HOST@db@shared.env", &files, &cv),
        Some("localhost".to_string())
    );
    assert_eq!(ProjectBuilder::resolve_varref_value("PASSWORD@db@shared.env", &files, &cv), None);
    assert_eq!(ProjectBuilder::resolve_varref_value("DOMAIN@", &files, &cv), Some("example.org".to_string()));
    assert_eq!(ProjectBuilder::resolve_varref_value("TOKEN@", &files, &cv), None);
    assert_eq!(ProjectBuilder::resolve_varref_value("ROOT_VAR@shared", &files, &cv), Some("top".to_string()));
    assert_eq!(ProjectBuilder::resolve_varref_value("NOAT", &files, &cv), None);
}

#[test]
fn list_references_are_spliced() {
    let files = env_files();
    let cv = config_vars();
    assert_eq!(
        ProjectBuilder::splice_list_varrefs("ips:\n  ${IPS@net@shared.env}\nother: 1\n", &files, &cv),
        "ips:\n  - 1.1.1.1\n  - 2.2.2.2\nother: 1\n"
    );
    assert_eq!(
        ProjectBuilder::splice_list_varrefs("a: ${IPS@net@shared.env}\n", &files, &cv),
        "a: ${IPS@net@shared.env}\n"
    );
}

#[test]
fn go_templates_round_trip() {
    let text = "rule: {{ .Host }}\nother: {{x}} and {{ unclosed";
    let (out, ts) = ProjectBuilder::extract_go_templates(text);
    assert_eq!(out, "rule: __GOTEMPL0__\nother: __GOTEMPL1__ and {{ unclosed");
    assert_eq!(ts, vec!["{{ .Host }}".to_string(), "{{x}}".to_string()]);
    assert_eq!(ProjectBuilder::restore_go_templates(out, &ts), text);
}

#[test]
fn dotted_keys_expand() {
    let y = parse_or_string(&chars("a.b.c: 1\nd: [ {e.f: x} ]\na.g: 2\n"));
    let expanded = ProjectBuilder::expand_dot_keys(y);
    assert_eq!(render_yaml(&expanded), "a:\n  b:\n    c: 1\n  g: 2\nd:\n- e:\n    f: x\n");
}

#[test]
fn network_yaml_is_processed() {
    let files = env_files();
    let cv = config_vars();
    let out = ProjectBuilder::process_network_yaml(
        "a.b: ${DOMAIN}\nc: {{ .X }}\nips:\n  ${IPS@net@shared.env}\n",
        "net.yml",
        &cv,
        &files,
    );
    assert_eq!(
        out,
        Ok("a:\n  b: example.org\nc: {{ .X }}\nips:\n- 1.1.1.1\n- 2.2.2.2\n".to_string())
    );
    let bad = ProjectBuilder::process_network_yaml("a: [\n", "bad.yml", &cv, &files);
    assert!(bad.unwrap_err().starts_with("bad.yml: failed to parse YAML: "));
    let bounded =
        ProjectBuilder::process_network_yaml_bounded("x: ${DOMAIN}\n", "n.yml", &cv, &files, 100);
    assert_eq!(bounded, Some(Ok("x: example.org\n".to_string())));
}

#[test]
fn services_are_resolved() {
    let files = env_files();
    let cv = config_vars();
    let mut app = block("app", "img");
    app.env_from = vec![
        EnvSource::VarRef { key: "HOST".to_string(), file: "shared.env".to_string(), section: Some("db".to_string()) },
        EnvSource::File { file: "shared.env".to_string(), section: Some("db".to_string()) },
    ];
    app.volumes = vec![Volume {
        container_path: "/data".to_string(),
        host_path: "/srv/${DOMAIN}/${ROOT_VAR@@shared.env}".to_string(),
        mode: None,
    }];
    app.raw.insert("command".to_string(), Yaml::Str("--pw=${PASSWORD@db@shared.env}".to_string()));
    assert!(ProjectBuilder::services_resolve_within(&[block("x", "y")], &files, 100));
    let services = vec![app];
    assert!(ProjectBuilder::services_resolve_within(&services, &files, 100));
    let resolved = ProjectBuilder::resolve_services(&services, &files, &cv).ok().unwrap();
    let s = &resolved[0];
    match &s.env_from[0] {
        EnvSource::Inline { key, value, secret } => {
            assert_eq!(key, "HOST");
            assert_eq!(value, "localhost");
            assert!(!*secret);
        }
        _ => panic!("expected the reference to be inlined"),
    }
    assert!(s.env_from.iter().any(|e| matches!(e, EnvSource::Inline { key, secret: true, .. } if key == "PASSWORD")));
    assert_eq!(s.volumes[0].host_path, "/srv/example.org/top");
    match s.raw.get("command").unwrap() {
        Yaml::Str(t) => assert_eq!(t, "--pw=${PASSWORD}"),
        _ => panic!("expected a string"),
    }
}

#[test]
fn resolution_errors_are_collected() {
    let files = env_files();
    let cv = config_vars();
    let mut app = block("app", "img");
    app.env_from = vec![
        EnvSource::VarRef { key: "HOST".to_string(), file: "nope.env".to_string(), section: None },
        EnvSource::VarRef { key: "NOPE".to_string(), file: "shared.env".to_string(), section: None },
    ];
    let err = ProjectBuilder::resolve_services(&[app], &files, &cv).err().unwrap();
    assert_eq!(
        err,
        "test:1: env file 'nope.env' not found (referenced in env from for 'app')\ntest:1: variable 'NOPE' not found in section 'root' of 'shared.env' (referenced in env from for 'app')"
    );
}

#[test]
fn root_env_and_service_env_files() {
    let files = env_files();
    let cv = config_vars();
    let mut app = block("app", "img");
    app.env_from = vec![
        EnvSource::File { file: "shared.env".to_string(), section: Some("db".to_string()) },
        EnvSource::Inline { key: "EXTRA".to_string(), value: "s3".to_string(), secret: true },
    ];
    let services = vec![app];
    let (root, flat) = ProjectBuilder::root_env_content(&services, &files, &cv, "x: ${HOST}\ny: ${PASSWORD}\nz: ${UNKNOWN}\n");
    assert_eq!(root, "DOMAIN=example.org\nHOST=localhost\nPASSWORD=pw\nTOKEN=t0k");
    assert_eq!(flat.get("IPS").unwrap(), "1.1.1.1, 2.2.2.2");
    assert!(ProjectBuilder::service_env_resolves_within(&services[0], &files, 100));
    let (written, warnings) = ProjectBuilder::service_env_files(&services[0], &files, &cv, &flat);
    assert_eq!(
        written,
        vec![
            ("app.db.env".to_string(), "HOST=localhost\nPORT=5432".to_string()),
            ("app.secrets.env".to_string(), "EXTRA=s3\nPASSWORD=pw".to_string()),
        ]
    );
    assert!(warnings.is_empty());
}

#[test]
fn domain_and_router() {
    assert_eq!(ProjectBuilder::domain(&config_vars()), "example.org");
    let mut cv = StrMap::new();
    cv.insert("DOMAIN".to_string(), ConfigValue::Secret("hidden".to_string()));
    assert_eq!(ProjectBuilder::domain(&cv), "example.com");
    assert_eq!(ProjectBuilder::domain(&StrMap::new()), "example.com");
    let services = vec![block("app", "img"), block("traefik", "traefik:v3")];
    assert_eq!(ProjectBuilder::router_service(&services, "traefik").unwrap().image, "traefik:v3");
    assert_eq!(
        ProjectBuilder::router_service(&services, "proxy").err(),
        Some("Router container 'proxy' not found".to_string())
    );
}

#[test]
fn cache_round_trip_and_diff() {
    let old = ProjectBuilder::parse_cache("config.dyard\t1\ncontainers/a.dyard\t2\nbad line\ngone.env\t3\nx\tnan");
    assert_eq!(old.len(), 3);
    assert_eq!(*old.get("containers/a.dyard").unwrap(), 2);
    let mut current = StrMap::new();
    current.insert("containers/a.dyard".to_string(), 5u64);
    current.insert("config.dyard".to_string(), 1u64);
    current.insert("new.env".to_string(), 7u64);
    let (changed, added, removed) = ProjectBuilder::cache_diff(&current, &old);
    assert_eq!(changed, vec!["containers/a.dyard".to_string()]);
    assert_eq!(added, vec!["new.env".to_string()]);
    assert_eq!(removed, vec!["gone.env".to_string()]);
    let text = ProjectBuilder::cache_text(&current);
    assert_eq!(text, "config.dyard\t1\ncontainers/a.dyard\t5\nnew.env\t7");
    let again = ProjectBuilder::parse_cache(&text);
    let (c2, a2, r2) = ProjectBuilder::cache_diff(&current, &again);
    assert!(c2.is_empty() && a2.is_empty() && r2.is_empty());
}

#[test]
fn projects_are_assembled_and_validated() {
    let config = "DOMAIN: example.org\n";
    let services = vec![(
        "a.dyard".to_string(),
        "container nginx as web\n  serve as www:80\ncontainer traefik:v3 as traefik\n".to_string(),
    )];
    let envs = vec![("shared.env".to_string(), "[db]\nHOST=h\n".to_string())];
    let p = ProjectBuilder::assemble_project(config, &services, &envs).ok().unwrap();
    assert_eq!(p.services.len(), 2);
    assert_eq!(p.services[1].source_line, 3);
    assert!(p.env_files.contains_key("shared.env"));
    let missing_router = vec![("a.dyard".to_string(), "container nginx as web\n".to_string())];
    assert_eq!(
        ProjectBuilder::assemble_project(config, &missing_router, &envs).err(),
        Some("Router container 'traefik' not found in services".to_string())
    );
    let broken = vec![("b.dyard".to_string(), "oops\n".to_string())];
    assert_eq!(
        ProjectBuilder::assemble_project(config, &broken, &envs).err(),
        Some("b.dyard:1: parse error (Tag): \"oops\"".to_string())
    );
}

#[test]
fn output_layout_decisions() {
    assert!(is_network_template("_middlewares.yml"));
    assert!(!is_network_template("middlewares.yml"));
    assert!(!is_network_template("_middlewares.yaml"));
    assert!(env_setting_is_file("build/.env"));
    assert!(!env_setting_is_file("build/env"));
}

#[test]
fn later_extends_override_earlier() {
    let f = parse_env_file("[a]\nX=1\nY=a\n[b]\nX=2\n[c extends a, b]\n[d extends b, a]\nY=own\n").unwrap();
    let c = ProjectBuilder::resolve_env_section(&f, Some("c"), 0, &StrMap::new());
    assert_eq!(c.get("X").unwrap().value, "2");
    assert_eq!(c.get("Y").unwrap().value, "a");
    let d = ProjectBuilder::resolve_env_section(&f, Some("d"), 0, &StrMap::new());
    assert_eq!(d.get("X").unwrap().value, "1");
    assert_eq!(d.get("Y").unwrap().value, "own");
}

#[test]
fn an_alias_copies_and_keeps_its_source() {
    let f = parse_env_file("[common]\nA=1\n*B=2\n[app extends common]\nA=9\nB as C\n").unwrap();
    let app = ProjectBuilder::resolve_env_section(&f, Some("app"), 0, &StrMap::new());
    assert_eq!(app.get("A").unwrap().value, "9");
    assert_eq!(app.get("C").unwrap().value, "2");
    assert!(app.get("C").unwrap().secret);
    assert_eq!(app.get("B").unwrap().value, "2");
    assert!(app.get("B").unwrap().secret);
}

#[test]
fn file_root_references_resolve() {
    let mut files = StrMap::new();
    files.insert("app.env".to_string(), parse_env_file("A=1\n*S=hidden\n").unwrap());
    let cv = StrMap::new();
    assert_eq!(ProjectBuilder::resolve_template_string("${A@app.env}", &files, &cv), "1");
    assert_eq!(ProjectBuilder::resolve_template_string("${S@app.env}", &files, &cv), "hidden");
    assert_eq!(
        ProjectBuilder::resolve_template_string_compose("${A@app.env} ${S@app.env}", &files, &cv),
        "1 ${S}"
    );
    assert_eq!(
        ProjectBuilder::resolve_template_string_nonsecret("${A@app.env} ${S@app.env}", &files, &cv),
        "1 ${S@app.env}"
    );
}

#[test]
fn extends_read_other_files() {
    let mut files = StrMap::new();
    files.insert("base.env".to_string(), parse_env_file("R=root\n[db]\nHOST=h\nPORT=1\n").unwrap());
    files.insert(
        "app.env".to_string(),
        parse_env_file("[app extends db@base.env, @base.env]\nPORT=2\n").unwrap(),
    );
    let f = ProjectBuilder::env_file_lookup(&files, "app.env").unwrap();
    let app = ProjectBuilder::resolve_env_section(f, Some("app"), 0, &files);
    assert_eq!(app.get("HOST").unwrap().value, "h");
    assert_eq!(app.get("R").unwrap().value, "root");
    assert_eq!(app.get("PORT").unwrap().value, "2");
    let alone = ProjectBuilder::resolve_env_section(f, Some("app"), 0, &StrMap::new());
    assert!(alone.get("HOST").is_none());
}

#[test]
fn go_template_round_trip_breaks_on_a_marker_after_a_template() {
    // The text holds no `__GOTEMPL`, yet the `__` ending the second
    // placeholder joins the text `GOTEMPL0__` into a copy of the first one.
    let text = "{{a}}{{b}}GOTEMPL0__";
    let (out, ts) = ProjectBuilder::extract_go_templates(text);
    assert_eq!(out, "__GOTEMPL0____GOTEMPL1__GOTEMPL0__");
    assert_eq!(ProjectBuilder::restore_go_templates(out, &ts), "{{a}}__GOTEMPL1{{a}}");
}

#[test]
fn the_router_network_config_is_not_dynamic() {
    let mut web = block("web", "img");
    web.network_config = Some("network/web.yml".to_string());
    let mut router = block("traefik", "img");
    router.network_config = Some("network/static.yml".to_string());
    assert_eq!(
        dynamic_network_config(&web, "traefik"),
        Some(&"network/web.yml".to_string())
    );
    assert_eq!(dynamic_network_config(&router, "traefik"), None);
    assert_eq!(dynamic_network_config(&block("x", "i"), "traefik"), None);
}

#[test]
fn go_templates_round_trip_beside_the_marker() {
    let text = "GOTEMPL x: {{ .A }} y_GOTEMPL {{b}} GOTEMPL0__";
    let (out, ts) = ProjectBuilder::extract_go_templates(text);
    assert_eq!(ProjectBuilder::restore_go_templates(out, &ts), text);
}

#[test]
fn tracked_inputs_are_chosen_by_extension_in_order() {
    let names = vec![
        "web.dyard".to_string(),
        ".dyard".to_string(),
        "api.dyard".to_string(),
        "notes.txt".to_string(),
        "x.dyard.bak".to_string(),
    ];
    assert_eq!(tracked_files(&names, "dyard"), vec!["api.dyard".to_string(), "web.dyard".to_string()]);
    assert!(has_extension("a.b.yml", "yml"));
    assert!(!has_extension(".yml", "yml"));
    assert!(!has_extension("yml", "yml"));
    let cfg = dyard::parse::parse_config_file("").unwrap();
    let f = tracked_folders(&cfg);
    assert_eq!(f[0].1, "dyard");
    assert_eq!(f[1].1, "env");
    assert_eq!(f[2].1, "yml");
    assert_eq!(f[0].0, cfg.input.containers);
}
