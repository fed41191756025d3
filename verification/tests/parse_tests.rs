use dyard::ast::{ConfigValue, DependencyCondition, EnvSource};
use dyard::parse::config::{parse_kv_line, parse_list};
use dyard::parse::env::{
    extract_extends, find_as_boundary, parse_env_line, parse_section_header, strip_quotes,
};
use dyard::parse::service::{collect_raw_block, line_of, skip_empty_lines};
use dyard::parse::{
    identifier, lexeme, line_content, parse_config_file, parse_env_file, parse_service_file, quoted_string,
    skip_comment, ws, ws1, ErrorKind, ParseError,
};

#[test]
fn test_parse_config() {
    let input = r#"
DOMAIN: example.com
DATA_PATH: /var/lib/dyard

input:
  containers: containers/
  network: network/

output:
  compose: build/docker-compose.yml
  traefik: build/traefik

traefik:
  entryPoints: [https]
  certResolver: letsencrypt

defaults:
  restart: unless-stopped
"#;

    let config = parse_config_file(input).unwrap();
    assert_eq!(
        config.variables.get("DOMAIN").unwrap(),
        &ConfigValue::String("example.com".to_string())
    );
    assert_eq!(config.input.containers, "containers/");
    assert_eq!(config.output.compose, "build/docker-compose.yml");
}

#[test]
fn test_parse_simple_env() {
    let input = r#"
[common]
DB_HOST=localhost
DB_PORT=5432

[app extends common]
APP_DEBUG=true
"#;

    let result = parse_env_file(input).unwrap();
    assert!(result.sections.contains_key("common"));
    assert!(result.sections.contains_key("app"));

    let common = result.sections.get("common").unwrap();
    assert_eq!(common.variables.get("DB_HOST").unwrap().value, "localhost");
}

#[test]
fn test_parse_secrets() {
    let input = r#"
[db]
*PASSWORD=secretpass
USER=admin
"#;

    let result = parse_env_file(input).unwrap();
    let db = result.sections.get("db").unwrap();

    let password = db.variables.get("PASSWORD").unwrap();
    assert!(password.secret);
    assert_eq!(password.value, "secretpass");

    let user = db.variables.get("USER").unwrap();
    assert!(!user.secret);
}

#[test]
fn test_identifier() {
    assert_eq!(identifier("nextcloud "), Ok((" ", "nextcloud".to_string())));
    assert_eq!(identifier("service-name "), Ok((" ", "service-name".to_string())));
}

#[test]
fn test_quoted_string() {
    assert_eq!(quoted_string("\"hello world\""), Ok(("", "hello world".to_string())));
    assert_eq!(quoted_string("'single quotes'"), Ok(("", "single quotes".to_string())));
}

#[test]
fn test_parse_simple_service() {
    let input = "container image nginx:latest as web\n";
    let result = parse_service_file(input, "test").unwrap();
    assert_eq!(result.len(), 1);
    assert_eq!(result[0].name, "web");
    assert_eq!(result[0].image, "nginx:latest");
}

#[test]
fn test_parse_serve_named() {
    let input = "container nginx:latest as app\n  serve web as health:8080\n";
    let result = parse_service_file(input, "test").unwrap();
    let serve = &result[0].serve[0];
    assert_eq!(serve.name, Some("web".to_string()));
    assert_eq!(serve.subdomain, "health");
    assert_eq!(serve.port, 8080);
}

#[test]
fn test_parse_serve_unnamed() {
    let input = "container nginx:latest as app\n  serve as app:3000\n";
    let result = parse_service_file(input, "test").unwrap();
    let serve = &result[0].serve[0];
    assert_eq!(serve.name, None);
    assert_eq!(serve.subdomain, "app");
    assert_eq!(serve.port, 3000);
}

#[test]
fn test_parse_serve_root_domain() {
    let input = "container nginx:latest as app\n  serve as .:80\n";
    let result = parse_service_file(input, "test").unwrap();
    assert_eq!(result[0].serve[0].subdomain, ".");
}

#[test]
fn test_parse_route_add_named() {
    let input =
        "container nginx:latest as app\n  serve web as health:80\n  route_add web priority:1\n";
    let result = parse_service_file(input, "test").unwrap();
    let ra = &result[0].route_add[0];
    assert_eq!(ra.route_name, Some("web".to_string()));
    assert_eq!(ra.key, "priority");
}

#[test]
fn test_parse_route_add_resolved_to_last_serve() {
    let input =
        "container nginx:latest as app\n  serve api as health:80\n  route_add rule: 'Host(`x`)'\n";
    let result = parse_service_file(input, "test").unwrap();
    assert_eq!(result[0].route_add[0].route_name, Some("api".to_string()));
}

#[test]
fn test_parse_end_raw_block() {
    let input =
        "container nginx:latest as app\n  network proxy\nend\nvolumes:\n  uploads: {}\n";
    let result = parse_service_file(input, "test").unwrap();
    assert!(result[0].raw_compose_block.is_some());
    assert!(result[0].raw_compose_block.as_ref().unwrap().contains("volumes:"));
}

#[test]
fn lexical_pieces() {
    assert_eq!(ws("  \n\tx"), Ok(("x", "  \n\t")));
    assert_eq!(ws("x"), Ok(("x", "")));
    assert_eq!(ws1(" x"), Ok(("x", " ")));
    assert_eq!(ws1("x"), Err(ParseError { input: "x", kind: ErrorKind::MultiSpace }));
    assert_eq!(identifier("_a-b c"), Ok((" c", "_a-b".to_string())));
    assert_eq!(identifier("9abc"), Err(ParseError { input: "9abc", kind: ErrorKind::TakeWhile1 }));
    assert_eq!(quoted_string("\"open"), Err(ParseError { input: "\"open", kind: ErrorKind::Char }));
    assert_eq!(quoted_string("'open"), Err(ParseError { input: "open", kind: ErrorKind::TakeUntil }));
    assert_eq!(skip_comment("x"), Err(ParseError { input: "x", kind: ErrorKind::Char }));
    assert_eq!(skip_comment("# end"), Err(ParseError { input: " end", kind: ErrorKind::TakeUntil }));
    assert_eq!(skip_comment("# note\nnext"), Ok(("\nnext", " note")));
    assert_eq!(line_content("value # note\nrest"), Ok(("\nrest", "value ")));
    assert_eq!(line_content("a#b\nrest"), Ok(("\nrest", "a#b")));
    assert!(line_content("no newline").is_err());
}

#[test]
fn lexemes_skip_trailing_space() {
    assert_eq!(lexeme(identifier, "name  \n rest"), Ok(("rest", "name".to_string())));
    assert_eq!(lexeme(|i| quoted_string(i), "'x y'\tz"), Ok(("z", "x y".to_string())));
    assert_eq!(
        lexeme(identifier, "1abc"),
        Err(ParseError { input: "1abc", kind: ErrorKind::TakeWhile1 })
    );
}

#[test]
fn error_kind_names() {
    assert_eq!(ErrorKind::Tag.name(), "Tag");
    assert_eq!(ErrorKind::TakeUntil.name(), "TakeUntil");
    assert_eq!(ErrorKind::MultiSpace.name(), "MultiSpace");
}

#[test]
fn config_key_values_and_lists() {
    assert_eq!(parse_kv_line("KEY: value"), Ok(("KEY".to_string(), "value".to_string())));
    assert!(parse_kv_line("no separator").is_err());
    assert_eq!(parse_list("[https, http]"), vec!["https".to_string(), "http".to_string()]);
    assert_eq!(parse_list("web"), vec!["web".to_string()]);
}

#[test]
fn config_defaults_when_sections_absent() {
    let config = parse_config_file("").unwrap();
    assert_eq!(config.input.containers, "containers/");
    assert_eq!(config.input.network, "network/");
    assert_eq!(config.output.compose, "build/docker-compose.yml");
    assert_eq!(config.output.env, "build/env");
    assert_eq!(config.traefik_defaults.entry_points, vec!["websecure".to_string()]);
    assert_eq!(config.traefik_defaults.cert_resolver, Some("letsencrypt".to_string()));
    assert_eq!(config.router_container, "traefik");
    assert_eq!(config.defaults.restart, "unless-stopped");
    assert_eq!(config.variables.len(), 0);
}

#[test]
fn config_secret_variable_and_traefik_defaults() {
    let input = "*TOKEN: abc\nrouter_container: proxy\ntraefik:\n  entryPoints: [web, websecure]\n  certResolver: le\n";
    let config = parse_config_file(input).unwrap();
    assert_eq!(config.variables.get("TOKEN").unwrap(), &ConfigValue::Secret("abc".to_string()));
    assert_eq!(config.router_container, "proxy");
    assert_eq!(
        config.traefik_defaults.entry_points,
        vec!["web".to_string(), "websecure".to_string()]
    );
    assert_eq!(config.traefik_defaults.cert_resolver, Some("le".to_string()));
}

#[test]
fn env_lines() {
    let (k, v) = parse_env_line("*KEY=\"quoted value\" as A, B").unwrap();
    assert_eq!(k, "KEY");
    assert!(v.secret);
    assert_eq!(v.value, "quoted value");
    assert_eq!(v.aliases, vec!["A".to_string(), "B".to_string()]);
    let (k, v) = parse_env_line("HOST as DB_HOST").unwrap();
    assert_eq!(k, "HOST");
    assert_eq!(v.value, "");
    assert_eq!(v.aliases, vec!["DB_HOST".to_string()]);
    let (k, v) = parse_env_line("PORT: 80").unwrap();
    assert_eq!(k, "PORT");
    assert_eq!(v.value, "80");
    assert_eq!(parse_env_line("garbage").err(), Some("Invalid env line: garbage".to_string()));
}

#[test]
fn env_helpers() {
    assert_eq!(find_as_boundary("A=b as C"), Some(3));
    assert_eq!(find_as_boundary("A as C"), None);
    assert_eq!(find_as_boundary("É=b as C"), Some(4));
    assert_eq!(strip_quotes("  'x y'  "), "x y");
    assert_eq!(strip_quotes("plain"), "plain");
    assert_eq!(parse_section_header("app extends common"), Ok("app".to_string()));
    assert_eq!(parse_section_header("   "), Err("Empty section header".to_string()));
    let ext = extract_extends("app extends common, db@shared").unwrap();
    assert_eq!(ext.len(), 2);
    match &ext[0] {
        EnvSource::File { file, section } => {
            assert_eq!(file, "");
            assert_eq!(section, &Some("common".to_string()));
        }
        _ => panic!("expected a file source"),
    }
    match &ext[1] {
        EnvSource::File { file, section } => {
            assert_eq!(file, "shared");
            assert_eq!(section, &Some("db".to_string()));
        }
        _ => panic!("expected a file source"),
    }
    assert_eq!(extract_extends("plain").unwrap().len(), 0);
}

#[test]
fn env_root_section_continuations_and_merges() {
    let input = "A=1\nB=long \\\n  value\n[s]\nX=1\n[s]\nY=2\n";
    let f = parse_env_file(input).unwrap();
    assert_eq!(f.root_section.variables.get("A").unwrap().value, "1");
    assert_eq!(f.root_section.variables.get("B").unwrap().value, "longvalue");
    let s = f.sections.get("s").unwrap();
    assert_eq!(s.variables.get("X").unwrap().value, "1");
    assert_eq!(s.variables.get("Y").unwrap().value, "2");
}

#[test]
fn env_last_value_wins() {
    let f = parse_env_file("[a]\nK=1\nK=2\n").unwrap();
    assert_eq!(f.sections.get("a").unwrap().variables.get("K").unwrap().value, "2");
}

#[test]
fn service_directives() {
    let input = "container postgres:16 as db\n  limit to 512m, 0.5\n  network backend\n  network frontend\n  map /data as /var/lib/postgresql/data:ro\n  expose: 5432, 5433\n  user: 999:999\n  depends_on cache healthy, queue\n  env from db@shared, *PASSWORD=secret, ${HOST@db@shared}\n";
    let result = parse_service_file(input, "db.dyard").unwrap();
    assert_eq!(result.len(), 1);
    let s = &result[0];
    assert_eq!(s.source_file, "db.dyard");
    assert_eq!(s.source_line, 1);
    assert_eq!(s.name, "db");
    assert_eq!(s.image, "postgres:16");
    let limit = s.limit.as_ref().unwrap();
    assert_eq!(limit.memory, "512m");
    assert_eq!(limit.cpus, "0.5");
    assert_eq!(s.networks, vec!["backend".to_string(), "frontend".to_string()]);
    assert_eq!(s.volumes[0].host_path, "/data");
    assert_eq!(s.volumes[0].container_path, "/var/lib/postgresql/data");
    assert_eq!(s.volumes[0].mode, Some("ro".to_string()));
    assert_eq!(s.expose, vec![5432, 5433]);
    assert_eq!(s.user, Some("999:999".to_string()));
    assert_eq!(s.depends_on[0].service, "cache");
    assert_eq!(s.depends_on[0].condition, DependencyCondition::Healthy);
    assert_eq!(s.depends_on[1].service, "queue");
    assert_eq!(s.depends_on[1].condition, DependencyCondition::Started);
    assert_eq!(s.env_from.len(), 3);
    match &s.env_from[0] {
        EnvSource::File { file, section } => {
            assert_eq!(file, "shared");
            assert_eq!(section, &Some("db".to_string()));
        }
        _ => panic!("expected a file source"),
    }
    match &s.env_from[1] {
        EnvSource::Inline { key, value, secret } => {
            assert_eq!(key, "PASSWORD");
            assert_eq!(value, "secret");
            assert!(*secret);
        }
        _ => panic!("expected an inline source"),
    }
    match &s.env_from[2] {
        EnvSource::VarRef { key, file, section } => {
            assert_eq!(key, "HOST");
            assert_eq!(file, "shared");
            assert_eq!(section, &Some("db".to_string()));
        }
        _ => panic!("expected a variable reference"),
    }
}

#[test]
fn service_errors_name_the_line() {
    let ok = parse_service_file("container nginx as web\n  bogus directive\n", "f.dyard");
    assert_eq!(ok.map(|v| v.len()), Ok(1));
    assert_eq!(
        parse_service_file("not a container\n", "g.dyard").err(),
        Some("g.dyard:1: parse error (Tag): \"not a container\"".to_string())
    );
    assert_eq!(
        parse_service_file("\n\ncontainer nginx\n", "f.dyard").err(),
        Some("f.dyard:3: parse error (TakeUntil): \"nginx\"".to_string())
    );
}

#[test]
fn service_helpers() {
    let original = "a\nb\nc\n";
    assert_eq!(line_of(original, &original[4..]), 3);
    assert_eq!(line_of(original, original), 1);
    assert_eq!(skip_empty_lines("\n\r\n\nx\n"), "x\n");
    assert_eq!(skip_empty_lines("  x"), "  x");
    let (block, rest) = collect_raw_block("volumes:\n  a: {}\ncontainer x as y\n");
    assert_eq!(block, "volumes:\n  a: {}\n");
    assert_eq!(rest, "container x as y\n");
}

#[test]
fn config_section_names_are_case_insensitive() {
    let config = parse_config_file("INPUT:\n  containers: c/\nOutput:\n  compose: out.yml\n").unwrap();
    assert_eq!(config.input.containers, "c/");
    assert_eq!(config.output.compose, "out.yml");
}

#[test]
fn identifiers_take_unicode_letters_and_digits() {
    assert_eq!(identifier("élan2-x rest"), Ok((" rest", "élan2-x".to_string())));
    assert_eq!(identifier("a١٢ b"), Ok((" b", "a١٢".to_string())));
}

#[test]
fn healthchecks_and_serves_with_middlewares() {
    let input = "container app:1 as app\n  healthcheck with \"curl -f localhost\"\n  healthcheck after 10s every 30s repeat 3 wait 5s\n  serve api as api:8080 through auth, cors use other\n  serve as traefik\n  network-config from network/app.yml\n  raw stop_grace_period: 30s\n";
    let result = parse_service_file(input, "app.dyard").unwrap();
    let s = &result[0];
    let hc = s.healthcheck.as_ref().unwrap();
    assert_eq!(hc.test, "curl -f localhost");
    assert_eq!(hc.interval, Some("30s".to_string()));
    assert_eq!(hc.timeout, Some("5s".to_string()));
    assert_eq!(hc.retries, Some(3));
    assert_eq!(hc.start_period, Some("10s".to_string()));
    assert_eq!(s.serve[0].middlewares, vec!["auth".to_string(), "cors".to_string()]);
    assert_eq!(s.serve[0].use_service, Some("other".to_string()));
    assert!(s.serve[1].api_internal);
    assert_eq!(s.serve[1].subdomain, "traefik");
    assert_eq!(s.network_config, Some("network/app.yml".to_string()));
    assert!(s.raw.contains_key("stop_grace_period"));
}

#[test]
fn an_indented_secret_alias_line_stays_secret() {
    let (k, v) = parse_env_line("  *K as A").unwrap();
    assert_eq!(k, "K");
    assert!(v.secret);
    assert_eq!(v.aliases, vec!["A".to_string()]);
    let (_, plain) = parse_env_line("  K as A").unwrap();
    assert!(!plain.secret);
}
