use dyard::ast::{
    ConfigFile, Dependency, DependencyCondition, EnvFile, EnvSection, EnvSource, Project,
    ServeConfig, ServiceBlock, StrMap,
};
use dyard::parse::{parse_config_file, parse_env_file};
use dyard::{validate, ValidationError, Validator};

fn block(name: &str, file: &str, line: usize) -> ServiceBlock {
    ServiceBlock {
        source_file: file.to_string(),
        source_line: line,
        name: name.to_string(),
        image: "img".to_string(),
        limit: None,
        networks: vec![],
        volumes: vec![],
        expose: vec![],
        user: None,
        depends_on: vec![],
        healthcheck: None,
        env_from: vec![],
        serve: vec![],
        route_add: vec![],
        network_config: None,
        raw: StrMap::new(),
        raw_compose_block: None,
    }
}

fn config() -> ConfigFile {
    parse_config_file("").unwrap()
}

fn serve(name: Option<&str>, port: u16) -> ServeConfig {
    ServeConfig {
        name: name.map(|n| n.to_string()),
        subdomain: "x".to_string(),
        port,
        api_internal: false,
        middlewares: vec![],
        use_service: None,
    }
}

fn messages(p: &Project) -> Vec<String> {
    match validate(p) {
        Ok(()) => vec![],
        Err(es) => es.iter().map(|e| e.to_message()).collect(),
    }
}

#[test]
fn messages_of_each_variant() {
    assert_eq!(ValidationError::MissingService("m".to_string()).to_message(), "m");
    assert_eq!(
        ValidationError::MissingMiddleware("auth".to_string()).to_message(),
        "Middleware 'auth' referenced but not found"
    );
    assert_eq!(
        ValidationError::MissingEnvFile("a.env".to_string()).to_message(),
        "Environment file 'a.env' not found"
    );
    assert_eq!(
        ValidationError::MissingVariable("a.env".to_string(), "K".to_string()).to_message(),
        "Variable 'K' not found in 'a.env'"
    );
    assert_eq!(
        ValidationError::MissingEnvSection("a.env".to_string(), "s".to_string()).to_message(),
        "Section 's' not found in 'a.env'"
    );
    assert_eq!(
        ValidationError::InvalidEnvSource("x".to_string()).to_message(),
        "Invalid env source: x"
    );
    assert_eq!(
        ValidationError::MissingRouterContainer("traefik".to_string()).to_message(),
        "Router container 'traefik' not found in services"
    );
    assert_eq!(ValidationError::DuplicateService("d".to_string()).to_message(), "d");
}

#[test]
fn a_valid_project_passes() {
    let p = Project {
        config: config(),
        services: vec![block("traefik", "a.dyard", 1), block("web", "a.dyard", 3)],
        env_files: StrMap::new(),
    };
    assert!(validate(&p).is_ok());
    let mut v = Validator::new();
    assert!(v.validate_project(&p).is_ok());
}

#[test]
fn every_problem_is_reported() {
    let mut web = block("web", "a.dyard", 3);
    web.depends_on = vec![Dependency { service: "db".to_string(), condition: DependencyCondition::Started }];
    web.serve = vec![serve(None, 80), serve(Some("api"), 0)];
    web.env_from = vec![
        EnvSource::File { file: "shared".to_string(), section: Some(String::new()) },
        EnvSource::Inline { key: String::new(), value: "v".to_string(), secret: false },
        EnvSource::VarRef { key: "K".to_string(), file: String::new(), section: None },
    ];
    let dup = block("web", "b.dyard", 7);
    let mut files = StrMap::new();
    files.insert(
        "bad.env".to_string(),
        parse_env_file("[a extends missing, x@other]\nK=1\n").unwrap(),
    );
    let p = Project { config: config(), services: vec![web, dup], env_files: files };
    assert_eq!(
        messages(&p),
        vec![
            "Router container 'traefik' not found in services".to_string(),
            "b.dyard:7: service 'web' is already defined at a.dyard:3".to_string(),
            "a.dyard:3: Service 'db' referenced in 'web' but not defined".to_string(),
            "Invalid env source: a.dyard:3: 'web': all `serve` directives must have a name when there are multiple (e.g. `serve web as ...`)".to_string(),
            "Invalid env source: a.dyard:3: invalid port 0 in serve for 'web'".to_string(),
            "Invalid env source: Invalid env file format: shared".to_string(),
            "Invalid env source: Empty section name".to_string(),
            "Environment file 'shared' not found".to_string(),
            "Invalid env source: Empty variable name".to_string(),
            "Invalid env source: Empty key or file in var reference".to_string(),
            "Section 'missing' not found in 'bad.env'".to_string(),
            "Invalid env source: Invalid env file in extends: other".to_string(),
        ]
    );
}

#[test]
fn env_file_checks_cover_the_root_section() {
    let f = EnvFile {
        root_section: EnvSection {
            extends: vec![EnvSource::File { file: String::new(), section: Some("ghost".to_string()) }],
            variables: StrMap::new(),
        },
        sections: StrMap::new(),
    };
    let mut v = Validator::new();
    v.validate_env_file("root.env", &f, &StrMap::new());
    let p = Project {
        config: config(),
        services: vec![block("traefik", "a.dyard", 1)],
        env_files: StrMap::new(),
    };
    let errs = v.validate_project(&p).err().unwrap();
    assert_eq!(errs.len(), 1);
    assert_eq!(errs[0].to_message(), "Section 'ghost' not found in 'root.env'");
    assert!(v.validate_project(&p).is_ok());
}

#[test]
fn env_references_must_exist() {
    let mut web = block("web", "a.dyard", 1);
    web.env_from = vec![
        EnvSource::File { file: "missing.env".to_string(), section: None },
        EnvSource::File { file: "shared.env".to_string(), section: Some("nope".to_string()) },
        EnvSource::File { file: "shared".to_string(), section: Some("db".to_string()) },
        EnvSource::VarRef { key: "HOST".to_string(), file: "shared.env".to_string(), section: Some("db".to_string()) },
        EnvSource::VarRef { key: "GONE".to_string(), file: "shared.env".to_string(), section: Some("db".to_string()) },
        EnvSource::VarRef { key: "HOST".to_string(), file: "shared.env".to_string(), section: Some("zz".to_string()) },
        EnvSource::VarRef { key: "HOST".to_string(), file: "other.env".to_string(), section: None },
    ];
    let mut files = StrMap::new();
    files.insert("shared.env".to_string(), parse_env_file("[db]\nHOST=h\n").unwrap());
    let p = Project { config: config(), services: vec![block("traefik", "a.dyard", 9), web], env_files: files };
    assert_eq!(
        messages(&p),
        vec![
            "Environment file 'missing.env' not found".to_string(),
            "Section 'nope' not found in 'shared.env'".to_string(),
            "Invalid env source: Invalid env file format: shared".to_string(),
            "Variable 'GONE' not found in 'shared.env'".to_string(),
            "Section 'zz' not found in 'shared.env'".to_string(),
            "Environment file 'other.env' not found".to_string(),
        ]
    );
}

#[test]
fn extends_of_an_external_file_must_exist() {
    let mut files = StrMap::new();
    files.insert(
        "app.env".to_string(),
        parse_env_file("[a extends @missing.env]\nK=1\n[b extends shared@base.env]\nL=2\n").unwrap(),
    );
    files.insert("base.env".to_string(), parse_env_file("[common]\nX=1\n").unwrap());
    let p = Project { config: config(), services: vec![block("traefik", "a.dyard", 1)], env_files: files };
    assert_eq!(
        messages(&p),
        vec![
            "Environment file 'missing.env' not found".to_string(),
            "Section 'shared' not found in 'base.env'".to_string(),
        ]
    );
}

#[test]
fn extends_of_an_existing_external_section_passes() {
    let mut files = StrMap::new();
    files.insert(
        "app.env".to_string(),
        parse_env_file("[a extends common@base.env]\nK=1\n").unwrap(),
    );
    files.insert("base.env".to_string(), parse_env_file("[common]\nX=1\n").unwrap());
    let p = Project { config: config(), services: vec![block("traefik", "a.dyard", 1)], env_files: files };
    assert!(validate(&p).is_ok());
}

#[test]
fn an_alias_needs_its_source_key() {
    let mut files = StrMap::new();
    files.insert(
        "app.env".to_string(),
        parse_env_file("[base]\nDB_HOST=db\n[app extends base]\nDB_HOST as POSTGRES_HOST\nMISSING as OTHER\n")
            .unwrap(),
    );
    let p = Project { config: config(), services: vec![block("traefik", "a.dyard", 1)], env_files: files };
    assert_eq!(messages(&p), vec!["Variable 'MISSING' not found in 'app.env'".to_string()]);
}

#[test]
fn an_extends_cycle_is_reported() {
    let mut files = StrMap::new();
    files.insert(
        "loop.env".to_string(),
        parse_env_file("[a extends b]\nX=1\n[b extends a]\nY=2\n").unwrap(),
    );
    let p = Project { config: config(), services: vec![block("traefik", "a.dyard", 1)], env_files: files };
    assert_eq!(
        messages(&p),
        vec![
            "Invalid env source: Extends chain of section 'a' in 'loop.env' is cyclic"
                .to_string(),
            "Invalid env source: Extends chain of section 'b' in 'loop.env' is cyclic"
                .to_string(),
        ]
    );
}

#[test]
fn a_self_extending_section_is_reported() {
    let mut files = StrMap::new();
    files.insert("self.env".to_string(), parse_env_file("[a extends a]\nX=1\n").unwrap());
    let p = Project { config: config(), services: vec![block("traefik", "a.dyard", 1)], env_files: files };
    assert!(validate(&p).is_err());
}

#[test]
fn a_long_chain_without_a_cycle_passes() {
    let mut text = String::from("[s0]\nK=0\n");
    for i in 1..=14 {
        text.push_str(&format!("[s{} extends s{}]\nK{}=1\n", i, i - 1, i));
    }
    let mut files = StrMap::new();
    files.insert("deep.env".to_string(), parse_env_file(&text).unwrap());
    let p = Project { config: config(), services: vec![block("traefik", "a.dyard", 1)], env_files: files };
    assert!(validate(&p).is_ok());
}

#[test]
fn a_chain_into_a_cycle_is_reported() {
    let mut files = StrMap::new();
    files.insert(
        "c.env".to_string(),
        parse_env_file("[top extends a]\nT=1\n[a extends b]\nX=1\n[b extends a]\nY=2\n[free]\nZ=3\n").unwrap(),
    );
    let p = Project { config: config(), services: vec![block("traefik", "a.dyard", 1)], env_files: files };
    assert_eq!(
        messages(&p),
        vec![
            "Invalid env source: Extends chain of section 'top' in 'c.env' is cyclic".to_string(),
            "Invalid env source: Extends chain of section 'a' in 'c.env' is cyclic".to_string(),
            "Invalid env source: Extends chain of section 'b' in 'c.env' is cyclic".to_string(),
        ]
    );
}
