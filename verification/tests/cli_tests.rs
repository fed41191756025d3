use dyard::cli::{compose_with_file, find_config, handle_logs};

fn strs(v: &[&str]) -> Vec<String> {
    v.iter().map(|s| s.to_string()).collect()
}

#[test]
fn config_file_choice() {
    assert_eq!(find_config(Some("x/config.dyard".to_string()), false), Ok("x/config.dyard".to_string()));
    assert_eq!(find_config(None, true), Ok("config.dyard".to_string()));
    assert_eq!(
        find_config(None, false),
        Err("config.dyard not found. Provide with --config flag or create config.dyard in current directory".to_string())
    );
}

#[test]
fn compose_arguments() {
    assert_eq!(
        compose_with_file("build/docker-compose.yml", &strs(&["up"]), true),
        strs(&["compose", "-f", "build/docker-compose.yml", "up", "-d"])
    );
    assert_eq!(
        compose_with_file("c.yml", &strs(&["restart", "web"]), false),
        strs(&["compose", "-f", "c.yml", "restart", "web"])
    );
}

#[test]
fn logs_arguments() {
    assert_eq!(handle_logs(None, false, None), strs(&["compose", "logs"]));
    assert_eq!(
        handle_logs(Some("web".to_string()), true, Some("100".to_string())),
        strs(&["compose", "logs", "-f", "--tail", "100", "web"])
    );
}
