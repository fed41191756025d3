//! Output generators: docker-compose YAML, Traefik configuration and .env files.
pub mod compose;
pub mod env;
pub mod traefik;

pub use compose::{ComposeGenerator, generate_compose_yaml, generate_compose_yaml_with_restart};
pub use env::generate_env_content;
pub use traefik::{generate_traefik_dynamic, generate_traefik_static};
