# dyard

An infrastructure DSL for Docker Compose and Traefik: `config.dyard`, service
files (`containers/*.dyard`) and env files (`env/*.env`) are read and turned into
`docker-compose.yml`, the Traefik static and dynamic configuration, the root
`.env` and one env file per service.

The library is written in Verus: every function states its behaviour in
`requires`/`ensures` over mathematical models (sequences of characters, YAML
trees as `YamlV`, maps as key/value sequences) and is proved against them.

## Layout

- `src/text.rs` – character-level text operations (find, split, lines, trim,
  replace, join, sort, decimal numbers, UTF-8 sizes).
- `src/yaml.rs` – the YAML tree, keyed insertion, dotted paths, deep merge, and
  the calls into `serde_yaml` for reading and writing YAML text.
- `src/ast.rs` – the project model: services, env files, config, `StrMap`.
- `src/parse/` – the three parsers (config, env files, service files).
- `src/codegen/` – the compose file, the Traefik configuration and `.env` text.
- `src/validate.rs` – project validation and its messages.
- `src/integration.rs` – env inheritance, `${...}` references, network YAML
  processing, service resolution, the root and per-service env files, the
  input-file cache.
- `src/gotemplate.rs`, `src/incremental.rs` – proofs that Go templates survive
  network YAML processing and that an unchanged project skips regeneration.
- `src/cli.rs` – command-line decisions (config file choice, docker arguments).
- `app/` – the command-line program: argument parsing, file and process I/O.
- `tests/` – tests of the library on concrete inputs.

Laws proved about the library include: a value written at a dotted path reads
back; every service gets the configured restart policy and its container name;
the router container joins every network of every served container; top-level
networks are sorted and distinct; secrets reach the compose `environment` only as
`${NAME}`; `env from` lists resolve left to right; a section's own variables
override inherited ones and later `extends` sources override earlier ones; an
`extends` cycle fails validation; generated env files are sorted; Go templates are put
back unchanged in a text where no placeholder can be mistaken for another; the cache reports no change when no input changed; a missing
router container is reported exactly when no service has its name (or the validator
already held that error); every dependency on an undefined service is reported; a build whose
project fails validation reports the messages joined by `; `; a dotted-path write
succeeds exactly where the path is writable, changes nothing when it fails, and
leaves every path that parts ways with it as it was; the compose document lists
each service name once in first-seen order and each network once in sorted
order; and a section is reported as cyclic exactly when its `extends` chain runs
into a cycle.
