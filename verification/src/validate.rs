//! Cross-checks of a parsed project: the router container, duplicate names,
//! references between services, serve directives, env sources and the env
//! files, sections and variables they refer to, `extends` chains (cycles) and
//! `as` aliases.
use vstd::prelude::*;
use vstd::string::StrSliceExecFns;
use crate::ast::{
    EnvFile, EnvFileV, EnvSection, EnvSectionV, EnvSource, EnvSourceV, EnvVariable, EnvVariableV, Project, ProjectV,
    ServiceBlock, ServiceBlockV, str_get, str_key_pos, string_eq_str,
};
use crate::text::{append, chars_of, chars_of_string, dec, dec_exec, ends_with, ends_with_exec, lit, string_of};
use crate::ast::StrMap;
use crate::integration::{ProjectBuilder, env_lookup, own_fold, parents_fold, resolve_section};

verus! {

/// A problem found in a project.
#[derive(Clone, Debug)]
pub enum ValidationError {
    MissingService(String),
    MissingMiddleware(String),
    MissingEnvFile(String),
    MissingVariable(String, String),
    MissingEnvSection(String, String),
    InvalidEnvSource(String),
    MissingRouterContainer(String),
    DuplicateService(String),
}

pub enum ValidationErrorV {
    MissingService(Seq<char>),
    MissingMiddleware(Seq<char>),
    MissingEnvFile(Seq<char>),
    MissingVariable(Seq<char>, Seq<char>),
    MissingEnvSection(Seq<char>, Seq<char>),
    InvalidEnvSource(Seq<char>),
    MissingRouterContainer(Seq<char>),
    DuplicateService(Seq<char>),
}

impl View for ValidationError {
    type V = ValidationErrorV;

    open spec fn view(&self) -> ValidationErrorV {
        match self {
            ValidationError::MissingService(m) => ValidationErrorV::MissingService(m@),
            ValidationError::MissingMiddleware(m) => ValidationErrorV::MissingMiddleware(m@),
            ValidationError::MissingEnvFile(m) => ValidationErrorV::MissingEnvFile(m@),
            ValidationError::MissingVariable(f, v) => ValidationErrorV::MissingVariable(f@, v@),
            ValidationError::MissingEnvSection(f, s) => ValidationErrorV::MissingEnvSection(f@, s@),
            ValidationError::InvalidEnvSource(m) => ValidationErrorV::InvalidEnvSource(m@),
            ValidationError::MissingRouterContainer(m) => ValidationErrorV::MissingRouterContainer(
                m@,
            ),
            ValidationError::DuplicateService(m) => ValidationErrorV::DuplicateService(m@),
        }
    }
}

/// The views of a list of errors.
pub open spec fn errors_view(v: Seq<ValidationError>) -> Seq<ValidationErrorV> {
    v.map_values(|e: ValidationError| e@)
}

/// The message of an error.
pub open spec fn message_of(e: ValidationErrorV) -> Seq<char> {
    match e {
        ValidationErrorV::MissingService(m) => m,
        ValidationErrorV::MissingMiddleware(mw) => "Middleware '"@ + mw
            + "' referenced but not found"@,
        ValidationErrorV::MissingEnvFile(f) => "Environment file '"@ + f + "' not found"@,
        ValidationErrorV::MissingVariable(f, v) => "Variable '"@ + v + "' not found in '"@ + f
            + "'"@,
        ValidationErrorV::MissingEnvSection(f, s) => "Section '"@ + s + "' not found in '"@ + f
            + "'"@,
        ValidationErrorV::InvalidEnvSource(m) => "Invalid env source: "@ + m,
        ValidationErrorV::MissingRouterContainer(n) => "Router container '"@ + n
            + "' not found in services"@,
        ValidationErrorV::DuplicateService(m) => m,
    }
}

/// Some service has the name.
pub open spec fn has_service(services: Seq<ServiceBlockV>, name: Seq<char>) -> bool {
    exists|j: int| 0 <= j < services.len() && services[j].name == name
}

/// `{file}:{line}` of a service.
pub open spec fn loc_of(s: ServiceBlockV) -> Seq<char> {
    s.source_file + ":"@ + dec(s.source_line as nat)
}

/// The first index from `j` on of a service with the name, or the length.
pub open spec fn first_named(services: Seq<ServiceBlockV>, name: Seq<char>, j: int) -> int
    decreases services.len() - j,
{
    if j < 0 || j >= services.len() {
        services.len() as int
    } else if services[j].name == name {
        j
    } else {
        first_named(services, name, j + 1)
    }
}

/// The error for a missing router container.
pub open spec fn router_errors(rc: Seq<char>, services: Seq<ServiceBlockV>) -> Seq<ValidationErrorV> {
    if has_service(services, rc) {
        seq![]
    } else {
        seq![ValidationErrorV::MissingRouterContainer(rc)]
    }
}

/// The duplicate-name errors of the first `n` services: each service whose name
/// an earlier one has, pointing at the first of them.
pub open spec fn duplicate_errors(services: Seq<ServiceBlockV>, n: int) -> Seq<ValidationErrorV>
    decreases n,
{
    if n <= 0 || n > services.len() {
        seq![]
    } else {
        let s = services[n - 1];
        let f = first_named(services, s.name, 0);
        duplicate_errors(services, n - 1) + if f < n - 1 {
            seq![
                ValidationErrorV::DuplicateService(
                    loc_of(s) + ": service '"@ + s.name + "' is already defined at "@ + loc_of(
                        services[f],
                    ),
                ),
            ]
        } else {
            seq![]
        }
    }
}

/// The errors for dependencies on services that do not exist.
pub open spec fn dependency_errors(s: ServiceBlockV, all: Seq<ServiceBlockV>, n: int) -> Seq<
    ValidationErrorV,
>
    decreases n,
{
    if n <= 0 || n > s.depends_on.len() {
        seq![]
    } else {
        let d = s.depends_on[n - 1].service;
        dependency_errors(s, all, n - 1) + if has_service(all, d) {
            seq![]
        } else {
            seq![
                ValidationErrorV::MissingService(
                    loc_of(s) + ": Service '"@ + d + "' referenced in '"@ + s.name
                        + "' but not defined"@,
                ),
            ]
        }
    }
}

/// The errors for nameless serves when there are several.
pub open spec fn unnamed_serve_errors(s: ServiceBlockV, n: int) -> Seq<ValidationErrorV>
    decreases n,
{
    if n <= 0 || n > s.serve.len() || s.serve.len() <= 1 {
        seq![]
    } else {
        unnamed_serve_errors(s, n - 1) + if s.serve[n - 1].name is None {
            seq![
                ValidationErrorV::InvalidEnvSource(
                    loc_of(s) + ": '"@ + s.name
                        + "': all `serve` directives must have a name when there are multiple (e.g. `serve web as ...`)"@,
                ),
            ]
        } else {
            seq![]
        }
    }
}

/// The errors for serves on port 0 (other than the API).
pub open spec fn port_errors(s: ServiceBlockV, n: int) -> Seq<ValidationErrorV>
    decreases n,
{
    if n <= 0 || n > s.serve.len() {
        seq![]
    } else {
        port_errors(s, n - 1) + if s.serve[n - 1].port == 0 && !s.serve[n - 1].api_internal {
            seq![
                ValidationErrorV::InvalidEnvSource(
                    loc_of(s) + ": invalid port 0 in serve for '"@ + s.name + "'"@,
                ),
            ]
        } else {
            seq![]
        }
    }
}

/// The errors of one env source of a service.
pub open spec fn source_errors(e: EnvSourceV) -> Seq<ValidationErrorV> {
    match e {
        EnvSourceV::File { file, section } => if file.len() > 0 {
            (if !ends_with(file, ".env"@) {
                seq![ValidationErrorV::InvalidEnvSource("Invalid env file format: "@ + file)]
            } else {
                seq![]
            }) + match section {
                Some(sec) => if sec.len() == 0 {
                    seq![ValidationErrorV::InvalidEnvSource("Empty section name"@)]
                } else {
                    seq![]
                },
                None => seq![],
            }
        } else {
            seq![]
        },
        EnvSourceV::Inline { key, .. } => if key.len() == 0 {
            seq![ValidationErrorV::InvalidEnvSource("Empty variable name"@)]
        } else {
            seq![]
        },
        EnvSourceV::VarRef { key, file, .. } => if key.len() == 0 || file.len() == 0 {
            seq![ValidationErrorV::InvalidEnvSource("Empty key or file in var reference"@)]
        } else {
            seq![]
        },
    }
}

/// The errors for what an env source refers to: a file that is not loaded, a
/// section the file lacks, a variable the section does not hold.
pub open spec fn reference_errors(e: EnvSourceV, fs: Seq<(Seq<char>, EnvFileV)>) -> Seq<ValidationErrorV> {
    match e {
        EnvSourceV::File { file, section } => if file.len() == 0 {
            seq![]
        } else {
            match env_lookup(fs, file) {
                None => seq![ValidationErrorV::MissingEnvFile(file)],
                Some(f) => match section {
                    Some(sec) => if sec.len() > 0 && str_get(f.sections, sec) is None {
                        seq![ValidationErrorV::MissingEnvSection(file, sec)]
                    } else {
                        seq![]
                    },
                    None => seq![],
                },
            }
        },
        EnvSourceV::VarRef { key, file, section } => if key.len() == 0 || file.len() == 0 {
            seq![]
        } else {
            match env_lookup(fs, file) {
                None => seq![ValidationErrorV::MissingEnvFile(file)],
                Some(f) => if (section matches Some(sec) && str_get(f.sections, sec) is None) {
                    seq![ValidationErrorV::MissingEnvSection(file, section.unwrap())]
                } else if str_get(resolve_section(f, section, 0, fs), key) is None {
                    seq![ValidationErrorV::MissingVariable(file, key)]
                } else {
                    seq![]
                },
            }
        },
        _ => seq![],
    }
}

/// The errors of the first `n` env sources: each one's form, then what it
/// refers to.
pub open spec fn sources_errors(es: Seq<EnvSourceV>, n: int, fs: Seq<(Seq<char>, EnvFileV)>) -> Seq<ValidationErrorV>
    decreases n,
{
    if n <= 0 || n > es.len() {
        seq![]
    } else {
        sources_errors(es, n - 1, fs) + source_errors(es[n - 1]) + reference_errors(es[n - 1], fs)
    }
}

/// The errors of one service: dependencies, serves, env sources.
pub open spec fn service_errors(s: ServiceBlockV, all: Seq<ServiceBlockV>, fs: Seq<(Seq<char>, EnvFileV)>) -> Seq<ValidationErrorV> {
    dependency_errors(s, all, s.depends_on.len() as int) + unnamed_serve_errors(
        s,
        s.serve.len() as int,
    ) + port_errors(s, s.serve.len() as int) + sources_errors(s.env_from, s.env_from.len() as int, fs)
}

/// The errors of the first `n` services.
pub open spec fn services_errors(all: Seq<ServiceBlockV>, n: int, fs: Seq<(Seq<char>, EnvFileV)>) -> Seq<ValidationErrorV>
    decreases n,
{
    if n <= 0 || n > all.len() {
        seq![]
    } else {
        services_errors(all, n - 1, fs) + service_errors(all[n - 1], all, fs)
    }
}

/// The error of one `extends` source of a section: a local section that does
/// not exist, an external file that is not `.env`, or one that is not loaded
/// or lacks the section named.
pub open spec fn extends_error(
    file_name: Seq<char>,
    e: EnvSourceV,
    f: EnvFileV,
    fs: Seq<(Seq<char>, EnvFileV)>,
) -> Seq<ValidationErrorV> {
    match e {
        EnvSourceV::File { file, section } => if file.len() == 0 {
            match section {
                Some(sec) => if str_get(f.sections, sec) is None {
                    seq![ValidationErrorV::MissingEnvSection(file_name, sec)]
                } else {
                    seq![]
                },
                None => seq![],
            }
        } else if !ends_with(file, ".env"@) {
            seq![ValidationErrorV::InvalidEnvSource("Invalid env file in extends: "@ + file)]
        } else {
            match env_lookup(fs, file) {
                None => seq![ValidationErrorV::MissingEnvFile(file)],
                Some(g) => match section {
                    Some(sec) => if str_get(g.sections, sec) is None {
                        seq![ValidationErrorV::MissingEnvSection(file, sec)]
                    } else {
                        seq![]
                    },
                    None => seq![],
                },
            }
        },
        _ => seq![],
    }
}

/// The errors of the first `n` `extends` sources of a section.
pub open spec fn extends_errors(
    file_name: Seq<char>,
    ext: Seq<EnvSourceV>,
    n: int,
    f: EnvFileV,
    fs: Seq<(Seq<char>, EnvFileV)>,
) -> Seq<ValidationErrorV>
    decreases n,
{
    if n <= 0 || n > ext.len() {
        seq![]
    } else {
        extends_errors(file_name, ext, n - 1, f, fs) + extends_error(file_name, ext[n - 1], f, fs)
    }
}

/// The number of `extends` steps past which a chain must repeat a section:
/// a section and more steps than there are named sections visit more sections
/// than the file has, counting the root.
pub open spec fn chain_limit(f: EnvFileV) -> nat {
    f.sections.len()
}

/// Whether the same-file `extends` chain of a section, followed from `depth`,
/// goes on for more than `chain_limit` steps, so that it repeats a section:
/// it runs into a cycle (see `lemma_cyclic_iff_reaches_cycle`).
pub open spec fn section_cyclic(f: EnvFileV, s: EnvSectionV, depth: nat) -> bool
    decreases chain_limit(f) + 1 - depth, 1int, 0int,
{
    if depth > chain_limit(f) {
        true
    } else {
        parents_cyclic(f, s.extends, s.extends.len() as int, depth)
    }
}

/// Whether one of the first `n` same-file `extends` sources at `depth` leads
/// past `chain_limit` steps (see `section_cyclic`).
pub open spec fn parents_cyclic(f: EnvFileV, ext: Seq<EnvSourceV>, n: int, depth: nat) -> bool
    decreases chain_limit(f) + 1 - depth, 0int, n,
{
    if n <= 0 || n > ext.len() || depth > chain_limit(f) {
        false
    } else {
        parents_cyclic(f, ext, n - 1, depth) || match ext[n - 1] {
            EnvSourceV::File { file, section } => file.len() == 0 && match section {
                Some(name) => match str_get(f.sections, name) {
                    Some(p) => section_cyclic(f, p, depth + 1),
                    None => false,
                },
                None => section_cyclic(f, f.root_section, depth + 1),
            },
            _ => false,
        }
    }
}

/// The error for a section whose `extends` chain runs into a cycle.
pub open spec fn chain_error(file_name: Seq<char>, section_name: Seq<char>, f: EnvFileV, s: EnvSectionV) -> Seq<
    ValidationErrorV,
> {
    if section_cyclic(f, s, 0) {
        seq![
            ValidationErrorV::InvalidEnvSource(
                "Extends chain of section '"@ + section_name + "' in '"@ + file_name
                    + "' is cyclic"@,
            ),
        ]
    } else {
        seq![]
    }
}

/// The alias errors of the first `n` own entries of a section applied to the
/// inherited variables `m`: each `KEY as ALIAS` entry whose `KEY` is not
/// there at that point.
pub open spec fn alias_errors(
    file_name: Seq<char>,
    m: Seq<(Seq<char>, EnvVariableV)>,
    vars: Seq<(Seq<char>, EnvVariableV)>,
    n: int,
) -> Seq<ValidationErrorV>
    decreases n,
{
    if n <= 0 || n > vars.len() {
        seq![]
    } else {
        let (k, v) = vars[n - 1];
        alias_errors(file_name, m, vars, n - 1) + if v.value.len() == 0 && v.aliases.len() > 0
            && str_get(own_fold(m, vars, n - 1), k) is None {
            seq![ValidationErrorV::MissingVariable(file_name, k)]
        } else {
            seq![]
        }
    }
}

/// The alias errors of a section: its own `KEY as ALIAS` entries checked
/// against what it inherits (see `alias_errors`).
pub open spec fn section_alias_errors(
    file_name: Seq<char>,
    f: EnvFileV,
    s: EnvSectionV,
    fs: Seq<(Seq<char>, EnvFileV)>,
) -> Seq<
    ValidationErrorV,
> {
    alias_errors(
        file_name,
        parents_fold(f, s.extends, s.extends.len() as int, 0, fs),
        s.variables,
        s.variables.len() as int,
    )
}

/// The errors of one section of an env file: its `extends` sources, its chain,
/// its aliases.
pub open spec fn section_errors(
    file_name: Seq<char>,
    section_name: Seq<char>,
    s: EnvSectionV,
    f: EnvFileV,
    fs: Seq<(Seq<char>, EnvFileV)>,
) -> Seq<ValidationErrorV> {
    extends_errors(file_name, s.extends, s.extends.len() as int, f, fs) + chain_error(
        file_name,
        section_name,
        f,
        s,
    ) + section_alias_errors(file_name, f, s, fs)
}

/// The errors of the first `n` named sections.
pub open spec fn sections_errors(
    file_name: Seq<char>,
    f: EnvFileV,
    n: int,
    fs: Seq<(Seq<char>, EnvFileV)>,
) -> Seq<ValidationErrorV>
    decreases n,
{
    if n <= 0 || n > f.sections.len() {
        seq![]
    } else {
        sections_errors(file_name, f, n - 1, fs) + section_errors(
            file_name,
            f.sections[n - 1].0,
            f.sections[n - 1].1,
            f,
            fs,
        )
    }
}

/// The errors of an env file: its named sections, then the root section; `fs`
/// are the loaded env files.
pub open spec fn env_file_errors(file_name: Seq<char>, f: EnvFileV, fs: Seq<(Seq<char>, EnvFileV)>) -> Seq<
    ValidationErrorV,
> {
    sections_errors(file_name, f, f.sections.len() as int, fs) + section_errors(
        file_name,
        "root"@,
        f.root_section,
        f,
        fs,
    )
}

/// The errors of the first `n` env files.
pub open spec fn env_files_errors(fs: Seq<(Seq<char>, EnvFileV)>, n: int) -> Seq<ValidationErrorV>
    decreases n,
{
    if n <= 0 || n > fs.len() {
        seq![]
    } else {
        env_files_errors(fs, n - 1) + env_file_errors(fs[n - 1].0, fs[n - 1].1, fs)
    }
}

/// All errors of a project, in the order they are found.
pub open spec fn project_errors(p: ProjectV) -> Seq<ValidationErrorV> {
    router_errors(p.config.router_container, p.services) + duplicate_errors(
        p.services,
        p.services.len() as int,
    ) + services_errors(p.services, p.services.len() as int, p.env_files) + env_files_errors(
        p.env_files,
        p.env_files.len() as int,
    )
}

/// Whether the `extends` chain of a section runs into a cycle (see
/// `section_cyclic`).
fn section_cyclic_exec(ef: &EnvFile, s: &EnvSection, depth: usize) -> (r: bool)
    requires
        depth <= chain_limit(ef@) + 1,
    ensures
        r == section_cyclic(ef@, s@, depth as nat),
    decreases chain_limit(ef@) + 1 - depth,
{
    assert(ef@.sections.len() == ef.sections.entries.len());
    if depth > ef.sections.entries.len() {
        return true;
    }
    let ghost sv = s@;
    let mut found = false;
    let mut i: usize = 0;
    while i < s.extends.len()
        invariant
            i <= s.extends.len(),
            depth <= chain_limit(ef@),
            chain_limit(ef@) == ef.sections.entries.len(),
            sv == s@,
            found == parents_cyclic(ef@, sv.extends, i as int, depth as nat),
        decreases s.extends.len() - i,
    {
        assert(sv.extends[i as int] == s.extends@[i as int]@);
        if !found {
            match &s.extends[i] {
                EnvSource::File { file, section } => {
                    if file.as_str().unicode_len() == 0 {
                        let last = depth == ef.sections.entries.len();
                        found = match section {
                            Some(n) => match ef.sections.get(n.as_str()) {
                                Some(p) => {
                                    if last {
                                        assert(section_cyclic(ef@, p@, depth as nat + 1));
                                        true
                                    } else {
                                        section_cyclic_exec(ef, p, depth + 1)
                                    }
                                },
                                None => false,
                            },
                            None => {
                                if last {
                                    assert(section_cyclic(ef@, ef@.root_section, depth as nat + 1));
                                    true
                                } else {
                                    section_cyclic_exec(ef, &ef.root_section, depth + 1)
                                }
                            },
                        };
                    }
                },
                _ => {},
            }
        }
        i = i + 1;
    }
    found
}

/// The section a node names: a named section of the file, or the root
/// section for `None`.
pub open spec fn node_section(f: EnvFileV, o: Option<Seq<char>>) -> Option<EnvSectionV> {
    match o {
        Some(n) => str_get(f.sections, n),
        None => Some(f.root_section),
    }
}

/// The source names the section `b` (the root section for `None`) of the
/// same file.
pub open spec fn local_ref(e: EnvSourceV, b: Option<Seq<char>>) -> bool {
    match e {
        EnvSourceV::File { file, section } => file.len() == 0 && section == b,
        _ => false,
    }
}

/// The section lists the section `b` of the same file among its `extends`
/// sources.
pub open spec fn extends_to(s: EnvSectionV, b: Option<Seq<char>>) -> bool {
    exists|j: int| 0 <= j < s.extends.len() && local_ref(#[trigger] s.extends[j], b)
}

/// The section `a` exists and lists the section `b` of the same file among
/// its `extends` sources.
pub open spec fn local_edge(f: EnvFileV, a: Option<Seq<char>>, b: Option<Seq<char>>) -> bool {
    match node_section(f, a) {
        Some(s) => extends_to(s, b),
        None => false,
    }
}

/// Each section of `p` but the last extends the next one.
pub open spec fn extends_path(f: EnvFileV, p: Seq<Option<Seq<char>>>) -> bool {
    forall|i: int| 0 <= i < p.len() - 1 ==> #[trigger] local_edge(f, p[i], p[i + 1])
}

/// Following `extends` from the section `o` runs into a cycle: some path
/// from it repeats a section.
pub open spec fn reaches_cycle(f: EnvFileV, o: Option<Seq<char>>) -> bool {
    exists|p: Seq<Option<Seq<char>>>|
        #![trigger extends_path(f, p)]
        p.len() >= 1 && p[0] == o && extends_path(f, p) && exists|i: int, j: int|
            0 <= i < j < p.len() && p[i] == p[j]
}

/// A source that leads past the limit makes every longer prefix do so.
proof fn lemma_parents_cyclic_grow(f: EnvFileV, ext: Seq<EnvSourceV>, n: int, m: int, depth: nat)
    requires
        0 <= n <= m <= ext.len(),
        parents_cyclic(f, ext, n, depth),
    ensures
        parents_cyclic(f, ext, m, depth),
    decreases m - n,
{
    if n < m {
        lemma_parents_cyclic_grow(f, ext, n, m - 1, depth);
    }
}

/// Every section on a path that comes back to one of its sections (`p[i] ==
/// p[j]`) before index `j` has a chain that goes past the limit, from any
/// depth.
#[verifier::rlimit(40)]
proof fn lemma_path_cyclic(f: EnvFileV, p: Seq<Option<Seq<char>>>, i: int, j: int, a: int, depth: nat)
    requires
        extends_path(f, p),
        0 <= i < j < p.len(),
        p[i] == p[j],
        0 <= a < j,
        depth <= chain_limit(f) + 1,
    ensures
        node_section(f, p[a]) matches Some(s) && section_cyclic(f, s, depth),
    decreases chain_limit(f) + 1 - depth,
{
    assert(local_edge(f, p[a], p[a + 1]));
    let s = node_section(f, p[a]).unwrap();
    if depth <= chain_limit(f) {
        let k = choose|k: int| 0 <= k < s.extends.len() && local_ref(#[trigger] s.extends[k], p[a + 1]);
        let b = if a + 1 == j { i } else { a + 1 };
        assert(p[b] == p[a + 1]);
        lemma_path_cyclic(f, p, i, j, b, depth + 1);
        let t = node_section(f, p[b]).unwrap();
        assert(section_cyclic(f, t, depth + 1));
        assert(local_ref(s.extends[k], p[a + 1]));
        assert(parents_cyclic(f, s.extends, k + 1, depth)) by {
            reveal_with_fuel(parents_cyclic, 1);
        }
        lemma_parents_cyclic_grow(f, s.extends, k + 1, s.extends.len() as int, depth);
        assert(section_cyclic(f, s, depth));
    }
}

/// The source names a section of the same file whose chain, one level
/// deeper, goes past the limit.
pub open spec fn step_leads_on(f: EnvFileV, e: EnvSourceV, depth: nat) -> bool {
    match e {
        EnvSourceV::File { file, section } => file.len() == 0 && match node_section(f, section) {
            Some(t) => section_cyclic(f, t, depth + 1),
            None => false,
        },
        _ => false,
    }
}

/// A source among the first `n` that leads past the limit.
proof fn lemma_parents_cyclic_witness(f: EnvFileV, ext: Seq<EnvSourceV>, n: int, depth: nat) -> (k: int)
    requires
        parents_cyclic(f, ext, n, depth),
    ensures
        0 <= k < n <= ext.len(),
        step_leads_on(f, ext[k], depth),
    decreases n,
{
    if parents_cyclic(f, ext, n - 1, depth) {
        lemma_parents_cyclic_witness(f, ext, n - 1, depth)
    } else {
        n - 1
    }
}

/// A chain that goes past the limit gives a path of existing sections, one
/// per step left, the first of which the section extends.
proof fn lemma_cyclic_path(f: EnvFileV, s: EnvSectionV, depth: nat) -> (p: Seq<Option<Seq<char>>>)
    requires
        depth <= chain_limit(f) + 1,
        section_cyclic(f, s, depth),
    ensures
        p.len() == chain_limit(f) + 1 - depth,
        p.len() > 0 ==> extends_to(s, p[0]),
        extends_path(f, p),
        forall|i: int| 0 <= i < p.len() ==> (#[trigger] node_section(f, p[i])) is Some,
    decreases chain_limit(f) + 1 - depth,
{
    if depth > chain_limit(f) {
        Seq::<Option<Seq<char>>>::empty()
    } else {
        let k = lemma_parents_cyclic_witness(f, s.extends, s.extends.len() as int, depth);
        let o = s.extends[k]->File_section;
        let t = node_section(f, o).unwrap();
        let q = lemma_cyclic_path(f, t, depth + 1);
        let p = seq![o] + q;
        assert(local_ref(s.extends[k], o));
        assert forall|i: int| 0 <= i < p.len() - 1 implies #[trigger] local_edge(f, p[i], p[i + 1]) by {
            if i == 0 {
                assert(p[1] == q[0]);
            } else {
                let k = i - 1;
                assert(local_edge(f, q[k], q[k + 1]));
                assert(p[i] == q[k]);
                assert(p[i + 1] == q[k + 1]);
            }
        }
        assert forall|i: int| 0 <= i < p.len() implies (#[trigger] node_section(f, p[i])) is Some by {
            if i > 0 {
                assert(p[i] == q[i - 1]);
            }
        }
        p
    }
}

/// The sections a node can name: the root section and each named section.
pub open spec fn node_names(f: EnvFileV) -> Set<Option<Seq<char>>> {
    f.sections.map_values(|e: (Seq<char>, EnvSectionV)| Some(e.0)).to_set().insert(None)
}

/// A section is reported as cyclic exactly when following its `extends`
/// sources runs into a cycle.
pub proof fn lemma_cyclic_iff_reaches_cycle(f: EnvFileV, o: Option<Seq<char>>)
    requires
        node_section(f, o) is Some,
    ensures
        section_cyclic(f, node_section(f, o).unwrap(), 0) <==> reaches_cycle(f, o),
{
    let s = node_section(f, o).unwrap();
    if reaches_cycle(f, o) {
        let p = choose|p: Seq<Option<Seq<char>>>|
            #![trigger extends_path(f, p)]
            p.len() >= 1 && p[0] == o && extends_path(f, p) && exists|i: int, j: int|
                0 <= i < j < p.len() && p[i] == p[j];
        let (i, j) = choose|i: int, j: int| 0 <= i < j < p.len() && p[i] == p[j];
        lemma_path_cyclic(f, p, i, j, 0, 0);
    }
    if section_cyclic(f, s, 0) {
        let q = lemma_cyclic_path(f, s, 0);
        let p = seq![o] + q;
        assert forall|i: int| 0 <= i < p.len() - 1 implies #[trigger] local_edge(f, p[i], p[i + 1]) by {
            if i == 0 {
                assert(p[1] == q[0]);
            } else {
                let k = i - 1;
                assert(local_edge(f, q[k], q[k + 1]));
                assert(p[i] == q[k]);
                assert(p[i + 1] == q[k + 1]);
            }
        }
        let names = f.sections.map_values(|e: (Seq<char>, EnvSectionV)| Some(e.0));
        names.lemma_cardinality_of_set();
        vstd::seq_lib::seq_to_set_is_finite(names);
        assert forall|x: Option<Seq<char>>| p.to_set().contains(x) implies node_names(f).contains(x) by {
            let i = choose|i: int| 0 <= i < p.len() && p[i] == x;
            let y = if i == 0 { o } else { q[i - 1] };
            assert(p[i] == y);
            assert(node_section(f, y) is Some);
            match y {
                Some(n) => {
                    crate::ast::lemma_str_key_pos_props(f.sections, n);
                    let m = str_key_pos(f.sections, n).unwrap();
                    assert(names[m] == Some(n));
                    assert(names.to_set().contains(Some(n)));
                },
                None => {},
            }
        }
        vstd::set_lib::lemma_len_subset(p.to_set(), node_names(f));
        if p.no_duplicates() {
            p.unique_seq_to_set();
            assert(false);
        }
        let (i, j) = choose|i: int, j: int| 0 <= i < p.len() && 0 <= j < p.len() && i != j && p[i] == p[j];
        if i < j {
            assert(0 <= i < j < p.len() && p[i] == p[j]);
        } else {
            assert(0 <= j < i < p.len() && p[j] == p[i]);
        }
        assert(p.len() >= 1 && p[0] == o && extends_path(f, p));
    }
}

proof fn lemma_sections_errors_grow(
    file_name: Seq<char>,
    f: EnvFileV,
    n: int,
    m: int,
    fs: Seq<(Seq<char>, EnvFileV)>,
)
    requires
        0 <= n <= m <= f.sections.len(),
    ensures
        sections_errors(file_name, f, n, fs).len() <= sections_errors(file_name, f, m, fs).len(),
    decreases m - n,
{
    if n < m {
        lemma_sections_errors_grow(file_name, f, n, m - 1, fs);
    }
}

proof fn lemma_env_files_errors_grow(fs: Seq<(Seq<char>, EnvFileV)>, n: int, m: int)
    requires
        0 <= n <= m <= fs.len(),
    ensures
        env_files_errors(fs, n).len() <= env_files_errors(fs, m).len(),
    decreases m - n,
{
    if n < m {
        lemma_env_files_errors_grow(fs, n, m - 1);
    }
}

/// A cycle of `extends` among the sections of a loaded env file makes the
/// project fail validation.
pub proof fn lemma_extends_cycle_rejected(proj: ProjectV, i: int, p: Seq<Option<Seq<char>>>)
    requires
        0 <= i < proj.env_files.len(),
        p.len() >= 2,
        p[0] == p[p.len() - 1],
        extends_path(proj.env_files[i].1, p),
    ensures
        project_errors(proj).len() > 0,
{
    let fs = proj.env_files;
    let (name, f) = fs[i];
    lemma_path_cyclic(f, p, 0, p.len() - 1, 0, 0);
    match p[0] {
        Some(n) => {
            crate::ast::lemma_str_key_pos_props(f.sections, n);
            let m = str_key_pos(f.sections, n).unwrap();
            let s = f.sections[m].1;
            assert(section_cyclic(f, s, 0));
            assert(section_errors(name, f.sections[m].0, s, f, fs).len() > 0);
            assert(sections_errors(name, f, m + 1, fs).len() > 0);
            lemma_sections_errors_grow(name, f, m + 1, f.sections.len() as int, fs);
        },
        None => {
            assert(section_errors(name, "root"@, f.root_section, f, fs).len() > 0);
        },
    }
    assert(env_file_errors(name, f, fs).len() > 0);
    assert(env_files_errors(fs, i + 1).len() > 0);
    lemma_env_files_errors_grow(fs, i + 1, fs.len() as int);
}

/// No error in the list is a missing router container.
pub open spec fn no_router_error(es: Seq<ValidationErrorV>) -> bool {
    forall|i: int| 0 <= i < es.len() ==> !((#[trigger] es[i]) is MissingRouterContainer)
}

proof fn lemma_no_router_concat(a: Seq<ValidationErrorV>, b: Seq<ValidationErrorV>)
    requires
        no_router_error(a),
        no_router_error(b),
    ensures
        no_router_error(a + b),
{
    assert forall|i: int| 0 <= i < (a + b).len() implies !((#[trigger] (a + b)[i]) is MissingRouterContainer) by {
        if i < a.len() {
            assert((a + b)[i] == a[i]);
        } else {
            assert((a + b)[i] == b[i - a.len()]);
        }
    }
}

proof fn lemma_duplicate_no_router(services: Seq<ServiceBlockV>, n: int)
    ensures
        no_router_error(duplicate_errors(services, n)),
    decreases n,
{
    if 0 < n <= services.len() {
        lemma_duplicate_no_router(services, n - 1);
        let s = services[n - 1];
        let f = first_named(services, s.name, 0);
        let tail = if f < n - 1 {
            seq![
                ValidationErrorV::DuplicateService(
                    loc_of(s) + ": service '"@ + s.name + "' is already defined at "@ + loc_of(services[f]),
                ),
            ]
        } else {
            seq![]
        };
        lemma_no_router_concat(duplicate_errors(services, n - 1), tail);
    }
}

proof fn lemma_service_no_router(s: ServiceBlockV, all: Seq<ServiceBlockV>, fs: Seq<(Seq<char>, EnvFileV)>)
    ensures
        no_router_error(service_errors(s, all, fs)),
{
    lemma_dependency_no_router(s, all, s.depends_on.len() as int);
    lemma_unnamed_no_router(s, s.serve.len() as int);
    lemma_port_no_router(s, s.serve.len() as int);
    lemma_sources_no_router(s.env_from, s.env_from.len() as int, fs);
    let a = dependency_errors(s, all, s.depends_on.len() as int);
    let b = unnamed_serve_errors(s, s.serve.len() as int);
    let c = port_errors(s, s.serve.len() as int);
    let d = sources_errors(s.env_from, s.env_from.len() as int, fs);
    lemma_no_router_concat(a, b);
    lemma_no_router_concat(a + b, c);
    lemma_no_router_concat(a + b + c, d);
}

proof fn lemma_dependency_no_router(s: ServiceBlockV, all: Seq<ServiceBlockV>, n: int)
    ensures
        no_router_error(dependency_errors(s, all, n)),
    decreases n,
{
    if 0 < n <= s.depends_on.len() {
        lemma_dependency_no_router(s, all, n - 1);
        let d = s.depends_on[n - 1].service;
        let tail = if has_service(all, d) {
            seq![]
        } else {
            seq![
                ValidationErrorV::MissingService(
                    loc_of(s) + ": Service '"@ + d + "' referenced in '"@ + s.name + "' but not defined"@,
                ),
            ]
        };
        lemma_no_router_concat(dependency_errors(s, all, n - 1), tail);
    }
}

proof fn lemma_unnamed_no_router(s: ServiceBlockV, n: int)
    ensures
        no_router_error(unnamed_serve_errors(s, n)),
    decreases n,
{
    if 0 < n <= s.serve.len() && s.serve.len() > 1 {
        lemma_unnamed_no_router(s, n - 1);
        let prev = unnamed_serve_errors(s, n - 1);
        let all = unnamed_serve_errors(s, n);
        assert forall|i: int| 0 <= i < all.len() implies !((#[trigger] all[i]) is MissingRouterContainer) by {
            if i < prev.len() {
                assert(all[i] == prev[i]);
            }
        }
    }
}

proof fn lemma_port_no_router(s: ServiceBlockV, n: int)
    ensures
        no_router_error(port_errors(s, n)),
    decreases n,
{
    if 0 < n <= s.serve.len() {
        lemma_port_no_router(s, n - 1);
        let prev = port_errors(s, n - 1);
        let all = port_errors(s, n);
        assert forall|i: int| 0 <= i < all.len() implies !((#[trigger] all[i]) is MissingRouterContainer) by {
            if i < prev.len() {
                assert(all[i] == prev[i]);
            }
        }
    }
}

proof fn lemma_sources_no_router(es: Seq<EnvSourceV>, n: int, fs: Seq<(Seq<char>, EnvFileV)>)
    ensures
        no_router_error(sources_errors(es, n, fs)),
    decreases n,
{
    if 0 < n <= es.len() {
        lemma_sources_no_router(es, n - 1, fs);
        let prev = sources_errors(es, n - 1, fs);
        let all = sources_errors(es, n, fs);
        let a = source_errors(es[n - 1]);
        let b = reference_errors(es[n - 1], fs);
        assert(no_router_error(a));
        assert(no_router_error(b));
        lemma_no_router_concat(prev, a);
        lemma_no_router_concat(prev + a, b);
    }
}

proof fn lemma_services_no_router(all: Seq<ServiceBlockV>, n: int, fs: Seq<(Seq<char>, EnvFileV)>)
    ensures
        no_router_error(services_errors(all, n, fs)),
    decreases n,
{
    if 0 < n <= all.len() {
        lemma_services_no_router(all, n - 1, fs);
        lemma_service_no_router(all[n - 1], all, fs);
        lemma_no_router_concat(services_errors(all, n - 1, fs), service_errors(all[n - 1], all, fs));
    }
}

proof fn lemma_extends_no_router(
    file_name: Seq<char>,
    ext: Seq<EnvSourceV>,
    n: int,
    f: EnvFileV,
    fs: Seq<(Seq<char>, EnvFileV)>,
)
    ensures
        no_router_error(extends_errors(file_name, ext, n, f, fs)),
    decreases n,
{
    if 0 < n <= ext.len() {
        lemma_extends_no_router(file_name, ext, n - 1, f, fs);
        let e = extends_error(file_name, ext[n - 1], f, fs);
        assert(no_router_error(e));
        lemma_no_router_concat(extends_errors(file_name, ext, n - 1, f, fs), e);
    }
}

proof fn lemma_alias_no_router(
    file_name: Seq<char>,
    m: Seq<(Seq<char>, EnvVariableV)>,
    vars: Seq<(Seq<char>, EnvVariableV)>,
    n: int,
)
    ensures
        no_router_error(alias_errors(file_name, m, vars, n)),
    decreases n,
{
    if 0 < n <= vars.len() {
        lemma_alias_no_router(file_name, m, vars, n - 1);
        let prev = alias_errors(file_name, m, vars, n - 1);
        let all = alias_errors(file_name, m, vars, n);
        assert forall|i: int| 0 <= i < all.len() implies !((#[trigger] all[i]) is MissingRouterContainer) by {
            if i < prev.len() {
                assert(all[i] == prev[i]);
            }
        }
    }
}

proof fn lemma_section_no_router(
    file_name: Seq<char>,
    section_name: Seq<char>,
    s: EnvSectionV,
    f: EnvFileV,
    fs: Seq<(Seq<char>, EnvFileV)>,
)
    ensures
        no_router_error(section_errors(file_name, section_name, s, f, fs)),
{
    lemma_extends_no_router(file_name, s.extends, s.extends.len() as int, f, fs);
    let a = extends_errors(file_name, s.extends, s.extends.len() as int, f, fs);
    let b = chain_error(file_name, section_name, f, s);
    assert(no_router_error(b));
    let c = section_alias_errors(file_name, f, s, fs);
    lemma_alias_no_router(
        file_name,
        parents_fold(f, s.extends, s.extends.len() as int, 0, fs),
        s.variables,
        s.variables.len() as int,
    );
    lemma_no_router_concat(a, b);
    lemma_no_router_concat(a + b, c);
}

proof fn lemma_sections_no_router(file_name: Seq<char>, f: EnvFileV, n: int, fs: Seq<(Seq<char>, EnvFileV)>)
    ensures
        no_router_error(sections_errors(file_name, f, n, fs)),
    decreases n,
{
    if 0 < n <= f.sections.len() {
        lemma_sections_no_router(file_name, f, n - 1, fs);
        lemma_section_no_router(file_name, f.sections[n - 1].0, f.sections[n - 1].1, f, fs);
        lemma_no_router_concat(
            sections_errors(file_name, f, n - 1, fs),
            section_errors(file_name, f.sections[n - 1].0, f.sections[n - 1].1, f, fs),
        );
    }
}

proof fn lemma_env_files_no_router(fs: Seq<(Seq<char>, EnvFileV)>, n: int)
    ensures
        no_router_error(env_files_errors(fs, n)),
    decreases n,
{
    if 0 < n <= fs.len() {
        lemma_env_files_no_router(fs, n - 1);
        let (name, f) = fs[n - 1];
        lemma_sections_no_router(name, f, f.sections.len() as int, fs);
        lemma_section_no_router(name, "root"@, f.root_section, f, fs);
        lemma_no_router_concat(
            sections_errors(name, f, f.sections.len() as int, fs),
            section_errors(name, "root"@, f.root_section, f, fs),
        );
        lemma_no_router_concat(env_files_errors(fs, n - 1), env_file_errors(name, f, fs));
    }
}

/// The missing router container is reported exactly when no service has its
/// name: no other check gives that error.
pub proof fn lemma_router_error_iff(p: ProjectV)
    ensures
        project_errors(p).contains(ValidationErrorV::MissingRouterContainer(p.config.router_container))
            <==> !has_service(p.services, p.config.router_container),
{
    let rc = p.config.router_container;
    let a = router_errors(rc, p.services);
    let b = duplicate_errors(p.services, p.services.len() as int);
    let c = services_errors(p.services, p.services.len() as int, p.env_files);
    let d = env_files_errors(p.env_files, p.env_files.len() as int);
    lemma_duplicate_no_router(p.services, p.services.len() as int);
    lemma_services_no_router(p.services, p.services.len() as int, p.env_files);
    lemma_env_files_no_router(p.env_files, p.env_files.len() as int);
    lemma_no_router_concat(b, c);
    lemma_no_router_concat(b + c, d);
    let rest = b + c + d;
    assert(project_errors(p) == a + rest);
    if !has_service(p.services, rc) {
        assert((a + rest)[0] == ValidationErrorV::MissingRouterContainer(rc));
    } else {
        assert(a.len() == 0);
        assert(a + rest =~= rest);
        if project_errors(p).contains(ValidationErrorV::MissingRouterContainer(rc)) {
            let i = choose|i: int| 0 <= i < rest.len() && rest[i] == ValidationErrorV::MissingRouterContainer(rc);
            assert(!(rest[i] is MissingRouterContainer));
        }
    }
}

proof fn lemma_contains_concat(a: Seq<ValidationErrorV>, b: Seq<ValidationErrorV>, x: ValidationErrorV)
    ensures
        (a + b).contains(x) <==> (a.contains(x) || b.contains(x)),
{
    if a.contains(x) {
        let i = choose|i: int| 0 <= i < a.len() && a[i] == x;
        assert((a + b)[i] == x);
    }
    if b.contains(x) {
        let i = choose|i: int| 0 <= i < b.len() && b[i] == x;
        assert((a + b)[a.len() + i] == x);
    }
    if (a + b).contains(x) {
        let i = choose|i: int| 0 <= i < (a + b).len() && (a + b)[i] == x;
        if i < a.len() {
            assert(a[i] == x);
        } else {
            assert(b[i - a.len()] == x);
        }
    }
}

/// The error for a dependency on a service that does not exist.
pub open spec fn missing_dependency_error(s: ServiceBlockV, d: Seq<char>) -> ValidationErrorV {
    ValidationErrorV::MissingService(
        loc_of(s) + ": Service '"@ + d + "' referenced in '"@ + s.name + "' but not defined"@,
    )
}

proof fn lemma_dependency_reported(s: ServiceBlockV, all: Seq<ServiceBlockV>, n: int, j: int)
    requires
        0 <= j < n <= s.depends_on.len(),
        !has_service(all, s.depends_on[j].service),
    ensures
        dependency_errors(s, all, n).contains(missing_dependency_error(s, s.depends_on[j].service)),
    decreases n,
{
    let x = missing_dependency_error(s, s.depends_on[j].service);
    let prev = dependency_errors(s, all, n - 1);
    let d = s.depends_on[n - 1].service;
    let tail = if has_service(all, d) {
        seq![]
    } else {
        seq![missing_dependency_error(s, d)]
    };
    assert(dependency_errors(s, all, n) == prev + tail);
    if j < n - 1 {
        lemma_dependency_reported(s, all, n - 1, j);
    } else {
        assert(tail[0] == x);
    }
    lemma_contains_concat(prev, tail, x);
}

proof fn lemma_service_dependency_reported(
    all: Seq<ServiceBlockV>,
    n: int,
    i: int,
    j: int,
    fs: Seq<(Seq<char>, EnvFileV)>,
)
    requires
        0 <= i < n <= all.len(),
        0 <= j < all[i].depends_on.len(),
        !has_service(all, all[i].depends_on[j].service),
    ensures
        services_errors(all, n, fs).contains(
            missing_dependency_error(all[i], all[i].depends_on[j].service),
        ),
    decreases n,
{
    let s = all[i];
    let x = missing_dependency_error(s, s.depends_on[j].service);
    if i < n - 1 {
        lemma_service_dependency_reported(all, n - 1, i, j, fs);
        lemma_contains_concat(services_errors(all, n - 1, fs), service_errors(all[n - 1], all, fs), x);
    } else {
        lemma_dependency_reported(s, all, s.depends_on.len() as int, j);
        let a = dependency_errors(s, all, s.depends_on.len() as int);
        let b = unnamed_serve_errors(s, s.serve.len() as int);
        let c = port_errors(s, s.serve.len() as int);
        let d = sources_errors(s.env_from, s.env_from.len() as int, fs);
        lemma_contains_concat(a, b, x);
        lemma_contains_concat(a + b, c, x);
        lemma_contains_concat(a + b + c, d, x);
        assert(service_errors(s, all, fs) == a + b + c + d);
        lemma_contains_concat(services_errors(all, n - 1, fs), service_errors(s, all, fs), x);
    }
}

/// A dependency on a service that the project does not define is reported,
/// at the depending service's place, whatever else is found.
pub proof fn lemma_missing_dependency_reported(p: ProjectV, i: int, j: int)
    requires
        0 <= i < p.services.len(),
        0 <= j < p.services[i].depends_on.len(),
        !has_service(p.services, p.services[i].depends_on[j].service),
    ensures
        project_errors(p).contains(
            missing_dependency_error(p.services[i], p.services[i].depends_on[j].service),
        ),
{
    let x = missing_dependency_error(p.services[i], p.services[i].depends_on[j].service);
    let a = router_errors(p.config.router_container, p.services);
    let b = duplicate_errors(p.services, p.services.len() as int);
    let c = services_errors(p.services, p.services.len() as int, p.env_files);
    let d = env_files_errors(p.env_files, p.env_files.len() as int);
    lemma_service_dependency_reported(p.services, p.services.len() as int, i, j, p.env_files);
    lemma_contains_concat(a + b, c, x);
    lemma_contains_concat(a + b + c, d, x);
    assert(project_errors(p) == a + b + c + d);
}

/// For a validator holding errors `old`, checking a project reports a missing
/// router container exactly when `old` held that error already or no service
/// has the router's name.
pub proof fn lemma_validate_router_error_iff(old: Seq<ValidationErrorV>, p: ProjectV)
    ensures
        (old + project_errors(p)).contains(ValidationErrorV::MissingRouterContainer(p.config.router_container))
            <==> (old.contains(ValidationErrorV::MissingRouterContainer(p.config.router_container))
            || !has_service(p.services, p.config.router_container)),
{
    lemma_router_error_iff(p);
    lemma_contains_concat(
        old,
        project_errors(p),
        ValidationErrorV::MissingRouterContainer(p.config.router_container),
    );
}

impl ValidationError {
    /// The message of the error (see `message_of`).
    pub fn to_message(&self) -> (r: String)
        ensures
            r@ == message_of(self@),
    {
        match self {
            ValidationError::MissingService(m) => m.clone(),
            ValidationError::MissingMiddleware(mw) => {
                let mut t = lit("Middleware '");
                append(&mut t, &chars_of_string(mw));
                append(&mut t, &lit("' referenced but not found"));
                string_of(&t)
            },
            ValidationError::MissingEnvFile(f) => {
                let mut t = lit("Environment file '");
                append(&mut t, &chars_of_string(f));
                append(&mut t, &lit("' not found"));
                string_of(&t)
            },
            ValidationError::MissingVariable(f, v) => {
                let mut t = lit("Variable '");
                append(&mut t, &chars_of_string(v));
                append(&mut t, &lit("' not found in '"));
                append(&mut t, &chars_of_string(f));
                append(&mut t, &lit("'"));
                string_of(&t)
            },
            ValidationError::MissingEnvSection(f, sec) => {
                let mut t = lit("Section '");
                append(&mut t, &chars_of_string(sec));
                append(&mut t, &lit("' not found in '"));
                append(&mut t, &chars_of_string(f));
                append(&mut t, &lit("'"));
                string_of(&t)
            },
            ValidationError::InvalidEnvSource(m) => {
                let mut t = lit("Invalid env source: ");
                append(&mut t, &chars_of_string(m));
                string_of(&t)
            },
            ValidationError::MissingRouterContainer(n) => {
                let mut t = lit("Router container '");
                append(&mut t, &chars_of_string(n));
                append(&mut t, &lit("' not found in services"));
                string_of(&t)
            },
            ValidationError::DuplicateService(m) => m.clone(),
        }
    }
}

/// Collects the problems of a project.
pub struct Validator {
    errors: Vec<ValidationError>,
}

impl View for Validator {
    type V = Seq<ValidationErrorV>;

    closed spec fn view(&self) -> Seq<ValidationErrorV> {
        errors_view(self.errors@)
    }
}

/// Some block of `services` has the name.
fn has_service_exec(services: &Vec<ServiceBlock>, name: &String) -> (r: bool)
    ensures
        r == has_service(services@.map_values(|s: ServiceBlock| s@), name@),
{
    let ghost sv = services@.map_values(|s: ServiceBlock| s@);
    let mut j: usize = 0;
    while j < services.len()
        invariant
            j <= services.len(),
            sv == services@.map_values(|s: ServiceBlock| s@),
            forall|k: int| 0 <= k < j ==> sv[k].name != name@,
        decreases services.len() - j,
    {
        if services[j].name == *name {
            assert(sv[j as int].name == name@);
            return true;
        }
        j = j + 1;
    }
    false
}

/// A copy of a text.
fn slice_of_all(v: &Vec<char>) -> (r: Vec<char>)
    ensures
        r@ == v@,
{
    let r = crate::text::slice_of(v, 0, v.len());
    assert(v@.subrange(0, v@.len() as int) =~= v@);
    r
}

/// `{file}:{line}` of a block (see `loc_of`).
pub(crate) fn loc_exec(s: &ServiceBlock) -> (r: Vec<char>)
    ensures
        r@ == loc_of(s@),
{
    let mut t = chars_of_string(&s.source_file);
    append(&mut t, &lit(":"));
    append(&mut t, &dec_exec(s.source_line as u64));
    t
}

impl Validator {
    /// A validator with no error recorded.
    pub fn new() -> (r: Self)
        ensures
            r@ == Seq::<ValidationErrorV>::empty(),
    {
        let r = Validator { errors: Vec::new() };
        assert(r@ =~= Seq::<ValidationErrorV>::empty());
        r
    }

    fn push(&mut self, e: ValidationError)
        ensures
            final(self)@ == old(self)@.push(e@),
    {
        let ghost before = self@;
        self.errors.push(e);
        assert(self@ =~= before.push(e@));
    }

    /// Records the error for a missing router container (see `router_errors`).
    fn validate_router_container(&mut self, router_container: &String, services: &Vec<ServiceBlock>)
        ensures
            final(self)@ == old(self)@ + router_errors(
                router_container@,
                services@.map_values(|s: ServiceBlock| s@),
            ),
    {
        if !has_service_exec(services, router_container) {
            self.push(ValidationError::MissingRouterContainer(router_container.clone()));
        } else {
            assert(self@ =~= self@ + Seq::<ValidationErrorV>::empty());
        }
    }

    /// Records the duplicate-name errors (see `duplicate_errors`).
    fn validate_duplicates(&mut self, services: &Vec<ServiceBlock>)
        ensures
            final(self)@ == old(self)@ + duplicate_errors(
                services@.map_values(|s: ServiceBlock| s@),
                services@.len() as int,
            ),
    {
        let ghost sv = services@.map_values(|s: ServiceBlock| s@);
        let ghost e0 = self@;
        let mut i: usize = 0;
        assert(self@ =~= e0 + duplicate_errors(sv, 0));
        while i < services.len()
            invariant
                i <= services.len(),
                sv == services@.map_values(|s: ServiceBlock| s@),
                self@ == e0 + duplicate_errors(sv, i as int),
            decreases services.len() - i,
        {
            let s = &services[i];
            assert(sv[i as int] == s@);
            let mut j: usize = 0;
            while j < i && services[j].name != s.name
                invariant
                    j <= i < services.len(),
                    sv == services@.map_values(|s: ServiceBlock| s@),
                    sv[i as int] == s@,
                    first_named(sv, s@.name, j as int) == first_named(sv, s@.name, 0),
                decreases i - j,
            {
                assert(sv[j as int] == services@[j as int]@);
                j = j + 1;
            }
            if j < i {
                assert(sv[j as int] == services@[j as int]@);
                let mut t = loc_exec(s);
                append(&mut t, &lit(": service '"));
                append(&mut t, &chars_of_string(&s.name));
                append(&mut t, &lit("' is already defined at "));
                append(&mut t, &loc_exec(&services[j]));
                self.push(ValidationError::DuplicateService(string_of(&t)));
            } else {
                assert(first_named(sv, s@.name, i as int) == i);
            }
            assert(self@ =~= e0 + duplicate_errors(sv, i as int + 1));
            i = i + 1;
        }
    }
}

impl Validator {
    /// Records the errors of one service (see `service_errors`); `all` are the
    /// project's services.
    fn validate_service(&mut self, service: &ServiceBlock, all: &Vec<ServiceBlock>, env_files: &StrMap<EnvFile>)
        ensures
            final(self)@ == old(self)@ + service_errors(
                service@,
                all@.map_values(|s: ServiceBlock| s@),
                env_files@,
            ),
    {
        let ghost sv = all@.map_values(|s: ServiceBlock| s@);
        let ghost s = service@;
        let ghost e0 = self@;
        let loc = loc_exec(service);
        let mut k: usize = 0;
        assert(self@ =~= e0 + dependency_errors(s, sv, 0));
        while k < service.depends_on.len()
            invariant
                k <= service.depends_on.len(),
                s == service@,
                sv == all@.map_values(|s: ServiceBlock| s@),
                loc@ == loc_of(s),
                self@ == e0 + dependency_errors(s, sv, k as int),
            decreases service.depends_on.len() - k,
        {
            let d = &service.depends_on[k];
            assert(s.depends_on[k as int].service == d.service@);
            if !has_service_exec(all, &d.service) {
                let mut t = slice_of_all(&loc);
                append(&mut t, &lit(": Service '"));
                append(&mut t, &chars_of_string(&d.service));
                append(&mut t, &lit("' referenced in '"));
                append(&mut t, &chars_of_string(&service.name));
                append(&mut t, &lit("' but not defined"));
                self.push(ValidationError::MissingService(string_of(&t)));
            }
            assert(self@ =~= e0 + dependency_errors(s, sv, k as int + 1));
            k = k + 1;
        }
        let ghost e1 = self@;
        if service.serve.len() > 1 {
            k = 0;
            assert(self@ =~= e1 + unnamed_serve_errors(s, 0));
            while k < service.serve.len()
                invariant
                    k <= service.serve.len(),
                    service.serve.len() > 1,
                    s == service@,
                    loc@ == loc_of(s),
                    self@ == e1 + unnamed_serve_errors(s, k as int),
                decreases service.serve.len() - k,
            {
                assert(s.serve[k as int] == service.serve@[k as int]@);
                if service.serve[k].name.is_none() {
                    let mut t = slice_of_all(&loc);
                    append(&mut t, &lit(": '"));
                    append(&mut t, &chars_of_string(&service.name));
                    append(
                        &mut t,
                        &lit(
                            "': all `serve` directives must have a name when there are multiple (e.g. `serve web as ...`)",
                        ),
                    );
                    self.push(ValidationError::InvalidEnvSource(string_of(&t)));
                }
                assert(self@ =~= e1 + unnamed_serve_errors(s, k as int + 1));
                k = k + 1;
            }
        } else {
            assert(self@ =~= e1 + unnamed_serve_errors(s, s.serve.len() as int));
        }
        let ghost e2 = self@;
        k = 0;
        assert(self@ =~= e2 + port_errors(s, 0));
        while k < service.serve.len()
            invariant
                k <= service.serve.len(),
                s == service@,
                loc@ == loc_of(s),
                self@ == e2 + port_errors(s, k as int),
            decreases service.serve.len() - k,
        {
            assert(s.serve[k as int] == service.serve@[k as int]@);
            if service.serve[k].port == 0 && !service.serve[k].api_internal {
                let mut t = slice_of_all(&loc);
                append(&mut t, &lit(": invalid port 0 in serve for '"));
                append(&mut t, &chars_of_string(&service.name));
                append(&mut t, &lit("'"));
                self.push(ValidationError::InvalidEnvSource(string_of(&t)));
            }
            assert(self@ =~= e2 + port_errors(s, k as int + 1));
            k = k + 1;
        }
        let ghost e3 = self@;
        k = 0;
        assert(self@ =~= e3 + sources_errors(s.env_from, 0, env_files@));
        while k < service.env_from.len()
            invariant
                k <= service.env_from.len(),
                s == service@,
                self@ == e3 + sources_errors(s.env_from, k as int, env_files@),
            decreases service.env_from.len() - k,
        {
            assert(s.env_from[k as int] == service.env_from@[k as int]@);
            self.validate_source(&service.env_from[k]);
            self.validate_reference(&service.env_from[k], env_files);
            assert(self@ =~= e3 + sources_errors(s.env_from, k as int + 1, env_files@));
            k = k + 1;
        }
    }

    /// Records the errors of one env source of a service (see `source_errors`).
    fn validate_source(&mut self, src: &EnvSource)
        ensures
            final(self)@ == old(self)@ + source_errors(src@),
    {
        let ghost e0 = self@;
        match src {
            EnvSource::File { file, section } => {
                if file.as_str().unicode_len() > 0 {
                    if !ends_with_exec(&chars_of_string(file), &lit(".env")) {
                        let mut t = lit("Invalid env file format: ");
                        append(&mut t, &chars_of_string(file));
                        self.push(ValidationError::InvalidEnvSource(string_of(&t)));
                    }
                    match section {
                        Some(sec) => {
                            if sec.as_str().unicode_len() == 0 {
                                self.push(
                                    ValidationError::InvalidEnvSource(
                                        String::from_str("Empty section name"),
                                    ),
                                );
                            }
                        },
                        None => {},
                    }
                }
            },
            EnvSource::Inline { key, .. } => {
                if key.as_str().unicode_len() == 0 {
                    self.push(ValidationError::InvalidEnvSource(String::from_str("Empty variable name")));
                }
            },
            EnvSource::VarRef { key, file, .. } => {
                if key.as_str().unicode_len() == 0 || file.as_str().unicode_len() == 0 {
                    self.push(
                        ValidationError::InvalidEnvSource(
                            String::from_str("Empty key or file in var reference"),
                        ),
                    );
                }
            },
        }
        assert(self@ =~= e0 + source_errors(src@));
    }

    /// Records the errors for what one env source refers to (see `reference_errors`).
    #[verifier::rlimit(60)]
    fn validate_reference(&mut self, src: &EnvSource, env_files: &StrMap<EnvFile>)
        ensures
            final(self)@ == old(self)@ + reference_errors(src@, env_files@),
    {
        let ghost e0 = self@;
        match src {
            EnvSource::File { file, section } => {
                if file.as_str().unicode_len() > 0 {
                    match ProjectBuilder::env_file_lookup(env_files, file.as_str()) {
                        None => {
                            self.push(ValidationError::MissingEnvFile(file.clone()));
                        },
                        Some(f) => {
                            match section {
                                Some(sec) => {
                                    if sec.as_str().unicode_len() > 0 && !f.sections.contains_key(sec.as_str()) {
                                        self.push(ValidationError::MissingEnvSection(file.clone(), sec.clone()));
                                    }
                                },
                                None => {},
                            }
                        },
                    }
                }
            },
            EnvSource::VarRef { key, file, section } => {
                if key.as_str().unicode_len() > 0 && file.as_str().unicode_len() > 0 {
                    match ProjectBuilder::env_file_lookup(env_files, file.as_str()) {
                        None => {
                            self.push(ValidationError::MissingEnvFile(file.clone()));
                        },
                        Some(f) => {
                            let missing_section = match section {
                                Some(sec) => !f.sections.contains_key(sec.as_str()),
                                None => false,
                            };
                            if missing_section {
                                let sec = match section {
                                    Some(x) => x.clone(),
                                    None => String::new(),
                                };
                                self.push(ValidationError::MissingEnvSection(file.clone(), sec));
                            } else {
                                let vars = match section {
                                    Some(x) => ProjectBuilder::resolve_env_section(f, Some(x.as_str()), 0, env_files),
                                    None => ProjectBuilder::resolve_env_section(f, None, 0, env_files),
                                };
                                assert(vars@ == resolve_section(f@, crate::ast::opt_view(*section), 0, env_files@));
                                if !vars.contains_key(key.as_str()) {
                                    self.push(ValidationError::MissingVariable(file.clone(), key.clone()));
                                }
                            }
                        },
                    }
                }
            },
            _ => {},
        }
        assert(self@ =~= e0 + reference_errors(src@, env_files@));
    }

    /// Records the errors of the `extends` sources of a section (see
    /// `extends_errors`): a local section that the file lacks, or an external
    /// file that is not `.env`.
    pub fn validate_section_extends(
        &mut self,
        file_name: &str,
        section_name: &str,
        section: &EnvSection,
        env_file: &EnvFile,
        env_files: &StrMap<EnvFile>,
    )
        ensures
            final(self)@ == old(self)@ + extends_errors(
                file_name@,
                section@.extends,
                section@.extends.len() as int,
                env_file@,
                env_files@,
            ),
    {
        let ghost e0 = self@;
        let ghost ext = section@.extends;
        let mut k: usize = 0;
        assert(self@ =~= e0 + extends_errors(file_name@, ext, 0, env_file@, env_files@));
        while k < section.extends.len()
            invariant
                k <= section.extends.len(),
                ext == section@.extends,
                self@ == e0 + extends_errors(file_name@, ext, k as int, env_file@, env_files@),
            decreases section.extends.len() - k,
        {
            assert(ext[k as int] == section.extends@[k as int]@);
            let ghost before = self@;
            match &section.extends[k] {
                EnvSource::File { file, section: ext_section } => {
                    if file.as_str().unicode_len() == 0 {
                        match ext_section {
                            Some(es) => {
                                if !env_file.sections.contains_key(es.as_str()) {
                                    self.push(
                                        ValidationError::MissingEnvSection(
                                            file_name.to_owned(),
                                            es.clone(),
                                        ),
                                    );
                                }
                            },
                            None => {},
                        }
                    } else if !ends_with_exec(&chars_of_string(file), &lit(".env")) {
                        let mut t = lit("Invalid env file in extends: ");
                        append(&mut t, &chars_of_string(file));
                        self.push(ValidationError::InvalidEnvSource(string_of(&t)));
                    } else {
                        match ProjectBuilder::env_file_lookup(env_files, file.as_str()) {
                            None => {
                                self.push(ValidationError::MissingEnvFile(file.clone()));
                            },
                            Some(g) => {
                                match ext_section {
                                    Some(es) => {
                                        if !g.sections.contains_key(es.as_str()) {
                                            self.push(ValidationError::MissingEnvSection(file.clone(), es.clone()));
                                        }
                                    },
                                    None => {},
                                }
                            },
                        }
                    }
                },
                _ => {},
            }
            assert(self@ =~= before + extends_error(file_name@, ext[k as int], env_file@, env_files@));
            assert(self@ =~= e0 + extends_errors(file_name@, ext, k as int + 1, env_file@, env_files@));
            k = k + 1;
        }
    }

    /// Records the alias errors of a section (see `section_alias_errors`).
    fn validate_section_aliases(
        &mut self,
        file_name: &str,
        section: &EnvSection,
        env_file: &EnvFile,
        env_files: &StrMap<EnvFile>,
    )
        ensures
            final(self)@ == old(self)@ + section_alias_errors(file_name@, env_file@, section@, env_files@),
    {
        let ghost e0 = self@;
        let ghost sv = section@;
        let ghost m0 = parents_fold(env_file@, sv.extends, sv.extends.len() as int, 0, env_files@);
        let mut merged = ProjectBuilder::inherited_vars(env_file, section, 0, env_files);
        let mut j: usize = 0;
        assert(self@ =~= e0 + alias_errors(file_name@, m0, sv.variables, 0));
        while j < section.variables.entries.len()
            invariant
                j <= section.variables.entries.len(),
                sv == section@,
                merged@ == own_fold(m0, sv.variables, j as int),
                self@ == e0 + alias_errors(file_name@, m0, sv.variables, j as int),
            decreases section.variables.entries.len() - j,
        {
            let e = &section.variables.entries[j];
            assert(sv.variables[j as int] == (e.key@, e.value@));
            let v = &e.value;
            if v.value.as_str().unicode_len() == 0 && v.aliases.len() > 0 {
                let found: Option<(String, bool)> = match merged.get(e.key.as_str()) {
                    Some(p) => Some((p.value.clone(), p.secret)),
                    None => None,
                };
                match found {
                    Some((value, secret)) => {
                        crate::integration::insert_aliases(&mut merged, v, &value, secret);
                    },
                    None => {
                        self.push(ValidationError::MissingVariable(file_name.to_owned(), e.key.clone()));
                    },
                }
            } else {
                merged.insert(e.key.clone(), v.copy());
            }
            assert(self@ =~= e0 + alias_errors(file_name@, m0, sv.variables, j as int + 1));
            j = j + 1;
        }
    }

    /// Records the errors of one section of an env file (see `section_errors`).
    fn validate_section(
        &mut self,
        file_name: &str,
        section_name: &str,
        section: &EnvSection,
        env_file: &EnvFile,
        env_files: &StrMap<EnvFile>,
    )
        ensures
            final(self)@ == old(self)@ + section_errors(
                file_name@,
                section_name@,
                section@,
                env_file@,
                env_files@,
            ),
    {
        let ghost e0 = self@;
        self.validate_section_extends(file_name, section_name, section, env_file, env_files);
        let ghost e1 = self@;
        if section_cyclic_exec(env_file, section, 0) {
            let mut t = lit("Extends chain of section '");
            append(&mut t, &chars_of(section_name));
            append(&mut t, &lit("' in '"));
            append(&mut t, &chars_of(file_name));
            append(&mut t, &lit("' is cyclic"));
            self.push(ValidationError::InvalidEnvSource(string_of(&t)));
        }
        assert(self@ =~= e1 + chain_error(file_name@, section_name@, env_file@, section@));
        self.validate_section_aliases(file_name, section, env_file, env_files);
        assert(self@ =~= e0 + section_errors(file_name@, section_name@, section@, env_file@, env_files@));
    }

    /// Records the errors of an env file: its named sections, then the root
    /// section (see `env_file_errors`).
    pub fn validate_env_file(&mut self, file_name: &str, env_file: &EnvFile, env_files: &StrMap<EnvFile>)
        ensures
            final(self)@ == old(self)@ + env_file_errors(file_name@, env_file@, env_files@),
    {
        let ghost e0 = self@;
        let ghost f = env_file@;
        let mut k: usize = 0;
        assert(self@ =~= e0 + sections_errors(file_name@, f, 0, env_files@));
        while k < env_file.sections.entries.len()
            invariant
                k <= env_file.sections.entries.len(),
                f == env_file@,
                self@ == e0 + sections_errors(file_name@, f, k as int, env_files@),
            decreases env_file.sections.entries.len() - k,
        {
            let e = &env_file.sections.entries[k];
            assert(f.sections[k as int] == (e.key@, e.value@));
            self.validate_section(file_name, e.key.as_str(), &e.value, env_file, env_files);
            assert(self@ =~= e0 + sections_errors(file_name@, f, k as int + 1, env_files@));
            k = k + 1;
        }
        self.validate_section(file_name, "root", &env_file.root_section, env_file, env_files);
    }

    /// Checks a project (see `project_errors`): the router container, duplicate
    /// names, every service and every env file. `Ok` when no error was found
    /// (including any recorded before), otherwise all of them; the validator is
    /// left empty.
    pub fn validate_project(&mut self, project: &Project) -> (r: Result<(), Vec<ValidationError>>)
        ensures
            final(self)@ == Seq::<ValidationErrorV>::empty(),
            r is Ok <==> (old(self)@ + project_errors(project@)).len() == 0,
            r matches Err(es) ==> errors_view(es@) == old(self)@ + project_errors(project@),
    {
        let ghost e0 = self@;
        let ghost pv = project@;
        self.validate_router_container(&project.config.router_container, &project.services);
        self.validate_duplicates(&project.services);
        let ghost e1 = self@;
        let mut i: usize = 0;
        assert(self@ =~= e1 + services_errors(pv.services, 0, pv.env_files));
        while i < project.services.len()
            invariant
                i <= project.services.len(),
                pv == project@,
                self@ == e1 + services_errors(pv.services, i as int, pv.env_files),
            decreases project.services.len() - i,
        {
            assert(pv.services[i as int] == project.services@[i as int]@);
            self.validate_service(&project.services[i], &project.services, &project.env_files);
            assert(self@ =~= e1 + services_errors(pv.services, i as int + 1, pv.env_files));
            i = i + 1;
        }
        let ghost e2 = self@;
        let mut k: usize = 0;
        assert(self@ =~= e2 + env_files_errors(pv.env_files, 0));
        while k < project.env_files.entries.len()
            invariant
                k <= project.env_files.entries.len(),
                pv == project@,
                self@ == e2 + env_files_errors(pv.env_files, k as int),
            decreases project.env_files.entries.len() - k,
        {
            let e = &project.env_files.entries[k];
            assert(pv.env_files[k as int] == (e.key@, e.value@));
            self.validate_env_file(e.key.as_str(), &e.value, &project.env_files);
            assert(self@ =~= e2 + env_files_errors(pv.env_files, k as int + 1));
            k = k + 1;
        }
        assert(self@ =~= e0 + project_errors(pv));
        if self.errors.len() == 0 {
            Ok(())
        } else {
            let mut out: Vec<ValidationError> = Vec::new();
            std::mem::swap(&mut out, &mut self.errors);
            assert(self@ =~= Seq::<ValidationErrorV>::empty());
            Err(out)
        }
    }
}

/// Checks a project with a fresh validator (see `project_errors`).
pub fn validate(project: &Project) -> (r: Result<(), Vec<ValidationError>>)
    ensures
        r is Ok <==> project_errors(project@).len() == 0,
        r matches Err(es) ==> errors_view(es@) == project_errors(project@),
{
    let mut validator = Validator::new();
    let r = validator.validate_project(project);
    assert(Seq::<ValidationErrorV>::empty() + project_errors(project@) =~= project_errors(project@));
    r
}

} // verus!
