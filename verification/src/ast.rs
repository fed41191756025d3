//! The syntax trees of the three DSLs (services, env files, the project config)
//! and their mathematical models.
use vstd::prelude::*;
use crate::yaml::{Yaml, YamlV};

verus! {

impl View for Yaml {
    type V = YamlV;

    open spec fn view(&self) -> YamlV {
        self.model()
    }
}

/// The view of an optional string.
pub open spec fn opt_view(o: Option<String>) -> Option<Seq<char>> {
    match o {
        Some(s) => Some(s@),
        None => None,
    }
}

/// The views of a list of strings.
pub open spec fn strs_view(v: Seq<String>) -> Seq<Seq<char>> {
    v.map_values(|s: String| s@)
}

/// One `key -> value` entry of a `StrMap`.
pub struct StrEntry<V> {
    pub key: String,
    pub value: V,
}

/// A map keyed by strings that remembers insertion order.  Inserting an existing
/// key replaces its value in place; lookups find the first entry with the key.
pub struct StrMap<V> {
    pub entries: Vec<StrEntry<V>>,
}

impl<V: View> View for StrMap<V> {
    type V = Seq<(Seq<char>, V::V)>;

    open spec fn view(&self) -> Seq<(Seq<char>, V::V)> {
        self.entries@.map_values(|e: StrEntry<V>| (e.key@, e.value@))
    }
}

/// Index of the first entry of `m` with key `k`.
pub open spec fn str_key_pos<W>(m: Seq<(Seq<char>, W)>, k: Seq<char>) -> Option<int> {
    if exists|i: int| 0 <= i < m.len() && m[i].0 == k {
        Some(
            choose|i: int|
                0 <= i < m.len() && m[i].0 == k && forall|j: int| 0 <= j < i ==> m[j].0 != k,
        )
    } else {
        None
    }
}

/// The value of the first entry of `m` with key `k`.
pub open spec fn str_get<W>(m: Seq<(Seq<char>, W)>, k: Seq<char>) -> Option<W> {
    match str_key_pos(m, k) {
        Some(i) => Some(m[i].1),
        None => None,
    }
}

/// `m` with `k` set to `v`: in place where `k` is present, appended otherwise.
pub open spec fn str_insert<W>(m: Seq<(Seq<char>, W)>, k: Seq<char>, v: W) -> Seq<(Seq<char>, W)> {
    match str_key_pos(m, k) {
        Some(i) => m.update(i, (k, v)),
        None => m.push((k, v)),
    }
}

/// `m` without the first entry with key `k`.
pub open spec fn str_remove<W>(m: Seq<(Seq<char>, W)>, k: Seq<char>) -> Seq<(Seq<char>, W)> {
    match str_key_pos(m, k) {
        Some(i) => m.remove(i),
        None => m,
    }
}

pub proof fn lemma_str_key_pos<W>(m: Seq<(Seq<char>, W)>, k: Seq<char>, i: int)
    requires
        0 <= i < m.len(),
        m[i].0 == k,
        forall|j: int| 0 <= j < i ==> m[j].0 != k,
    ensures
        str_key_pos(m, k) == Some(i),
{
    let c = choose|c: int|
        0 <= c < m.len() && m[c].0 == k && forall|j: int| 0 <= j < c ==> m[j].0 != k;
    assert(0 <= c < m.len() && m[c].0 == k && forall|j: int| 0 <= j < c ==> m[j].0 != k);
    if c < i {
        assert(m[c].0 != k);
    }
    if i < c {
        assert(m[i].0 != k);
    }
}

pub proof fn lemma_str_key_pos_none<W>(m: Seq<(Seq<char>, W)>, k: Seq<char>)
    requires
        forall|j: int| 0 <= j < m.len() ==> m[j].0 != k,
    ensures
        str_key_pos(m, k) is None,
{
}

proof fn lemma_first_key<W>(m: Seq<(Seq<char>, W)>, k: Seq<char>, i: int)
    requires
        0 <= i < m.len(),
        m[i].0 == k,
    ensures
        exists|c: int| 0 <= c < m.len() && m[c].0 == k && forall|j: int| 0 <= j < c ==> m[j].0 != k,
    decreases m.len(),
{
    if m[0].0 == k {
        assert(0 <= 0 < m.len() && m[0].0 == k && forall|j: int| 0 <= j < 0 ==> m[j].0 != k);
    } else {
        let t = m.drop_first();
        assert(t[i - 1] == m[i]);
        lemma_first_key(t, k, i - 1);
        let c = choose|c: int| 0 <= c < t.len() && t[c].0 == k && forall|j: int| 0 <= j < c ==> t[j].0 != k;
        assert(m[c + 1] == t[c]);
        assert forall|j: int| 0 <= j < c + 1 implies m[j].0 != k by {
            if j > 0 {
                assert(m[j] == t[j - 1]);
            }
        }
    }
}

/// What `str_key_pos` gives: the first index of the key, or `None` where no entry has it.
pub proof fn lemma_str_key_pos_props<W>(m: Seq<(Seq<char>, W)>, k: Seq<char>)
    ensures
        match str_key_pos(m, k) {
            Some(i) => 0 <= i < m.len() && m[i].0 == k && forall|j: int| 0 <= j < i ==> m[j].0 != k,
            None => forall|j: int| 0 <= j < m.len() ==> m[j].0 != k,
        },
{
    if exists|i: int| 0 <= i < m.len() && m[i].0 == k {
        let i = choose|i: int| 0 <= i < m.len() && m[i].0 == k;
        lemma_first_key(m, k, i);
    }
}

/// After setting `k` to `v`, `k` reads `v`.
pub proof fn lemma_str_get_insert<W>(m: Seq<(Seq<char>, W)>, k: Seq<char>, v: W)
    ensures
        str_get(str_insert(m, k, v), k) == Some(v),
{
    let m2 = str_insert(m, k, v);
    lemma_str_key_pos_props(m, k);
    match str_key_pos(m, k) {
        Some(i) => {
            assert(forall|j: int| 0 <= j < i ==> m[j].0 != k);
            assert(forall|j: int| 0 <= j < i ==> m2[j] == m[j]);
            lemma_str_key_pos(m2, k, i);
        },
        None => {
            assert(forall|j: int| 0 <= j < m.len() ==> m[j].0 != k);
            assert(forall|j: int| 0 <= j < m.len() ==> m2[j] == m[j]);
            lemma_str_key_pos(m2, k, m.len() as int);
        },
    }
}

/// Setting another key leaves what `k` reads.
pub proof fn lemma_str_get_insert_other<W>(m: Seq<(Seq<char>, W)>, k2: Seq<char>, v: W, k: Seq<char>)
    requires
        k2 != k,
    ensures
        str_get(str_insert(m, k2, v), k) == str_get(m, k),
{
    let m2 = str_insert(m, k2, v);
    lemma_str_key_pos_props(m, k);
    lemma_str_key_pos_props(m, k2);
    assert(forall|j: int| 0 <= j < m.len() ==> m2[j].0 == k2 || m2[j] == m[j]);
    assert(m2.len() >= m.len());
    match str_key_pos(m, k) {
        Some(i) => {
            assert(m2[i] == m[i]);
            assert(forall|j: int| 0 <= j < i ==> m[j].0 != k);
            lemma_str_key_pos(m2, k, i);
        },
        None => {
            assert(forall|j: int| 0 <= j < m.len() ==> m[j].0 != k);
            assert(forall|j: int| 0 <= j < m2.len() ==> m2[j].0 != k);
            lemma_str_key_pos_none(m2, k);
        },
    }
}

/// Removing another key leaves what `k` reads.
pub proof fn lemma_str_get_remove_other<W>(m: Seq<(Seq<char>, W)>, k2: Seq<char>, k: Seq<char>)
    requires
        k2 != k,
    ensures
        str_get(str_remove(m, k2), k) == str_get(m, k),
{
    let m2 = str_remove(m, k2);
    lemma_str_key_pos_props(m, k);
    lemma_str_key_pos_props(m, k2);
    match str_key_pos(m, k2) {
        None => {},
        Some(i2) => {
            assert(m[i2].0 == k2);
            match str_key_pos(m, k) {
                Some(i) => {
                    assert(forall|j: int| 0 <= j < i ==> m[j].0 != k);
                    if i < i2 {
                        assert(m2[i] == m[i]);
                        assert(forall|j: int| 0 <= j < i ==> m2[j] == m[j]);
                        lemma_str_key_pos(m2, k, i);
                    } else {
                        assert(i != i2);
                        assert(m2[i - 1] == m[i]);
                        assert(forall|j: int| 0 <= j < i - 1 ==> m2[j] == m[j] || m2[j] == m[j + 1]);
                        lemma_str_key_pos(m2, k, i - 1);
                    }
                },
                None => {
                    assert(forall|j: int| 0 <= j < m.len() ==> m[j].0 != k);
                    assert(forall|j: int| 0 <= j < m2.len() ==> m2[j] == m[j] || m2[j] == m[j + 1]);
                    lemma_str_key_pos_none(m2, k);
                },
            }
        },
    }
}

/// No two entries have the same key.
pub open spec fn str_keys_unique<W>(m: Seq<(Seq<char>, W)>) -> bool {
    forall|i: int, j: int| 0 <= i < j < m.len() ==> (#[trigger] m[i]).0 != (#[trigger] m[j]).0
}

pub proof fn lemma_str_insert_unique<W>(m: Seq<(Seq<char>, W)>, k: Seq<char>, v: W)
    requires
        str_keys_unique(m),
    ensures
        str_keys_unique(str_insert(m, k, v)),
{
    lemma_str_key_pos_props(m, k);
    let m2 = str_insert(m, k, v);
    match str_key_pos(m, k) {
        Some(p) => {
            assert forall|i: int, j: int| 0 <= i < j < m2.len() implies (#[trigger] m2[i]).0 != (#[trigger] m2[j]).0 by {
                assert(m2[i].0 == m[i].0);
                assert(m2[j].0 == m[j].0);
            }
        },
        None => {
            assert forall|i: int, j: int| 0 <= i < j < m2.len() implies (#[trigger] m2[i]).0 != (#[trigger] m2[j]).0 by {
                if j == m.len() {
                    assert(m2[i] == m[i]);
                } else {
                    assert(m2[i] == m[i]);
                    assert(m2[j] == m[j]);
                }
            }
        },
    }
}

pub proof fn lemma_str_remove_unique<W>(m: Seq<(Seq<char>, W)>, k: Seq<char>)
    requires
        str_keys_unique(m),
    ensures
        str_keys_unique(str_remove(m, k)),
{
    lemma_str_key_pos_props(m, k);
    let m2 = str_remove(m, k);
    match str_key_pos(m, k) {
        Some(p) => {
            assert forall|i: int, j: int| 0 <= i < j < m2.len() implies (#[trigger] m2[i]).0 != (#[trigger] m2[j]).0 by {
                let a = if i < p { i } else { i + 1 };
                let b = if j < p { j } else { j + 1 };
                assert(m2[i] == m[a]);
                assert(m2[j] == m[b]);
            }
        },
        None => {},
    }
}

/// In a map whose keys are unique, the entry of `k` is the one `str_get` reads.
pub proof fn lemma_str_get_unique<W>(m: Seq<(Seq<char>, W)>, i: int)
    requires
        str_keys_unique(m),
        0 <= i < m.len(),
    ensures
        str_get(m, m[i].0) == Some(m[i].1),
{
    assert forall|j: int| 0 <= j < i implies m[j].0 != m[i].0 by {}
    lemma_str_key_pos(m, m[i].0, i);
}

impl<V: View> StrMap<V> {
    /// An empty map.
    pub fn new() -> (r: Self)
        ensures
            r@ == Seq::<(Seq<char>, V::V)>::empty(),
    {
        let r = StrMap { entries: Vec::new() };
        assert(r@ =~= Seq::<(Seq<char>, V::V)>::empty());
        r
    }

    /// Number of entries.
    pub fn len(&self) -> (n: usize)
        ensures
            n == self@.len(),
    {
        self.entries.len()
    }

    /// Whether the map has no entry.
    pub fn is_empty(&self) -> (b: bool)
        ensures
            b == (self@.len() == 0),
    {
        self.entries.len() == 0
    }

    /// Position of the first entry with key `key`.
    pub fn position(&self, key: &str) -> (r: Option<usize>)
        ensures
            r matches Some(i) ==> str_key_pos(self@, key@) == Some(i as int) && i < self@.len(),
            r is None ==> str_key_pos(self@, key@) is None,
    {
        let mut i: usize = 0;
        while i < self.entries.len()
            invariant
                i <= self.entries.len(),
                forall|j: int| 0 <= j < i ==> self@[j].0 != key@,
            decreases self.entries.len() - i,
        {
            if string_eq_str(&self.entries[i].key, key) {
                proof {
                    lemma_str_key_pos(self@, key@, i as int);
                }
                return Some(i);
            }
            i = i + 1;
        }
        proof {
            lemma_str_key_pos_none(self@, key@);
        }
        None
    }

    /// The value of the first entry with key `key`.
    pub fn get(&self, key: &str) -> (r: Option<&V>)
        ensures
            r matches Some(v) ==> str_get(self@, key@) == Some(v@),
            r is None ==> str_get(self@, key@) is None,
    {
        match self.position(key) {
            Some(i) => Some(&self.entries[i].value),
            None => None,
        }
    }

    /// Whether some entry has key `key`.
    pub fn contains_key(&self, key: &str) -> (b: bool)
        ensures
            b == (str_get(self@, key@) is Some),
    {
        self.position(key).is_some()
    }

    /// Removes the first entry with key `key` and gives its value.
    pub fn remove(&mut self, key: &str) -> (r: Option<V>)
        ensures
            final(self)@ == str_remove(old(self)@, key@),
            r matches Some(v) ==> str_get(old(self)@, key@) == Some(v@),
            r is None ==> str_get(old(self)@, key@) is None,
    {
        let ghost m0 = self@;
        match self.position(key) {
            Some(i) => {
                let e = self.entries.remove(i);
                assert(self@ =~= m0.remove(i as int));
                Some(e.value)
            },
            None => None,
        }
    }

    /// Sets `key` to `value` (see `str_insert`).
    pub fn insert(&mut self, key: String, value: V)
        ensures
            final(self)@ == str_insert(old(self)@, key@, value@),
    {
        let ghost m0 = self@;
        match self.position(key.as_str()) {
            Some(i) => {
                self.entries.set(i, StrEntry { key, value });
                assert(self@ =~= m0.update(i as int, (key@, value@)));
            },
            None => {
                self.entries.push(StrEntry { key, value });
                assert(self@ =~= m0.push((key@, value@)));
            },
        }
    }
}

/// Whether a string equals a string slice.
pub fn string_eq_str(a: &String, b: &str) -> (r: bool)
    ensures
        r == (a@ == b@),
{
    let x = crate::text::chars_of(a.as_str());
    let y = crate::text::chars_of(b);
    crate::text::eq_chars(&x, &y)
}


/// `limit to <memory>, <cpus>`.
pub struct ResourceLimit {
    pub memory: String,
    pub cpus: String,
}

pub struct ResourceLimitV {
    pub memory: Seq<char>,
    pub cpus: Seq<char>,
}

impl View for ResourceLimit {
    type V = ResourceLimitV;

    open spec fn view(&self) -> ResourceLimitV {
        ResourceLimitV { memory: self.memory@, cpus: self.cpus@ }
    }
}

/// `map <host> as <container>[:mode]`.
pub struct Volume {
    pub container_path: String,
    pub host_path: String,
    pub mode: Option<String>,
}

pub struct VolumeV {
    pub container_path: Seq<char>,
    pub host_path: Seq<char>,
    pub mode: Option<Seq<char>>,
}

impl View for Volume {
    type V = VolumeV;

    open spec fn view(&self) -> VolumeV {
        VolumeV {
            container_path: self.container_path@,
            host_path: self.host_path@,
            mode: opt_view(self.mode),
        }
    }
}

/// `depends_on <service> [healthy|started]`.
pub struct Dependency {
    pub service: String,
    pub condition: DependencyCondition,
}

#[derive(Clone, Copy, PartialEq, Eq, Structural, Debug)]
pub enum DependencyCondition {
    Started,
    Healthy,
}

pub struct DependencyV {
    pub service: Seq<char>,
    pub condition: DependencyCondition,
}

impl View for Dependency {
    type V = DependencyV;

    open spec fn view(&self) -> DependencyV {
        DependencyV { service: self.service@, condition: self.condition }
    }
}

/// `healthcheck with "<test>"` and its optional timing line.
pub struct HealthCheck {
    pub test: String,
    pub interval: Option<String>,
    pub timeout: Option<String>,
    pub retries: Option<u32>,
    pub start_period: Option<String>,
}

pub struct HealthCheckV {
    pub test: Seq<char>,
    pub interval: Option<Seq<char>>,
    pub timeout: Option<Seq<char>>,
    pub retries: Option<u32>,
    pub start_period: Option<Seq<char>>,
}

impl View for HealthCheck {
    type V = HealthCheckV;

    open spec fn view(&self) -> HealthCheckV {
        HealthCheckV {
            test: self.test@,
            interval: opt_view(self.interval),
            timeout: opt_view(self.timeout),
            retries: self.retries,
            start_period: opt_view(self.start_period),
        }
    }
}

/// One element of `env from` or of `extends`.
pub enum EnvSource {
    Inline { key: String, value: String, secret: bool },
    /// Include all variables from `section` of `file`.
    File { file: String, section: Option<String> },
    /// Reference a single variable: `${KEY@section@file}`.
    VarRef { key: String, file: String, section: Option<String> },
}

pub enum EnvSourceV {
    Inline { key: Seq<char>, value: Seq<char>, secret: bool },
    File { file: Seq<char>, section: Option<Seq<char>> },
    VarRef { key: Seq<char>, file: Seq<char>, section: Option<Seq<char>> },
}

impl View for EnvSource {
    type V = EnvSourceV;

    open spec fn view(&self) -> EnvSourceV {
        match self {
            EnvSource::Inline { key, value, secret } => EnvSourceV::Inline {
                key: key@,
                value: value@,
                secret: *secret,
            },
            EnvSource::File { file, section } => EnvSourceV::File {
                file: file@,
                section: opt_view(*section),
            },
            EnvSource::VarRef { key, file, section } => EnvSourceV::VarRef {
                key: key@,
                file: file@,
                section: opt_view(*section),
            },
        }
    }
}

/// `serve [name] as <subdomain>:<port> [through <middlewares> [use <service>]]`.
pub struct ServeConfig {
    /// Optional route name; in output the router is named `{container}-{name}`.
    pub name: Option<String>,
    /// Subdomain for the route, or "." for the root domain.
    pub subdomain: String,
    pub port: u16,
    /// The Traefik service is `api@internal` (no port).
    pub api_internal: bool,
    pub middlewares: Vec<String>,
    pub use_service: Option<String>,
}

pub struct ServeConfigV {
    pub name: Option<Seq<char>>,
    pub subdomain: Seq<char>,
    pub port: u16,
    pub api_internal: bool,
    pub middlewares: Seq<Seq<char>>,
    pub use_service: Option<Seq<char>>,
}

impl View for ServeConfig {
    type V = ServeConfigV;

    open spec fn view(&self) -> ServeConfigV {
        ServeConfigV {
            name: opt_view(self.name),
            subdomain: self.subdomain@,
            port: self.port,
            api_internal: self.api_internal,
            middlewares: strs_view(self.middlewares@),
            use_service: opt_view(self.use_service),
        }
    }
}

/// `route_add [name] <dotted.key>: <value>`.
pub struct RouteAdd {
    /// The named serve it applies to (for a nameless directive, the last serve's name),
    /// or none for the router's static configuration.
    pub route_name: Option<String>,
    /// Dotted path key (e.g. "priority", "rule", "entryPoints.web.address").
    pub key: String,
    pub value: Yaml,
}

pub struct RouteAddV {
    pub route_name: Option<Seq<char>>,
    pub key: Seq<char>,
    pub value: YamlV,
}

impl View for RouteAdd {
    type V = RouteAddV;

    open spec fn view(&self) -> RouteAddV {
        RouteAddV { route_name: opt_view(self.route_name), key: self.key@, value: self.value@ }
    }
}

/// One `container` block of a service file.
pub struct ServiceBlock {
    /// Source file name and 1-based line where `container` was declared.
    pub source_file: String,
    pub source_line: usize,
    pub name: String,
    pub image: String,
    pub limit: Option<ResourceLimit>,
    pub networks: Vec<String>,
    pub volumes: Vec<Volume>,
    pub expose: Vec<u16>,
    pub user: Option<String>,
    pub depends_on: Vec<Dependency>,
    pub healthcheck: Option<HealthCheck>,
    pub env_from: Vec<EnvSource>,
    pub serve: Vec<ServeConfig>,
    pub route_add: Vec<RouteAdd>,
    pub network_config: Option<String>,
    pub raw: StrMap<Yaml>,
    /// Raw YAML after `end`, deep-merged into the top level of the compose output.
    pub raw_compose_block: Option<String>,
}

pub struct ServiceBlockV {
    pub source_file: Seq<char>,
    pub source_line: int,
    pub name: Seq<char>,
    pub image: Seq<char>,
    pub limit: Option<ResourceLimitV>,
    pub networks: Seq<Seq<char>>,
    pub volumes: Seq<VolumeV>,
    pub expose: Seq<u16>,
    pub user: Option<Seq<char>>,
    pub depends_on: Seq<DependencyV>,
    pub healthcheck: Option<HealthCheckV>,
    pub env_from: Seq<EnvSourceV>,
    pub serve: Seq<ServeConfigV>,
    pub route_add: Seq<RouteAddV>,
    pub network_config: Option<Seq<char>>,
    pub raw: Seq<(Seq<char>, YamlV)>,
    pub raw_compose_block: Option<Seq<char>>,
}

impl View for ServiceBlock {
    type V = ServiceBlockV;

    open spec fn view(&self) -> ServiceBlockV {
        ServiceBlockV {
            source_file: self.source_file@,
            source_line: self.source_line as int,
            name: self.name@,
            image: self.image@,
            limit: match self.limit {
                Some(l) => Some(l@),
                None => None,
            },
            networks: strs_view(self.networks@),
            volumes: self.volumes@.map_values(|v: Volume| v@),
            expose: self.expose@,
            user: opt_view(self.user),
            depends_on: self.depends_on@.map_values(|d: Dependency| d@),
            healthcheck: match self.healthcheck {
                Some(h) => Some(h@),
                None => None,
            },
            env_from: self.env_from@.map_values(|e: EnvSource| e@),
            serve: self.serve@.map_values(|s: ServeConfig| s@),
            route_add: self.route_add@.map_values(|r: RouteAdd| r@),
            network_config: opt_view(self.network_config),
            raw: self.raw@,
            raw_compose_block: opt_view(self.raw_compose_block),
        }
    }
}

/// One variable of an env file: `KEY=value`, `*SECRET=value`, `KEY=value as A, B`
/// or `KEY as ALIAS` (empty value).
pub struct EnvVariable {
    pub value: String,
    pub secret: bool,
    pub aliases: Vec<String>,
}

pub struct EnvVariableV {
    pub value: Seq<char>,
    pub secret: bool,
    pub aliases: Seq<Seq<char>>,
}

impl View for EnvVariable {
    type V = EnvVariableV;

    open spec fn view(&self) -> EnvVariableV {
        EnvVariableV { value: self.value@, secret: self.secret, aliases: strs_view(self.aliases@) }
    }
}

/// A section of an env file.
pub struct EnvSection {
    pub extends: Vec<EnvSource>,
    pub variables: StrMap<EnvVariable>,
}

pub struct EnvSectionV {
    pub extends: Seq<EnvSourceV>,
    pub variables: Seq<(Seq<char>, EnvVariableV)>,
}

impl View for EnvSection {
    type V = EnvSectionV;

    open spec fn view(&self) -> EnvSectionV {
        EnvSectionV {
            extends: self.extends@.map_values(|e: EnvSource| e@),
            variables: self.variables@,
        }
    }
}

/// A parsed env file: the implicit root section and the named sections.
pub struct EnvFile {
    pub root_section: EnvSection,
    pub sections: StrMap<EnvSection>,
}

pub struct EnvFileV {
    pub root_section: EnvSectionV,
    pub sections: Seq<(Seq<char>, EnvSectionV)>,
}

impl View for EnvFile {
    type V = EnvFileV;

    open spec fn view(&self) -> EnvFileV {
        EnvFileV { root_section: self.root_section@, sections: self.sections@ }
    }
}

/// A global variable of `config.dyard` (`*NAME: value` is a secret).
#[derive(Debug)]
pub enum ConfigValue {
    String(String),
    Secret(String),
}

pub enum ConfigValueV {
    String(Seq<char>),
    Secret(Seq<char>),
}

impl View for ConfigValue {
    type V = ConfigValueV;

    open spec fn view(&self) -> ConfigValueV {
        match self {
            ConfigValue::String(s) => ConfigValueV::String(s@),
            ConfigValue::Secret(s) => ConfigValueV::Secret(s@),
        }
    }
}

impl PartialEq for ConfigValue {
    fn eq(&self, other: &Self) -> (r: bool) {
        match (self, other) {
            (ConfigValue::String(a), ConfigValue::String(b)) => *a == *b,
            (ConfigValue::Secret(a), ConfigValue::Secret(b)) => *a == *b,
            _ => false,
        }
    }
}

impl vstd::std_specs::cmp::PartialEqSpecImpl for ConfigValue {
    open spec fn obeys_eq_spec() -> bool {
        true
    }

    open spec fn eq_spec(&self, other: &Self) -> bool {
        self@ == other@
    }
}

/// `input:` paths.
pub struct InputPaths {
    pub containers: String,
    pub network: String,
    pub env: String,
}

/// `output:` paths.
pub struct OutputPaths {
    pub compose: String,
    pub traefik: String,
    pub env: String,
}

/// `traefik:` defaults applied to every route.
pub struct TraefikDefaults {
    pub entry_points: Vec<String>,
    pub cert_resolver: Option<String>,
    pub tls_options: Option<String>,
}

pub struct TraefikDefaultsV {
    pub entry_points: Seq<Seq<char>>,
    pub cert_resolver: Option<Seq<char>>,
    pub tls_options: Option<Seq<char>>,
}

impl View for TraefikDefaults {
    type V = TraefikDefaultsV;

    open spec fn view(&self) -> TraefikDefaultsV {
        TraefikDefaultsV {
            entry_points: strs_view(self.entry_points@),
            cert_resolver: opt_view(self.cert_resolver),
            tls_options: opt_view(self.tls_options),
        }
    }
}

/// `defaults:` applied to every container.
pub struct Defaults {
    pub restart: String,
}

/// A parsed `config.dyard`.
pub struct ConfigFile {
    pub input: InputPaths,
    pub output: OutputPaths,
    pub router_container: String,
    pub variables: StrMap<ConfigValue>,
    pub traefik_defaults: TraefikDefaults,
    pub defaults: Defaults,
}

pub struct ConfigFileV {
    pub input_containers: Seq<char>,
    pub input_network: Seq<char>,
    pub input_env: Seq<char>,
    pub output_compose: Seq<char>,
    pub output_traefik: Seq<char>,
    pub output_env: Seq<char>,
    pub router_container: Seq<char>,
    pub variables: Seq<(Seq<char>, ConfigValueV)>,
    pub entry_points: Seq<Seq<char>>,
    pub cert_resolver: Option<Seq<char>>,
    pub tls_options: Option<Seq<char>>,
    pub restart: Seq<char>,
}

impl View for ConfigFile {
    type V = ConfigFileV;

    open spec fn view(&self) -> ConfigFileV {
        ConfigFileV {
            input_containers: self.input.containers@,
            input_network: self.input.network@,
            input_env: self.input.env@,
            output_compose: self.output.compose@,
            output_traefik: self.output.traefik@,
            output_env: self.output.env@,
            router_container: self.router_container@,
            variables: self.variables@,
            entry_points: strs_view(self.traefik_defaults.entry_points@),
            cert_resolver: opt_view(self.traefik_defaults.cert_resolver),
            tls_options: opt_view(self.traefik_defaults.tls_options),
            restart: self.defaults.restart@,
        }
    }
}

/// A parsed project.
pub struct Project {
    pub config: ConfigFile,
    pub services: Vec<ServiceBlock>,
    pub env_files: StrMap<EnvFile>,
}

pub struct ProjectV {
    pub config: ConfigFileV,
    pub services: Seq<ServiceBlockV>,
    pub env_files: Seq<(Seq<char>, EnvFileV)>,
}

impl View for Project {
    type V = ProjectV;

    open spec fn view(&self) -> ProjectV {
        ProjectV {
            config: self.config@,
            services: self.services@.map_values(|s: ServiceBlock| s@),
            env_files: self.env_files@,
        }
    }
}

/// A copy of a list of values with views.
fn copy_vec<T, F>(v: &Vec<T>, f: F) -> (r: Vec<T>)
    where
        T: View,
        F: Fn(&T) -> T,
    requires
        forall|x: &T| #[trigger] f.requires((x,)),
        forall|x: &T, y: T| #[trigger] f.ensures((x,), y) ==> y@ == x@,
    ensures
        r@.map_values(|x: T| x@) == v@.map_values(|x: T| x@),
{
    let mut r: Vec<T> = Vec::new();
    let mut i: usize = 0;
    while i < v.len()
        invariant
            i <= v.len(),
            forall|x: &T| #[trigger] f.requires((x,)),
            forall|x: &T, y: T| #[trigger] f.ensures((x,), y) ==> y@ == x@,
            r@.map_values(|x: T| x@) == v@.take(i as int).map_values(|x: T| x@),
        decreases v.len() - i,
    {
        let y = f(&v[i]);
        let ghost before = r@.map_values(|x: T| x@);
        r.push(y);
        assert(r@.map_values(|x: T| x@) =~= before.push(v@[i as int]@));
        assert(v@.take(i as int + 1).map_values(|x: T| x@) =~= v@.take(i as int).map_values(
            |x: T| x@,
        ).push(v@[i as int]@));
        i = i + 1;
    }
    assert(v@.take(v.len() as int) =~= v@);
    r
}

impl ResourceLimit {
    pub fn copy(&self) -> (r: Self)
        ensures
            r@ == self@,
    {
        ResourceLimit { memory: self.memory.clone(), cpus: self.cpus.clone() }
    }
}

impl Volume {
    pub fn copy(&self) -> (r: Self)
        ensures
            r@ == self@,
    {
        Volume {
            container_path: self.container_path.clone(),
            host_path: self.host_path.clone(),
            mode: crate::parse::env::copy_opt(&self.mode),
        }
    }
}

impl Dependency {
    pub fn copy(&self) -> (r: Self)
        ensures
            r@ == self@,
    {
        Dependency { service: self.service.clone(), condition: self.condition }
    }
}

impl HealthCheck {
    pub fn copy(&self) -> (r: Self)
        ensures
            r@ == self@,
    {
        HealthCheck {
            test: self.test.clone(),
            interval: crate::parse::env::copy_opt(&self.interval),
            timeout: crate::parse::env::copy_opt(&self.timeout),
            retries: self.retries,
            start_period: crate::parse::env::copy_opt(&self.start_period),
        }
    }
}

impl ServeConfig {
    pub fn copy(&self) -> (r: Self)
        ensures
            r@ == self@,
    {
        ServeConfig {
            name: crate::parse::env::copy_opt(&self.name),
            subdomain: self.subdomain.clone(),
            port: self.port,
            api_internal: self.api_internal,
            middlewares: crate::parse::env::copy_strings(&self.middlewares),
            use_service: crate::parse::env::copy_opt(&self.use_service),
        }
    }
}

impl RouteAdd {
    pub fn copy(&self) -> (r: Self)
        ensures
            r@ == self@,
    {
        RouteAdd {
            route_name: crate::parse::env::copy_opt(&self.route_name),
            key: self.key.clone(),
            value: crate::yaml::yaml_copy(&self.value),
        }
    }
}

impl StrMap<Yaml> {
    pub fn copy(&self) -> (r: Self)
        ensures
            r@ == self@,
    {
        let mut entries: Vec<StrEntry<Yaml>> = Vec::new();
        let mut i: usize = 0;
        while i < self.entries.len()
            invariant
                i <= self.entries.len(),
                (StrMap { entries })@ == self@.take(i as int),
            decreases self.entries.len() - i,
        {
            let e = &self.entries[i];
            let ghost before = (StrMap { entries })@;
            let ne = StrEntry { key: e.key.clone(), value: crate::yaml::yaml_copy(&e.value) };
            assert(ne.key@ == e.key@ && ne.value@ == e.value@);
            entries.push(ne);
            assert((StrMap { entries })@ =~= before.push((e.key@, e.value@)));
            assert(self@[i as int] == (e.key@, e.value@));
            assert((StrMap { entries })@ =~= self@.take(i as int + 1));
            i = i + 1;
        }
        assert(self@.take(self.entries.len() as int) =~= self@);
        StrMap { entries }
    }
}

impl ServiceBlock {
    pub fn copy(&self) -> (r: Self)
        ensures
            r@ == self@,
    {
        let r = ServiceBlock {
            source_file: self.source_file.clone(),
            source_line: self.source_line,
            name: self.name.clone(),
            image: self.image.clone(),
            limit: match &self.limit {
                Some(l) => Some(l.copy()),
                None => None,
            },
            networks: crate::parse::env::copy_strings(&self.networks),
            volumes: copy_vec(&self.volumes, |x: &Volume| -> (y: Volume) ensures y@ == x@ { x.copy() }),
            expose: copy_vec_u16(&self.expose),
            user: crate::parse::env::copy_opt(&self.user),
            depends_on: copy_vec(
                &self.depends_on,
                |x: &Dependency| -> (y: Dependency) ensures y@ == x@ { x.copy() },
            ),
            healthcheck: match &self.healthcheck {
                Some(h) => Some(h.copy()),
                None => None,
            },
            env_from: crate::parse::env::copy_sources(&self.env_from),
            serve: copy_vec(&self.serve, |x: &ServeConfig| -> (y: ServeConfig) ensures y@ == x@ { x.copy() }),
            route_add: copy_vec(&self.route_add, |x: &RouteAdd| -> (y: RouteAdd) ensures y@ == x@ { x.copy() }),
            network_config: crate::parse::env::copy_opt(&self.network_config),
            raw: self.raw.copy(),
            raw_compose_block: crate::parse::env::copy_opt(&self.raw_compose_block),
        };
        assert(r@.volumes =~= self@.volumes);
        assert(r@.depends_on =~= self@.depends_on);
        assert(r@.serve =~= self@.serve);
        assert(r@.route_add =~= self@.route_add);
        r
    }
}

/// A copy of a list of ports.
fn copy_vec_u16(v: &Vec<u16>) -> (r: Vec<u16>)
    ensures
        r@ == v@,
{
    let mut r: Vec<u16> = Vec::new();
    let mut i: usize = 0;
    while i < v.len()
        invariant
            i <= v.len(),
            r@ == v@.take(i as int),
        decreases v.len() - i,
    {
        r.push(v[i]);
        assert(r@ =~= v@.take(i as int + 1));
        i = i + 1;
    }
    assert(v@.take(v.len() as int) =~= v@);
    r
}

} // verus!
